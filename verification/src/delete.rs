//! Deleting objects, with every reference to them.

use vstd::prelude::*;
use crate::document::Document;
use crate::model::{ascending, has_key, ids_of, lemma_filter_none, lemma_filter_step, lemma_without_absent, lemma_first_exists, lemma_lookup_same_keys, lookup, without_key, DocumentValue, ObjectId, Table, Value};
use crate::object::Object;
use crate::scrub::{entries_hold_ref, holds_ref, lemma_scrub_pass, lemma_scrub_pass_entries, lemma_scrubbed_clean, lemma_scrubbed_entries_clean, scrubbed, scrubbed_entries, strip_entries, Scrub};
use crate::table::lemma_without_at;

verus! {

/// The table `t`, each object scrubbed of the references to `id`.
pub open spec fn scrubbed_table(t: Table, id: ObjectId) -> Table {
    Seq::new(t.len(), |i: int| (t[i].0, scrubbed(t[i].1, id)))
}

/// The document without the references to `id` in its containers.
pub open spec fn scrubbed_document(doc: DocumentValue, id: ObjectId) -> DocumentValue {
    DocumentValue {
        objects: scrubbed_table(doc.objects, id),
        trailer: scrubbed_entries(doc.trailer, id),
        max_id: doc.max_id,
    }
}

/// The document after the object `id` was deleted: first every reference to
/// it leaves the containers, then the object leaves the table.
pub open spec fn deleted(doc: DocumentValue, id: ObjectId) -> DocumentValue {
    DocumentValue {
        objects: without_key(scrubbed_table(doc.objects, id), id),
        trailer: scrubbed_entries(doc.trailer, id),
        max_id: doc.max_id,
    }
}

/// Some array or dictionary of the document, in the trailer or in an object
/// of the table, at any depth, holds a reference to `id`.
pub open spec fn holds_reference(doc: DocumentValue, id: ObjectId) -> bool {
    entries_hold_ref(doc.trailer, id) || exists|i: int|
        0 <= i < doc.objects.len() && holds_ref((#[trigger] doc.objects[i]).1, id)
}

/// `v` is a stream without content.
pub open spec fn is_empty_stream(v: Value) -> bool {
    match v {
        Value::Stream(s) => s.content.len() == 0,
        _ => false,
    }
}

/// The entries of the table that are streams without content.
pub open spec fn empty_streams(t: Table) -> Table {
    t.filter(|e: (ObjectId, Value)| is_empty_stream(e.1))
}

/// The document after the objects `ids` were deleted, one after another.
pub open spec fn deleted_each(doc: DocumentValue, ids: Seq<ObjectId>) -> DocumentValue
    decreases ids.len(),
{
    if ids.len() == 0 {
        doc
    } else {
        deleted(deleted_each(doc, ids.drop_last()), ids.last())
    }
}

/// What one more entry adds to the empty streams of a prefix.
proof fn lemma_empty_streams_step(t: Table, i: int)
    requires
        0 <= i < t.len(),
    ensures
        empty_streams(t.take(i + 1)) == if is_empty_stream(t[i].1) {
            empty_streams(t.take(i)).push(t[i])
        } else {
            empty_streams(t.take(i))
        },
{
    lemma_filter_step(t, |e: (ObjectId, Value)| is_empty_stream(e.1), i);
}

/// The empty prefix holds no empty stream.
proof fn lemma_empty_streams_none(t: Table)
    ensures
        empty_streams(t.take(0)) == Seq::<(ObjectId, Value)>::empty(),
{
    lemma_filter_none(t, |e: (ObjectId, Value)| is_empty_stream(e.1));
}

impl Document {
    /// Takes every reference to `id` out of the arrays and dictionaries of
    /// the trailer and of every object in the table.
    pub fn scrub_references(&mut self, id: ObjectId)
        requires
            old(self).wf(),
        ensures
            final(self).wf(),
            final(self)@ == scrubbed_document(old(self)@, id),
    {
        let pass = Scrub { id };
        self.rewrite(&pass);
        strip_entries(&mut self.trailer.entries, id);
        proof {
            lemma_scrub_pass_entries(&pass, old(self)@.trailer);
            assert forall|i: int| 0 <= i < self@.objects.len() implies self@.objects[i]
                == scrubbed_table(old(self)@.objects, id)[i] by {
                lemma_scrub_pass(&pass, old(self)@.objects[i].1);
            }
            assert(self@.objects =~= scrubbed_table(old(self)@.objects, id));
        }
    }

    /// Deletes the object `id`: takes every reference to it out of the
    /// containers of the document, then the object out of the table. Returns
    /// the object as it then was, or `None` where the table did not hold it.
    pub fn delete_object(&mut self, id: ObjectId) -> (r: Option<Object>)
        requires
            old(self).wf(),
        ensures
            final(self).wf(),
            final(self)@ == deleted(old(self)@, id),
            !holds_reference(final(self)@, id),
            match r {
                Some(o) => match lookup(old(self)@.objects, id) {
                    Some(v) => o@ == scrubbed(v, id),
                    None => false,
                },
                None => lookup(old(self)@.objects, id).is_none(),
            },
    {
        self.scrub_references(id);
        proof {
            lemma_scrubbed_lookup(old(self)@.objects, id, id);
            lemma_deleted_holds_no_reference(old(self)@, id);
        }
        self.objects.remove(id)
    }

    /// Deletes every stream without content, each as `delete_object` does,
    /// and returns their identities in ascending order.
    pub fn delete_zero_length_streams(&mut self) -> (r: Vec<ObjectId>)
        requires
            old(self).wf(),
        ensures
            final(self).wf(),
            r@ == ids_of(empty_streams(old(self)@.objects)),
            final(self)@ == deleted_each(old(self)@, r@),
            final(self).max_id == old(self).max_id,
            forall|i: int|
                0 <= i < final(self)@.objects.len() ==> !is_empty_stream(
                    (#[trigger] final(self)@.objects[i]).1,
                ),
    {
        let mut ids: Vec<ObjectId> = Vec::new();
        let n = self.objects.len();
        let ghost t = self@.objects;
        let mut i: usize = 0;
        proof {
            lemma_empty_streams_none(t);
            assert(ids@ =~= ids_of(Seq::<(ObjectId, Value)>::empty()));
        }
        while i < n
            invariant
                i <= n,
                n == t.len(),
                self == old(self),
                t == self@.objects,
                ids@ == ids_of(empty_streams(t.take(i as int))),
            decreases n - i,
        {
            proof {
                lemma_empty_streams_step(t, i as int);
            }
            let empty = match self.objects.object_at(i) {
                Object::Stream(stream) => stream.content.len() == 0,
                _ => false,
            };
            if empty {
                ids.push(self.objects.id_at(i));
                proof {
                    assert(ids@ =~= ids_of(empty_streams(t.take(i as int)).push(t[i as int])));
                }
            }
            i += 1;
        }
        proof {
            assert(t.take(n as int) =~= t);
        }
        let mut k: usize = 0;
        while k < ids.len()
            invariant
                k <= ids.len(),
                self.wf(),
                self.max_id == old(self).max_id,
                self@ == deleted_each(old(self)@, ids@.take(k as int)),
            decreases ids.len() - k,
        {
            self.delete_object(ids[k]);
            proof {
                assert(ids@.take(k + 1).drop_last() =~= ids@.take(k as int));
            }
            k += 1;
        }
        proof {
            assert(ids@.take(ids@.len() as int) =~= ids@);
            assert forall|i: int| 0 <= i < self@.objects.len() implies !is_empty_stream(
                (#[trigger] self@.objects[i]).1,
            ) by {
                lemma_no_empty_stream_left(old(self)@, i);
            }
        }
        ids
    }
}

/// Each entry that a deletion leaves in the table was there before, under
/// another identity than the deleted one, and is now scrubbed.
pub proof fn lemma_deleted_entry(doc: DocumentValue, id: ObjectId, i: int) -> (j: int)
    requires
        doc.wf(),
        0 <= i < deleted(doc, id).objects.len(),
    ensures
        0 <= j < doc.objects.len(),
        doc.objects[j].0 != id,
        deleted(doc, id).objects[i] == (doc.objects[j].0, scrubbed(doc.objects[j].1, id)),
{
    let s = scrubbed_table(doc.objects, id);
    lemma_scrubbed_lookup(doc.objects, id, id);
    if has_key(s, id) {
        let p = choose|p: int| 0 <= p < s.len() && (#[trigger] s[p]).0 == id;
        lemma_without_at(s, id, p);
        let j = if i < p {
            i
        } else {
            i + 1
        };
        if j < p {
            assert(crate::model::id_lt(s[j].0, s[p].0));
        } else {
            assert(crate::model::id_lt(s[p].0, s[j].0));
        }
        j
    } else {
        lemma_without_absent(s, id);
        assert(s[i].0 != id);
        i
    }
}

/// Deleting objects one after another leaves the table in order.
pub proof fn lemma_deleted_each_wf(doc: DocumentValue, ids: Seq<ObjectId>)
    requires
        doc.wf(),
    ensures
        deleted_each(doc, ids).wf(),
    decreases ids.len(),
{
    if ids.len() > 0 {
        lemma_deleted_each_wf(doc, ids.drop_last());
        lemma_deleted_wf(deleted_each(doc, ids.drop_last()), ids.last());
    }
}

/// Each entry that stays after objects were deleted one after another was
/// there before under an identity that is not among the deleted, and is a
/// stream without content if and only if it was one.
pub proof fn lemma_deleted_each_entry(doc: DocumentValue, ids: Seq<ObjectId>, i: int) -> (j: int)
    requires
        doc.wf(),
        0 <= i < deleted_each(doc, ids).objects.len(),
    ensures
        0 <= j < doc.objects.len(),
        !ids.contains(doc.objects[j].0),
        deleted_each(doc, ids).objects[i].0 == doc.objects[j].0,
        is_empty_stream(deleted_each(doc, ids).objects[i].1) == is_empty_stream(doc.objects[j].1),
    decreases ids.len(),
{
    if ids.len() == 0 {
        i
    } else {
        let before = deleted_each(doc, ids.drop_last());
        lemma_deleted_each_wf(doc, ids.drop_last());
        let m = lemma_deleted_entry(before, ids.last(), i);
        let j = lemma_deleted_each_entry(doc, ids.drop_last(), m);
        if ids.contains(doc.objects[j].0) {
            let w = choose|w: int| 0 <= w < ids.len() && ids[w] == doc.objects[j].0;
            if w < ids.len() - 1 {
                assert(ids.drop_last()[w] == doc.objects[j].0);
            }
        }
        j
    }
}

/// After every stream without content was deleted, the table holds no
/// stream without content.
pub proof fn lemma_no_empty_stream_left(doc: DocumentValue, i: int)
    requires
        doc.wf(),
        0 <= i < deleted_each(doc, ids_of(empty_streams(doc.objects))).objects.len(),
    ensures
        !is_empty_stream(deleted_each(doc, ids_of(empty_streams(doc.objects))).objects[i].1),
{
    let found = empty_streams(doc.objects);
    let ids = ids_of(found);
    let j = lemma_deleted_each_entry(doc, ids, i);
    if is_empty_stream(doc.objects[j].1) {
        doc.objects.lemma_filter_contains(|e: (ObjectId, Value)| is_empty_stream(e.1), j);
        let w = choose|w: int| 0 <= w < found.len() && found[w] == doc.objects[j];
        assert(ids[w] == doc.objects[j].0);
    }
}

/// After an object was deleted, no array or dictionary of the document holds
/// a reference to it.
pub proof fn lemma_deleted_holds_no_reference(doc: DocumentValue, id: ObjectId)
    requires
        doc.wf(),
    ensures
        !holds_reference(deleted(doc, id), id),
{
    let s = scrubbed_table(doc.objects, id);
    let t = deleted(doc, id).objects;
    lemma_scrubbed_entries_clean(doc.trailer, id);
    lemma_scrubbed_lookup(doc.objects, id, id);
    assert forall|i: int| 0 <= i < t.len() implies !holds_ref((#[trigger] t[i]).1, id) by {
        if has_key(s, id) {
            let p = choose|p: int| 0 <= p < s.len() && (#[trigger] s[p]).0 == id;
            lemma_without_at(s, id, p);
            let j = if i < p { i } else { i + 1 };
            assert(t[i] == s[j]);
            lemma_scrubbed_clean(doc.objects[j].1, id);
        } else {
            lemma_without_absent(s, id);
            lemma_scrubbed_clean(doc.objects[i].1, id);
        }
    }
}

/// Deleting an object leaves the table in order.
pub proof fn lemma_deleted_wf(doc: DocumentValue, id: ObjectId)
    requires
        doc.wf(),
    ensures
        deleted(doc, id).wf(),
{
    let s = scrubbed_table(doc.objects, id);
    lemma_scrubbed_lookup(doc.objects, id, id);
    assert(ascending(s));
    if has_key(s, id) {
        let p = choose|p: int| 0 <= p < s.len() && (#[trigger] s[p]).0 == id;
        lemma_without_at(s, id, p);
        let t = s.remove(p);
        assert forall|i: int, j: int| 0 <= i < j < t.len() implies crate::model::id_lt(
            #[trigger] t[i].0,
            #[trigger] t[j].0,
        ) by {
            let a = if i < p { i } else { i + 1 };
            let b = if j < p { j } else { j + 1 };
            assert(crate::model::id_lt(s[a].0, s[b].0));
        }
    } else {
        lemma_without_absent(s, id);
    }
}

/// Scrubbing a table keeps its identities, and scrubs the value under each.
pub proof fn lemma_scrubbed_lookup(t: Table, id: ObjectId, at: ObjectId)
    ensures
        ascending(t) ==> ascending(scrubbed_table(t, id)),
        lookup(scrubbed_table(t, id), at) == match lookup(t, at) {
            Some(v) => Some(scrubbed(v, id)),
            None => None,
        },
{
    let s = scrubbed_table(t, id);
    lemma_lookup_same_keys(t, s, at);
    if has_key(t, at) {
        lemma_first_exists(t, at);
    }
}

} // verus!
