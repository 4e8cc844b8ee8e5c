//! What renumbering keeps: every reference still names its object, and the
//! trailer reaches the same objects.

use vstd::prelude::*;
use crate::model::{first_index, has_key, ids_of, lemma_first_exists, lookup, DocumentValue, Entries, ObjectId, Value};
use crate::reach::{edge, is_chain, lemma_chain_extends, lemma_chain_starts, reachable};
use crate::table::lemma_lookup_at;
use crate::renumber::{ascending_ids, lemma_index_of, new_identity, renamed, renamed_each, renamed_values, renumbered};
use crate::scrub::{entries_hold_ref, holds_ref, refers_to};

verus! {

/// Some value of the document, in the trailer or in the table, is a
/// reference to `id` or holds one.
pub open spec fn mentions(doc: DocumentValue, id: ObjectId) -> bool {
    entries_hold_ref(doc.trailer, id) || exists|i: int|
        0 <= i < doc.objects.len() && refers_to((#[trigger] doc.objects[i]).1, id)
}

/// Every reference in the document names an object of the table.
pub open spec fn resolves(doc: DocumentValue) -> bool {
    forall|id: ObjectId| #[trigger] mentions(doc, id) ==> has_key(doc.objects, id)
}

/// A value that refers to `id` refers, once renamed, to the new identity of
/// `id`.
pub proof fn lemma_renamed_refers(v: Value, ids: Seq<ObjectId>, start: u32, id: ObjectId)
    requires
        refers_to(v, id),
    ensures
        refers_to(renamed(v, ids, start), new_identity(ids, start, id)),
    decreases v,
{
    match v {
        Value::Array(a) => {
            let w = choose|w: int|
                0 <= w < a.len() && ((#[trigger] a[w]) == Value::Reference(id) || holds_ref(
                    a[w],
                    id,
                ));
            lemma_renamed_refers(a[w], ids, start, id);
            let b = renamed_each(a, ids, start);
            assert(b[w] == renamed(a[w], ids, start));
            assert(b[w] == Value::Reference(new_identity(ids, start, id)) || holds_ref(
                b[w],
                new_identity(ids, start, id),
            ));
        },
        Value::Dictionary(d) => {
            lemma_renamed_values_refer(d, ids, start, id);
        },
        Value::Stream(s) => {
            lemma_renamed_values_refer(s.dict, ids, start, id);
        },
        _ => {},
    }
}

/// Entries that hold a reference to `id` hold, once renamed, one to the new
/// identity of `id`.
pub proof fn lemma_renamed_values_refer(d: Entries, ids: Seq<ObjectId>, start: u32, id: ObjectId)
    requires
        entries_hold_ref(d, id),
    ensures
        entries_hold_ref(renamed_values(d, ids, start), new_identity(ids, start, id)),
    decreases d,
{
    let w = choose|w: int|
        0 <= w < d.len() && ((#[trigger] d[w]).1 == Value::Reference(id) || holds_ref(d[w].1, id));
    lemma_renamed_refers(d[w].1, ids, start, id);
    let b = renamed_values(d, ids, start);
    assert(b[w].1 == renamed(d[w].1, ids, start));
    assert(b[w].1 == Value::Reference(new_identity(ids, start, id)) || holds_ref(
        b[w].1,
        new_identity(ids, start, id),
    ));
}

/// What a renamed value refers to is the new identity of something that the
/// value referred to.
pub proof fn lemma_renamed_refers_back(v: Value, ids: Seq<ObjectId>, start: u32, to: ObjectId) -> (id:
    ObjectId)
    requires
        refers_to(renamed(v, ids, start), to),
    ensures
        refers_to(v, id),
        new_identity(ids, start, id) == to,
    decreases v,
{
    match v {
        Value::Reference(r) => r,
        Value::Array(a) => {
            let b = renamed_each(a, ids, start);
            let w = choose|w: int|
                0 <= w < b.len() && ((#[trigger] b[w]) == Value::Reference(to) || holds_ref(
                    b[w],
                    to,
                ));
            assert(b[w] == renamed(a[w], ids, start));
            let id = lemma_renamed_refers_back(a[w], ids, start, to);
            assert(a[w] == Value::Reference(id) || holds_ref(a[w], id));
            id
        },
        Value::Dictionary(d) => lemma_renamed_values_refer_back(d, ids, start, to),
        Value::Stream(s) => lemma_renamed_values_refer_back(s.dict, ids, start, to),
        _ => to,
    }
}

/// What renamed entries hold a reference to is the new identity of
/// something that the entries held a reference to.
pub proof fn lemma_renamed_values_refer_back(
    d: Entries,
    ids: Seq<ObjectId>,
    start: u32,
    to: ObjectId,
) -> (id: ObjectId)
    requires
        entries_hold_ref(renamed_values(d, ids, start), to),
    ensures
        entries_hold_ref(d, id),
        new_identity(ids, start, id) == to,
    decreases d,
{
    let b = renamed_values(d, ids, start);
    let w = choose|w: int|
        0 <= w < b.len() && ((#[trigger] b[w]).1 == Value::Reference(to) || holds_ref(b[w].1, to));
    assert(b[w].1 == renamed(d[w].1, ids, start));
    let id = lemma_renamed_refers_back(d[w].1, ids, start, to);
    assert(d[w].1 == Value::Reference(id) || holds_ref(d[w].1, id));
    id
}

/// The object at place `p` gets the number `start + p`: that is the new
/// identity of its old one, and the renumbered table holds it at place `p`.
pub proof fn lemma_new_identity_at(doc: DocumentValue, start: u32, p: int)
    requires
        doc.wf(),
        0 < start + doc.objects.len() <= u32::MAX + 1,
        0 <= p < doc.objects.len(),
    ensures
        new_identity(ids_of(doc.objects), start, doc.objects[p].0) == renumbered(
            doc,
            start,
        ).objects[p].0,
        renumbered(doc, start).wf(),
        lookup(renumbered(doc, start).objects, renumbered(doc, start).objects[p].0) == Some(
            renamed(doc.objects[p].1, ids_of(doc.objects), start),
        ),
{
    let ids = ids_of(doc.objects);
    assert(ascending_ids(ids)) by {
        assert forall|a: int, b: int| 0 <= a < b < ids.len() implies crate::model::id_lt(
            #[trigger] ids[a],
            #[trigger] ids[b],
        ) by {
            assert(crate::model::id_lt(doc.objects[a].0, doc.objects[b].0));
        }
    }
    lemma_index_of(ids, p);
    lemma_lookup_at(renumbered(doc, start).objects, p);
}

/// An identity of the table has, as its new identity, that of its place.
proof fn lemma_new_identity_of_key(doc: DocumentValue, start: u32, id: ObjectId) -> (p: int)
    requires
        doc.wf(),
        0 < start + doc.objects.len() <= u32::MAX + 1,
        has_key(doc.objects, id),
    ensures
        0 <= p < doc.objects.len(),
        doc.objects[p].0 == id,
        new_identity(ids_of(doc.objects), start, id) == renumbered(doc, start).objects[p].0,
        lookup(doc.objects, id) == Some(doc.objects[p].1),
{
    lemma_first_exists(doc.objects, id);
    let p = first_index(doc.objects, id);
    lemma_new_identity_at(doc, start, p);
    p
}

/// After renumbering a document in which every reference names an object
/// of the table, every reference names an object of the table.
pub proof fn lemma_renumbered_resolves(doc: DocumentValue, start: u32)
    requires
        doc.wf(),
        0 < start + doc.objects.len() <= u32::MAX + 1,
        resolves(doc),
    ensures
        resolves(renumbered(doc, start)),
{
    let after = renumbered(doc, start);
    let ids = ids_of(doc.objects);
    assert forall|to: ObjectId| #[trigger] mentions(after, to) implies has_key(after.objects, to) by {
        let id = if entries_hold_ref(after.trailer, to) {
            let id = lemma_renamed_values_refer_back(doc.trailer, ids, start, to);
            id
        } else {
            let i = choose|i: int|
                0 <= i < after.objects.len() && refers_to((#[trigger] after.objects[i]).1, to);
            let id = lemma_renamed_refers_back(doc.objects[i].1, ids, start, to);
            assert(refers_to(doc.objects[i].1, id));
            id
        };
        assert(mentions(doc, id));
        let p = lemma_new_identity_of_key(doc, start, id);
        assert(after.objects[p].0 == to);
    }
}

/// What the trailer reaches, it reaches after renumbering under the new
/// identity.
pub proof fn lemma_renumbered_reachable(doc: DocumentValue, start: u32, id: ObjectId)
    requires
        doc.wf(),
        0 < start + doc.objects.len() <= u32::MAX + 1,
        reachable(doc, id),
    ensures
        reachable(renumbered(doc, start), new_identity(ids_of(doc.objects), start, id)),
{
    let after = renumbered(doc, start);
    let ids = ids_of(doc.objects);
    let path = choose|path: Seq<ObjectId>| #[trigger] is_chain(doc, path) && path.last() == id;
    let moved = Seq::new(path.len(), |k: int| new_identity(ids, start, path[k]));
    lemma_renamed_values_refer(doc.trailer, ids, start, path[0]);
    assert forall|k: int| 0 <= k < moved.len() - 1 implies edge(
        after,
        #[trigger] moved[k],
        moved[k + 1],
    ) by {
        assert(edge(doc, path[k], path[k + 1]));
        let p = lemma_new_identity_of_key(doc, start, path[k]);
        lemma_new_identity_at(doc, start, p);
        lemma_renamed_refers(doc.objects[p].1, ids, start, path[k + 1]);
    }
    assert(is_chain(after, moved));
    assert(moved.last() == new_identity(ids, start, id));
}

/// What the trailer reaches is mentioned somewhere in the document.
pub proof fn lemma_reachable_mentioned(doc: DocumentValue, id: ObjectId)
    requires
        doc.wf(),
        reachable(doc, id),
    ensures
        mentions(doc, id),
{
    let path = choose|path: Seq<ObjectId>| #[trigger] is_chain(doc, path) && path.last() == id;
    if path.len() > 1 {
        let k = path.len() - 2;
        assert(edge(doc, path[k], path[k + 1]));
        lemma_first_exists(doc.objects, path[k]);
        let p = first_index(doc.objects, path[k]);
        assert(refers_to(doc.objects[p].1, id));
    }
}

/// In a renumbered document in which every reference named an object, each
/// identity that a chain from the trailer meets is the new identity of one
/// that the trailer reached before.
proof fn lemma_reachable_back(doc: DocumentValue, start: u32, path: Seq<ObjectId>, k: int) -> (id:
    ObjectId)
    requires
        doc.wf(),
        0 < start + doc.objects.len() <= u32::MAX + 1,
        resolves(doc),
        is_chain(renumbered(doc, start), path),
        0 <= k < path.len(),
    ensures
        reachable(doc, id),
        new_identity(ids_of(doc.objects), start, id) == path[k],
    decreases k,
{
    let after = renumbered(doc, start);
    let ids = ids_of(doc.objects);
    if k == 0 {
        let id = lemma_renamed_values_refer_back(doc.trailer, ids, start, path[0]);
        lemma_chain_starts(doc, id);
        id
    } else {
        let from = lemma_reachable_back(doc, start, path, k - 1);
        assert(edge(after, path[k - 1], path[k - 1 + 1]));
        lemma_reachable_mentioned(doc, from);
        let p = lemma_new_identity_of_key(doc, start, from);
        lemma_new_identity_at(doc, start, p);
        let id = lemma_renamed_refers_back(doc.objects[p].1, ids, start, path[k]);
        assert(edge(doc, from, id));
        lemma_chain_extends(doc, from, id);
        id
    }
}

/// Renumbering a document in which every reference names an object of the
/// table changes nothing in what the trailer reaches: the object at a place
/// of the table is reachable after it if and only if the object at that
/// place was reachable before.
pub proof fn lemma_renumber_keeps_reachable(doc: DocumentValue, start: u32, p: int)
    requires
        doc.wf(),
        0 < start + doc.objects.len() <= u32::MAX + 1,
        resolves(doc),
        0 <= p < doc.objects.len(),
    ensures
        reachable(renumbered(doc, start), renumbered(doc, start).objects[p].0) == reachable(
            doc,
            doc.objects[p].0,
        ),
{
    let after = renumbered(doc, start);
    lemma_new_identity_at(doc, start, p);
    if reachable(doc, doc.objects[p].0) {
        lemma_renumbered_reachable(doc, start, doc.objects[p].0);
    }
    if reachable(after, after.objects[p].0) {
        let path = choose|path: Seq<ObjectId>| #[trigger]
            is_chain(after, path) && path.last() == after.objects[p].0;
        let id = lemma_reachable_back(doc, start, path, path.len() - 1);
        lemma_reachable_mentioned(doc, id);
        let q = lemma_new_identity_of_key(doc, start, id);
        assert(after.objects[q].0 == after.objects[p].0);
        assert(q == p);
    }
}

} // verus!
