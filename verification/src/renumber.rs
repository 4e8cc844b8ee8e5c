//! Renumbering: dense object numbers in the order of the table, with every
//! reference following its object.

use vstd::prelude::*;
use crate::document::Document;
use crate::model::{ascending, id_lt, ids_of, DocumentValue, Entries, ObjectId, StreamValue, Table, Value};
use crate::object::Object;
use crate::rewrite::{rewritten, rewritten_each, rewritten_values, Rewrite};
use crate::table::{id_before, id_same};

verus! {

/// The identities ascend strictly.
pub open spec fn ascending_ids(ids: Seq<ObjectId>) -> bool {
    forall|i: int, j: int| 0 <= i < j < ids.len() ==> id_lt(#[trigger] ids[i], #[trigger] ids[j])
}

/// The identity that `r` gets: the object at place `i` of `ids` gets the
/// number `start + i` and keeps its generation; an identity that is not
/// among `ids` stays as it is.
pub open spec fn new_identity(ids: Seq<ObjectId>, start: u32, r: ObjectId) -> ObjectId {
    if ids.contains(r) {
        ((start + ids.index_of(r)) as u32, r.1)
    } else {
        r
    }
}

/// `v` with each reference, at any depth, turned to the new identity of
/// what it names.
pub open spec fn renamed(v: Value, ids: Seq<ObjectId>, start: u32) -> Value
    decreases v,
{
    match v {
        Value::Reference(r) => Value::Reference(new_identity(ids, start, r)),
        Value::Array(a) => Value::Array(renamed_each(a, ids, start)),
        Value::Dictionary(d) => Value::Dictionary(renamed_values(d, ids, start)),
        Value::Stream(s) => Value::Stream(
            StreamValue {
                dict: renamed_values(s.dict, ids, start),
                content: s.content,
                allows_compression: s.allows_compression,
            },
        ),
        _ => v,
    }
}

/// The elements of `a`, each renamed.
pub open spec fn renamed_each(a: Seq<Value>, ids: Seq<ObjectId>, start: u32) -> Seq<Value>
    decreases a,
{
    Seq::new(
        a.len(),
        |i: int|
            if 0 <= i < a.len() {
                renamed(a[i], ids, start)
            } else {
                Value::Null
            },
    )
}

/// The entries of `d`, each value renamed.
pub open spec fn renamed_values(d: Entries, ids: Seq<ObjectId>, start: u32) -> Entries
    decreases d,
{
    Seq::new(
        d.len(),
        |i: int|
            if 0 <= i < d.len() {
                (d[i].0, renamed(d[i].1, ids, start))
            } else {
                (Seq::empty(), Value::Null)
            },
    )
}

/// The table with the object at place `i` under the number `start + i` and
/// its old generation, each value renamed.
pub open spec fn renumbered_table(t: Table, start: u32) -> Table {
    Seq::new(
        t.len(),
        |i: int| (((start + i) as u32, t[i].0.1), renamed(t[i].1, ids_of(t), start)),
    )
}

/// The document after renumbering from `start`: the objects numbered
/// `start`, `start + 1`, and so on in the order they had, the references in
/// the table and the trailer turned to match, and the counter at the last
/// number given.
pub open spec fn renumbered(doc: DocumentValue, start: u32) -> DocumentValue {
    DocumentValue {
        objects: renumbered_table(doc.objects, start),
        trailer: renamed_values(doc.trailer, ids_of(doc.objects), start),
        max_id: (start + doc.objects.len() - 1) as u32,
    }
}

/// In ascending identities each stands at one place.
pub proof fn lemma_index_of(ids: Seq<ObjectId>, p: int)
    requires
        ascending_ids(ids),
        0 <= p < ids.len(),
    ensures
        ids.contains(ids[p]),
        ids.index_of(ids[p]) == p,
{
    let q = ids.index_of(ids[p]);
    assert(0 <= q < ids.len() && ids[q] == ids[p]);
    if q < p {
        assert(id_lt(ids[q], ids[p]));
    } else if p < q {
        assert(id_lt(ids[p], ids[q]));
    }
}

/// Where no identity changes, renaming changes no value.
pub proof fn lemma_renamed_fixed(v: Value, ids: Seq<ObjectId>, start: u32)
    requires
        forall|r: ObjectId| new_identity(ids, start, r) == r,
    ensures
        renamed(v, ids, start) == v,
    decreases v,
{
    match v {
        Value::Array(a) => {
            assert forall|i: int| 0 <= i < a.len() implies renamed_each(a, ids, start)[i] == a[i] by {
                lemma_renamed_fixed(a[i], ids, start);
            }
            assert(renamed_each(a, ids, start) =~= a);
        },
        Value::Dictionary(d) => {
            lemma_renamed_values_fixed(d, ids, start);
        },
        Value::Stream(s) => {
            lemma_renamed_values_fixed(s.dict, ids, start);
        },
        _ => {},
    }
}

/// Where no identity changes, renaming changes no entry.
pub proof fn lemma_renamed_values_fixed(d: Entries, ids: Seq<ObjectId>, start: u32)
    requires
        forall|r: ObjectId| new_identity(ids, start, r) == r,
    ensures
        renamed_values(d, ids, start) == d,
    decreases d,
{
    assert forall|i: int| 0 <= i < d.len() implies renamed_values(d, ids, start)[i] == d[i] by {
        lemma_renamed_fixed(d[i].1, ids, start);
    }
    assert(renamed_values(d, ids, start) =~= d);
}

/// After a renumbering from `start`, each identity of the table is the one
/// that a renumbering from `start` gives it.
pub proof fn lemma_renumbered_settled(t: Table, start: u32, r: ObjectId)
    requires
        start + t.len() <= u32::MAX + 1,
    ensures
        new_identity(ids_of(renumbered_table(t, start)), start, r) == r,
{
    let ids = ids_of(renumbered_table(t, start));
    if ids.contains(r) {
        let q = ids.index_of(r);
        assert(0 <= q < ids.len() && ids[q] == r);
    }
}

/// Renumbering from `start` a document that was just renumbered from
/// `start` changes nothing: not the identities, not the values, not the
/// trailer, not the counter.
pub proof fn lemma_renumber_idempotent(doc: DocumentValue, start: u32)
    requires
        doc.wf(),
        0 < start + doc.objects.len() <= u32::MAX + 1,
    ensures
        renumbered(renumbered(doc, start), start) == renumbered(doc, start),
{
    let once = renumbered(doc, start);
    let twice = renumbered(once, start);
    let ids = ids_of(once.objects);
    assert forall|r: ObjectId| new_identity(ids, start, r) == r by {
        lemma_renumbered_settled(doc.objects, start, r);
    }
    lemma_renamed_values_fixed(once.trailer, ids, start);
    assert forall|i: int| 0 <= i < once.objects.len() implies twice.objects[i] == once.objects[i] by {
        lemma_renamed_fixed(once.objects[i].1, ids, start);
    }
    assert(twice.objects =~= once.objects);
}

/// The place of `id` among `ids`, if it is there.
pub fn find_id(ids: &Vec<ObjectId>, id: ObjectId) -> (r: Option<usize>)
    requires
        ascending_ids(ids@),
    ensures
        match r {
            Some(p) => p < ids@.len() && ids@[p as int] == id && ids@.contains(id) && ids@.index_of(
                id,
            ) == p,
            None => !ids@.contains(id),
        },
{
    let mut lo: usize = 0;
    let mut hi: usize = ids.len();
    while lo < hi
        invariant
            lo <= hi <= ids@.len(),
            ascending_ids(ids@),
            forall|i: int| 0 <= i < lo ==> id_lt(#[trigger] ids@[i], id),
            forall|i: int| hi <= i < ids@.len() ==> !id_lt(#[trigger] ids@[i], id),
        decreases hi - lo,
    {
        let mid = lo + (hi - lo) / 2;
        if id_before(ids[mid], id) {
            proof {
                assert forall|i: int| 0 <= i < mid + 1 implies id_lt(#[trigger] ids@[i], id) by {
                    if i < mid {
                        assert(id_lt(ids@[i], ids@[mid as int]));
                    }
                }
            }
            lo = mid + 1;
        } else {
            proof {
                assert forall|i: int| mid <= i < ids@.len() implies !id_lt(#[trigger] ids@[i], id) by {
                    if mid < i {
                        assert(id_lt(ids@[mid as int], ids@[i]));
                    }
                }
            }
            hi = mid;
        }
    }
    if lo < ids.len() && id_same(ids[lo], id) {
        proof {
            lemma_index_of(ids@, lo as int);
        }
        Some(lo)
    } else {
        proof {
            if ids@.contains(id) {
                let w = choose|w: int| 0 <= w < ids@.len() && ids@[w] == id;
                assert(!id_lt(ids@[w], id));
                if lo < w {
                    assert(id_lt(ids@[lo as int], ids@[w]));
                }
            }
        }
        None
    }
}

/// The change that turns a reference to the new identity of what it names.
pub struct Rename {
    ids: Vec<ObjectId>,
    start: u32,
}

impl Rename {
    /// The identities ascend, and each of the new numbers fits.
    #[verifier::type_invariant]
    spec fn well_formed(&self) -> bool {
        ascending_ids(self.ids@) && self.start + self.ids@.len() <= u32::MAX + 1
    }

    /// The identities that get new numbers, in their order.
    pub closed spec fn ids(&self) -> Seq<ObjectId> {
        self.ids@
    }

    /// The number that the first of them gets.
    pub closed spec fn start(&self) -> u32 {
        self.start
    }

    /// The change that gives the identities `ids` the numbers from `start`
    /// on.
    pub fn new(ids: Vec<ObjectId>, start: u32) -> (r: Rename)
        requires
            ascending_ids(ids@),
            start + ids@.len() <= u32::MAX + 1,
        ensures
            r.ids() == ids@,
            r.start() == start,
    {
        Rename { ids, start }
    }
}

impl Rewrite for Rename {
    open spec fn image(&self, v: Value) -> Value {
        match v {
            Value::Reference(r) => Value::Reference(new_identity(self.ids(), self.start(), r)),
            _ => v,
        }
    }

    fn apply(&self, object: &mut Object) {
        proof {
            use_type_invariant(self);
        }
        match object {
            Object::Reference(r) => {
                match find_id(&self.ids, *r) {
                    Some(p) => {
                        *r = (self.start + p as u32, r.1);
                    },
                    None => {},
                }
            },
            _ => {},
        }
    }
}

/// The rewrite pass with `Rename` renames: it turns every reference, at any
/// depth, to the new identity of what it names.
pub proof fn lemma_rename_pass(r: &Rename, v: Value)
    ensures
        rewritten(r, v) == renamed(v, r.ids(), r.start()),
    decreases v,
{
    match v {
        Value::Array(a) => {
            assert forall|i: int| 0 <= i < a.len() implies rewritten_each(r, a)[i] == renamed_each(
                a,
                r.ids(),
                r.start(),
            )[i] by {
                lemma_rename_pass(r, a[i]);
            }
            assert(rewritten_each(r, a) =~= renamed_each(a, r.ids(), r.start()));
        },
        Value::Dictionary(d) => {
            lemma_rename_pass_entries(r, d);
        },
        Value::Stream(s) => {
            lemma_rename_pass_entries(r, s.dict);
        },
        _ => {},
    }
}

/// The rewrite pass with `Rename` renames the value of each entry.
pub proof fn lemma_rename_pass_entries(r: &Rename, d: Entries)
    ensures
        rewritten_values(r, d) == renamed_values(d, r.ids(), r.start()),
    decreases d,
{
    assert forall|i: int| 0 <= i < d.len() implies rewritten_values(r, d)[i] == renamed_values(
        d,
        r.ids(),
        r.start(),
    )[i] by {
        lemma_rename_pass(r, d[i].1);
    }
    assert(rewritten_values(r, d) =~= renamed_values(d, r.ids(), r.start()));
}

impl Document {
    /// Renumbers the objects from 1.
    pub fn renumber_objects(&mut self)
        requires
            old(self).wf(),
            old(self)@.objects.len() <= u32::MAX,
        ensures
            final(self).wf(),
            final(self)@ == renumbered(old(self)@, 1),
    {
        self.renumber_objects_with(1)
    }

    /// Renumbers the objects from `starting_id`: in the order of the table
    /// they get the numbers `starting_id`, `starting_id + 1` and so on, and
    /// keep their generations. Every reference in the table and in the
    /// trailer to an object of the table follows it; the others stay. The
    /// counter is set to the last number given.
    pub fn renumber_objects_with(&mut self, starting_id: u32)
        requires
            old(self).wf(),
            0 < starting_id + old(self)@.objects.len() <= u32::MAX + 1,
        ensures
            final(self).wf(),
            final(self)@ == renumbered(old(self)@, starting_id),
            final(self)@.objects.len() == old(self)@.objects.len(),
            forall|i: int|
                0 <= i < old(self)@.objects.len() ==> (#[trigger] final(self)@.objects[i]).0 == (
                    (starting_id + i) as u32,
                    old(self)@.objects[i].0.1,
                ),
    {
        let n = self.objects.entries.len();
        let ghost t = self@.objects;
        let mut ids: Vec<ObjectId> = Vec::new();
        let mut i: usize = 0;
        while i < n
            invariant
                i <= n,
                n == self.objects.entries.len(),
                self == old(self),
                t == self@.objects,
                ids@ == ids_of(t).take(i as int),
            decreases n - i,
        {
            ids.push(self.objects.entries[i].0);
            proof {
                assert(ids@ =~= ids_of(t).take(i + 1));
            }
            i += 1;
        }
        proof {
            assert(ids@ =~= ids_of(t));
            assert forall|a: int, b: int| 0 <= a < b < ids@.len() implies id_lt(
                #[trigger] ids@[a],
                #[trigger] ids@[b],
            ) by {
                assert(id_lt(t[a].0, t[b].0));
            }
        }
        let pass = Rename::new(ids, starting_id);
        self.rewrite(&pass);
        // The table is in order and stays so under the new numbers: the
        // object at place `i` takes the number `starting_id + i` where it
        // stands, so that no entry moves and none is written over.
        proof {
            lemma_rename_pass_entries(&pass, old(self)@.trailer);
            assert(self.objects@.len() == n);
            assert forall|k: int| 0 <= k < n implies self.objects@[k] == (
                t[k].0,
                renamed(t[k].1, ids_of(t), starting_id),
            ) by {
                lemma_rename_pass(&pass, t[k].1);
            }
        }
        let mut i: usize = 0;
        while i < n
            invariant
                i <= n,
                n == self.objects.entries.len(),
                n == t.len(),
                t == old(self)@.objects,
                0 < starting_id + n <= u32::MAX + 1,
                self.trailer@ == renamed_values(old(self)@.trailer, ids_of(t), starting_id),
                self.max_id == old(self).max_id,
                forall|k: int|
                    i <= k < n ==> self.objects@[k] == (
                        t[k].0,
                        renamed(t[k].1, ids_of(t), starting_id),
                    ),
                forall|k: int|
                    0 <= k < i ==> self.objects@[k] == (
                        ((starting_id + k) as u32, t[k].0.1),
                        renamed(t[k].1, ids_of(t), starting_id),
                    ),
            decreases n - i,
        {
            let generation = self.objects.entries[i].0.1;
            let ghost e0 = self.objects.entries@;
            let ghost t0 = self.objects@;
            self.objects.entries[i].0 = (starting_id + i as u32, generation);
            proof {
                let e1 = self.objects.entries@;
                assert forall|k: int| 0 <= k < n implies #[trigger] self.objects@[k] == if k == i {
                    (((starting_id + i) as u32, generation), e0[k].1@)
                } else {
                    t0[k]
                } by {
                    assert(t0[k] == (e0[k].0, e0[k].1@));
                    assert(e1[k].1 == e0[k].1);
                }
                assert(t0[i as int] == (e0[i as int].0, e0[i as int].1@));
                assert(generation == t[i as int].0.1);
                assert forall|k: int| 0 <= k < i + 1 implies self.objects@[k] == (
                    ((starting_id + k) as u32, t[k].0.1),
                    renamed(t[k].1, ids_of(t), starting_id),
                ) by {
                    if k < i {
                        assert(self.objects@[k] == t0[k]);
                    }
                }
                assert forall|k: int| i + 1 <= k < n implies self.objects@[k] == (
                    t[k].0,
                    renamed(t[k].1, ids_of(t), starting_id),
                ) by {
                    assert(self.objects@[k] == t0[k]);
                }
            }
            i += 1;
        }
        if n > 0 {
            self.max_id = starting_id + (n - 1) as u32;
        } else {
            self.max_id = starting_id - 1;
        }
        proof {
            assert(self.objects@ =~= renumbered_table(t, starting_id));
        }
    }
}

} // verus!
