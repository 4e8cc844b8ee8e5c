//! The object table: objects by identity, held in ascending order.

use vstd::prelude::*;
use crate::model::{ascending, first_index, has_key, id_lt, is_first, lemma_filter_member, lemma_filter_none, lemma_filter_step, lemma_first_exists, lemma_first_unique, lemma_lookup_same_keys, lemma_without_absent, lemma_without_none, lemma_without_step, lookup, without_key, ObjectId, Table, Value};
use crate::object::Object;

verus! {

/// The objects of a document, each under its identity.
#[derive(Debug, PartialEq)]
pub struct ObjectTable {
    pub entries: Vec<(ObjectId, Object)>,
}

/// Whether `a` comes before `b`.
pub fn id_before(a: ObjectId, b: ObjectId) -> (r: bool)
    ensures
        r == id_lt(a, b),
{
    a.0 < b.0 || (a.0 == b.0 && a.1 < b.1)
}

/// Whether `a` and `b` are the same identity.
pub fn id_same(a: ObjectId, b: ObjectId) -> (r: bool)
    ensures
        r == (a == b),
{
    a.0 == b.0 && a.1 == b.1
}

/// The table that a sequence of identities and objects stands for.
pub open spec fn table_of(s: Seq<(ObjectId, Object)>) -> Table {
    Seq::new(s.len(), |i: int| (s[i].0, s[i].1@))
}

/// How many entries of an ascending table come before `id`.
pub open spec fn rank(t: Table, id: ObjectId) -> int {
    t.filter(|e: (ObjectId, Value)| id_lt(e.0, id)).len() as int
}

/// `t` with `v` under `id`: in place of the value that was there, or as a new
/// entry where the order asks for it.
pub open spec fn table_with(t: Table, id: ObjectId, v: Value) -> Table {
    if has_key(t, id) {
        t.update(first_index(t, id), (id, v))
    } else {
        t.insert(rank(t, id), (id, v))
    }
}

/// In an ascending table, the entries before `id` are those of the first
/// `p` places, where `p` parts the smaller identities from the others.
pub proof fn lemma_rank(t: Table, id: ObjectId, p: int)
    requires
        0 <= p <= t.len(),
        forall|i: int| 0 <= i < p ==> id_lt((#[trigger] t[i]).0, id),
        forall|i: int| p <= i < t.len() ==> !id_lt((#[trigger] t[i]).0, id),
    ensures
        rank(t, id) == p,
{
    lemma_rank_prefix(t, id, p, t.len() as int);
    assert(t.take(t.len() as int) =~= t);
}

/// The rank of an identity in a prefix of an ascending table.
proof fn lemma_rank_prefix(t: Table, id: ObjectId, p: int, k: int)
    requires
        0 <= p <= t.len(),
        0 <= k <= t.len(),
        forall|i: int| 0 <= i < p ==> id_lt((#[trigger] t[i]).0, id),
        forall|i: int| p <= i < t.len() ==> !id_lt((#[trigger] t[i]).0, id),
    ensures
        rank(t.take(k), id) == if k <= p {
            k
        } else {
            p
        },
    decreases k,
{
    let keep = |e: (ObjectId, Value)| id_lt(e.0, id);
    if k == 0 {
        lemma_filter_none(t, keep);
    } else {
        lemma_rank_prefix(t, id, p, k - 1);
        lemma_filter_step(t, keep, k - 1);
        assert(keep(t[k - 1]) == id_lt(t[k - 1].0, id));
    }
}

/// In an ascending table an identity stands at one place at most, so taking
/// its entries out takes out that one.
pub proof fn lemma_without_at(t: Table, id: ObjectId, p: int)
    requires
        ascending(t),
        0 <= p < t.len(),
        t[p].0 == id,
    ensures
        without_key(t, id) == t.remove(p),
        is_first(t, id, p),
{
    lemma_without_prefix(t, id, p, t.len() as int);
    assert(t.take(t.len() as int) =~= t);
    assert(t.remove(p).take(t.len() - 1) =~= t.remove(p));
    assert forall|j: int| 0 <= j < p implies (#[trigger] t[j]).0 != id by {
        assert(id_lt(t[j].0, t[p].0));
    }
}

/// A prefix of an ascending table without the identity at place `p`.
proof fn lemma_without_prefix(t: Table, id: ObjectId, p: int, k: int)
    requires
        ascending(t),
        0 <= p < t.len(),
        0 <= k <= t.len(),
        t[p].0 == id,
    ensures
        without_key(t.take(k), id) == if k <= p {
            t.take(k)
        } else {
            t.remove(p).take(k - 1)
        },
    decreases k,
{
    if k == 0 {
        lemma_without_none(t, id);
        assert(t.take(0) =~= Seq::<(ObjectId, Value)>::empty());
    } else {
        let j = k - 1;
        lemma_without_prefix(t, id, p, j);
        lemma_without_step(t, id, j);
        if j < p {
            assert(id_lt(t[j].0, t[p].0));
            assert(t.take(j + 1) =~= t.take(j).push(t[j]));
        } else if j == p {
            assert(t.remove(p).take(j) =~= t.take(j));
        } else {
            assert(id_lt(t[p].0, t[j].0));
            assert(t.remove(p).take(j) =~= t.remove(p).take(j - 1).push(t[j]));
        }
    }
}

/// An ascending table with a value put under an identity is ascending,
/// holds that value there, and holds under every other identity what it
/// held.
pub proof fn lemma_table_with(t: Table, id: ObjectId, v: Value, q: ObjectId)
    requires
        ascending(t),
    ensures
        ascending(table_with(t, id, v)),
        lookup(table_with(t, id, v), q) == if q == id {
            Some(v)
        } else {
            lookup(t, q)
        },
{
    let after = table_with(t, id, v);
    if has_key(t, id) {
        lemma_first_exists(t, id);
        let p = first_index(t, id);
        assert forall|i: int, j: int| 0 <= i < j < after.len() implies id_lt(
            #[trigger] after[i].0,
            #[trigger] after[j].0,
        ) by {
            assert(id_lt(t[i].0, t[j].0));
        }
        lemma_lookup_same_keys(t, after, q);
        if has_key(t, q) {
            lemma_first_exists(t, q);
        }
    } else {
        let r = lemma_rank_exists(t, id);
        assert forall|i: int, j: int| 0 <= i < j < after.len() implies id_lt(
            #[trigger] after[i].0,
            #[trigger] after[j].0,
        ) by {
            let a = if i < r { i } else { i - 1 };
            let b = if j < r { j } else { j - 1 };
            if i != r && j != r {
                assert(id_lt(t[a].0, t[b].0));
            } else if i == r {
                assert(!id_lt(t[b].0, id));
                assert(t[b].0 != id);
            } else {
                assert(id_lt(t[a].0, id));
            }
        }
        if q == id {
            assert(after[r] == (id, v));
            assert forall|j: int| 0 <= j < r implies (#[trigger] after[j]).0 != id by {
                assert(t[j].0 != id);
            }
            lemma_first_unique(after, id, r);
        } else if has_key(t, q) {
            lemma_first_exists(t, q);
            let i = first_index(t, q);
            let m = if i < r { i } else { i + 1 };
            assert(after[m] == t[i]);
            assert forall|j: int| 0 <= j < m implies (#[trigger] after[j]).0 != q by {
                if j < r {
                    assert(t[j].0 != q);
                } else if j > r {
                    assert(t[j - 1].0 != q);
                }
            }
            lemma_first_unique(after, q, m);
        } else {
            if has_key(after, q) {
                let w = choose|w: int| 0 <= w < after.len() && (#[trigger] after[w]).0 == q;
                if w < r {
                    assert(t[w].0 == q);
                } else {
                    assert(t[w - 1].0 == q);
                }
            }
        }
    }
}

/// The rank of an identity in an ascending table parts the smaller
/// identities from the others.
pub proof fn lemma_rank_exists(t: Table, id: ObjectId) -> (r: int)
    requires
        ascending(t),
    ensures
        r == rank(t, id),
        0 <= r <= t.len(),
        forall|i: int| 0 <= i < r ==> id_lt((#[trigger] t[i]).0, id),
        forall|i: int| r <= i < t.len() ==> !id_lt((#[trigger] t[i]).0, id),
{
    let r = lemma_boundary(t, id, t.len() as int);
    lemma_rank(t, id, r);
    r
}

/// Among the first `n` entries of an ascending table, a place parts the
/// identities before `id` from the others.
proof fn lemma_boundary(t: Table, id: ObjectId, n: int) -> (r: int)
    requires
        ascending(t),
        0 <= n <= t.len(),
    ensures
        0 <= r <= n,
        forall|i: int| 0 <= i < r ==> id_lt((#[trigger] t[i]).0, id),
        forall|i: int| r <= i < n ==> !id_lt((#[trigger] t[i]).0, id),
    decreases n,
{
    if n == 0 {
        0
    } else if id_lt(t[n - 1].0, id) {
        assert forall|i: int| 0 <= i < n implies id_lt((#[trigger] t[i]).0, id) by {
            if i < n - 1 {
                assert(id_lt(t[i].0, t[n - 1].0));
            }
        }
        n
    } else {
        lemma_boundary(t, id, n - 1)
    }
}

/// Taking an identity out of an ascending table leaves under every other
/// identity what was there.
pub proof fn lemma_lookup_without(t: Table, id: ObjectId, q: ObjectId)
    requires
        ascending(t),
        q != id,
    ensures
        lookup(without_key(t, id), q) == lookup(t, q),
{
    if has_key(t, id) {
        lemma_first_exists(t, id);
        let p = first_index(t, id);
        lemma_without_at(t, id, p);
        let r = t.remove(p);
        if has_key(t, q) {
            lemma_first_exists(t, q);
            let i = first_index(t, q);
            let m = if i < p { i } else { i - 1 };
            assert(r[m] == t[i]);
            assert forall|j: int| 0 <= j < m implies (#[trigger] r[j]).0 != q by {
                if j < p {
                    assert(t[j].0 != q);
                } else {
                    assert(t[j + 1].0 != q);
                }
            }
            lemma_first_unique(r, q, m);
        } else {
            if has_key(r, q) {
                let w = choose|w: int| 0 <= w < r.len() && (#[trigger] r[w]).0 == q;
                if w < p {
                    assert(t[w].0 == q);
                } else {
                    assert(t[w + 1].0 == q);
                }
            }
        }
    } else {
        lemma_without_absent(t, id);
    }
}

/// In an ascending table, the value under the identity at place `p` is the
/// one at place `p`.
pub proof fn lemma_lookup_at(t: Table, p: int)
    requires
        ascending(t),
        0 <= p < t.len(),
    ensures
        has_key(t, t[p].0),
        first_index(t, t[p].0) == p,
        lookup(t, t[p].0) == Some(t[p].1),
{
    assert forall|j: int| 0 <= j < p implies (#[trigger] t[j]).0 != t[p].0 by {
        assert(id_lt(t[j].0, t[p].0));
    }
    assert(is_first(t, t[p].0, p));
    lemma_first_unique(t, t[p].0, p);
}

/// Putting under `id` the value that is there changes nothing.
pub proof fn lemma_table_with_same(t: Table, id: ObjectId)
    requires
        has_key(t, id),
    ensures
        table_with(t, id, lookup(t, id).unwrap()) == t,
{
    lemma_first_exists(t, id);
    assert(table_with(t, id, lookup(t, id).unwrap()) =~= t);
}

impl ObjectTable {
    /// The table as a value.
    pub open spec fn view(&self) -> Table {
        table_of(self.entries@)
    }

    /// The identities ascend strictly: each stands once, in its place.
    pub open spec fn wf(&self) -> bool {
        ascending(self@)
    }

    /// A table without objects.
    pub fn new() -> (r: ObjectTable)
        ensures
            r.wf(),
            r@ == Seq::<(ObjectId, Value)>::empty(),
    {
        let r = ObjectTable { entries: Vec::new() };
        proof {
            assert(r@ =~= Seq::<(ObjectId, Value)>::empty());
        }
        r
    }

    /// Whether the identities ascend strictly, as every operation asks.
    pub fn is_ordered(&self) -> (r: bool)
        ensures
            r == self.wf(),
    {
        let n = self.entries.len();
        if n < 2 {
            return true;
        }
        let mut i: usize = 1;
        while i < n
            invariant
                1 <= i <= n,
                n == self@.len(),
                forall|a: int, b: int|
                    0 <= a < b < i ==> id_lt(#[trigger] self@[a].0, #[trigger] self@[b].0),
            decreases n - i,
        {
            if !id_before(self.entries[i - 1].0, self.entries[i].0) {
                proof {
                    assert(!id_lt(self@[i - 1].0, self@[i as int].0));
                }
                return false;
            }
            proof {
                assert forall|a: int, b: int| 0 <= a < b < i + 1 implies id_lt(
                    #[trigger] self@[a].0,
                    #[trigger] self@[b].0,
                ) by {
                    if b == i && a < i - 1 {
                        assert(id_lt(self@[a].0, self@[i - 1].0));
                        assert(id_lt(self@[i - 1].0, self@[i as int].0));
                    }
                }
            }
            i += 1;
        }
        true
    }

    /// The number of objects.
    pub fn len(&self) -> (r: usize)
        ensures
            r == self@.len(),
    {
        self.entries.len()
    }

    /// Whether the table holds no object.
    pub fn is_empty(&self) -> (r: bool)
        ensures
            r == (self@.len() == 0),
    {
        self.entries.len() == 0
    }

    /// The place where `id` stands or, where it is absent, would stand.
    pub fn search(&self, id: ObjectId) -> (r: usize)
        requires
            self.wf(),
        ensures
            r <= self@.len(),
            forall|i: int| 0 <= i < r ==> id_lt((#[trigger] self@[i]).0, id),
            forall|i: int| r <= i < self@.len() ==> !id_lt((#[trigger] self@[i]).0, id),
            has_key(self@, id) <==> (r < self@.len() && self@[r as int].0 == id),
            has_key(self@, id) ==> first_index(self@, id) == r,
            r == rank(self@, id),
    {
        let mut lo: usize = 0;
        let mut hi: usize = self.entries.len();
        while lo < hi
            invariant
                lo <= hi <= self@.len(),
                self.wf(),
                forall|i: int| 0 <= i < lo ==> id_lt((#[trigger] self@[i]).0, id),
                forall|i: int| hi <= i < self@.len() ==> !id_lt((#[trigger] self@[i]).0, id),
            decreases hi - lo,
        {
            let mid = lo + (hi - lo) / 2;
            if id_before(self.entries[mid].0, id) {
                proof {
                    assert forall|i: int| 0 <= i < mid + 1 implies id_lt((#[trigger] self@[i]).0, id) by {
                        if i < mid {
                            assert(id_lt(self@[i].0, self@[mid as int].0));
                        }
                    }
                }
                lo = mid + 1;
            } else {
                proof {
                    assert forall|i: int| mid <= i < self@.len() implies !id_lt((#[trigger] self@[i]).0, id) by {
                        if mid < i {
                            assert(id_lt(self@[mid as int].0, self@[i].0));
                        }
                    }
                }
                hi = mid;
            }
        }
        proof {
            lemma_rank(self@, id, lo as int);
            if has_key(self@, id) {
                let w = choose|w: int| 0 <= w < self@.len() && (#[trigger] self@[w]).0 == id;
                assert(!id_lt(self@[w].0, id));
                if lo < w {
                    assert(id_lt(self@[lo as int].0, self@[w].0));
                }
                assert(w == lo);
            }
            if lo < self@.len() && self@[lo as int].0 == id {
                assert forall|j: int| 0 <= j < lo implies (#[trigger] self@[j]).0 != id by {
                    assert(id_lt(self@[j].0, id));
                }
                lemma_first_unique(self@, id, lo as int);
            }
        }
        lo
    }

    /// The identity at place `i`.
    pub fn id_at(&self, i: usize) -> (r: ObjectId)
        requires
            i < self@.len(),
        ensures
            r == self@[i as int].0,
    {
        self.entries[i].0
    }

    /// The object at place `i`.
    pub fn object_at(&self, i: usize) -> (r: &Object)
        requires
            i < self@.len(),
        ensures
            r@ == self@[i as int].1,
    {
        &self.entries[i].1
    }

    /// Whether the table holds an object under `id`.
    pub fn contains(&self, id: ObjectId) -> (r: bool)
        requires
            self.wf(),
        ensures
            r == has_key(self@, id),
    {
        let p = self.search(id);
        p < self.entries.len() && id_same(self.entries[p].0, id)
    }

    /// The object under `id`.
    pub fn get(&self, id: ObjectId) -> (r: Option<&Object>)
        requires
            self.wf(),
        ensures
            match r {
                Some(o) => lookup(self@, id) == Some(o@),
                None => lookup(self@, id).is_none(),
            },
    {
        let p = self.search(id);
        if p < self.entries.len() && id_same(self.entries[p].0, id) {
            Some(&self.entries[p].1)
        } else {
            None
        }
    }

    /// The object under `id`, to be changed in place.
    pub fn get_mut(&mut self, id: ObjectId) -> (r: Option<&mut Object>)
        requires
            old(self).wf(),
        ensures
            match r {
                Some(o) => lookup(old(self)@, id) == Some(o@) && final(self)@ == table_with(
                    old(self)@,
                    id,
                    final(o)@,
                ) && final(self).wf(),
                None => lookup(old(self)@, id).is_none() && final(self)@ == old(self)@,
            },
    {
        let p = self.search(id);
        if p < self.entries.len() && id_same(self.entries[p].0, id) {
            Some(&mut self.entries[p].1)
        } else {
            None
        }
    }

    /// Puts `object` under `id` and returns the object that was there.
    pub fn insert(&mut self, id: ObjectId, object: Object) -> (r: Option<Object>)
        requires
            old(self).wf(),
        ensures
            final(self).wf(),
            final(self)@ == table_with(old(self)@, id, object@),
            match r {
                Some(o) => lookup(old(self)@, id) == Some(o@),
                None => lookup(old(self)@, id).is_none(),
            },
    {
        let p = self.search(id);
        if p < self.entries.len() && id_same(self.entries[p].0, id) {
            let mut held = object;
            std::mem::swap(&mut held, &mut self.entries[p].1);
            proof {
                assert(self@ =~= old(self)@.update(p as int, (id, object@)));
            }
            Some(held)
        } else {
            self.entries.insert(p, (id, object));
            proof {
                assert(self@ =~= old(self)@.insert(p as int, (id, object@)));
                assert forall|i: int, j: int| 0 <= i < j < self@.len() implies id_lt(
                    #[trigger] self@[i].0,
                    #[trigger] self@[j].0,
                ) by {
                    let a = if i < p { i } else { i - 1 };
                    let b = if j < p { j } else { j - 1 };
                    if i != p && j != p {
                        assert(id_lt(old(self)@[a].0, old(self)@[b].0));
                    } else if i == p {
                        assert(!id_lt(old(self)@[b].0, id));
                        assert(old(self)@[b].0 != id);
                    } else {
                        assert(id_lt(old(self)@[a].0, id));
                    }
                }
            }
            None
        }
    }

    /// Takes out the object under `id` and returns it.
    pub fn remove(&mut self, id: ObjectId) -> (r: Option<Object>)
        requires
            old(self).wf(),
        ensures
            final(self).wf(),
            final(self)@ == without_key(old(self)@, id),
            match r {
                Some(o) => lookup(old(self)@, id) == Some(o@),
                None => lookup(old(self)@, id).is_none(),
            },
    {
        let p = self.search(id);
        if p < self.entries.len() && id_same(self.entries[p].0, id) {
            let gone = self.entries.remove(p);
            proof {
                lemma_without_at(old(self)@, id, p as int);
                assert(self@ =~= old(self)@.remove(p as int));
                assert forall|i: int, j: int| 0 <= i < j < self@.len() implies id_lt(
                    #[trigger] self@[i].0,
                    #[trigger] self@[j].0,
                ) by {
                    let a = if i < p { i } else { i + 1 };
                    let b = if j < p { j } else { j + 1 };
                    assert(id_lt(old(self)@[a].0, old(self)@[b].0));
                }
            }
            Some(gone.1)
        } else {
            proof {
                lemma_without_absent(self@, id);
            }
            None
        }
    }
}

impl Clone for ObjectTable {
    fn clone(&self) -> (r: Self)
        ensures
            r@ == self@,
    {
        let mut out: Vec<(ObjectId, Object)> = Vec::new();
        let mut i: usize = 0;
        while i < self.entries.len()
            invariant
                i <= self.entries.len(),
                out@.len() == i,
                forall|j: int|
                    0 <= j < i ==> out@[j].0 == self.entries@[j].0 && out@[j].1@
                        == self.entries@[j].1@,
            decreases self.entries.len() - i,
        {
            out.push((self.entries[i].0, self.entries[i].1.clone()));
            i += 1;
        }
        proof {
            assert(table_of(out@) =~= table_of(self.entries@));
        }
        ObjectTable { entries: out }
    }
}

/// Filtering an ascending table leaves an ascending table.
pub proof fn lemma_filter_ascending(t: Table, keep: spec_fn((ObjectId, Value)) -> bool)
    requires
        ascending(t),
    ensures
        ascending(t.filter(keep)),
{
    lemma_filter_ascending_prefix(t, keep, t.len() as int);
    assert(t.take(t.len() as int) =~= t);
}

/// Filtering a prefix of an ascending table leaves an ascending table.
proof fn lemma_filter_ascending_prefix(t: Table, keep: spec_fn((ObjectId, Value)) -> bool, n: int)
    requires
        ascending(t),
        0 <= n <= t.len(),
    ensures
        ascending(t.take(n).filter(keep)),
    decreases n,
{
    if n == 0 {
        lemma_filter_none(t, keep);
    } else {
        lemma_filter_ascending_prefix(t, keep, n - 1);
        lemma_filter_step(t, keep, n - 1);
        let f = t.take(n - 1).filter(keep);
        if keep(t[n - 1]) {
            let g = f.push(t[n - 1]);
            assert forall|i: int, j: int| 0 <= i < j < g.len() implies id_lt(
                #[trigger] g[i].0,
                #[trigger] g[j].0,
            ) by {
                if j < f.len() {
                    assert(id_lt(f[i].0, f[j].0));
                } else {
                    let head = t.take(n - 1);
                    lemma_filter_member(head, keep, i);
                    let w = choose|w: int| 0 <= w < head.len() && head[w] == f[i];
                    assert(head[w] == t[w]);
                    assert(id_lt(t[w].0, t[n - 1].0));
                }
            }
        }
    }
}

/// In a filtered ascending table, an identity whose entry passes the filter
/// has the value it had, and any other identity has none.
pub proof fn lemma_filter_lookup(t: Table, keep: spec_fn((ObjectId, Value)) -> bool, id: ObjectId)
    requires
        ascending(t),
    ensures
        lookup(t.filter(keep), id) == match lookup(t, id) {
            Some(v) => if keep((id, v)) {
                Some(v)
            } else {
                None
            },
            None => None,
        },
{
    let f = t.filter(keep);
    lemma_filter_ascending(t, keep);
    if has_key(f, id) {
        let q = choose|q: int| 0 <= q < f.len() && (#[trigger] f[q]).0 == id;
        lemma_filter_member(t, keep, q);
        let p = choose|p: int| 0 <= p < t.len() && t[p] == f[q];
        lemma_lookup_at(t, p);
        lemma_lookup_at(f, q);
    } else if has_key(t, id) {
        lemma_first_exists(t, id);
        let p = first_index(t, id);
        if keep(t[p]) {
            t.lemma_filter_contains(keep, p);
            let q = choose|q: int| 0 <= q < f.len() && f[q] == t[p];
            assert(f[q].0 == id);
        }
    }
}

} // verus!
