//! The mathematical model of a document: values as trees over sequences,
//! dictionaries and object tables as association lists.

use vstd::prelude::*;

verus! {

/// The identity of an indirect object: object number, then generation.
pub type ObjectId = (u32, u16);

/// How a byte string is written down.
#[derive(Clone, Copy, Debug, PartialEq, Eq, Structural)]
pub enum StringFormat {
    Literal,
    Hexadecimal,
}

/// The entries of a dictionary, in the order in which they were added.
pub type Entries = Seq<(Seq<u8>, Value)>;

/// The entries of an object table, ascending by identity.
pub type Table = Seq<(ObjectId, Value)>;

/// What an object is, as a mathematical value.
pub enum Value {
    Null,
    Boolean(bool),
    Integer(i64),
    /// The IEEE 754 binary64 bit pattern of the number.
    Real(u64),
    Name(Seq<u8>),
    String(Seq<u8>, StringFormat),
    Array(Seq<Value>),
    Dictionary(Entries),
    Stream(StreamValue),
    Reference(ObjectId),
}

/// What a stream is: its dictionary, its bytes as stored, and whether it may
/// be compressed.
pub struct StreamValue {
    pub dict: Entries,
    pub content: Seq<u8>,
    pub allows_compression: bool,
}

/// What a document is: its object table, its trailer and its counter of the
/// largest object number handed out.
pub struct DocumentValue {
    pub objects: Table,
    pub trailer: Entries,
    pub max_id: u32,
}

/// `a` comes before `b`: by object number, then by generation.
pub open spec fn id_lt(a: ObjectId, b: ObjectId) -> bool {
    a.0 < b.0 || (a.0 == b.0 && a.1 < b.1)
}

/// Some entry of `s` has the key `k`.
pub open spec fn has_key<K, V>(s: Seq<(K, V)>, k: K) -> bool {
    exists|i: int| 0 <= i < s.len() && (#[trigger] s[i]).0 == k
}

/// `i` is the place of the first entry of `s` with the key `k`.
pub open spec fn is_first<K, V>(s: Seq<(K, V)>, k: K, i: int) -> bool {
    &&& 0 <= i < s.len()
    &&& s[i].0 == k
    &&& forall|j: int| 0 <= j < i ==> (#[trigger] s[j]).0 != k
}

/// The place of the first entry of `s` with the key `k`, where there is one.
pub open spec fn first_index<K, V>(s: Seq<(K, V)>, k: K) -> int {
    choose|i: int| is_first(s, k, i)
}

/// The value under the key `k`: that of the first entry with this key.
pub open spec fn lookup<K, V>(s: Seq<(K, V)>, k: K) -> Option<V> {
    if has_key(s, k) {
        Some(s[first_index(s, k)].1)
    } else {
        None
    }
}

/// `s` with `v` under the key `k`: in place of the first entry with this key,
/// or at the end where there is none.
pub open spec fn with_entry<K, V>(s: Seq<(K, V)>, k: K, v: V) -> Seq<(K, V)> {
    if has_key(s, k) {
        s.update(first_index(s, k), (k, v))
    } else {
        s.push((k, v))
    }
}

/// `s` without its entries that have the key `k`.
pub open spec fn without_key<K, V>(s: Seq<(K, V)>, k: K) -> Seq<(K, V)> {
    s.filter(|e: (K, V)| e.0 != k)
}

/// The identities of a table, in its order.
pub open spec fn ids_of(t: Table) -> Seq<ObjectId> {
    Seq::new(t.len(), |i: int| t[i].0)
}

/// The identities of `t` ascend strictly.
pub open spec fn ascending(t: Table) -> bool {
    forall|i: int, j: int| 0 <= i < j < t.len() ==> id_lt(#[trigger] t[i].0, #[trigger] t[j].0)
}

/// Where an entry with the key `k` exists, a first one exists.
pub proof fn lemma_first_exists<K, V>(s: Seq<(K, V)>, k: K)
    requires
        has_key(s, k),
    ensures
        is_first(s, k, first_index(s, k)),
{
    let w = choose|i: int| 0 <= i < s.len() && (#[trigger] s[i]).0 == k;
    lemma_first_below(s, k, w);
}

/// Where the entry at place `w` has the key, a first entry with the key
/// stands at `w` or before it.
proof fn lemma_first_below<K, V>(s: Seq<(K, V)>, k: K, w: int)
    requires
        0 <= w < s.len(),
        s[w].0 == k,
    ensures
        exists|i: int| is_first(s, k, i),
    decreases w,
{
    if forall|j: int| 0 <= j < w ==> (#[trigger] s[j]).0 != k {
        assert(is_first(s, k, w));
    } else {
        let j = choose|j: int| 0 <= j < w && (#[trigger] s[j]).0 == k;
        lemma_first_below(s, k, j);
    }
}

/// The first entry with a key is the only place that `is_first` accepts.
pub proof fn lemma_first_unique<K, V>(s: Seq<(K, V)>, k: K, i: int)
    requires
        is_first(s, k, i),
    ensures
        has_key(s, k),
        first_index(s, k) == i,
{
    let f = first_index(s, k);
    assert(is_first(s, k, f));
    if f < i {
        assert(s[f].0 == k);
    } else if i < f {
        assert(s[i].0 == k);
    }
}

/// Two sequences with the same keys, place by place, hold a key at the same
/// first place.
pub proof fn lemma_lookup_same_keys<K, V, W>(s: Seq<(K, V)>, t: Seq<(K, W)>, k: K)
    requires
        s.len() == t.len(),
        forall|i: int| 0 <= i < s.len() ==> (#[trigger] s[i]).0 == t[i].0,
    ensures
        has_key(s, k) == has_key(t, k),
        has_key(s, k) ==> first_index(s, k) == first_index(t, k),
{
    if has_key(s, k) {
        lemma_first_exists(s, k);
        let i = first_index(s, k);
        assert(t[i].0 == k);
        assert forall|j: int| 0 <= j < i implies (#[trigger] t[j]).0 != k by {
            assert(s[j].0 != k);
        }
        lemma_first_unique(t, k, i);
    }
    if has_key(t, k) {
        let w = choose|i: int| 0 <= i < t.len() && (#[trigger] t[i]).0 == k;
        assert(s[w].0 == k);
    }
}

/// After `v` was put under `k`, the key `k` gives `v` and every other key
/// gives what it gave.
pub proof fn lemma_lookup_with_entry<K, V>(s: Seq<(K, V)>, k: K, v: V, q: K)
    ensures
        lookup(with_entry(s, k, v), q) == if q == k {
            Some(v)
        } else {
            lookup(s, q)
        },
{
    let t = with_entry(s, k, v);
    if has_key(s, k) {
        lemma_first_exists(s, k);
        let i = first_index(s, k);
        assert(t[i] == (k, v));
        lemma_lookup_same_keys(s, t, q);
        if has_key(s, q) {
            lemma_first_exists(s, q);
        }
    } else {
        let n = s.len() as int;
        assert(t[n] == (k, v));
        if q == k {
            assert forall|j: int| 0 <= j < n implies (#[trigger] t[j]).0 != k by {
                assert(s[j].0 != k);
            }
            lemma_first_unique(t, k, n);
        } else if has_key(s, q) {
            lemma_first_exists(s, q);
            let i = first_index(s, q);
            assert(t[i] == s[i]);
            assert forall|j: int| 0 <= j < i implies (#[trigger] t[j]).0 != q by {
                assert(s[j].0 != q);
            }
            lemma_first_unique(t, q, i);
        } else {
            if has_key(t, q) {
                let w = choose|w: int| 0 <= w < t.len() && (#[trigger] t[w]).0 == q;
                assert(w < n);
                assert(s[w].0 == q);
            }
        }
    }
}

/// Putting under `k` the value that is there changes nothing.
pub proof fn lemma_with_entry_same<K, V>(s: Seq<(K, V)>, k: K)
    requires
        has_key(s, k),
    ensures
        with_entry(s, k, lookup(s, k).unwrap()) == s,
{
    lemma_first_exists(s, k);
    assert(with_entry(s, k, lookup(s, k).unwrap()) =~= s);
}

/// What one more element adds to a filtered prefix.
pub proof fn lemma_filter_step<A>(s: Seq<A>, keep: spec_fn(A) -> bool, i: int)
    requires
        0 <= i < s.len(),
    ensures
        s.take(i + 1).filter(keep) == if keep(s[i]) {
            s.take(i).filter(keep).push(s[i])
        } else {
            s.take(i).filter(keep)
        },
{
    reveal(Seq::filter);
    assert(s.take(i + 1).drop_last() =~= s.take(i));
    assert(s.take(i + 1).last() == s[i]);
}

/// Filtering the empty prefix leaves nothing.
pub proof fn lemma_filter_none<A>(s: Seq<A>, keep: spec_fn(A) -> bool)
    ensures
        s.take(0).filter(keep) == Seq::<A>::empty(),
{
    reveal(Seq::filter);
    assert(s.take(0).filter(keep) =~= Seq::<A>::empty());
}

/// An element of a filtered sequence passes the filter and stands somewhere
/// in the sequence that was filtered.
pub proof fn lemma_filter_member<A>(s: Seq<A>, keep: spec_fn(A) -> bool, i: int)
    requires
        0 <= i < s.filter(keep).len(),
    ensures
        keep(s.filter(keep)[i]),
        exists|j: int| 0 <= j < s.len() && s[j] == s.filter(keep)[i],
{
    s.lemma_filter_pred(keep, i);
    let e = s.filter(keep)[i];
    assert(s.filter(keep).contains(e));
    s.lemma_filter_contains_rev(keep, e);
}

/// What one more entry adds to a prefix from which a key was taken out.
pub proof fn lemma_without_step<K, V>(s: Seq<(K, V)>, k: K, i: int)
    requires
        0 <= i < s.len(),
    ensures
        without_key(s.take(i + 1), k) == if s[i].0 != k {
            without_key(s.take(i), k).push(s[i])
        } else {
            without_key(s.take(i), k)
        },
{
    lemma_filter_step(s, |e: (K, V)| e.0 != k, i);
}

/// Taking a key out of the empty prefix leaves nothing.
pub proof fn lemma_without_none<K, V>(s: Seq<(K, V)>, k: K)
    ensures
        without_key(s.take(0), k) == Seq::<(K, V)>::empty(),
{
    lemma_filter_none(s, |e: (K, V)| e.0 != k);
}

/// A filter that every element passes changes nothing.
pub proof fn lemma_filter_all<A>(s: Seq<A>, keep: spec_fn(A) -> bool, n: int)
    requires
        0 <= n <= s.len(),
        forall|i: int| 0 <= i < s.len() ==> keep(#[trigger] s[i]),
    ensures
        s.take(n).filter(keep) == s.take(n),
    decreases n,
{
    if n == 0 {
        lemma_filter_none(s, keep);
        assert(s.take(0) =~= Seq::<A>::empty());
    } else {
        lemma_filter_all(s, keep, n - 1);
        lemma_filter_step(s, keep, n - 1);
        assert(s.take(n) =~= s.take(n - 1).push(s[n - 1]));
    }
}

/// A filter that no element passes leaves nothing.
pub proof fn lemma_filter_no<A>(s: Seq<A>, keep: spec_fn(A) -> bool, n: int)
    requires
        0 <= n <= s.len(),
        forall|i: int| 0 <= i < s.len() ==> !keep(#[trigger] s[i]),
    ensures
        s.take(n).filter(keep) == Seq::<A>::empty(),
    decreases n,
{
    if n == 0 {
        lemma_filter_none(s, keep);
    } else {
        lemma_filter_no(s, keep, n - 1);
        lemma_filter_step(s, keep, n - 1);
    }
}

/// Taking out a key that a sequence does not hold changes nothing.
pub proof fn lemma_without_absent<K, V>(t: Seq<(K, V)>, k: K)
    requires
        !has_key(t, k),
    ensures
        without_key(t, k) == t,
{
    lemma_without_absent_prefix(t, k, t.len() as int);
    assert(t.take(t.len() as int) =~= t);
}

/// Taking out a key that a sequence does not hold changes none of its
/// prefixes.
proof fn lemma_without_absent_prefix<K, V>(t: Seq<(K, V)>, k: K, n: int)
    requires
        !has_key(t, k),
        0 <= n <= t.len(),
    ensures
        without_key(t.take(n), k) == t.take(n),
    decreases n,
{
    if n == 0 {
        lemma_without_none(t, k);
        assert(t.take(0) =~= Seq::<(K, V)>::empty());
    } else {
        lemma_without_absent_prefix(t, k, n - 1);
        lemma_without_step(t, k, n - 1);
        assert(t[n - 1].0 != k);
        assert(t.take(n) =~= t.take(n - 1).push(t[n - 1]));
    }
}

} // verus!
