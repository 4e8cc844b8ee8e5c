//! Taking the references to one object out of the containers that hold them.

use vstd::prelude::*;
use crate::model::{first_index, has_key, lemma_filter_member, lemma_filter_none, lemma_filter_step, lemma_first_exists, lemma_first_unique, lemma_lookup_same_keys, lookup, Entries, ObjectId, StreamValue, Value};
use crate::object::{entries_of, values_of, Object};
use crate::rewrite::{rewritten, rewritten_each, rewritten_values, Rewrite};
use crate::table::id_same;

verus! {

/// `v` with every array element and every dictionary entry taken out, at any
/// depth, whose value is a reference to `id`.
pub open spec fn scrubbed(v: Value, id: ObjectId) -> Value
    decreases v,
{
    match v {
        Value::Array(a) => Value::Array(items_kept(scrubbed_each(a, id), id)),
        Value::Dictionary(d) => Value::Dictionary(entries_kept(scrubbed_values(d, id), id)),
        Value::Stream(s) => Value::Stream(
            StreamValue {
                dict: entries_kept(scrubbed_values(s.dict, id), id),
                content: s.content,
                allows_compression: s.allows_compression,
            },
        ),
        _ => v,
    }
}

/// The elements of `a`, each scrubbed.
pub open spec fn scrubbed_each(a: Seq<Value>, id: ObjectId) -> Seq<Value>
    decreases a,
{
    Seq::new(
        a.len(),
        |i: int|
            if 0 <= i < a.len() {
                scrubbed(a[i], id)
            } else {
                Value::Null
            },
    )
}

/// The entries of `d`, each value scrubbed.
pub open spec fn scrubbed_values(d: Entries, id: ObjectId) -> Entries
    decreases d,
{
    Seq::new(
        d.len(),
        |i: int|
            if 0 <= i < d.len() {
                (d[i].0, scrubbed(d[i].1, id))
            } else {
                (Seq::empty(), Value::Null)
            },
    )
}

/// The entries of `d` whose value is no reference to `id`, each value scrubbed.
pub open spec fn scrubbed_entries(d: Entries, id: ObjectId) -> Entries {
    entries_kept(scrubbed_values(d, id), id)
}

/// The elements of `a` that are no reference to `id`.
pub open spec fn items_kept(a: Seq<Value>, id: ObjectId) -> Seq<Value> {
    a.filter(|v: Value| v != Value::Reference(id))
}

/// The entries of `d` whose value is no reference to `id`.
pub open spec fn entries_kept(d: Entries, id: ObjectId) -> Entries {
    d.filter(|e: (Seq<u8>, Value)| e.1 != Value::Reference(id))
}

/// Some array element or dictionary entry inside `v`, at any depth, is a
/// reference to `id`.
pub open spec fn holds_ref(v: Value, id: ObjectId) -> bool
    decreases v,
{
    match v {
        Value::Array(a) => exists|i: int|
            0 <= i < a.len() && ((#[trigger] a[i]) == Value::Reference(id) || holds_ref(a[i], id)),
        Value::Dictionary(d) => entries_hold_ref(d, id),
        Value::Stream(s) => entries_hold_ref(s.dict, id),
        _ => false,
    }
}

/// Some entry of `d` is a reference to `id`, or holds one at any depth.
pub open spec fn entries_hold_ref(d: Entries, id: ObjectId) -> bool
    decreases d,
{
    exists|i: int|
        0 <= i < d.len() && ((#[trigger] d[i]).1 == Value::Reference(id) || holds_ref(d[i].1, id))
}

/// `v` is a reference to `id`, or holds one at any depth.
pub open spec fn refers_to(v: Value, id: ObjectId) -> bool {
    v == Value::Reference(id) || holds_ref(v, id)
}

/// What one more element adds to the elements kept of a prefix.
proof fn lemma_items_kept_step(a: Seq<Value>, id: ObjectId, i: int)
    requires
        0 <= i < a.len(),
    ensures
        items_kept(a.take(i + 1), id) == if a[i] != Value::Reference(id) {
            items_kept(a.take(i), id).push(a[i])
        } else {
            items_kept(a.take(i), id)
        },
{
    lemma_filter_step(a, |v: Value| v != Value::Reference(id), i);
}

/// Nothing is kept of the empty prefix.
proof fn lemma_items_kept_none(a: Seq<Value>, id: ObjectId)
    ensures
        items_kept(a.take(0), id) == Seq::<Value>::empty(),
{
    lemma_filter_none(a, |v: Value| v != Value::Reference(id));
}

/// What one more entry adds to the entries kept of a prefix.
proof fn lemma_entries_kept_step(d: Entries, id: ObjectId, i: int)
    requires
        0 <= i < d.len(),
    ensures
        entries_kept(d.take(i + 1), id) == if d[i].1 != Value::Reference(id) {
            entries_kept(d.take(i), id).push(d[i])
        } else {
            entries_kept(d.take(i), id)
        },
{
    lemma_filter_step(d, |e: (Seq<u8>, Value)| e.1 != Value::Reference(id), i);
}

/// No entry is kept of the empty prefix.
proof fn lemma_entries_kept_none(d: Entries, id: ObjectId)
    ensures
        entries_kept(d.take(0), id) == Seq::<(Seq<u8>, Value)>::empty(),
{
    lemma_filter_none(d, |e: (Seq<u8>, Value)| e.1 != Value::Reference(id));
}

/// Scrubbing leaves no reference to `id` in any array or dictionary of a
/// value.
pub proof fn lemma_scrubbed_clean(v: Value, id: ObjectId)
    ensures
        !holds_ref(scrubbed(v, id), id),
    decreases v,
{
    match v {
        Value::Array(a) => {
            let m = scrubbed_each(a, id);
            let k = items_kept(m, id);
            assert forall|i: int| 0 <= i < k.len() implies !refers_to(#[trigger] k[i], id) by {
                lemma_filter_member(m, |v: Value| v != Value::Reference(id), i);
                let j = choose|j: int| 0 <= j < m.len() && m[j] == k[i];
                lemma_scrubbed_clean(a[j], id);
            }
        },
        Value::Dictionary(d) => {
            lemma_scrubbed_entries_clean(d, id);
        },
        Value::Stream(s) => {
            lemma_scrubbed_entries_clean(s.dict, id);
        },
        _ => {},
    }
}

/// Scrubbing leaves no reference to `id` among the entries of a dictionary,
/// at any depth.
pub proof fn lemma_scrubbed_entries_clean(d: Entries, id: ObjectId)
    ensures
        !entries_hold_ref(scrubbed_entries(d, id), id),
    decreases d,
{
    let m = scrubbed_values(d, id);
    let k = entries_kept(m, id);
    assert forall|i: int| 0 <= i < k.len() implies !refers_to((#[trigger] k[i]).1, id) by {
        lemma_filter_member(m, |e: (Seq<u8>, Value)| e.1 != Value::Reference(id), i);
        let j = choose|j: int| 0 <= j < m.len() && m[j] == k[i];
        lemma_scrubbed_clean(d[j].1, id);
    }
}

/// Whether `object` is a reference to `id`.
pub fn is_reference_to(object: &Object, id: ObjectId) -> (r: bool)
    ensures
        r == (object@ == Value::Reference(id)),
{
    match object {
        Object::Reference(r) => id_same(*r, id),
        _ => false,
    }
}

/// Scrubbing a dictionary keeps, under each name, the value that was found
/// there, scrubbed, unless that value was a reference to `id`; and it puts
/// nothing under a name that had nothing.
pub proof fn lemma_scrubbed_lookup_entry(d: Entries, id: ObjectId, key: Seq<u8>)
    ensures
        match lookup(d, key) {
            Some(v) => v != Value::Reference(id) ==> lookup(scrubbed_entries(d, id), key) == Some(
                scrubbed(v, id),
            ),
            None => lookup(scrubbed_entries(d, id), key).is_none(),
        },
{
    let m = scrubbed_values(d, id);
    lemma_lookup_same_keys(d, m, key);
    if has_key(d, key) {
        lemma_first_exists(d, key);
    }
    lemma_kept_lookup(m, id, key, m.len() as int);
    assert(m.take(m.len() as int) =~= m);
}

/// Among the first `n` entries, taking out the references to `id` keeps
/// what is found under `key`, unless that is such a reference.
proof fn lemma_kept_lookup(m: Entries, id: ObjectId, key: Seq<u8>, n: int)
    requires
        0 <= n <= m.len(),
    ensures
        match lookup(m.take(n), key) {
            Some(v) => v != Value::Reference(id) ==> lookup(entries_kept(m.take(n), id), key)
                == Some(v),
            None => lookup(entries_kept(m.take(n), id), key).is_none(),
        },
    decreases n,
{
    let head = m.take(n);
    let kept = entries_kept(head, id);
    if n == 0 {
        lemma_entries_kept_none(m, id);
    } else {
        let before = m.take(n - 1);
        let kept_before = entries_kept(before, id);
        lemma_kept_lookup(m, id, key, n - 1);
        lemma_entries_kept_step(m, id, n - 1);
        assert(head =~= before.push(m[n - 1]));
        lemma_lookup_push(before, m[n - 1], key);
        if m[n - 1].1 != Value::Reference(id) {
            lemma_lookup_push(kept_before, m[n - 1], key);
        }
    }
}

/// What is found under `key` after one more entry: what was found before
/// or, where nothing was, the new entry if it has the key.
pub proof fn lemma_lookup_push(s: Entries, e: (Seq<u8>, Value), key: Seq<u8>)
    ensures
        lookup(s.push(e), key) == match lookup(s, key) {
            Some(v) => Some(v),
            None => if e.0 == key {
                Some(e.1)
            } else {
                None
            },
        },
{
    let t = s.push(e);
    if has_key(s, key) {
        lemma_first_exists(s, key);
        let i = first_index(s, key);
        assert(t[i] == s[i]);
        assert forall|j: int| 0 <= j < i implies (#[trigger] t[j]).0 != key by {
            assert(s[j].0 != key);
        }
        lemma_first_unique(t, key, i);
    } else if e.0 == key {
        let n = s.len() as int;
        assert(t[n] == e);
        assert forall|j: int| 0 <= j < n implies (#[trigger] t[j]).0 != key by {
            assert(s[j].0 != key);
        }
        lemma_first_unique(t, key, n);
    } else {
        if has_key(t, key) {
            let w = choose|w: int| 0 <= w < t.len() && (#[trigger] t[w]).0 == key;
            assert(s[w].0 == key);
        }
    }
}

/// `v` without its own elements or entries that are references to `id`.
pub open spec fn stripped(v: Value, id: ObjectId) -> Value {
    match v {
        Value::Array(a) => Value::Array(items_kept(a, id)),
        Value::Dictionary(d) => Value::Dictionary(entries_kept(d, id)),
        Value::Stream(s) => Value::Stream(
            StreamValue {
                dict: entries_kept(s.dict, id),
                content: s.content,
                allows_compression: s.allows_compression,
            },
        ),
        _ => v,
    }
}

/// The change that takes the references to one object out of the array or
/// dictionary it is applied to.
pub struct Scrub {
    /// The object whose references are taken out.
    pub id: ObjectId,
}

impl Rewrite for Scrub {
    open spec fn image(&self, v: Value) -> Value {
        stripped(v, self.id)
    }

    fn apply(&self, object: &mut Object) {
        match object {
            Object::Array(a) => {
                strip_items(a, self.id);
            },
            Object::Dictionary(d) => {
                strip_entries(&mut d.entries, self.id);
            },
            Object::Stream(s) => {
                strip_entries(&mut s.dict.entries, self.id);
            },
            _ => {},
        }
    }
}

/// The rewrite pass with `Scrub` scrubs: it takes every reference to the
/// object out of every array and dictionary, at any depth.
pub proof fn lemma_scrub_pass(r: &Scrub, v: Value)
    ensures
        rewritten(r, v) == scrubbed(v, r.id),
    decreases v,
{
    match v {
        Value::Array(a) => {
            assert forall|i: int| 0 <= i < a.len() implies rewritten_each(r, a)[i] == scrubbed_each(
                a,
                r.id,
            )[i] by {
                lemma_scrub_pass(r, a[i]);
            }
            assert(rewritten_each(r, a) =~= scrubbed_each(a, r.id));
        },
        Value::Dictionary(d) => {
            lemma_scrub_pass_entries(r, d);
        },
        Value::Stream(s) => {
            lemma_scrub_pass_entries(r, s.dict);
        },
        _ => {},
    }
}

/// The rewrite pass with `Scrub` scrubs the value of each entry.
pub proof fn lemma_scrub_pass_entries(r: &Scrub, d: Entries)
    ensures
        rewritten_values(r, d) == scrubbed_values(d, r.id),
    decreases d,
{
    assert forall|i: int| 0 <= i < d.len() implies rewritten_values(r, d)[i] == scrubbed_values(
        d,
        r.id,
    )[i] by {
        lemma_scrub_pass(r, d[i].1);
    }
    assert(rewritten_values(r, d) =~= scrubbed_values(d, r.id));
}

/// Takes the references to `id` out of `items`.
pub fn strip_items(items: &mut Vec<Object>, id: ObjectId)
    ensures
        values_of(final(items)@) == items_kept(values_of(old(items)@), id),
{
    let ghost before = values_of(items@);
    let mut i: usize = 0;
    let mut j: Ghost<int> = Ghost(0);
    proof {
        lemma_items_kept_none(before, id);
        assert(values_of(items@.take(0)) =~= Seq::<Value>::empty());
    }
    while i < items.len()
        invariant
            0 <= j@ <= before.len(),
            i <= items.len(),
            items.len() - i == before.len() - j@,
            forall|k: int| i <= k < items.len() ==> items@[k]@ == before[k - i + j@],
            values_of(items@.take(i as int)) == items_kept(before.take(j@), id),
        decreases items.len() - i,
    {
        proof {
            lemma_items_kept_step(before, id, j@);
            assert(items@[i as int]@ == before[j@]);
        }
        let ghost prev = items@;
        if is_reference_to(&items[i], id) {
            items.remove(i);
            proof {
                assert(items@.take(i as int) =~= prev.take(i as int));
                j@ = j@ + 1;
            }
        } else {
            proof {
                assert(values_of(items@.take(i + 1)) =~= values_of(prev.take(i as int)).push(
                    items@[i as int]@,
                ));
                j@ = j@ + 1;
            }
            i += 1;
        }
    }
    proof {
        assert(items@.take(i as int) =~= items@);
        assert(before.take(j@) =~= before);
    }
}

/// Takes the entries that are references to `id` out of `entries`.
pub fn strip_entries(entries: &mut Vec<(Vec<u8>, Object)>, id: ObjectId)
    ensures
        entries_of(final(entries)@) == entries_kept(entries_of(old(entries)@), id),
{
    let ghost before = entries_of(entries@);
    let mut i: usize = 0;
    let mut j: Ghost<int> = Ghost(0);
    proof {
        lemma_entries_kept_none(before, id);
        assert(entries_of(entries@.take(0)) =~= Seq::<(Seq<u8>, Value)>::empty());
    }
    while i < entries.len()
        invariant
            0 <= j@ <= before.len(),
            i <= entries.len(),
            entries.len() - i == before.len() - j@,
            forall|k: int|
                i <= k < entries.len() ==> (entries@[k].0@, entries@[k].1@) == before[k - i + j@],
            entries_of(entries@.take(i as int)) == entries_kept(before.take(j@), id),
        decreases entries.len() - i,
    {
        proof {
            lemma_entries_kept_step(before, id, j@);
            assert((entries@[i as int].0@, entries@[i as int].1@) == before[j@]);
        }
        let ghost prev = entries@;
        if is_reference_to(&entries[i].1, id) {
            entries.remove(i);
            proof {
                assert(entries@.take(i as int) =~= prev.take(i as int));
                j@ = j@ + 1;
            }
        } else {
            proof {
                assert(entries_of(entries@.take(i + 1)) =~= entries_of(prev.take(i as int)).push(
                    (entries@[i as int].0@, entries@[i as int].1@),
                ));
                j@ = j@ + 1;
            }
            i += 1;
        }
    }
    proof {
        assert(entries@.take(i as int) =~= entries@);
        assert(before.take(j@) =~= before);
    }
}

} // verus!
