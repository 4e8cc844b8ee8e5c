//! The rewrite pass: one change applied to every value of the document.

use vstd::prelude::*;
use crate::document::Document;
use crate::model::{DocumentValue, Entries, StreamValue, Table, Value};
use crate::object::{entries_of, values_of, Object};

verus! {

/// A change to single values.
pub trait Rewrite {
    /// What the change makes of `v`.
    spec fn image(&self, v: Value) -> Value;

    /// Changes `object` in place.
    fn apply(&self, object: &mut Object)
        ensures
            final(object)@ == self.image(old(object)@),
    ;
}

/// `v` after the pass: the change is applied to each element of each array
/// and to each value of each dictionary inside `v`, the innermost first, and
/// then to `v` itself.
pub open spec fn rewritten<R: Rewrite>(r: &R, v: Value) -> Value
    decreases v,
{
    r.image(
        match v {
            Value::Array(a) => Value::Array(rewritten_each(r, a)),
            Value::Dictionary(d) => Value::Dictionary(rewritten_values(r, d)),
            Value::Stream(s) => Value::Stream(
                StreamValue {
                    dict: rewritten_values(r, s.dict),
                    content: s.content,
                    allows_compression: s.allows_compression,
                },
            ),
            _ => v,
        },
    )
}

/// The elements of `a`, each after the pass.
pub open spec fn rewritten_each<R: Rewrite>(r: &R, a: Seq<Value>) -> Seq<Value>
    decreases a,
{
    Seq::new(
        a.len(),
        |i: int|
            if 0 <= i < a.len() {
                rewritten(r, a[i])
            } else {
                Value::Null
            },
    )
}

/// The entries of `d`, each value after the pass.
pub open spec fn rewritten_values<R: Rewrite>(r: &R, d: Entries) -> Entries
    decreases d,
{
    Seq::new(
        d.len(),
        |i: int|
            if 0 <= i < d.len() {
                (d[i].0, rewritten(r, d[i].1))
            } else {
                (Seq::empty(), Value::Null)
            },
    )
}

/// The table with each value after the pass.
pub open spec fn rewritten_table<R: Rewrite>(r: &R, t: Table) -> Table {
    Seq::new(t.len(), |i: int| (t[i].0, rewritten(r, t[i].1)))
}

/// The document after the pass: the change is applied to every value in the
/// trailer and to every object of the table, with every value inside them.
/// The identities, the names in the trailer and the counter stay.
pub open spec fn rewritten_document<R: Rewrite>(r: &R, doc: DocumentValue) -> DocumentValue {
    DocumentValue {
        objects: rewritten_table(r, doc.objects),
        trailer: rewritten_values(r, doc.trailer),
        max_id: doc.max_id,
    }
}

/// Applies the change to every value inside `object`, and to `object`.
pub fn rewrite<R: Rewrite>(object: &mut Object, r: &R)
    ensures
        final(object)@ == rewritten(r, old(object)@),
    decreases *old(object),
{
    match object {
        Object::Array(a) => {
            proof {
                assert(decreases_to!(*old(object) => old(object)->Array_0));
            }
            rewrite_items(a, r);
        },
        Object::Dictionary(d) => {
            proof {
                assert(decreases_to!(*old(object) => old(object)->Dictionary_0));
                assert(decreases_to!(old(object)->Dictionary_0 => old(object)->Dictionary_0.entries));
            }
            rewrite_entries(&mut d.entries, r);
        },
        Object::Stream(s) => {
            proof {
                assert(decreases_to!(*old(object) => old(object)->Stream_0));
                assert(decreases_to!(old(object)->Stream_0 => old(object)->Stream_0.dict));
                assert(decreases_to!(old(object)->Stream_0.dict => old(object)->Stream_0.dict.entries));
            }
            rewrite_entries(&mut s.dict.entries, r);
        },
        _ => {},
    }
    proof {
        match *old(object) {
            Object::Array(a) => {
                assert(*object is Array);
            },
            Object::Dictionary(d) => {
                assert(*object is Dictionary);
            },
            Object::Stream(s) => {
                assert(*object is Stream);
                assert(object->Stream_0.content == s.content);
                assert(object->Stream_0.allows_compression == s.allows_compression);
            },
            _ => {},
        }
    }
    r.apply(object);
}

/// Applies the change to every value inside each of `items`, and to each.
pub fn rewrite_items<R: Rewrite>(items: &mut Vec<Object>, r: &R)
    ensures
        values_of(final(items)@) == rewritten_each(r, values_of(old(items)@)),
    decreases *old(items),
{
    let ghost before = items@;
    let n = items.len();
    let mut i: usize = 0;
    while i < n
        invariant
            i <= n,
            n == items.len(),
            n == before.len(),
            before == old(items)@,
            forall|k: int| i <= k < n ==> items@[k] == before[k],
            forall|k: int| 0 <= k < i ==> items@[k]@ == rewritten(r, before[k]@),
        decreases n - i,
    {
        proof {
            assert(decreases_to!(*old(items) => old(items)@));
            assert(decreases_to!(old(items)@ => old(items)@[i as int]));
        }
        rewrite(&mut items[i], r);
        i += 1;
    }
    proof {
        assert(values_of(items@) =~= rewritten_each(r, values_of(before)));
    }
}

/// Applies the change to every value inside the value of each of `entries`,
/// and to each of these values.
pub fn rewrite_entries<R: Rewrite>(entries: &mut Vec<(Vec<u8>, Object)>, r: &R)
    ensures
        entries_of(final(entries)@) == rewritten_values(r, entries_of(old(entries)@)),
    decreases *old(entries),
{
    let ghost before = entries@;
    let n = entries.len();
    let mut i: usize = 0;
    while i < n
        invariant
            i <= n,
            n == entries.len(),
            n == before.len(),
            before == old(entries)@,
            forall|k: int| i <= k < n ==> entries@[k] == before[k],
            forall|k: int|
                0 <= k < i ==> entries@[k].0 == before[k].0 && entries@[k].1@ == rewritten(
                    r,
                    before[k].1@,
                ),
        decreases n - i,
    {
        proof {
            assert(decreases_to!(*old(entries) => old(entries)@));
            assert(decreases_to!(old(entries)@ => old(entries)@[i as int]));
            assert(decreases_to!(old(entries)@[i as int] => old(entries)@[i as int].1));
        }
        rewrite(&mut entries[i].1, r);
        i += 1;
    }
    proof {
        assert(entries_of(entries@) =~= rewritten_values(r, entries_of(before)));
    }
}

impl Document {
    /// The rewrite pass: applies the change to every value in the trailer
    /// and in the table. What a reference names is not followed: each
    /// object is reached through the table.
    pub fn rewrite<R: Rewrite>(&mut self, r: &R)
        requires
            old(self).wf(),
        ensures
            final(self).wf(),
            final(self)@ == rewritten_document(r, old(self)@),
    {
        rewrite_entries(&mut self.trailer.entries, r);
        let n = self.objects.entries.len();
        let mut i: usize = 0;
        while i < n
            invariant
                i <= n,
                n == self.objects.entries.len(),
                n == old(self).objects.entries.len(),
                self.trailer@ == rewritten_values(r, old(self).trailer@),
                self.max_id == old(self).max_id,
                forall|k: int| 0 <= k < n ==> self.objects@[k].0 == old(self).objects@[k].0,
                forall|k: int|
                    0 <= k < i ==> self.objects@[k].1 == rewritten(r, old(self).objects@[k].1),
                forall|k: int| i <= k < n ==> self.objects@[k].1 == old(self).objects@[k].1,
            decreases n - i,
        {
            rewrite(&mut self.objects.entries[i].1, r);
            i += 1;
        }
        proof {
            assert(self.objects@ =~= rewritten_table(r, old(self).objects@));
        }
    }
}

} // verus!
