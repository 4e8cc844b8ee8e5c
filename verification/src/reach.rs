//! Which objects the trailer reaches through chains of references.

use vstd::prelude::*;
use crate::model::{first_index, has_key, lemma_first_exists, lookup, DocumentValue, ObjectId, Value};
use crate::object::{entries_of, values_of, Object};
use crate::scrub::{entries_hold_ref, holds_ref, refers_to};

verus! {

/// The table holds an object under `from`, and that object refers to `to`.
pub open spec fn edge(doc: DocumentValue, from: ObjectId, to: ObjectId) -> bool {
    match lookup(doc.objects, from) {
        Some(v) => refers_to(v, to),
        None => false,
    }
}

/// `path` starts at an identity that the trailer holds, and each of its
/// identities names an object that refers to the next.
pub open spec fn is_chain(doc: DocumentValue, path: Seq<ObjectId>) -> bool {
    &&& path.len() > 0
    &&& entries_hold_ref(doc.trailer, path[0])
    &&& forall|k: int| 0 <= k < path.len() - 1 ==> edge(doc, #[trigger] path[k], path[k + 1])
}

/// Some chain of references leads from the trailer to `id`.
pub open spec fn reachable(doc: DocumentValue, id: ObjectId) -> bool {
    exists|path: Seq<ObjectId>| #[trigger] is_chain(doc, path) && path.last() == id
}

/// A chain that ends at an object which refers to `to` goes on to `to`.
pub proof fn lemma_chain_extends(doc: DocumentValue, from: ObjectId, to: ObjectId)
    requires
        reachable(doc, from),
        edge(doc, from, to),
    ensures
        reachable(doc, to),
{
    let path = choose|path: Seq<ObjectId>| #[trigger] is_chain(doc, path) && path.last() == from;
    let longer = path.push(to);
    assert forall|k: int| 0 <= k < longer.len() - 1 implies edge(
        doc,
        #[trigger] longer[k],
        longer[k + 1],
    ) by {
        if k < path.len() - 1 {
            assert(longer[k] == path[k]);
            assert(edge(doc, path[k], path[k + 1]));
        }
    }
    assert(is_chain(doc, longer));
}

/// What the trailer holds a reference to is reachable.
pub proof fn lemma_chain_starts(doc: DocumentValue, id: ObjectId)
    requires
        entries_hold_ref(doc.trailer, id),
    ensures
        reachable(doc, id),
{
    let path = seq![id];
    assert(is_chain(doc, path));
}

/// The flags `marks`, one for each place of the table, are closed: what the
/// trailer holds is flagged, and so is what a flagged object refers to.
pub open spec fn closed_marks(doc: DocumentValue, marks: Seq<bool>) -> bool {
    &&& marks.len() == doc.objects.len()
    &&& forall|i: int|
        0 <= i < marks.len() && entries_hold_ref(doc.trailer, (#[trigger] doc.objects[i]).0)
            ==> marks[i]
    &&& forall|i: int, j: int|
        0 <= i < marks.len() && 0 <= j < marks.len() && marks[i] && refers_to(
            (#[trigger] doc.objects[i]).1,
            (#[trigger] doc.objects[j]).0,
        ) ==> marks[j]
}

/// Closed flags are set at every object of the table that a chain meets.
proof fn lemma_closed_marks_chain(doc: DocumentValue, marks: Seq<bool>, path: Seq<ObjectId>, k: int, i: int)
    requires
        doc.wf(),
        closed_marks(doc, marks),
        is_chain(doc, path),
        0 <= k < path.len(),
        0 <= i < doc.objects.len(),
        doc.objects[i].0 == path[k],
    ensures
        marks[i],
    decreases k,
{
    if k > 0 {
        assert(edge(doc, path[k - 1], path[k - 1 + 1]));
        let from = path[k - 1];
        assert(has_key(doc.objects, from));
        lemma_first_exists(doc.objects, from);
        let p = first_index(doc.objects, from);
        lemma_closed_marks_chain(doc, marks, path, k - 1, p);
        assert(refers_to(doc.objects[p].1, doc.objects[i].0));
    }
}

/// Closed flags are set at every reachable object of the table.
pub proof fn lemma_closed_marks_complete(doc: DocumentValue, marks: Seq<bool>, i: int)
    requires
        doc.wf(),
        closed_marks(doc, marks),
        0 <= i < doc.objects.len(),
        reachable(doc, doc.objects[i].0),
    ensures
        marks[i],
{
    let path = choose|path: Seq<ObjectId>| #[trigger]
        is_chain(doc, path) && path.last() == doc.objects[i].0;
    lemma_closed_marks_chain(doc, marks, path, path.len() - 1, i);
}

/// Adds to `out` the identities that `object` refers to.
pub fn collect_references(object: &Object, out: &mut Vec<ObjectId>)
    ensures
        forall|id: ObjectId|
            final(out)@.contains(id) <==> old(out)@.contains(id) || refers_to(object@, id),
    decreases object,
{
    match object {
        Object::Reference(id) => {
            out.push(*id);
            proof {
                assert forall|x: ObjectId| out@.contains(x) <==> old(out)@.contains(x) || x == *id by {
                    if old(out)@.contains(x) {
                        let w = choose|w: int| 0 <= w < old(out)@.len() && old(out)@[w] == x;
                        assert(out@[w] == x);
                    }
                    if x == *id {
                        assert(out@[out@.len() - 1] == x);
                    }
                }
            }
        },
        Object::Array(a) => {
            let mut i: usize = 0;
            while i < a.len()
                invariant
                    i <= a.len(),
                    *object == Object::Array(*a),
                    forall|id: ObjectId|
                        out@.contains(id) <==> old(out)@.contains(id) || exists|k: int|
                            0 <= k < i && refers_to(#[trigger] values_of(a@)[k], id),
                decreases a.len() - i,
            {
                proof {
                    assert(decreases_to!(*object => object->Array_0));
                }
                let ghost before = out@;
                collect_references(&a[i], out);
                proof {
                    assert forall|id: ObjectId|
                        out@.contains(id) <==> old(out)@.contains(id) || exists|k: int|
                            0 <= k < i + 1 && refers_to(#[trigger] values_of(a@)[k], id) by {
                        if refers_to(a@[i as int]@, id) {
                            assert(refers_to(values_of(a@)[i as int], id));
                        }
                    }
                }
                i += 1;
            }
            proof {
                let va = values_of(a@);
                assert forall|id: ObjectId|
                    out@.contains(id) <==> old(out)@.contains(id) || refers_to(object@, id) by {
                    if refers_to(object@, id) {
                        let w = choose|w: int|
                            0 <= w < va.len() && ((#[trigger] va[w]) == Value::Reference(id)
                                || holds_ref(va[w], id));
                        assert(refers_to(va[w], id));
                    }
                    if exists|k: int| 0 <= k < a.len() && refers_to(#[trigger] va[k], id) {
                        let w = choose|k: int| 0 <= k < a.len() && refers_to(#[trigger] va[k], id);
                        assert(va[w] == Value::Reference(id) || holds_ref(va[w], id));
                    }
                }
            }
        },
        Object::Dictionary(d) => {
            proof {
                assert(decreases_to!(*object => object->Dictionary_0));
                assert(decreases_to!(object->Dictionary_0 => object->Dictionary_0.entries));
            }
            collect_entry_references(&d.entries, out);
        },
        Object::Stream(s) => {
            proof {
                assert(decreases_to!(*object => object->Stream_0));
                assert(decreases_to!(object->Stream_0 => object->Stream_0.dict));
                assert(decreases_to!(object->Stream_0.dict => object->Stream_0.dict.entries));
            }
            collect_entry_references(&s.dict.entries, out);
        },
        _ => {},
    }
}

/// Adds to `out` the identities that the values of `entries` refer to.
pub fn collect_entry_references(entries: &Vec<(Vec<u8>, Object)>, out: &mut Vec<ObjectId>)
    ensures
        forall|id: ObjectId|
            final(out)@.contains(id) <==> old(out)@.contains(id) || entries_hold_ref(
                entries_of(entries@),
                id,
            ),
    decreases entries,
{
    let mut i: usize = 0;
    while i < entries.len()
        invariant
            i <= entries.len(),
            forall|id: ObjectId|
                out@.contains(id) <==> old(out)@.contains(id) || exists|k: int|
                    0 <= k < i && refers_to((#[trigger] entries_of(entries@)[k]).1, id),
        decreases entries.len() - i,
    {
        collect_references(&entries[i].1, out);
        proof {
            assert forall|id: ObjectId|
                out@.contains(id) <==> old(out)@.contains(id) || exists|k: int|
                    0 <= k < i + 1 && refers_to((#[trigger] entries_of(entries@)[k]).1, id) by {
                if refers_to(entries@[i as int].1@, id) {
                    assert(refers_to(entries_of(entries@)[i as int].1, id));
                }
            }
        }
        i += 1;
    }
    proof {
        let ve = entries_of(entries@);
        assert forall|id: ObjectId|
            out@.contains(id) <==> old(out)@.contains(id) || entries_hold_ref(ve, id) by {
            if entries_hold_ref(ve, id) {
                let w = choose|w: int|
                    0 <= w < ve.len() && ((#[trigger] ve[w]).1 == Value::Reference(id) || holds_ref(
                        ve[w].1,
                        id,
                    ));
                assert(refers_to(ve[w].1, id));
            }
            if exists|k: int| 0 <= k < ve.len() && refers_to((#[trigger] ve[k]).1, id) {
                let w = choose|k: int| 0 <= k < ve.len() && refers_to((#[trigger] ve[k]).1, id);
                assert(ve[w].1 == Value::Reference(id) || holds_ref(ve[w].1, id));
            }
        }
    }
}

} // verus!
