//! Collecting the objects that the trailer does not reach.

use vstd::prelude::*;
use crate::document::Document;
use crate::flags::{lemma_unset_update, new_flags, unset};
use crate::model::{ascending, ids_of, lemma_filter_all, lemma_filter_member, lemma_filter_no, lemma_filter_none, lemma_filter_step, lookup, DocumentValue, ObjectId, Table, Value};
use crate::object::Object;
use crate::reach::{closed_marks, collect_entry_references, collect_references, edge, is_chain, lemma_chain_extends, lemma_chain_starts, lemma_closed_marks_complete, reachable};
use crate::scrub::{entries_hold_ref, refers_to};
use crate::table::{id_same, lemma_filter_ascending, lemma_filter_lookup, lemma_lookup_at, table_of, ObjectTable};

verus! {

/// The entries of the table whose objects the trailer reaches.
pub open spec fn live_objects(doc: DocumentValue) -> Table {
    doc.objects.filter(|e: (ObjectId, Value)| reachable(doc, e.0))
}

/// The entries of the table whose objects the trailer does not reach.
pub open spec fn dead_objects(doc: DocumentValue) -> Table {
    doc.objects.filter(|e: (ObjectId, Value)| !reachable(doc, e.0))
}

/// The document without the objects that the trailer does not reach.
pub open spec fn pruned(doc: DocumentValue) -> DocumentValue {
    DocumentValue { objects: live_objects(doc), trailer: doc.trailer, max_id: doc.max_id }
}

/// What one more entry adds to the reached and to the unreached entries of
/// a prefix.
proof fn lemma_live_step(doc: DocumentValue, t: Table, i: int)
    requires
        0 <= i < t.len(),
    ensures
        t.take(i + 1).filter(|e: (ObjectId, Value)| reachable(doc, e.0)) == if reachable(
            doc,
            t[i].0,
        ) {
            t.take(i).filter(|e: (ObjectId, Value)| reachable(doc, e.0)).push(t[i])
        } else {
            t.take(i).filter(|e: (ObjectId, Value)| reachable(doc, e.0))
        },
        t.take(i + 1).filter(|e: (ObjectId, Value)| !reachable(doc, e.0)) == if !reachable(
            doc,
            t[i].0,
        ) {
            t.take(i).filter(|e: (ObjectId, Value)| !reachable(doc, e.0)).push(t[i])
        } else {
            t.take(i).filter(|e: (ObjectId, Value)| !reachable(doc, e.0))
        },
{
    lemma_filter_step(t, |e: (ObjectId, Value)| reachable(doc, e.0), i);
    lemma_filter_step(t, |e: (ObjectId, Value)| !reachable(doc, e.0), i);
}

/// The empty prefix holds neither reached nor unreached entries.
proof fn lemma_live_none(doc: DocumentValue, t: Table)
    ensures
        t.take(0).filter(|e: (ObjectId, Value)| reachable(doc, e.0)) == Seq::<
            (ObjectId, Value),
        >::empty(),
        t.take(0).filter(|e: (ObjectId, Value)| !reachable(doc, e.0)) == Seq::<
            (ObjectId, Value),
        >::empty(),
{
    lemma_filter_none(t, |e: (ObjectId, Value)| reachable(doc, e.0));
    lemma_filter_none(t, |e: (ObjectId, Value)| !reachable(doc, e.0));
}

impl Document {
    /// Sets the flag of each object that one of `ids` names, and notes in
    /// `work` the places whose flag was not set before.
    fn mark(&self, ids: &Vec<ObjectId>, marks: &mut Vec<bool>, work: &mut Vec<usize>)
        requires
            self.wf(),
            old(marks)@.len() == self@.objects.len(),
            forall|k: int| 0 <= k < old(work)@.len() ==> old(work)@[k] < old(marks)@.len(),
        ensures
            final(marks)@.len() == old(marks)@.len(),
            forall|i: int|
                0 <= i < final(marks)@.len() ==> (final(marks)@[i] <==> old(marks)@[i] || ids@.contains(
                    self@.objects[i].0,
                )),
            forall|k: int| 0 <= k < final(work)@.len() ==> final(work)@[k] < final(marks)@.len(),
            forall|x: usize|
                final(work)@.contains(x) <==> old(work)@.contains(x) || (x < final(marks)@.len()
                    && final(marks)@[x as int] && !old(marks)@[x as int]),
            final(work)@.len() + unset(final(marks)@) == old(work)@.len() + unset(old(marks)@),
    {
        let n = marks.len();
        let mut i: usize = 0;
        while i < ids.len()
            invariant
                i <= ids.len(),
                self.wf(),
                n == marks@.len(),
                n == old(marks)@.len(),
                n == self@.objects.len(),
                forall|k: int| 0 <= k < work@.len() ==> work@[k] < n,
                forall|p: int|
                    0 <= p < n ==> (marks@[p] <==> old(marks)@[p] || exists|k: int|
                        0 <= k < i && #[trigger] ids@[k] == self@.objects[p].0),
                forall|x: usize|
                    work@.contains(x) <==> old(work)@.contains(x) || (x < n && marks@[x as int]
                        && !old(marks)@[x as int]),
                work@.len() + unset(marks@) == old(work)@.len() + unset(old(marks)@),
            decreases ids.len() - i,
        {
            let id = ids[i];
            let p = self.objects.search(id);
            let ghost marks_before = marks@;
            let ghost work_before = work@;
            if p < n && id_same(self.objects.id_at(p), id) && !marks[p] {
                marks[p] = true;
                work.push(p);
                proof {
                    lemma_unset_update(marks_before, p as int);
                    assert(marks@ =~= marks_before.update(p as int, true));
                    assert forall|x: usize|
                        work@.contains(x) <==> old(work)@.contains(x) || (x < n && marks@[x as int]
                            && !old(marks)@[x as int]) by {
                        if work_before.contains(x) {
                            let w = choose|w: int| 0 <= w < work_before.len() && work_before[w] == x;
                            assert(work@[w] == x);
                        }
                        if x == p {
                            assert(work@[work@.len() - 1] == x);
                        }
                    }
                }
            }
            proof {
                assert forall|q: int| 0 <= q < n implies (marks@[q] <==> old(marks)@[q] || exists|
                    k: int,
                |
                    0 <= k < i + 1 && #[trigger] ids@[k] == self@.objects[q].0) by {
                    if self@.objects[q].0 == id {
                        lemma_lookup_at(self@.objects, q);
                        assert(q == p);
                        assert(ids@[i as int] == self@.objects[q].0);
                    }
                }
            }
            i += 1;
        }
    }

    /// For each place of the table, whether the trailer reaches its object.
    pub fn reachable_marks(&self) -> (marks: Vec<bool>)
        requires
            self.wf(),
        ensures
            marks@.len() == self@.objects.len(),
            forall|i: int|
                0 <= i < marks@.len() ==> marks@[i] == reachable(self@, self@.objects[i].0),
    {
        let n = self.objects.len();
        let mut marks = new_flags(n);
        let mut work: Vec<usize> = Vec::new();
        let mut found: Vec<ObjectId> = Vec::new();
        collect_entry_references(&self.trailer.entries, &mut found);
        self.mark(&found, &mut marks, &mut work);
        proof {
            assert forall|k: int| 0 <= k < work@.len() implies work@[k] < n && marks@[work@[k] as int] by {
                assert(work@.contains(work@[k]));
            }
            assert forall|i: int| 0 <= i < n && marks@[i] implies reachable(
                self@,
                self@.objects[i].0,
            ) by {
                lemma_chain_starts(self@, self@.objects[i].0);
            }
        }
        while work.len() > 0
            invariant
                self.wf(),
                n == self@.objects.len(),
                marks@.len() == n,
                forall|k: int| 0 <= k < work@.len() ==> work@[k] < n && marks@[work@[k] as int],
                forall|i: int| 0 <= i < n && marks@[i] ==> reachable(self@, self@.objects[i].0),
                forall|i: int|
                    0 <= i < n && entries_hold_ref(self@.trailer, (#[trigger] self@.objects[i]).0)
                        ==> marks@[i],
                forall|i: int, j: int|
                    0 <= i < n && 0 <= j < n && marks@[i] && !work@.contains(i as usize)
                        && refers_to(
                        (#[trigger] self@.objects[i]).1,
                        (#[trigger] self@.objects[j]).0,
                    ) ==> marks@[j],
            decreases work@.len() + unset(marks@),
        {
            let ghost work_before = work@;
            let ghost marks_before = marks@;
            let p = work.pop().unwrap();
            let ghost work_popped = work@;
            let mut found: Vec<ObjectId> = Vec::new();
            collect_references(self.objects.object_at(p), &mut found);
            self.mark(&found, &mut marks, &mut work);
            proof {
                lemma_lookup_at(self@.objects, p as int);
                assert(marks_before[p as int]);
                assert forall|k: int| 0 <= k < work@.len() implies work@[k] < n && marks@[work@[k] as int] by {
                    let x = work@[k];
                    assert(work@.contains(x));
                    if work_popped.contains(x) {
                        let w = choose|w: int| 0 <= w < work_popped.len() && work_popped[w] == x;
                        assert(work_before[w] == x);
                    }
                }
                assert forall|i: int| 0 <= i < n && marks@[i] implies reachable(
                    self@,
                    self@.objects[i].0,
                ) by {
                    if !marks_before[i] {
                        assert(found@.contains(self@.objects[i].0));
                        assert(edge(self@, self@.objects[p as int].0, self@.objects[i].0));
                        lemma_chain_extends(self@, self@.objects[p as int].0, self@.objects[i].0);
                    }
                }
                assert forall|i: int, j: int|
                    0 <= i < n && 0 <= j < n && marks@[i] && !work@.contains(i as usize)
                        && refers_to(
                        (#[trigger] self@.objects[i]).1,
                        (#[trigger] self@.objects[j]).0,
                    ) implies marks@[j] by {
                    if i == p {
                        assert(found@.contains(self@.objects[j].0));
                    } else {
                        assert(marks_before[i]);
                        if work_before.contains(i as usize) {
                            let w = choose|w: int|
                                0 <= w < work_before.len() && work_before[w] == i as usize;
                            assert(w < work_before.len() - 1);
                            assert(work_popped[w] == i as usize);
                            assert(work_popped.contains(i as usize));
                        }
                    }
                }
            }
        }
        proof {
            assert(closed_marks(self@, marks@)) by {
                assert forall|i: int, j: int|
                    0 <= i < n && 0 <= j < n && marks@[i] && refers_to(
                        (#[trigger] self@.objects[i]).1,
                        (#[trigger] self@.objects[j]).0,
                    ) implies marks@[j] by {
                    assert(!work@.contains(i as usize));
                }
            }
            assert forall|i: int| 0 <= i < n implies marks@[i] == reachable(
                self@,
                self@.objects[i].0,
            ) by {
                if reachable(self@, self@.objects[i].0) {
                    lemma_closed_marks_complete(self@, marks@, i);
                }
            }
        }
        marks
    }

    /// Takes out of the table every object that no chain of references from
    /// the trailer reaches, and returns their identities in ascending order.
    pub fn prune_objects(&mut self) -> (r: Vec<ObjectId>)
        requires
            old(self).wf(),
        ensures
            final(self).wf(),
            final(self)@ == pruned(old(self)@),
            r@ == ids_of(dead_objects(old(self)@)),
            forall|id: ObjectId|
                #[trigger] lookup(final(self)@.objects, id) == if reachable(old(self)@, id) {
                    lookup(old(self)@.objects, id)
                } else {
                    None
                },
    {
        let marks = self.reachable_marks();
        let n = self.objects.entries.len();
        let mut kept: Vec<(ObjectId, Object)> = Vec::new();
        let mut gone: Vec<ObjectId> = Vec::new();
        let ghost doc = self@;
        let ghost t = self@.objects;
        let mut i: usize = 0;
        proof {
            lemma_live_none(doc, t);
            assert(table_of(kept@) =~= Seq::<(ObjectId, Value)>::empty());
            assert(gone@ =~= ids_of(Seq::<(ObjectId, Value)>::empty()));
        }
        while i < n
            invariant
                i <= n,
                n == self.objects.entries.len(),
                n == t.len(),
                n == marks@.len(),
                doc == old(self)@,
                t == doc.objects,
                ascending(t),
                self.trailer == old(self).trailer,
                self.max_id == old(self).max_id,
                forall|k: int| 0 <= k < n ==> marks@[k] == reachable(doc, t[k].0),
                forall|k: int| i <= k < n ==> self.objects@[k] == t[k],
                forall|k: int| 0 <= k < n ==> self.objects@[k].0 == t[k].0,
                table_of(kept@) == t.take(i as int).filter(
                    |e: (ObjectId, Value)| reachable(doc, e.0),
                ),
                gone@ == ids_of(
                    t.take(i as int).filter(|e: (ObjectId, Value)| !reachable(doc, e.0)),
                ),
            decreases n - i,
        {
            proof {
                lemma_live_step(doc, t, i as int);
            }
            let id = self.objects.entries[i].0;
            if marks[i] {
                let mut held = Object::Null;
                std::mem::swap(&mut held, &mut self.objects.entries[i].1);
                let ghost kept_before = kept@;
                kept.push((id, held));
                proof {
                    assert(table_of(kept@) =~= table_of(kept_before).push(t[i as int]));
                }
            } else {
                let ghost gone_before = gone@;
                gone.push(id);
                proof {
                    let f = t.take(i as int).filter(|e: (ObjectId, Value)| !reachable(doc, e.0));
                    assert(gone@ =~= ids_of(f.push(t[i as int])));
                }
            }
            i += 1;
        }
        proof {
            assert(t.take(n as int) =~= t);
            lemma_live_ascending(doc);
            assert forall|id: ObjectId|
                #[trigger] lookup(pruned(doc).objects, id) == if reachable(doc, id) {
                    lookup(doc.objects, id)
                } else {
                    None
                } by {
                lemma_pruned_lookup(doc, id);
            }
        }
        self.objects = ObjectTable { entries: kept };
        gone
    }
}

/// Collection keeps an object if and only if a chain of references leads
/// from the trailer to it, and keeps it as it was.
pub proof fn lemma_pruned_lookup(doc: DocumentValue, id: ObjectId)
    requires
        doc.wf(),
    ensures
        lookup(pruned(doc).objects, id) == if reachable(doc, id) {
            lookup(doc.objects, id)
        } else {
            None
        },
{
    lemma_filter_lookup(doc.objects, |e: (ObjectId, Value)| reachable(doc, e.0), id);
}

/// What the trailer reaches before a collection, it reaches after it.
pub proof fn lemma_pruned_reachable(doc: DocumentValue, id: ObjectId)
    requires
        doc.wf(),
        reachable(doc, id),
    ensures
        reachable(pruned(doc), id),
{
    let path = choose|path: Seq<ObjectId>| #[trigger] is_chain(doc, path) && path.last() == id;
    let after = pruned(doc);
    assert forall|k: int| 0 <= k < path.len() - 1 implies edge(
        after,
        #[trigger] path[k],
        path[k + 1],
    ) by {
        assert(edge(doc, path[k], path[k + 1]));
        let head = path.take(k + 1);
        assert forall|m: int| 0 <= m < head.len() - 1 implies edge(
            doc,
            #[trigger] head[m],
            head[m + 1],
        ) by {
            assert(edge(doc, path[m], path[m + 1]));
        }
        assert(is_chain(doc, head));
        assert(head.last() == path[k]);
        lemma_pruned_lookup(doc, path[k]);
    }
    assert(is_chain(after, path));
}

/// A second collection, made directly after a first, removes nothing.
pub proof fn lemma_prune_twice(doc: DocumentValue)
    requires
        doc.wf(),
    ensures
        pruned(pruned(doc)) == pruned(doc),
        ids_of(dead_objects(pruned(doc))) == Seq::<ObjectId>::empty(),
{
    let after = pruned(doc);
    let live = live_objects(doc);
    assert forall|i: int| 0 <= i < live.len() implies reachable(after, (#[trigger] live[i]).0) by {
        lemma_filter_member(doc.objects, |e: (ObjectId, Value)| reachable(doc, e.0), i);
        lemma_pruned_reachable(doc, live[i].0);
    }
    lemma_filter_all(live, |e: (ObjectId, Value)| reachable(after, e.0), live.len() as int);
    lemma_filter_no(live, |e: (ObjectId, Value)| !reachable(after, e.0), live.len() as int);
    assert(live.take(live.len() as int) =~= live);
    assert(ids_of(Seq::<(ObjectId, Value)>::empty()) =~= Seq::<ObjectId>::empty());
}

/// The objects that stay are in ascending order, as the table was.
pub proof fn lemma_live_ascending(doc: DocumentValue)
    requires
        doc.wf(),
    ensures
        pruned(doc).wf(),
{
    let t = doc.objects;
    let keep = |e: (ObjectId, Value)| reachable(doc, e.0);
    let live = live_objects(doc);
    lemma_filter_ascending(t, keep);
}

} // verus!
