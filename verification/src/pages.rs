//! The page tree: the pages in their order, and deleting pages with the
//! counts of their ancestors kept right.

use vstd::prelude::*;
use crate::delete::{deleted, lemma_scrubbed_lookup, scrubbed_table};
use crate::dictionary::bytes_eq;
use crate::document::{catalog_of, Document};
use crate::model::{ascending, first_index, has_key, lemma_first_exists, lookup, with_entry, DocumentValue, Entries, ObjectId, Table, Value};
use crate::names::{COUNT, KIDS, PAGE, PAGES, PARENT, TYPE};
use crate::object::{values_of, Object};
use crate::flags::{lemma_unset_update, new_flags, no_flags, unset};
use crate::scrub::{lemma_scrubbed_lookup_entry, scrubbed};
use crate::table::{lemma_lookup_at, lemma_lookup_without};

verus! {

/// The name under "Type", where `v` is a dictionary that has one.
pub open spec fn node_type(v: Value) -> Option<Seq<u8>> {
    match v {
        Value::Dictionary(d) => match lookup(d, TYPE@) {
            Some(Value::Name(n)) => Some(n),
            _ => None,
        },
        _ => None,
    }
}

/// `v` is a page: a leaf of the page tree.
pub open spec fn is_page(v: Value) -> bool {
    node_type(v) == Some(PAGE@)
}

/// `v` is a node of the page tree that has kids.
pub open spec fn is_page_tree(v: Value) -> bool {
    node_type(v) == Some(PAGES@)
}

/// The array under "Kids", where `v` is a dictionary that has one.
pub open spec fn kids_of(v: Value) -> Seq<Value> {
    match v {
        Value::Dictionary(d) => match lookup(d, KIDS@) {
            Some(Value::Array(a)) => a,
            _ => Seq::empty(),
        },
        _ => Seq::empty(),
    }
}

/// The identities that the references among `a` name, the last first: the
/// order in which a stack hands them back first to last.
pub open spec fn stacked(a: Seq<Value>) -> Seq<ObjectId>
    decreases a.len(),
{
    if a.len() == 0 {
        Seq::empty()
    } else {
        match a[0] {
            Value::Reference(id) => stacked(a.skip(1)).push(id),
            _ => stacked(a.skip(1)),
        }
    }
}

/// The pages under the nodes of `pending`, in the order of the tree. `pending` is
/// a stack: its last identity is visited first. `seen` flags the places of
/// the table whose kids were taken already; no node gives its kids twice, so
/// a tree that loops back into itself still ends.
pub open spec fn pages_from(doc: DocumentValue, pending: Seq<ObjectId>, seen: Seq<bool>) -> Seq<
    ObjectId,
>
    decreases unset(seen), pending.len(),
{
    if pending.len() == 0 {
        Seq::empty()
    } else {
        let id = pending.last();
        let rest = pending.drop_last();
        if !has_key(doc.objects, id) {
            pages_from(doc, rest, seen)
        } else {
            let p = first_index(doc.objects, id);
            let v = doc.objects[p].1;
            if is_page(v) {
                seq![id] + pages_from(doc, rest, seen)
            } else if is_page_tree(v) && 0 <= p < seen.len() && !seen[p] {
                proof {
                    lemma_unset_update(seen, p);
                }
                pages_from(doc, rest + stacked(kids_of(v)), seen.update(p, true))
            } else {
                pages_from(doc, rest, seen)
            }
        }
    }
}

/// The root of the page tree: what the catalog refers to under "Pages".
pub open spec fn page_root(doc: DocumentValue) -> Option<ObjectId> {
    match catalog_of(doc) {
        Ok(catalog) => match lookup(catalog, PAGES@) {
            Some(Value::Reference(id)) => Some(id),
            _ => None,
        },
        Err(_) => None,
    }
}

/// The pages of the document in their order: page 1 first.
pub open spec fn page_ids(doc: DocumentValue) -> Seq<ObjectId> {
    match page_root(doc) {
        Some(root) => pages_from(doc, seq![root], no_flags(doc.objects.len())),
        None => Seq::empty(),
    }
}

/// Each identity that the walk lists names a page of the table.
pub proof fn lemma_pages_from_are_pages(
    doc: DocumentValue,
    pending: Seq<ObjectId>,
    seen: Seq<bool>,
    i: int,
)
    requires
        0 <= i < pages_from(doc, pending, seen).len(),
    ensures
        has_key(doc.objects, pages_from(doc, pending, seen)[i]),
        is_page(lookup(doc.objects, pages_from(doc, pending, seen)[i]).unwrap()),
    decreases unset(seen), pending.len(),
{
    let id = pending.last();
    let rest = pending.drop_last();
    if !has_key(doc.objects, id) {
        lemma_pages_from_are_pages(doc, rest, seen, i);
    } else {
        let p = first_index(doc.objects, id);
        let v = doc.objects[p].1;
        if is_page(v) {
            if i > 0 {
                lemma_pages_from_are_pages(doc, rest, seen, i - 1);
            }
        } else if is_page_tree(v) && 0 <= p < seen.len() && !seen[p] {
            lemma_unset_update(seen, p);
            lemma_pages_from_are_pages(doc, rest + stacked(kids_of(v)), seen.update(p, true), i);
        } else {
            lemma_pages_from_are_pages(doc, rest, seen, i);
        }
    }
}

/// Each identity among the pages of a document names a page of the table.
pub proof fn lemma_pages_are_pages(doc: DocumentValue, i: int)
    requires
        0 <= i < page_ids(doc).len(),
    ensures
        has_key(doc.objects, page_ids(doc)[i]),
        is_page(lookup(doc.objects, page_ids(doc)[i]).unwrap()),
{
    lemma_pages_from_are_pages(
        doc,
        seq![page_root(doc).unwrap()],
        no_flags(doc.objects.len()),
        i,
    );
}

/// What `v` refers to under "Parent", where it is a dictionary that has
/// such a reference.
pub open spec fn parent_of(v: Value) -> Option<ObjectId> {
    match v {
        Value::Dictionary(d) => match lookup(d, PARENT@) {
            Some(Value::Reference(id)) => Some(id),
            _ => None,
        },
        _ => None,
    }
}

/// The dictionary with its "Count" one less, where it has an integer there
/// that can be one less; else as it is.
pub open spec fn count_decremented(d: Entries) -> Entries {
    match lookup(d, COUNT@) {
        Some(Value::Integer(c)) => if c > i64::MIN {
            with_entry(d, COUNT@, Value::Integer((c - 1) as i64))
        } else {
            d
        },
        _ => d,
    }
}

/// The table after the walk up the page tree that starts at `from`: each
/// dictionary on the way has its count decremented, and the walk goes on to
/// what it names as its parent. The walk ends where there is no parent,
/// where the table holds no dictionary under the identity, and where it
/// comes to a node a second time (`seen` flags the places it has been to).
pub open spec fn counts_decremented(t: Table, from: Option<ObjectId>, seen: Seq<bool>) -> Table
    decreases unset(seen),
{
    match from {
        None => t,
        Some(id) => if !has_key(t, id) {
            t
        } else {
            let p = first_index(t, id);
            if 0 <= p < seen.len() && !seen[p] {
                match t[p].1 {
                    Value::Dictionary(d) => {
                        proof {
                            lemma_unset_update(seen, p);
                        }
                        counts_decremented(
                            t.update(p, (id, Value::Dictionary(count_decremented(d)))),
                            parent_of(t[p].1),
                            seen.update(p, true),
                        )
                    },
                    _ => t,
                }
            } else {
                t
            }
        },
    }
}

/// The document after the page `id` was deleted: the object is deleted as
/// `delete_object` does and, where the table held it, the counts are
/// decremented from its parent upwards.
pub open spec fn page_deleted(doc: DocumentValue, id: ObjectId) -> DocumentValue {
    let without = deleted(doc, id);
    match lookup(doc.objects, id) {
        Some(v) => DocumentValue {
            objects: counts_decremented(
                without.objects,
                parent_of(scrubbed(v, id)),
                no_flags(without.objects.len()),
            ),
            trailer: without.trailer,
            max_id: without.max_id,
        },
        None => without,
    }
}

/// The document after the pages with the numbers `numbers` were deleted one
/// after another. `pages` gives the page of each number, as it was before
/// the first deletion; a number without a page is passed over.
pub open spec fn pages_deleted(doc: DocumentValue, pages: Seq<ObjectId>, numbers: Seq<u32>) -> DocumentValue
    decreases numbers.len(),
{
    if numbers.len() == 0 {
        doc
    } else {
        let before = pages_deleted(doc, pages, numbers.drop_last());
        let n = numbers.last();
        if 1 <= n <= pages.len() {
            page_deleted(before, pages[n - 1])
        } else {
            before
        }
    }
}

/// What kind of node of the page tree an object is.
enum NodeKind {
    Page,
    Pages,
    Other,
}

/// The kind of node that `object` is.
fn node_kind(object: &Object) -> (r: NodeKind)
    ensures
        match r {
            NodeKind::Page => is_page(object@),
            NodeKind::Pages => !is_page(object@) && is_page_tree(object@),
            NodeKind::Other => !is_page(object@) && !is_page_tree(object@),
        },
{
    match object {
        Object::Dictionary(dict) => {
            match dict.get(&TYPE) {
                Ok(Object::Name(name)) => {
                    if bytes_eq(name.as_slice(), &PAGE) {
                        NodeKind::Page
                    } else if bytes_eq(name.as_slice(), &PAGES) {
                        NodeKind::Pages
                    } else {
                        NodeKind::Other
                    }
                },
                _ => NodeKind::Other,
            }
        },
        _ => NodeKind::Other,
    }
}

/// Puts on `stack` the identities that the references under "Kids" of
/// `object` name, the last first.
fn push_kids(object: &Object, stack: &mut Vec<ObjectId>)
    ensures
        final(stack)@ == old(stack)@ + stacked(kids_of(object@)),
{
    proof {
        assert(stack@ + Seq::<ObjectId>::empty() =~= stack@);
    }
    match object {
        Object::Dictionary(dict) => {
            match dict.get(&KIDS) {
                Ok(Object::Array(kids)) => {
                    let ghost a = values_of(kids@);
                    let mut i: usize = kids.len();
                    proof {
                        assert(a.skip(i as int) =~= Seq::<Value>::empty());
                    }
                    while i > 0
                        invariant
                            i <= kids.len(),
                            a == values_of(kids@),
                            stack@ == old(stack)@ + stacked(a.skip(i as int)),
                        decreases i,
                    {
                        i -= 1;
                        proof {
                            assert(a.skip(i as int).skip(1) =~= a.skip(i + 1));
                            assert(a.skip(i as int)[0] == kids@[i as int]@);
                        }
                        match &kids[i] {
                            Object::Reference(id) => {
                                stack.push(*id);
                                proof {
                                    assert(stack@ =~= old(stack)@ + stacked(a.skip(i + 1)).push(*id));
                                }
                            },
                            _ => {},
                        }
                    }
                    proof {
                        assert(a.skip(0) =~= a);
                    }
                },
                _ => {},
            }
        },
        _ => {},
    }
}

impl Document {
    /// Walks up the page tree from `from` and decrements the count of each
    /// node on the way.
    pub fn decrement_counts(&mut self, from: Option<ObjectId>)
        requires
            old(self).wf(),
        ensures
            final(self).wf(),
            final(self)@ == (DocumentValue {
                objects: counts_decremented(
                    old(self)@.objects,
                    from,
                    no_flags(old(self)@.objects.len()),
                ),
                ..old(self)@
            }),
    {
        let n = self.objects.len();
        let mut seen = new_flags(n);
        let mut next = from;
        while next.is_some()
            invariant
                self.wf(),
                self.trailer == old(self).trailer,
                self.max_id == old(self).max_id,
                n == self@.objects.len(),
                seen@.len() == n,
                counts_decremented(
                    old(self)@.objects,
                    from,
                    no_flags(old(self)@.objects.len()),
                ) == counts_decremented(self@.objects, next, seen@),
            decreases unset(seen@), (if next.is_some() { 1nat } else { 0nat }),
        {
            let id = next.unwrap();
            let p = self.objects.search(id);
            let ghost t = self@.objects;
            let ghost flags = seen@;
            if p < n && crate::table::id_same(self.objects.id_at(p), id) && !seen[p] {
                let ghost entries_before = self.objects.entries@;
                match &mut self.objects.entries[p].1 {
                    Object::Dictionary(dict) => {
                        seen[p] = true;
                        next = match dict.get(&PARENT) {
                            Ok(Object::Reference(parent)) => Some(*parent),
                            _ => None,
                        };
                        let count = match dict.get(&COUNT) {
                            Ok(Object::Integer(c)) => Some(*c),
                            _ => None,
                        };
                        match count {
                            Some(c) => {
                                if c > i64::MIN {
                                    dict.set(&COUNT, Object::Integer(c - 1));
                                }
                            },
                            None => {},
                        }
                    },
                    _ => {
                        next = None;
                    },
                }
                proof {
                    let entries_after = self.objects.entries@;
                    assert(t[p as int] == (entries_before[p as int].0, entries_before[p as int].1@));
                    assert(entries_after[p as int].0 == entries_before[p as int].0);
                    assert forall|k: int| 0 <= k < n && k != p implies self@.objects[k] == t[k] by {
                        assert(entries_after[k] == entries_before[k]);
                        assert(t[k] == (entries_before[k].0, entries_before[k].1@));
                    }
                    match t[p as int].1 {
                        Value::Dictionary(d) => {
                            lemma_unset_update(flags, p as int);
                            assert(seen@ =~= flags.update(p as int, true));
                            assert(self@.objects =~= t.update(
                                p as int,
                                (id, Value::Dictionary(count_decremented(d))),
                            ));
                        },
                        _ => {
                            assert(self@.objects =~= t);
                        },
                    }
                    assert forall|a: int, b: int| 0 <= a < b < n implies crate::model::id_lt(
                        #[trigger] self@.objects[a].0,
                        #[trigger] self@.objects[b].0,
                    ) by {
                        assert(crate::model::id_lt(t[a].0, t[b].0));
                    }
                }
            } else {
                next = None;
            }
        }
    }

    /// Deletes the page `id` and decrements the counts from its parent
    /// upwards.
    pub fn delete_page(&mut self, id: ObjectId)
        requires
            old(self).wf(),
        ensures
            final(self).wf(),
            final(self)@ == page_deleted(old(self)@, id),
    {
        match self.delete_object(id) {
            Some(page) => {
                let parent = match &page {
                    Object::Dictionary(dict) => match dict.get(&PARENT) {
                        Ok(Object::Reference(parent)) => Some(*parent),
                        _ => None,
                    },
                    _ => None,
                };
                self.decrement_counts(parent);
            },
            None => {},
        }
    }

    /// Deletes the pages with the numbers `page_numbers`, the first page
    /// being number 1. The numbers are those that the pages have before the
    /// call; a number without a page is passed over.
    pub fn delete_pages(&mut self, page_numbers: &[u32])
        requires
            old(self).wf(),
        ensures
            final(self).wf(),
            final(self)@ == pages_deleted(old(self)@, page_ids(old(self)@), page_numbers@),
            final(self).max_id == old(self).max_id,
    {
        let pages = self.get_pages();
        let mut k: usize = 0;
        while k < page_numbers.len()
            invariant
                k <= page_numbers.len(),
                self.wf(),
                pages@ == page_ids(old(self)@),
                self.max_id == old(self).max_id,
                self@ == pages_deleted(old(self)@, pages@, page_numbers@.take(k as int)),
            decreases page_numbers.len() - k,
        {
            let number = page_numbers[k];
            proof {
                assert(page_numbers@.take(k + 1).drop_last() =~= page_numbers@.take(k as int));
            }
            if 1 <= number && number as usize <= pages.len() {
                self.delete_page(pages[number as usize - 1]);
            }
            k += 1;
        }
        proof {
            assert(page_numbers@.take(page_numbers@.len() as int) =~= page_numbers@);
        }
    }

    /// The pages of the document in their order: the page with the number
    /// `n` stands at place `n - 1`.
    pub fn get_pages(&self) -> (r: Vec<ObjectId>)
        requires
            self.wf(),
        ensures
            r@ == page_ids(self@),
    {
        let mut pages: Vec<ObjectId> = Vec::new();
        let root = match self.catalog() {
            Ok(catalog) => match catalog.get(&PAGES) {
                Ok(Object::Reference(id)) => *id,
                _ => {
                    return pages;
                },
            },
            Err(_) => {
                return pages;
            },
        };
        let n = self.objects.len();
        let mut seen = new_flags(n);
        let mut stack: Vec<ObjectId> = Vec::new();
        stack.push(root);
        proof {
            assert(stack@ =~= seq![root]);
            assert(pages@ + pages_from(self@, stack@, seen@) =~= page_ids(self@));
        }
        while stack.len() > 0
            invariant
                self.wf(),
                seen@.len() == self@.objects.len(),
                page_ids(self@) == pages@ + pages_from(self@, stack@, seen@),
            decreases unset(seen@), stack@.len(),
        {
            let ghost pending = stack@;
            let ghost flags = seen@;
            let ghost found = pages@;
            let id = stack.pop().unwrap();
            let p = self.objects.search(id);
            if p < self.objects.len() && crate::table::id_same(self.objects.id_at(p), id) {
                let object = self.objects.object_at(p);
                match node_kind(object) {
                    NodeKind::Page => {
                        pages.push(id);
                        proof {
                            assert(pages@ + pages_from(self@, stack@, seen@) =~= found + (seq![id]
                                + pages_from(self@, stack@, seen@)));
                        }
                    },
                    NodeKind::Pages => {
                        if !seen[p] {
                            seen[p] = true;
                            push_kids(object, &mut stack);
                            proof {
                                lemma_unset_update(flags, p as int);
                                assert(seen@ =~= flags.update(p as int, true));
                            }
                        }
                    },
                    NodeKind::Other => {},
                }
            }
        }
        proof {
            assert(pages@ + Seq::<ObjectId>::empty() =~= pages@);
        }
        pages
    }
}

/// The integer under "Count", where `v` is a dictionary that has one.
pub open spec fn count_of(v: Value) -> Option<i64> {
    match v {
        Value::Dictionary(d) => match lookup(d, COUNT@) {
            Some(Value::Integer(c)) => Some(c),
            _ => None,
        },
        _ => None,
    }
}

/// `path` leads upwards through the page tree of `t` from `from`: it starts
/// at `from`, each of its identities names a dictionary of the table, each
/// but the last names the next as its parent, and none comes twice.
pub open spec fn is_ancestor_path(t: Table, from: Option<ObjectId>, path: Seq<ObjectId>) -> bool {
    &&& path.len() > 0
    &&& from == Some(path[0])
    &&& forall|k: int|
        0 <= k < path.len() ==> has_key(t, #[trigger] path[k]) && lookup(
            t,
            path[k],
        ).unwrap() is Dictionary
    &&& forall|k: int|
        0 <= k < path.len() - 1 ==> parent_of(lookup(t, #[trigger] path[k]).unwrap()) == Some(
            path[k + 1],
        )
    &&& forall|a: int, b: int| 0 <= a < b < path.len() ==> #[trigger] path[a] != #[trigger] path[b]
}

/// The walk keeps the identities of the table in place, and leaves alone
/// what stands at a flagged place.
pub proof fn lemma_counts_frame(t: Table, from: Option<ObjectId>, seen: Seq<bool>)
    requires
        ascending(t),
        seen.len() == t.len(),
    ensures
        counts_decremented(t, from, seen).len() == t.len(),
        ascending(counts_decremented(t, from, seen)),
        forall|q: int|
            0 <= q < t.len() ==> (#[trigger] counts_decremented(t, from, seen)[q]).0 == t[q].0,
        forall|q: int|
            0 <= q < t.len() && seen[q] ==> #[trigger] counts_decremented(t, from, seen)[q] == t[q],
    decreases unset(seen),
{
    match from {
        None => {},
        Some(id) => {
            if has_key(t, id) {
                lemma_first_exists(t, id);
                let p = first_index(t, id);
                if !seen[p] {
                    match t[p].1 {
                        Value::Dictionary(d) => {
                            lemma_unset_update(seen, p);
                            let t1 = t.update(p, (id, Value::Dictionary(count_decremented(d))));
                            let seen1 = seen.update(p, true);
                            assert forall|a: int, b: int| 0 <= a < b < t1.len() implies crate::model::id_lt(
                                #[trigger] t1[a].0,
                                #[trigger] t1[b].0,
                            ) by {
                                assert(crate::model::id_lt(t[a].0, t[b].0));
                            }
                            lemma_counts_frame(t1, parent_of(t[p].1), seen1);
                            let r = counts_decremented(t1, parent_of(t[p].1), seen1);
                            assert forall|q: int| 0 <= q < t.len() implies (#[trigger] r[q]).0
                                == t[q].0 by {
                                assert(r[q].0 == t1[q].0);
                            }
                            assert forall|a: int, b: int| 0 <= a < b < r.len() implies crate::model::id_lt(
                                #[trigger] r[a].0,
                                #[trigger] r[b].0,
                            ) by {
                                assert(crate::model::id_lt(t[a].0, t[b].0));
                            }
                            assert forall|q: int| 0 <= q < t.len() && seen[q] implies #[trigger] r[q]
                                == t[q] by {
                                assert(seen1[q]);
                                assert(r[q] == t1[q]);
                            }
                        },
                        _ => {},
                    }
                }
            }
        },
    }
}

/// The walk decrements the count of each node on a path upwards from where
/// it starts, once.
pub proof fn lemma_counts_on_path(
    t: Table,
    from: Option<ObjectId>,
    seen: Seq<bool>,
    path: Seq<ObjectId>,
    k: int,
)
    requires
        ascending(t),
        seen.len() == t.len(),
        is_ancestor_path(t, from, path),
        forall|j: int|
            0 <= j < path.len() ==> !seen[first_index(t, #[trigger] path[j])],
        0 <= k < path.len(),
    ensures
        lookup(counts_decremented(t, from, seen), path[k]) == Some(
            Value::Dictionary(count_decremented(lookup(t, path[k]).unwrap()->Dictionary_0)),
        ),
    decreases path.len(),
{
    let id = path[0];
    assert(has_key(t, path[0]));
    lemma_first_exists(t, id);
    let p = first_index(t, id);
    let d = t[p].1->Dictionary_0;
    lemma_unset_update(seen, p);
    let t1 = t.update(p, (id, Value::Dictionary(count_decremented(d))));
    let seen1 = seen.update(p, true);
    let next = parent_of(t[p].1);
    assert forall|a: int, b: int| 0 <= a < b < t1.len() implies crate::model::id_lt(
        #[trigger] t1[a].0,
        #[trigger] t1[b].0,
    ) by {
        assert(crate::model::id_lt(t[a].0, t[b].0));
    }
    let r = counts_decremented(t1, next, seen1);
    assert(r == counts_decremented(t, from, seen));
    lemma_counts_frame(t1, next, seen1);
    if k == 0 {
        assert(r[p] == t1[p]);
        lemma_lookup_at(r, p);
    } else {
        let rest = path.skip(1);
        assert forall|j: int| 0 <= j < rest.len() implies has_key(t1, #[trigger] rest[j]) && lookup(
            t1,
            rest[j],
        ) == lookup(t, rest[j]) && first_index(t1, rest[j]) == first_index(t, rest[j])
            && first_index(t, rest[j]) != p && !seen1[first_index(t1, rest[j])] by {
            assert(rest[j] == path[j + 1]);
            assert(path[0] != path[j + 1]);
            assert(has_key(t, path[j + 1]));
            lemma_first_exists(t, rest[j]);
            let q = first_index(t, rest[j]);
            assert(t1[q] == t[q]);
            lemma_lookup_at(t1, q);
            assert(!seen[first_index(t, path[j + 1])]);
        }
        assert(is_ancestor_path(t1, next, rest)) by {
            assert(parent_of(lookup(t, path[0int]).unwrap()) == Some(path[0int + 1]));
            assert forall|j: int| 0 <= j < rest.len() - 1 implies parent_of(
                lookup(t1, #[trigger] rest[j]).unwrap(),
            ) == Some(rest[j + 1]) by {
                assert(rest[j] == path[j + 1]);
                assert(parent_of(lookup(t, path[j + 1]).unwrap()) == Some(path[j + 1 + 1]));
            }
            assert forall|a: int, b: int| 0 <= a < b < rest.len() implies #[trigger] rest[a]
                != #[trigger] rest[b] by {
                assert(path[a + 1] != path[b + 1]);
            }
        }
        lemma_counts_on_path(t1, next, seen1, rest, k - 1);
        assert(rest[k - 1] == path[k]);
    }
}

/// Deleting a page that the table holds decrements the count of each node
/// on the path upwards from the parent of the page, once: where the count
/// was an integer above the least, it is one less.
pub proof fn lemma_page_deleted_counts(doc: DocumentValue, id: ObjectId, path: Seq<ObjectId>, k: int)
    requires
        doc.wf(),
        has_key(doc.objects, id),
        is_ancestor_path(
            deleted(doc, id).objects,
            parent_of(scrubbed(lookup(doc.objects, id).unwrap(), id)),
            path,
        ),
        0 <= k < path.len(),
    ensures
        has_key(deleted(doc, id).objects, path[k]),
        has_key(page_deleted(doc, id).objects, path[k]),
        match count_of(lookup(deleted(doc, id).objects, path[k]).unwrap()) {
            Some(c) => count_of(lookup(page_deleted(doc, id).objects, path[k]).unwrap()) == Some(
                if c > i64::MIN {
                    (c - 1) as i64
                } else {
                    c
                },
            ),
            None => count_of(lookup(page_deleted(doc, id).objects, path[k]).unwrap()).is_none(),
        },
{
    let without = deleted(doc, id);
    let t = without.objects;
    let from = parent_of(scrubbed(lookup(doc.objects, id).unwrap(), id));
    let seen = no_flags(t.len());
    crate::delete::lemma_deleted_wf(doc, id);
    assert forall|j: int| 0 <= j < path.len() implies !seen[first_index(t, #[trigger] path[j])] by {
        assert(has_key(t, path[j]));
        lemma_first_exists(t, path[j]);
    }
    lemma_counts_on_path(t, from, seen, path, k);
    let d = lookup(t, path[k]).unwrap()->Dictionary_0;
    match lookup(d, COUNT@) {
        Some(Value::Integer(c)) => {
            if c > i64::MIN {
                crate::model::lemma_lookup_with_entry(
                    d,
                    COUNT@,
                    Value::Integer((c - 1) as i64),
                    COUNT@,
                );
            }
        },
        _ => {},
    }
}

/// Deleting a page that the table holds decrements by exactly one the count
/// of each node on the path upwards from the parent of the page, where the
/// page is not among them.
pub proof fn lemma_delete_page_decrements(
    doc: DocumentValue,
    id: ObjectId,
    path: Seq<ObjectId>,
    k: int,
    c: i64,
)
    requires
        doc.wf(),
        has_key(doc.objects, id),
        is_ancestor_path(doc.objects, parent_of(lookup(doc.objects, id).unwrap()), path),
        forall|j: int| 0 <= j < path.len() ==> #[trigger] path[j] != id,
        0 <= k < path.len(),
        count_of(lookup(doc.objects, path[k]).unwrap()) == Some(c),
        c > i64::MIN,
    ensures
        has_key(page_deleted(doc, id).objects, path[k]),
        count_of(lookup(page_deleted(doc, id).objects, path[k]).unwrap()) == Some((c - 1) as i64),
{
    let without = deleted(doc, id);
    let page = lookup(doc.objects, id).unwrap();
    let from = parent_of(scrubbed(page, id));
    assert(path[0] != id);
    match page {
        Value::Dictionary(d) => {
            lemma_scrubbed_lookup_entry(d, id, PARENT@);
        },
        _ => {},
    }
    assert(from == Some(path[0]));
    assert forall|j: int| 0 <= j < path.len() implies has_key(without.objects, #[trigger] path[j])
        && lookup(without.objects, path[j]) == Some(
        scrubbed(lookup(doc.objects, path[j]).unwrap(), id),
    ) by {
        assert(path[j] != id);
        assert(has_key(doc.objects, path[j]));
        lemma_scrubbed_lookup(doc.objects, id, path[j]);
        lemma_lookup_without(scrubbed_table(doc.objects, id), id, path[j]);
    }
    assert forall|j: int| 0 <= j < path.len() - 1 implies parent_of(
        lookup(without.objects, #[trigger] path[j]).unwrap(),
    ) == Some(path[j + 1]) by {
        let v = lookup(doc.objects, path[j]).unwrap();
        assert(parent_of(v) == Some(path[j + 1]));
        assert(path[j + 1] != id);
        lemma_scrubbed_lookup_entry(v->Dictionary_0, id, PARENT@);
    }
    assert forall|j: int| 0 <= j < path.len() implies lookup(
        without.objects,
        #[trigger] path[j],
    ).unwrap() is Dictionary by {
        assert(has_key(doc.objects, path[j]));
    }
    assert(is_ancestor_path(without.objects, from, path));
    lemma_page_deleted_counts(doc, id, path, k);
    let node = lookup(doc.objects, path[k]).unwrap();
    lemma_scrubbed_lookup_entry(node->Dictionary_0, id, COUNT@);
}

} // verus!
