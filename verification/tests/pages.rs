use pdfgraph::{Dictionary, Document, Object, ObjectId};

fn name(text: &str) -> Object {
    Object::Name(text.as_bytes().to_vec())
}

fn refs(numbers: &[u32]) -> Object {
    Object::Array(numbers.iter().map(|n| Object::Reference((*n, 0))).collect())
}

fn node(parent: Option<u32>, kids: &[u32]) -> Object {
    let mut d = Dictionary::new();
    d.set(b"Type", name("Pages"));
    if let Some(p) = parent {
        d.set(b"Parent", Object::Reference((p, 0)));
    }
    d.set(b"Kids", refs(kids));
    Object::Dictionary(d)
}

fn counted(object: Object, count: i64) -> Object {
    match object {
        Object::Dictionary(mut d) => {
            d.set(b"Count", Object::Integer(count));
            Object::Dictionary(d)
        }
        other => other,
    }
}

fn leaf(parent: u32) -> Object {
    let mut d = Dictionary::new();
    d.set(b"Type", name("Page"));
    d.set(b"Parent", Object::Reference((parent, 0)));
    Object::Dictionary(d)
}

fn with_catalog(root: u32) -> Document {
    let mut doc = Document::new();
    let mut catalog = Dictionary::new();
    catalog.set(b"Type", name("Catalog"));
    catalog.set(b"Pages", Object::Reference((root, 0)));
    doc.set_object((1, 0), Object::Dictionary(catalog));
    doc.trailer.set(b"Root", Object::Reference((1, 0)));
    doc
}

fn count(doc: &Document, id: ObjectId) -> i64 {
    doc.get_dictionary(id).unwrap().get(b"Count").unwrap().as_i64().unwrap()
}

fn kids(doc: &Document, id: ObjectId) -> Object {
    doc.get_dictionary(id).unwrap().get(b"Kids").unwrap().clone()
}

/// Root 2 with the pages 3, 4, 5.
fn flat() -> Document {
    let mut doc = with_catalog(2);
    doc.set_object((2, 0), counted(node(None, &[3, 4, 5]), 3));
    for n in [3, 4, 5] {
        doc.set_object((n, 0), leaf(2));
    }
    doc.max_id = 5;
    doc
}

/// Root 2 with the nodes 3 (pages 5, 6) and 4 (pages 7, 8).
fn nested() -> Document {
    let mut doc = with_catalog(2);
    doc.set_object((2, 0), counted(node(None, &[3, 4]), 4));
    doc.set_object((3, 0), counted(node(Some(2), &[5, 6]), 2));
    doc.set_object((4, 0), counted(node(Some(2), &[7, 8]), 2));
    for n in [5, 6] {
        doc.set_object((n, 0), leaf(3));
    }
    for n in [7, 8] {
        doc.set_object((n, 0), leaf(4));
    }
    doc.max_id = 8;
    doc
}

#[test]
fn pages_come_in_the_order_of_the_tree() {
    assert_eq!(flat().get_pages(), vec![(3, 0), (4, 0), (5, 0)]);
    assert_eq!(nested().get_pages(), vec![(5, 0), (6, 0), (7, 0), (8, 0)]);
}

#[test]
fn pages_of_a_document_without_a_tree() {
    assert_eq!(Document::new().get_pages(), vec![]);
    let doc = with_catalog(9);
    assert_eq!(doc.get_pages(), vec![]);
    let mut doc = with_catalog(2);
    doc.set_object((2, 0), Object::Integer(1));
    assert_eq!(doc.get_pages(), vec![]);
}

#[test]
fn pages_pass_over_what_is_no_page() {
    let mut doc = with_catalog(2);
    let mut kids = vec![Object::Integer(1), Object::Reference((3, 0)), Object::Reference((9, 0))];
    kids.push(Object::Reference((1, 0)));
    kids.push(Object::Reference((4, 0)));
    let mut root = Dictionary::new();
    root.set(b"Type", name("Pages"));
    root.set(b"Kids", Object::Array(kids));
    doc.set_object((2, 0), Object::Dictionary(root));
    doc.set_object((3, 0), leaf(2));
    doc.set_object((4, 0), leaf(2));
    assert_eq!(doc.get_pages(), vec![(3, 0), (4, 0)]);
}

#[test]
fn pages_of_a_tree_that_loops_back() {
    let mut doc = with_catalog(2);
    doc.set_object((2, 0), node(None, &[3, 2, 4, 4]));
    doc.set_object((3, 0), leaf(2));
    doc.set_object((4, 0), node(Some(2), &[2, 5, 4]));
    doc.set_object((5, 0), leaf(4));
    assert_eq!(doc.get_pages(), vec![(3, 0), (5, 0)]);
}

#[test]
fn delete_the_second_of_three_pages() {
    let mut doc = flat();
    doc.delete_pages(&[2]);
    assert_eq!(doc.get_pages(), vec![(3, 0), (5, 0)]);
    assert_eq!(count(&doc, (2, 0)), 2);
    assert_eq!(kids(&doc, (2, 0)), refs(&[3, 5]));
    assert_eq!(doc.objects.len(), 4);
    assert!(doc.get_object((4, 0)).is_err());
}

#[test]
fn delete_a_page_decrements_every_ancestor() {
    let mut doc = nested();
    doc.delete_pages(&[3]);
    assert_eq!(count(&doc, (4, 0)), 1);
    assert_eq!(count(&doc, (2, 0)), 3);
    assert_eq!(count(&doc, (3, 0)), 2);
    assert_eq!(kids(&doc, (4, 0)), refs(&[8]));
    assert_eq!(doc.get_pages(), vec![(5, 0), (6, 0), (8, 0)]);
}

#[test]
fn delete_pages_counts_by_the_layout_before_the_call() {
    let mut doc = nested();
    doc.delete_pages(&[1, 2]);
    assert_eq!(doc.get_pages(), vec![(7, 0), (8, 0)]);
    assert_eq!(count(&doc, (3, 0)), 0);
    assert_eq!(count(&doc, (2, 0)), 2);
    let mut doc = nested();
    doc.delete_pages(&[4, 1, 4]);
    assert_eq!(doc.get_pages(), vec![(6, 0), (7, 0)]);
    assert_eq!(count(&doc, (2, 0)), 2);
}

#[test]
fn delete_pages_passes_over_numbers_without_a_page() {
    let mut doc = flat();
    let before = doc.clone();
    doc.delete_pages(&[0, 4, 100]);
    assert_eq!(doc, before);
    doc.delete_pages(&[]);
    assert_eq!(doc, before);
}

#[test]
fn delete_page_where_a_node_has_no_count() {
    let mut doc = with_catalog(2);
    doc.set_object((2, 0), counted(node(None, &[3]), 1));
    doc.set_object((3, 0), node(Some(2), &[4]));
    doc.set_object((4, 0), leaf(3));
    doc.delete_pages(&[1]);
    assert_eq!(count(&doc, (2, 0)), 0);
    assert_eq!(doc.get_object((3, 0)), Ok(&node(Some(2), &[])));
}

#[test]
fn delete_page_stops_where_the_parent_is_missing() {
    let mut doc = with_catalog(2);
    doc.set_object((2, 0), counted(node(Some(77), &[3]), 1));
    doc.set_object((3, 0), leaf(2));
    doc.delete_pages(&[1]);
    assert_eq!(count(&doc, (2, 0)), 0);
}

#[test]
fn delete_page_where_the_parents_loop() {
    let mut doc = with_catalog(2);
    doc.set_object((2, 0), counted(node(Some(3), &[3]), 5));
    doc.set_object((3, 0), counted(node(Some(2), &[4]), 5));
    doc.set_object((4, 0), leaf(3));
    doc.delete_pages(&[1]);
    assert_eq!(count(&doc, (3, 0)), 4);
    assert_eq!(count(&doc, (2, 0)), 4);
}

#[test]
fn delete_page_leaves_the_least_count() {
    let mut doc = with_catalog(2);
    doc.set_object((2, 0), counted(node(None, &[3]), i64::MIN));
    doc.set_object((3, 0), leaf(2));
    doc.delete_pages(&[1]);
    assert_eq!(count(&doc, (2, 0)), i64::MIN);
}

#[test]
fn decrement_counts_walks_from_where_it_is_told() {
    let mut doc = nested();
    doc.decrement_counts(Some((3, 0)));
    assert_eq!(count(&doc, (3, 0)), 1);
    assert_eq!(count(&doc, (2, 0)), 3);
    assert_eq!(count(&doc, (4, 0)), 2);
    let before = doc.clone();
    doc.decrement_counts(None);
    doc.decrement_counts(Some((99, 0)));
    assert_eq!(doc, before);
}
