use pdfgraph::{Dictionary, Document, Error, Object, ObjectId};

fn dict(entries: &[(&str, Object)]) -> Dictionary {
    let mut d = Dictionary::new();
    for (k, v) in entries {
        d.set(k.as_bytes(), v.clone());
    }
    d
}

fn reference(n: u32) -> Object {
    Object::Reference((n, 0))
}

fn ids(doc: &Document) -> Vec<ObjectId> {
    (0..doc.objects.len()).map(|i| doc.objects.id_at(i)).collect()
}

/// Trailer -> 1 -> 2 <-> 3 (a cycle); 4 -> 1 is not reached; 5 stands alone.
fn cyclic() -> Document {
    let mut doc = Document::new();
    doc.trailer.set(b"Root", reference(1));
    doc.set_object((1, 0), Object::Dictionary(dict(&[("Next", reference(2))])));
    doc.set_object((2, 0), Object::Array(vec![reference(3), Object::Integer(1)]));
    doc.set_object((3, 0), Object::Dictionary(dict(&[("Back", reference(2))])));
    doc.set_object((4, 0), Object::Dictionary(dict(&[("Up", reference(1))])));
    doc.set_object((5, 0), Object::Null);
    doc.max_id = 5;
    doc
}

#[test]
fn table_keeps_identities_in_order() {
    let mut doc = Document::new();
    doc.set_object((3, 0), Object::Integer(3));
    doc.set_object((1, 1), Object::Integer(11));
    doc.set_object((2, 0), Object::Integer(2));
    doc.set_object((1, 0), Object::Integer(10));
    assert_eq!(ids(&doc), vec![(1, 0), (1, 1), (2, 0), (3, 0)]);
    doc.set_object((2, 0), Object::Integer(20));
    assert_eq!(doc.objects.len(), 4);
    assert_eq!(doc.get_object((2, 0)), Ok(&Object::Integer(20)));
    assert_eq!(doc.get_object((2, 1)), Err(Error::ObjectNotFound));
    assert_eq!(doc.objects.remove((1, 1)), Some(Object::Integer(11)));
    assert_eq!(doc.objects.remove((1, 1)), None);
    assert_eq!(ids(&doc), vec![(1, 0), (2, 0), (3, 0)]);
}

#[test]
fn add_object_mints_the_next_number() {
    let mut doc = Document::new();
    doc.max_id = 7;
    let id = doc.add_object(Object::Null);
    assert_eq!(id, (8, 0));
    assert_eq!(doc.max_id, 8);
    assert_eq!(doc.new_object_id(), (9, 0));
    assert_eq!(doc.max_id, 9);
    assert_eq!(doc.get_object((8, 0)), Ok(&Object::Null));
}

#[test]
fn dictionary_set_get_remove() {
    let mut d = Dictionary::new();
    assert!(d.is_empty());
    d.set(b"A", Object::Integer(1));
    d.set(b"B", Object::Integer(2));
    d.set(b"A", Object::Integer(3));
    assert_eq!(d.len(), 2);
    assert_eq!(d.get(b"A"), Ok(&Object::Integer(3)));
    assert_eq!(d.get(b"C"), Err(Error::DictKey));
    assert!(d.has(b"B"));
    assert_eq!(d.remove(b"A"), Some(Object::Integer(3)));
    assert_eq!(d.remove(b"A"), None);
    assert_eq!(d.len(), 1);
    *d.get_mut(b"B").unwrap() = Object::Null;
    assert_eq!(d.get(b"B"), Ok(&Object::Null));
}

#[test]
fn accessors_report_the_wrong_kind() {
    assert_eq!(Object::Null.as_i64(), Err(Error::Type));
    assert_eq!(Object::Integer(4).as_i64(), Ok(4));
    assert_eq!(Object::Integer(4).as_reference(), Err(Error::Type));
    assert_eq!(reference(4).as_reference(), Ok((4, 0)));
    assert!(Object::Integer(4).as_dict().is_err());
    assert!(Object::Integer(4).as_array().is_err());
    assert!(Object::Integer(4).as_stream().is_err());
    assert_eq!(Object::Name(b"N".to_vec()).as_name(), Ok(&b"N"[..]));
}

#[test]
fn prune_keeps_what_the_trailer_reaches() {
    let mut doc = cyclic();
    let gone = doc.prune_objects();
    assert_eq!(gone, vec![(4, 0), (5, 0)]);
    assert_eq!(ids(&doc), vec![(1, 0), (2, 0), (3, 0)]);
    assert_eq!(doc.get_object((2, 0)), Ok(&Object::Array(vec![reference(3), Object::Integer(1)])));
    assert_eq!(doc.max_id, 5);
}

#[test]
fn prune_twice_removes_nothing_more() {
    let mut doc = cyclic();
    doc.prune_objects();
    let after_first = doc.clone();
    assert_eq!(doc.prune_objects(), vec![]);
    assert_eq!(doc, after_first);
}

#[test]
fn prune_with_empty_trailer_removes_everything() {
    let mut doc = cyclic();
    doc.trailer = Dictionary::new();
    assert_eq!(doc.prune_objects().len(), 5);
    assert!(doc.objects.is_empty());
}

#[test]
fn prune_follows_references_inside_streams_and_nesting() {
    let mut doc = Document::new();
    doc.trailer.set(b"Info", Object::Array(vec![Object::Array(vec![reference(7)])]));
    let stream = pdfgraph::Stream::new(dict(&[("Link", reference(9))]), vec![1, 2, 3]);
    doc.set_object((7, 0), Object::Stream(stream));
    doc.set_object((8, 0), Object::Integer(8));
    doc.set_object((9, 0), reference(10));
    doc.set_object((10, 0), Object::Integer(10));
    assert_eq!(doc.prune_objects(), vec![(8, 0)]);
    assert_eq!(ids(&doc), vec![(7, 0), (9, 0), (10, 0)]);
}

#[test]
fn prune_tolerates_dangling_references() {
    let mut doc = Document::new();
    doc.trailer.set(b"Root", reference(42));
    doc.set_object((1, 0), Object::Null);
    assert_eq!(doc.prune_objects(), vec![(1, 0)]);
}

#[test]
fn reachable_marks_follow_the_table_order() {
    let doc = cyclic();
    assert_eq!(doc.reachable_marks(), vec![true, true, true, false, false]);
}

#[test]
fn delete_object_scrubs_references() {
    let mut doc = Document::new();
    doc.trailer.set(b"Root", reference(1));
    doc.trailer.set(b"Gone", reference(2));
    doc.set_object(
        (1, 0),
        Object::Dictionary(dict(&[("A", reference(2)), ("B", Object::Integer(7))])),
    );
    doc.set_object((2, 0), Object::Null);
    doc.set_object(
        (3, 0),
        Object::Array(vec![
            reference(2),
            reference(1),
            reference(2),
            Object::Array(vec![reference(2)]),
            Object::Reference((2, 1)),
        ]),
    );
    let gone = doc.delete_object((2, 0));
    assert_eq!(gone, Some(Object::Null));
    assert_eq!(ids(&doc), vec![(1, 0), (3, 0)]);
    assert_eq!(doc.trailer, dict(&[("Root", reference(1))]));
    assert_eq!(
        doc.get_object((1, 0)),
        Ok(&Object::Dictionary(dict(&[("B", Object::Integer(7))])))
    );
    assert_eq!(
        doc.get_object((3, 0)),
        Ok(&Object::Array(vec![
            reference(1),
            Object::Array(vec![]),
            Object::Reference((2, 1)),
        ]))
    );
}

#[test]
fn delete_object_that_is_missing_still_scrubs() {
    let mut doc = Document::new();
    doc.set_object((1, 0), Object::Array(vec![reference(9)]));
    assert_eq!(doc.delete_object((9, 0)), None);
    assert_eq!(doc.get_object((1, 0)), Ok(&Object::Array(vec![])));
    assert_eq!(doc.delete_object((9, 0)), None);
    assert_eq!(doc.objects.len(), 1);
}

#[test]
fn delete_object_does_not_cascade() {
    let mut doc = cyclic();
    doc.delete_object((1, 0));
    assert_eq!(ids(&doc), vec![(2, 0), (3, 0), (4, 0), (5, 0)]);
    assert!(doc.trailer.is_empty());
    assert_eq!(doc.get_object((4, 0)), Ok(&Object::Dictionary(Dictionary::new())));
}

#[test]
fn delete_object_returns_the_object_without_references_to_itself() {
    let mut doc = Document::new();
    doc.set_object((1, 0), Object::Array(vec![reference(1), reference(2)]));
    assert_eq!(doc.delete_object((1, 0)), Some(Object::Array(vec![reference(2)])));
}

#[test]
fn delete_object_scrubs_stream_dictionaries() {
    let mut doc = Document::new();
    let stream = pdfgraph::Stream::new(dict(&[("Link", reference(2))]), vec![9]);
    doc.set_object((1, 0), Object::Stream(stream));
    doc.set_object((2, 0), Object::Null);
    doc.delete_object((2, 0));
    let expected = pdfgraph::Stream::new(Dictionary::new(), vec![9]);
    assert_eq!(doc.get_object((1, 0)), Ok(&Object::Stream(expected)));
}

#[test]
fn delete_zero_length_streams_takes_the_empty_ones() {
    let mut doc = Document::new();
    doc.trailer.set(b"Root", reference(1));
    doc.set_object((1, 0), Object::Array(vec![reference(2), reference(3), reference(4)]));
    doc.set_object((2, 0), Object::Stream(pdfgraph::Stream::new(Dictionary::new(), vec![])));
    doc.set_object((3, 0), Object::Stream(pdfgraph::Stream::new(Dictionary::new(), vec![0])));
    doc.set_object((4, 0), Object::Stream(pdfgraph::Stream::new(Dictionary::new(), vec![])));
    doc.set_object((5, 0), Object::Array(vec![]));
    assert_eq!(doc.delete_zero_length_streams(), vec![(2, 0), (4, 0)]);
    assert_eq!(ids(&doc), vec![(1, 0), (3, 0), (5, 0)]);
    assert_eq!(doc.get_object((1, 0)), Ok(&Object::Array(vec![reference(3)])));
    assert_eq!(doc.delete_zero_length_streams(), vec![]);
}

#[test]
fn renumber_closes_the_gaps() {
    let mut doc = Document::new();
    doc.trailer.set(b"Root", reference(5));
    doc.set_object((1, 0), Object::Array(vec![reference(3), reference(5)]));
    doc.set_object((3, 0), Object::Dictionary(dict(&[("Next", reference(5))])));
    doc.set_object((5, 0), Object::Dictionary(dict(&[("First", reference(1))])));
    doc.max_id = 5;
    doc.renumber_objects();
    assert_eq!(ids(&doc), vec![(1, 0), (2, 0), (3, 0)]);
    assert_eq!(doc.trailer, dict(&[("Root", reference(3))]));
    assert_eq!(doc.get_object((1, 0)), Ok(&Object::Array(vec![reference(2), reference(3)])));
    assert_eq!(doc.get_object((2, 0)), Ok(&Object::Dictionary(dict(&[("Next", reference(3))]))));
    assert_eq!(doc.get_object((3, 0)), Ok(&Object::Dictionary(dict(&[("First", reference(1))]))));
    assert_eq!(doc.max_id, 3);
}

#[test]
fn renumber_twice_changes_nothing_more() {
    let mut doc = cyclic();
    doc.delete_object((2, 0));
    doc.renumber_objects();
    let once = doc.clone();
    doc.renumber_objects();
    assert_eq!(doc, once);
    assert_eq!(ids(&doc), vec![(1, 0), (2, 0), (3, 0), (4, 0)]);
}

#[test]
fn renumber_keeps_generations_and_order() {
    let mut doc = Document::new();
    doc.set_object((2, 3), Object::Array(vec![Object::Reference((7, 1)), Object::Reference((2, 3))]));
    doc.set_object((2, 5), Object::Integer(25));
    doc.set_object((7, 1), Object::Reference((2, 5)));
    doc.renumber_objects_with(10);
    assert_eq!(ids(&doc), vec![(10, 3), (11, 5), (12, 1)]);
    assert_eq!(
        doc.get_object((10, 3)),
        Ok(&Object::Array(vec![Object::Reference((12, 1)), Object::Reference((10, 3))]))
    );
    assert_eq!(doc.get_object((11, 5)), Ok(&Object::Integer(25)));
    assert_eq!(doc.get_object((12, 1)), Ok(&Object::Reference((11, 5))));
    assert_eq!(doc.max_id, 12);
}

#[test]
fn renumber_where_targets_meet_sources() {
    // Every new number but the first is the old number of another object.
    let mut doc = Document::new();
    doc.set_object((2, 0), reference(3));
    doc.set_object((3, 0), reference(4));
    doc.set_object((4, 0), reference(2));
    doc.renumber_objects_with(3);
    assert_eq!(ids(&doc), vec![(3, 0), (4, 0), (5, 0)]);
    assert_eq!(doc.get_object((3, 0)), Ok(&reference(4)));
    assert_eq!(doc.get_object((4, 0)), Ok(&reference(5)));
    assert_eq!(doc.get_object((5, 0)), Ok(&reference(3)));
}

#[test]
fn renumber_leaves_dangling_references_alone() {
    let mut doc = Document::new();
    doc.set_object((4, 0), Object::Array(vec![reference(9), Object::Reference((4, 1))]));
    doc.renumber_objects();
    assert_eq!(ids(&doc), vec![(1, 0)]);
    assert_eq!(
        doc.get_object((1, 0)),
        Ok(&Object::Array(vec![reference(9), Object::Reference((4, 1))]))
    );
}

#[test]
fn renumber_an_empty_table_sets_the_counter_below_the_start() {
    let mut doc = Document::new();
    doc.max_id = 40;
    doc.renumber_objects_with(5);
    assert_eq!(doc.max_id, 4);
    doc.renumber_objects();
    assert_eq!(doc.max_id, 0);
}

#[test]
fn renumber_keeps_what_the_trailer_reaches() {
    let mut doc = cyclic();
    let before = doc.reachable_marks();
    doc.renumber_objects_with(100);
    assert_eq!(doc.reachable_marks(), before);
    assert_eq!(doc.prune_objects(), vec![(103, 0), (104, 0)]);
}

#[test]
fn change_producer_in_the_trailer_itself() {
    let mut doc = Document::new();
    doc.trailer.set(b"Info", Object::Dictionary(dict(&[("Producer", Object::Null)])));
    doc.change_producer("me");
    let info = doc.trailer.get(b"Info").unwrap().as_dict().unwrap();
    assert_eq!(info.get(b"Producer"), Ok(&Object::string_literal(b"me")));
    assert_eq!(info.len(), 1);
}

#[test]
fn change_producer_through_a_reference() {
    let mut doc = Document::new();
    doc.trailer.set(b"Info", reference(3));
    doc.set_object((3, 0), Object::Dictionary(dict(&[("Title", Object::Integer(1))])));
    doc.change_producer("pdfgraph");
    assert_eq!(
        doc.get_object((3, 0)),
        Ok(&Object::Dictionary(dict(&[
            ("Title", Object::Integer(1)),
            ("Producer", Object::string_literal(b"pdfgraph")),
        ])))
    );
    assert_eq!(doc.trailer, dict(&[("Info", reference(3))]));
}

#[test]
fn change_producer_without_information_does_nothing() {
    let mut doc = cyclic();
    let before = doc.clone();
    doc.change_producer("x");
    assert_eq!(doc, before);
    doc.trailer.set(b"Info", reference(77));
    let before = doc.clone();
    doc.change_producer("x");
    assert_eq!(doc, before);
    doc.trailer.set(b"Info", reference(2));
    let before = doc.clone();
    doc.change_producer("x");
    assert_eq!(doc, before);
}

#[test]
fn rewrite_applies_a_change_to_every_value() {
    let mut doc = Document::new();
    doc.trailer.set(b"Root", reference(1));
    doc.trailer.set(b"List", Object::Array(vec![reference(2), reference(1)]));
    doc.set_object((1, 0), Object::Array(vec![reference(2), Object::Array(vec![reference(2)])]));
    doc.set_object((2, 0), reference(2));
    doc.rewrite(&pdfgraph::scrub::Scrub { id: (2, 0) });
    // The pass changes the values in the trailer, not the trailer itself.
    assert_eq!(
        doc.trailer,
        dict(&[("Root", reference(1)), ("List", Object::Array(vec![reference(1)]))])
    );
    assert_eq!(doc.get_object((1, 0)), Ok(&Object::Array(vec![Object::Array(vec![])])));
    assert_eq!(doc.get_object((2, 0)), Ok(&reference(2)));
}

#[test]
fn rewrite_with_new_identities() {
    let mut doc = Document::new();
    doc.trailer.set(b"Root", reference(7));
    doc.set_object((5, 0), Object::Array(vec![reference(7), reference(6), reference(5)]));
    let pass = pdfgraph::renumber::Rename::new(vec![(5, 0), (7, 0)], 1);
    doc.rewrite(&pass);
    assert_eq!(doc.trailer, dict(&[("Root", reference(2))]));
    assert_eq!(
        doc.get_object((5, 0)),
        Ok(&Object::Array(vec![reference(2), reference(6), reference(1)]))
    );
}

#[test]
fn well_formed_means_ascending_identities() {
    let mut doc = cyclic();
    assert!(doc.is_well_formed());
    doc.objects.entries.swap(0, 1);
    assert!(!doc.is_well_formed());
    doc.objects.entries.swap(0, 1);
    let twin = doc.objects.entries[1].clone();
    doc.objects.entries.insert(1, twin);
    assert!(!doc.is_well_formed());
    assert!(Document::new().is_well_formed());
}

#[test]
fn get_dictionary_mut_changes_the_table() {
    let mut doc = cyclic();
    doc.get_dictionary_mut((1, 0)).unwrap().set(b"Extra", Object::Integer(1));
    assert_eq!(
        doc.get_object((1, 0)),
        Ok(&Object::Dictionary(dict(&[("Next", reference(2)), ("Extra", Object::Integer(1))])))
    );
    assert_eq!(doc.get_dictionary_mut((2, 0)).err(), Some(Error::Type));
    assert_eq!(doc.get_dictionary_mut((9, 0)).err(), Some(Error::ObjectNotFound));
    *doc.get_object_mut((5, 0)).unwrap() = Object::Boolean(true);
    assert_eq!(doc.get_object((5, 0)), Ok(&Object::Boolean(true)));
}

#[test]
fn clone_copies_every_value() {
    let doc = cyclic();
    let copy = doc.clone();
    assert_eq!(copy, doc);
    assert_eq!(copy.max_id, 5);
}

#[test]
fn renumber_leaves_every_reference_resolving() {
    let mut doc = cyclic();
    doc.renumber_objects_with(50);
    let mut found = Vec::new();
    for i in 0..doc.objects.len() {
        pdfgraph::reach::collect_references(doc.objects.object_at(i), &mut found);
    }
    pdfgraph::reach::collect_entry_references(&doc.trailer.entries, &mut found);
    assert_eq!(found.len(), 5);
    for id in found {
        assert!(doc.objects.contains(id));
    }
}
