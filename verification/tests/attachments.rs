use pdfgraph::{Dictionary, Document, Error, Object, StringFormat};

fn name(text: &str) -> Object {
    Object::Name(text.as_bytes().to_vec())
}

fn with_catalog(catalog: Dictionary) -> Document {
    let mut doc = Document::new();
    doc.set_object((1, 0), Object::Dictionary(catalog));
    doc.trailer.set(b"Root", Object::Reference((1, 0)));
    doc.max_id = 1;
    doc
}

fn names_of(doc: &Document) -> Vec<String> {
    doc.list_attachments()
        .unwrap()
        .iter()
        .map(|n| String::from_utf8_lossy(n).into_owned())
        .collect()
}

fn long_text() -> Vec<u8> {
    let mut bytes = b"header".to_vec();
    bytes.extend(vec![b' '; 200]);
    bytes.extend(b"footer");
    bytes
}

#[test]
fn list_attachments_of_a_document_without_any() {
    let doc = with_catalog(Dictionary::new());
    assert_eq!(doc.list_attachments(), Ok(vec![]));
}

#[test]
fn list_attachments_needs_a_catalog() {
    let mut doc = Document::new();
    assert_eq!(doc.list_attachments(), Err(Error::DictKey));
    doc.trailer.set(b"Root", Object::Reference((1, 0)));
    assert_eq!(doc.list_attachments(), Err(Error::ObjectNotFound));
    doc.set_object((1, 0), Object::Integer(1));
    assert_eq!(doc.list_attachments(), Err(Error::Type));
    doc.trailer.set(b"Root", Object::Integer(1));
    assert_eq!(doc.list_attachments(), Err(Error::Type));
}

#[test]
fn list_attachments_follows_references_at_each_step() {
    let mut catalog = Dictionary::new();
    catalog.set(b"Names", Object::Reference((2, 0)));
    let mut doc = with_catalog(catalog);
    let mut names = Dictionary::new();
    names.set(b"EmbeddedFiles", Object::Reference((3, 0)));
    doc.set_object((2, 0), Object::Dictionary(names));
    let mut files = Dictionary::new();
    files.set(b"Names", Object::Reference((4, 0)));
    doc.set_object((3, 0), Object::Dictionary(files));
    doc.set_object(
        (4, 0),
        Object::Array(vec![
            Object::string_literal(b"a.txt"),
            Object::Reference((5, 0)),
            Object::String(b"hex".to_vec(), StringFormat::Hexadecimal),
            Object::Dictionary(Dictionary::new()),
            Object::string_literal(b"b.bin"),
        ]),
    );
    assert_eq!(names_of(&doc), vec!["a.txt", "b.bin"]);
}

#[test]
fn list_attachments_where_the_chain_breaks() {
    let mut catalog = Dictionary::new();
    catalog.set(b"Names", Object::Integer(1));
    assert_eq!(with_catalog(catalog).list_attachments(), Ok(vec![]));
    let mut names = Dictionary::new();
    names.set(b"EmbeddedFiles", Object::Reference((9, 0)));
    let mut catalog = Dictionary::new();
    catalog.set(b"Names", Object::Dictionary(names));
    assert_eq!(with_catalog(catalog).list_attachments(), Ok(vec![]));
}

#[test]
fn add_attachment_then_list_it() {
    let mut doc = with_catalog(Dictionary::new());
    assert_eq!(doc.add_attachment(b"notes.txt", long_text()), Ok(()));
    assert_eq!(names_of(&doc), vec!["notes.txt"]);
    // Two objects for the names, three for the file.
    assert_eq!(doc.max_id, 6);
    assert_eq!(doc.objects.len(), 6);
    // The catalog now stands in the trailer itself.
    let root = doc.trailer.get(b"Root").unwrap().as_dict().unwrap();
    assert!(root.has(b"Names"));
    assert_eq!(doc.get_object((1, 0)), Ok(&Object::Dictionary(Dictionary::new())));
}

#[test]
fn add_attachment_builds_the_file_objects() {
    let mut doc = with_catalog(Dictionary::new());
    doc.add_attachment(b"notes.txt", vec![1, 2, 3]).unwrap();
    assert_eq!(doc.get_object((2, 0)), Ok(&Object::Array(vec![])));
    let stream = doc.get_object((4, 0)).unwrap().as_stream().unwrap();
    assert_eq!(stream.content, vec![1, 2, 3]);
    assert_eq!(stream.dict.get(b"DL"), Ok(&Object::Integer(3)));
    assert_eq!(stream.dict.get(b"Length"), Ok(&Object::Integer(3)));
    let params = stream.dict.get(b"Params").unwrap().as_dict().unwrap();
    assert_eq!(params.get(b"Size"), Ok(&Object::Integer(3)));
    let holder = doc.get_dictionary((5, 0)).unwrap();
    assert_eq!(holder.get(b"F"), Ok(&Object::Reference((4, 0))));
    let description = doc.get_dictionary((6, 0)).unwrap();
    assert_eq!(description.get(b"Type"), Ok(&name("Filespec")));
    assert_eq!(description.get(b"F"), Ok(&Object::string_literal(b"notes.txt")));
    assert_eq!(description.get(b"EF"), Ok(&Object::Reference((5, 0))));
    let root = doc.trailer.get(b"Root").unwrap().as_dict().unwrap();
    let names = root.get(b"Names").unwrap().as_dict().unwrap();
    let files = names.get(b"EmbeddedFiles").unwrap().as_dict().unwrap();
    assert_eq!(
        files.get(b"Names"),
        Ok(&Object::Array(vec![
            Object::string_literal(b"notes.txt"),
            Object::Reference((6, 0)),
        ]))
    );
}

#[test]
fn add_attachment_keeps_the_bytes_of_the_file() {
    for content in [long_text(), vec![], vec![7; 1000], vec![1, 2, 3]] {
        let mut doc = with_catalog(Dictionary::new());
        doc.add_attachment(b"f", content.clone()).unwrap();
        let stream_id = (doc.max_id - 2, 0);
        assert_eq!(doc.extract_stream_content(stream_id, true), Some(content));
    }
}

#[test]
fn add_attachment_twice_lists_both() {
    let mut doc = with_catalog(Dictionary::new());
    doc.add_attachment(b"one", vec![1]).unwrap();
    doc.add_attachment(b"two", long_text()).unwrap();
    assert_eq!(names_of(&doc), vec!["one", "two"]);
    assert_eq!(doc.max_id, 9);
    assert_eq!(doc.extract_stream_content((7, 0), true), Some(long_text()));
}

#[test]
fn add_attachment_where_only_the_files_are_missing() {
    let mut catalog = Dictionary::new();
    let mut names = Dictionary::new();
    names.set(b"Dests", Object::Null);
    catalog.set(b"Names", Object::Dictionary(names));
    let mut doc = with_catalog(catalog);
    doc.add_attachment(b"x", vec![1]).unwrap();
    assert_eq!(names_of(&doc), vec!["x"]);
    assert_eq!(doc.max_id, 6);
    let root = doc.trailer.get(b"Root").unwrap().as_dict().unwrap();
    let names = root.get(b"Names").unwrap().as_dict().unwrap();
    assert_eq!(names.get(b"Dests"), Ok(&Object::Null));
}

#[test]
fn add_attachment_to_names_behind_a_reference() {
    let mut files = Dictionary::new();
    files.set(b"Names", Object::Reference((2, 0)));
    let mut names = Dictionary::new();
    names.set(b"EmbeddedFiles", Object::Dictionary(files));
    let mut catalog = Dictionary::new();
    catalog.set(b"Names", Object::Dictionary(names));
    let mut doc = with_catalog(catalog);
    doc.set_object((2, 0), Object::Array(vec![Object::string_literal(b"old")]));
    doc.max_id = 2;
    doc.add_attachment(b"new", vec![1]).unwrap();
    assert_eq!(names_of(&doc), vec!["old", "new"]);
    assert_eq!(doc.max_id, 5);
}

#[test]
fn add_attachment_needs_dictionaries_on_the_way() {
    let mut doc = Document::new();
    assert_eq!(doc.add_attachment(b"x", vec![1]), Err(Error::DictKey));
    let mut catalog = Dictionary::new();
    catalog.set(b"Names", Object::Reference((2, 0)));
    let mut doc = with_catalog(catalog);
    doc.set_object((2, 0), Object::Dictionary(Dictionary::new()));
    let before = doc.clone();
    assert_eq!(doc.add_attachment(b"x", vec![1]), Err(Error::Type));
    assert_eq!(doc, before);
    let mut names = Dictionary::new();
    names.set(b"EmbeddedFiles", Object::Integer(0));
    let mut catalog = Dictionary::new();
    catalog.set(b"Names", Object::Dictionary(names));
    let mut doc = with_catalog(catalog);
    let before = doc.clone();
    assert_eq!(doc.add_attachment(b"x", vec![1]), Err(Error::Type));
    assert_eq!(doc, before);
}

#[test]
fn add_attachment_where_the_files_lead_to_no_array() {
    let mut names = Dictionary::new();
    names.set(b"EmbeddedFiles", Object::Dictionary(Dictionary::new()));
    let mut catalog = Dictionary::new();
    catalog.set(b"Names", Object::Dictionary(names));
    let mut doc = with_catalog(catalog);
    assert_eq!(doc.add_attachment(b"x", vec![1]), Ok(()));
    assert_eq!(doc.list_attachments(), Ok(vec![]));
    assert_eq!(doc.objects.len(), 1);
    assert_eq!(doc.max_id, 1);
}
