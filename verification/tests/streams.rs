use pdfgraph::runlength::{decode, encode};
use pdfgraph::{Dictionary, Document, Error, Extraction, Object, Stream};

fn name(text: &str) -> Object {
    Object::Name(text.as_bytes().to_vec())
}

fn stream_of(content: Vec<u8>) -> Stream {
    Stream::new(Dictionary::new(), content)
}

fn zeros(n: usize) -> Vec<u8> {
    vec![0; n]
}

fn mixed() -> Vec<u8> {
    let mut bytes = Vec::new();
    for i in 0..300u32 {
        bytes.push((i % 7) as u8);
    }
    bytes.extend(vec![9u8; 400]);
    bytes.push(1);
    bytes.extend(vec![2u8; 2]);
    bytes
}

#[test]
fn encode_exact_bytes() {
    assert_eq!(encode(&[]), vec![128]);
    assert_eq!(encode(&[5]), vec![0, 5, 128]);
    assert_eq!(encode(&[7, 7, 7]), vec![254, 7, 128]);
    assert_eq!(encode(&[1, 2, 2, 2, 3]), vec![0, 1, 254, 2, 0, 3, 128]);
    assert_eq!(encode(&[1, 2, 3]), vec![2, 1, 2, 3, 128]);
    assert_eq!(encode(&[4, 4]), vec![255, 4, 128]);
}

#[test]
fn encode_splits_long_runs() {
    assert_eq!(encode(&zeros(128)), vec![129, 0, 128]);
    assert_eq!(encode(&zeros(129)), vec![129, 0, 0, 0, 128]);
    assert_eq!(encode(&zeros(130)), vec![129, 0, 255, 0, 128]);
    let mut literal = Vec::new();
    for i in 0..129u32 {
        literal.push((i % 2) as u8);
    }
    let packed = encode(&literal);
    assert_eq!(packed.len(), 1 + 128 + 2 + 1);
    assert_eq!(packed[0], 127);
    assert_eq!(&packed[1..129], &literal[..128]);
    assert_eq!(&packed[129..], &[0, 0, 128]);
}

#[test]
fn decode_exact_bytes() {
    assert_eq!(decode(&[]), Some(vec![]));
    assert_eq!(decode(&[128]), Some(vec![]));
    assert_eq!(decode(&[2, 9, 8, 7, 128]), Some(vec![9, 8, 7]));
    assert_eq!(decode(&[255, 4]), Some(vec![4, 4]));
    assert_eq!(decode(&[129, 1, 128]), Some(vec![1; 128]));
    assert_eq!(decode(&[0, 1]), Some(vec![1]));
    assert_eq!(decode(&[128, 5, 5]), Some(vec![]));
}

#[test]
fn decode_refuses_runs_cut_short() {
    assert_eq!(decode(&[3, 1, 2]), None);
    assert_eq!(decode(&[200]), None);
    assert_eq!(decode(&[0]), None);
    assert_eq!(decode(&[0, 1, 250]), None);
}

#[test]
fn decode_gives_back_what_was_encoded() {
    for data in [vec![], vec![1], zeros(1000), mixed(), vec![3, 3, 4, 4, 5, 6, 6, 6]] {
        assert_eq!(decode(&encode(&data)), Some(data));
    }
}

#[test]
fn new_stream_has_its_length() {
    let stream = stream_of(vec![1, 2, 3]);
    assert_eq!(stream.dict.get(b"Length"), Ok(&Object::Integer(3)));
    assert_eq!(stream.dict.len(), 1);
    assert!(stream.allows_compression);
    assert_eq!(stream.content, vec![1, 2, 3]);
}

#[test]
fn compress_where_it_saves_bytes() {
    let mut stream = stream_of(zeros(100));
    assert_eq!(stream.compress(), Ok(()));
    assert_eq!(stream.content, vec![157, 0, 128]);
    assert_eq!(stream.dict.get(b"Length"), Ok(&Object::Integer(3)));
    assert_eq!(stream.dict.get(b"Filter"), Ok(&name("RunLengthDecode")));
    assert_eq!(stream.decompressed_content(), Ok(zeros(100)));
}

#[test]
fn compress_leaves_what_would_not_shrink() {
    // 27 equal bytes encode to 3: with the 24 of the entry that saves nothing.
    let mut stream = stream_of(zeros(27));
    let before = stream.clone();
    assert_eq!(stream.compress(), Ok(()));
    assert_eq!(stream, before);
    let mut stream = stream_of(zeros(28));
    assert_eq!(stream.compress(), Ok(()));
    assert_eq!(stream.content, vec![229, 0, 128]);
}

#[test]
fn compress_leaves_a_stream_that_names_a_filter() {
    let mut stream = stream_of(zeros(100));
    stream.dict.set(b"Filter", name("FlateDecode"));
    let before = stream.clone();
    assert_eq!(stream.compress(), Ok(()));
    assert_eq!(stream, before);
}

#[test]
fn decompress_after_compress_gives_the_content_back() {
    for data in [zeros(100), mixed(), vec![1, 2, 3], vec![]] {
        let mut stream = stream_of(data.clone());
        let plain = stream.clone();
        stream.compress().unwrap();
        stream.decompress();
        assert_eq!(stream.content, data);
        assert_eq!(stream, plain);
    }
}

#[test]
fn decompress_takes_out_the_encoding() {
    let mut stream = stream_of(vec![254, 7, 128]);
    stream.dict.set(b"Filter", name("RunLengthDecode"));
    stream.dict.set(b"DecodeParms", Object::Null);
    stream.decompress();
    assert_eq!(stream.content, vec![7, 7, 7]);
    assert_eq!(stream.dict.len(), 1);
    assert_eq!(stream.dict.get(b"Length"), Ok(&Object::Integer(3)));
}

#[test]
fn decompressed_content_reports_why_it_fails() {
    let mut stream = stream_of(vec![3, 1]);
    assert_eq!(stream.decompressed_content(), Err(Error::DictKey));
    stream.dict.set(b"Filter", Object::Integer(1));
    assert_eq!(stream.decompressed_content(), Err(Error::Type));
    stream.dict.set(b"Filter", name("FlateDecode"));
    assert_eq!(stream.decompressed_content(), Err(Error::Type));
    stream.dict.set(b"Filter", name("RunLengthDecode"));
    assert_eq!(stream.decompressed_content(), Err(Error::Codec));
    let before = stream.clone();
    stream.decompress();
    assert_eq!(stream, before);
}

#[test]
fn set_plain_content_discards_the_encoding() {
    let mut stream = stream_of(zeros(100));
    stream.compress().unwrap();
    stream.set_plain_content(vec![1, 2]);
    assert_eq!(stream, stream_of(vec![1, 2]));
}

fn three_streams() -> Document {
    let mut doc = Document::new();
    doc.set_object((1, 0), Object::Stream(stream_of(zeros(100))));
    let mut fixed = stream_of(zeros(100));
    fixed.allows_compression = false;
    doc.set_object((2, 0), Object::Stream(fixed));
    doc.set_object((3, 0), Object::Stream(stream_of(vec![1, 2, 3])));
    doc.set_object((4, 0), Object::Integer(4));
    let mut broken = stream_of(vec![3, 1]);
    broken.dict.set(b"Filter", name("RunLengthDecode"));
    doc.set_object((5, 0), Object::Stream(broken));
    doc
}

#[test]
fn compress_every_stream_that_allows_it() {
    let mut doc = three_streams();
    let before = doc.clone();
    doc.compress();
    let first = doc.get_object((1, 0)).unwrap().as_stream().unwrap();
    assert_eq!(first.content, vec![157, 0, 128]);
    for id in [(2, 0), (3, 0), (4, 0), (5, 0)] {
        assert_eq!(doc.get_object(id), before.get_object(id));
    }
}

#[test]
fn decompress_every_stream_that_decodes() {
    let mut doc = three_streams();
    let plain = doc.clone();
    doc.compress();
    doc.decompress();
    assert_eq!(doc, plain);
}

#[test]
fn change_content_stream_replaces_and_compresses() {
    let mut doc = three_streams();
    doc.compress();
    doc.change_content_stream((1, 0), vec![5, 6]);
    assert_eq!(doc.get_object((1, 0)), Ok(&Object::Stream(stream_of(vec![5, 6]))));
    doc.change_content_stream((3, 0), vec![8; 50]);
    let third = doc.get_object((3, 0)).unwrap().as_stream().unwrap();
    assert_eq!(third.content, vec![207, 8, 128]);
    assert_eq!(third.decompressed_content(), Ok(vec![8; 50]));
}

#[test]
fn change_content_stream_of_no_stream_does_nothing() {
    let mut doc = three_streams();
    let before = doc.clone();
    doc.change_content_stream((4, 0), vec![1]);
    doc.change_content_stream((9, 0), vec![1]);
    assert_eq!(doc, before);
}

fn page_with(contents: Option<Object>) -> Document {
    let mut doc = Document::new();
    let mut page = Dictionary::new();
    page.set(b"Type", name("Page"));
    if let Some(c) = contents {
        page.set(b"Contents", c);
    }
    doc.set_object((1, 0), Object::Dictionary(page));
    doc.set_object((2, 0), Object::Stream(stream_of(vec![1])));
    doc.set_object((3, 0), Object::Stream(stream_of(vec![2])));
    doc.max_id = 3;
    doc
}

#[test]
fn change_page_content_through_one_reference() {
    let mut doc = page_with(Some(Object::Reference((2, 0))));
    assert_eq!(doc.change_page_content((1, 0), vec![7, 8]), Ok(()));
    assert_eq!(doc.get_object((2, 0)), Ok(&Object::Stream(stream_of(vec![7, 8]))));
    assert_eq!(doc.objects.len(), 3);
    assert_eq!(doc.max_id, 3);
}

#[test]
fn change_page_content_through_an_array_of_one() {
    let mut doc = page_with(Some(Object::Array(vec![Object::Reference((3, 0))])));
    assert_eq!(doc.change_page_content((1, 0), vec![7, 8]), Ok(()));
    assert_eq!(doc.get_object((3, 0)), Ok(&Object::Stream(stream_of(vec![7, 8]))));
    assert_eq!(doc.get_object((2, 0)), Ok(&Object::Stream(stream_of(vec![1]))));
    let mut doc = page_with(Some(Object::Array(vec![Object::Integer(3)])));
    let before = doc.clone();
    assert_eq!(doc.change_page_content((1, 0), vec![7, 8]), Ok(()));
    assert_eq!(doc, before);
}

#[test]
fn change_page_content_of_several_streams_adds_one() {
    let both = Object::Array(vec![Object::Reference((2, 0)), Object::Reference((3, 0))]);
    let mut doc = page_with(Some(both));
    assert_eq!(doc.change_page_content((1, 0), vec![7, 8]), Ok(()));
    assert_eq!(doc.max_id, 4);
    assert_eq!(doc.get_object((4, 0)), Ok(&Object::Stream(stream_of(vec![7, 8]))));
    let page = doc.get_dictionary((1, 0)).unwrap();
    assert_eq!(page.get(b"Contents"), Ok(&Object::Reference((4, 0))));
    // The streams that the page referred to stay, until they are collected.
    assert_eq!(doc.get_object((2, 0)), Ok(&Object::Stream(stream_of(vec![1]))));
    assert_eq!(doc.get_object((3, 0)), Ok(&Object::Stream(stream_of(vec![2]))));
    doc.trailer.set(b"Root", Object::Reference((1, 0)));
    assert_eq!(doc.prune_objects(), vec![(2, 0), (3, 0)]);
}

#[test]
fn change_page_content_of_an_empty_array_adds_one() {
    let mut doc = page_with(Some(Object::Array(vec![])));
    assert_eq!(doc.change_page_content((1, 0), vec![7]), Ok(()));
    let page = doc.get_dictionary((1, 0)).unwrap();
    assert_eq!(page.get(b"Contents"), Ok(&Object::Reference((4, 0))));
}

#[test]
fn change_page_content_reports_what_is_missing() {
    let mut doc = page_with(None);
    let before = doc.clone();
    assert_eq!(doc.change_page_content((1, 0), vec![7]), Err(Error::DictKey));
    assert_eq!(doc.change_page_content((9, 0), vec![7]), Err(Error::ObjectNotFound));
    assert_eq!(doc.change_page_content((2, 0), vec![7]), Err(Error::Type));
    assert_eq!(doc, before);
    let mut doc = page_with(Some(Object::Null));
    let before = doc.clone();
    assert_eq!(doc.change_page_content((1, 0), vec![7]), Ok(()));
    assert_eq!(doc, before);
}

#[test]
fn extract_stream_names_the_file_after_the_identity() {
    let mut doc = Document::new();
    doc.set_object((12, 0), Object::Stream(stream_of(vec![1, 2])));
    let out = doc.extract_stream((12, 0), false);
    assert_eq!(
        out,
        Extraction { file_name: b"(12, 0).bin".to_vec(), content: Some(vec![1, 2]) }
    );
    let out = doc.extract_stream((4294967295, 65535), true);
    assert_eq!(out.file_name, b"(4294967295, 65535).bin".to_vec());
    assert_eq!(out.content, None);
    assert_eq!(doc.extract_stream((0, 7), true).file_name, b"(0, 7).bin".to_vec());
}

#[test]
fn extract_stream_content_decodes_or_falls_back() {
    let mut doc = three_streams();
    doc.compress();
    assert_eq!(doc.extract_stream_content((1, 0), false), Some(vec![157, 0, 128]));
    assert_eq!(doc.extract_stream_content((1, 0), true), Some(zeros(100)));
    assert_eq!(doc.extract_stream_content((3, 0), true), Some(vec![1, 2, 3]));
    assert_eq!(doc.extract_stream_content((5, 0), true), Some(vec![3, 1]));
    assert_eq!(doc.extract_stream_content((4, 0), true), None);
    assert_eq!(doc.extract_stream_content((9, 0), false), None);
}
