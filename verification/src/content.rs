//! The content of streams: compressing and decompressing every stream,
//! replacing the content of one, and handing content out.

use vstd::prelude::*;
use vstd::string::*;
use crate::document::Document;
use crate::model::{has_key, lemma_with_entry_same, lookup, with_entry, DocumentValue, ObjectId, StreamValue, StringFormat, Table, Value};
use crate::names::{CONTENTS, INFO, PRODUCER};
use crate::object::{Dictionary, Error, Object, Stream};
use crate::stream::{compressed, decompressed, plain_content, with_content, with_plain_content};
use crate::table::{lemma_table_with_same, table_with};

verus! {

/// A value after compression: a stream that may be compressed is; any
/// other value stays.
pub open spec fn compressed_value(v: Value) -> Value {
    match v {
        Value::Stream(s) => if s.allows_compression {
            Value::Stream(compressed(s))
        } else {
            v
        },
        _ => v,
    }
}

/// A value after decompression: a stream is decompressed; any other value
/// stays.
pub open spec fn decompressed_value(v: Value) -> Value {
    match v {
        Value::Stream(s) => Value::Stream(decompressed(s)),
        _ => v,
    }
}

/// The table with each value compressed.
pub open spec fn compressed_table(t: Table) -> Table {
    Seq::new(t.len(), |i: int| (t[i].0, compressed_value(t[i].1)))
}

/// The table with each value decompressed.
pub open spec fn decompressed_table(t: Table) -> Table {
    Seq::new(t.len(), |i: int| (t[i].0, decompressed_value(t[i].1)))
}

/// The stream with `content` as its new content: set as plain content, then
/// compressed.
pub open spec fn stream_with_new_content(s: StreamValue, content: Seq<u8>) -> StreamValue {
    compressed(with_plain_content(s, content))
}

/// The document with `content` as the new content of the stream `id`; the
/// document as it is where `id` names no stream.
pub open spec fn content_changed(doc: DocumentValue, id: ObjectId, content: Seq<u8>) -> DocumentValue {
    match lookup(doc.objects, id) {
        Some(Value::Stream(s)) => DocumentValue {
            objects: table_with(
                doc.objects,
                id,
                Value::Stream(stream_with_new_content(s, content)),
            ),
            ..doc
        },
        _ => doc,
    }
}

/// What the page `page_id` has under "Contents", or why it has nothing.
pub open spec fn page_contents(doc: DocumentValue, page_id: ObjectId) -> Result<Value, Error> {
    match lookup(doc.objects, page_id) {
        None => Err(Error::ObjectNotFound),
        Some(Value::Dictionary(d)) => match lookup(d, CONTENTS@) {
            Some(v) => Ok(v),
            None => Err(Error::DictKey),
        },
        Some(_) => Err(Error::Type),
    }
}

/// The document with a new stream of `content` under the next identity, and
/// with the page `page_id`, where it still is a dictionary, referring to
/// that stream alone as its "Contents".
pub open spec fn content_repointed(doc: DocumentValue, page_id: ObjectId, content: Seq<u8>) -> DocumentValue {
    let id = ((doc.max_id + 1) as u32, 0u16);
    let stream = with_content(
        StreamValue { dict: Seq::empty(), content, allows_compression: true },
        content,
    );
    let added = table_with(doc.objects, id, Value::Stream(stream));
    DocumentValue {
        objects: match lookup(added, page_id) {
            Some(Value::Dictionary(d)) => table_with(
                added,
                page_id,
                Value::Dictionary(with_entry(d, CONTENTS@, Value::Reference(id))),
            ),
            _ => added,
        },
        trailer: doc.trailer,
        max_id: id.0,
    }
}

/// The document after the content of the page `page_id` was replaced by
/// `content`, where the page has a "Contents" entry.
pub open spec fn page_content_changed(doc: DocumentValue, page_id: ObjectId, content: Seq<u8>) -> DocumentValue {
    match page_contents(doc, page_id) {
        Ok(Value::Reference(id)) => content_changed(doc, id, content),
        Ok(Value::Array(a)) => if a.len() == 1 {
            match a[0] {
                Value::Reference(id) => content_changed(doc, id, content),
                _ => doc,
            }
        } else {
            content_repointed(doc, page_id, content)
        },
        _ => doc,
    }
}

/// The dictionary with `producer` as a literal string under "Producer".
pub open spec fn with_producer(d: crate::model::Entries, producer: Seq<u8>) -> Value {
    Value::Dictionary(
        with_entry(d, PRODUCER@, Value::String(producer, StringFormat::Literal)),
    )
}

/// The document with `producer` in its information dictionary: the
/// dictionary that the trailer's "Info" is or refers to. Where there is no
/// such dictionary, the document as it is.
pub open spec fn producer_changed(doc: DocumentValue, producer: Seq<u8>) -> DocumentValue {
    match lookup(doc.trailer, INFO@) {
        Some(Value::Dictionary(d)) => DocumentValue {
            trailer: with_entry(doc.trailer, INFO@, with_producer(d, producer)),
            ..doc
        },
        Some(Value::Reference(id)) => match lookup(doc.objects, id) {
            Some(Value::Dictionary(d)) => DocumentValue {
                objects: table_with(doc.objects, id, with_producer(d, producer)),
                ..doc
            },
            _ => doc,
        },
        _ => doc,
    }
}

/// What extracting the stream `id` hands out: nothing where `id` names no
/// stream; the decoded content where that is asked for and the content
/// decodes; the content as stored in every other case.
pub open spec fn extracted(doc: DocumentValue, id: ObjectId, decompress: bool) -> Option<Seq<u8>> {
    match lookup(doc.objects, id) {
        Some(Value::Stream(s)) => if decompress {
            match plain_content(s) {
                Ok(bytes) => Some(bytes),
                Err(_) => Some(s.content),
            }
        } else {
            Some(s.content)
        },
        _ => None,
    }
}

/// What the page's "Contents" asks for when content is replaced.
enum Plan {
    /// Replace the content of this stream.
    Replace(ObjectId),
    /// Add a stream and point the page at it.
    Fresh,
    /// Leave the document as it is.
    Nothing,
}

impl Document {
    /// Sets the producer in the information dictionary, where the trailer
    /// has one under "Info", directly or by reference.
    pub fn change_producer(&mut self, producer: &str)
        requires
            old(self).wf(),
        ensures
            final(self).wf(),
            final(self)@ == producer_changed(old(self)@, producer.spec_bytes()),
    {
        let text = Object::string_literal(producer.as_bytes());
        proof {
            if has_key(self@.trailer, INFO@) {
                lemma_with_entry_same(self@.trailer, INFO@);
                match lookup(self@.trailer, INFO@) {
                    Some(Value::Reference(id)) => {
                        if has_key(self@.objects, id) {
                            lemma_table_with_same(self@.objects, id);
                        }
                    },
                    _ => {},
                }
            }
        }
        match self.trailer.get_mut(&INFO) {
            Ok(info) => {
                match info {
                    Object::Dictionary(dict) => {
                        dict.set(&PRODUCER, text);
                    },
                    Object::Reference(id) => {
                        let id = *id;
                        match self.objects.get_mut(id) {
                            Some(target) => {
                                match target {
                                    Object::Dictionary(dict) => {
                                        dict.set(&PRODUCER, text);
                                    },
                                    _ => {},
                                }
                            },
                            None => {},
                        }
                    },
                    _ => {},
                }
            },
            Err(_) => {},
        }
    }

    /// Compresses every stream that may be compressed.
    pub fn compress(&mut self)
        requires
            old(self).wf(),
        ensures
            final(self).wf(),
            final(self)@ == (DocumentValue {
                objects: compressed_table(old(self)@.objects),
                ..old(self)@
            }),
    {
        let n = self.objects.entries.len();
        let mut i: usize = 0;
        while i < n
            invariant
                i <= n,
                n == self.objects.entries.len(),
                n == old(self)@.objects.len(),
                self.trailer == old(self).trailer,
                self.max_id == old(self).max_id,
                forall|k: int| i <= k < n ==> self.objects@[k] == old(self)@.objects[k],
                forall|k: int|
                    0 <= k < i ==> self.objects@[k] == compressed_table(old(self)@.objects)[k],
            decreases n - i,
        {
            let ghost before = self.objects@;
            let ghost entries_before = self.objects.entries@;
            match &mut self.objects.entries[i].1 {
                Object::Stream(stream) => {
                    if stream.allows_compression {
                        let _ = stream.compress();
                    }
                },
                _ => {},
            }
            proof {
                let entries_after = self.objects.entries@;
                assert(before[i as int] == (entries_before[i as int].0, entries_before[i as int].1@));
                assert(entries_after[i as int].0 == entries_before[i as int].0);
                assert(entries_after[i as int].1@ == compressed_value(entries_before[i as int].1@));
                assert forall|k: int| 0 <= k < n && k != i implies self.objects@[k] == before[k] by {
                    assert(entries_after[k] == entries_before[k]);
                    assert(before[k] == (entries_before[k].0, entries_before[k].1@));
                }
                assert(self.objects@[i as int] == (entries_after[i as int].0, entries_after[i as int].1@));
                assert(before[i as int] == old(self)@.objects[i as int]);
                assert(self.objects@[i as int] == compressed_table(old(self)@.objects)[i as int]);
                assert forall|k: int| 0 <= k < i implies self.objects@[k] == compressed_table(old(self)@.objects)[k] by {
                    assert(self.objects@[k] == before[k]);
                }
            }
            i += 1;
        }
        proof {
            assert(self.objects@ =~= compressed_table(old(self)@.objects));
        }
    }

    /// Decompresses every stream whose content can be decoded.
    pub fn decompress(&mut self)
        requires
            old(self).wf(),
        ensures
            final(self).wf(),
            final(self)@ == (DocumentValue {
                objects: decompressed_table(old(self)@.objects),
                ..old(self)@
            }),
    {
        let n = self.objects.entries.len();
        let mut i: usize = 0;
        while i < n
            invariant
                i <= n,
                n == self.objects.entries.len(),
                n == old(self)@.objects.len(),
                self.trailer == old(self).trailer,
                self.max_id == old(self).max_id,
                forall|k: int| i <= k < n ==> self.objects@[k] == old(self)@.objects[k],
                forall|k: int|
                    0 <= k < i ==> self.objects@[k] == decompressed_table(old(self)@.objects)[k],
            decreases n - i,
        {
            let ghost before = self.objects@;
            let ghost entries_before = self.objects.entries@;
            match &mut self.objects.entries[i].1 {
                Object::Stream(stream) => {
                    stream.decompress();
                },
                _ => {},
            }
            proof {
                let entries_after = self.objects.entries@;
                assert(before[i as int] == (entries_before[i as int].0, entries_before[i as int].1@));
                assert(entries_after[i as int].0 == entries_before[i as int].0);
                assert(entries_after[i as int].1@ == decompressed_value(entries_before[i as int].1@));
                assert forall|k: int| 0 <= k < n && k != i implies self.objects@[k] == before[k] by {
                    assert(entries_after[k] == entries_before[k]);
                    assert(before[k] == (entries_before[k].0, entries_before[k].1@));
                }
                assert(self.objects@[i as int] == (entries_after[i as int].0, entries_after[i as int].1@));
                assert(before[i as int] == old(self)@.objects[i as int]);
                assert(self.objects@[i as int] == decompressed_table(old(self)@.objects)[i as int]);
                assert forall|k: int| 0 <= k < i implies self.objects@[k] == decompressed_table(old(self)@.objects)[k] by {
                    assert(self.objects@[k] == before[k]);
                }
            }
            i += 1;
        }
        proof {
            assert(self.objects@ =~= decompressed_table(old(self)@.objects));
        }
    }

    /// Replaces the content of the stream `stream_id` by `content`, plain,
    /// and compresses it again. Does nothing where `stream_id` names no
    /// stream.
    pub fn change_content_stream(&mut self, stream_id: ObjectId, content: Vec<u8>)
        requires
            old(self).wf(),
        ensures
            final(self).wf(),
            final(self)@ == content_changed(old(self)@, stream_id, content@),
    {
        match self.objects.get_mut(stream_id) {
            Some(object) => {
                match object {
                    Object::Stream(stream) => {
                        stream.set_plain_content(content);
                        let _ = stream.compress();
                    },
                    _ => {},
                }
            },
            None => {},
        }
        proof {
            if has_key(old(self)@.objects, stream_id) {
                lemma_table_with_same(old(self)@.objects, stream_id);
            }
        }
    }

    /// What replacing the content of the page `page_id` has to do.
    fn content_plan(&self, page_id: ObjectId) -> (r: Result<Plan, Error>)
        requires
            self.wf(),
        ensures
            match r {
                Ok(Plan::Replace(id)) => match page_contents(self@, page_id) {
                    Ok(Value::Reference(r)) => r == id,
                    Ok(Value::Array(a)) => a.len() == 1 && a[0] == Value::Reference(id),
                    _ => false,
                },
                Ok(Plan::Fresh) => match page_contents(self@, page_id) {
                    Ok(Value::Array(a)) => a.len() != 1,
                    _ => false,
                },
                Ok(Plan::Nothing) => match page_contents(self@, page_id) {
                    Ok(Value::Reference(r)) => false,
                    Ok(Value::Array(a)) => a.len() == 1 && !(a[0] is Reference),
                    Ok(_) => true,
                    Err(_) => false,
                },
                Err(e) => page_contents(self@, page_id) == Err::<Value, Error>(e),
            },
    {
        let page = self.get_dictionary(page_id)?;
        let contents = page.get(&CONTENTS)?;
        match contents {
            Object::Reference(id) => Ok(Plan::Replace(*id)),
            Object::Array(items) => {
                if items.len() == 1 {
                    proof {
                        assert(crate::object::values_of(items@)[0] == items@[0]@);
                    }
                    match &items[0] {
                        Object::Reference(id) => Ok(Plan::Replace(*id)),
                        _ => Ok(Plan::Nothing),
                    }
                } else {
                    Ok(Plan::Fresh)
                }
            },
            _ => Ok(Plan::Nothing),
        }
    }

    /// Replaces the content of the page `page_id` by `content`. Where the
    /// page's "Contents" is one reference, or an array of one reference, the
    /// stream it names gets the content. Where it is an array of another
    /// length, a new stream gets the content and the page refers to that
    /// stream alone; the streams it referred to stay in the table. Fails
    /// where the page is not in the table, is no dictionary, or has no
    /// "Contents".
    pub fn change_page_content(&mut self, page_id: ObjectId, content: Vec<u8>) -> (r: Result<
        (),
        Error,
    >)
        requires
            old(self).wf(),
            old(self).max_id < u32::MAX,
        ensures
            final(self).wf(),
            match r {
                Ok(_) => page_contents(old(self)@, page_id) is Ok && final(self)@
                    == page_content_changed(old(self)@, page_id, content@),
                Err(e) => page_contents(old(self)@, page_id) == Err::<Value, Error>(e) && final(self)@
                    == old(self)@,
            },
    {
        match self.content_plan(page_id)? {
            Plan::Replace(id) => {
                self.change_content_stream(id, content);
            },
            Plan::Fresh => {
                let stream = Stream::new(Dictionary::new(), content);
                let id = self.add_object(Object::Stream(stream));
                proof {
                    if has_key(self@.objects, page_id) {
                        lemma_table_with_same(self@.objects, page_id);
                    }
                }
                match self.objects.get_mut(page_id) {
                    Some(page) => {
                        match page {
                            Object::Dictionary(dict) => {
                                dict.set(&CONTENTS, Object::Reference(id));
                            },
                            _ => {},
                        }
                    },
                    None => {},
                }
            },
            Plan::Nothing => {},
        }
        Ok(())
    }

    /// The bytes that extracting the stream `stream_id` writes: see
    /// `extracted`.
    pub fn extract_stream_content(&self, stream_id: ObjectId, decompress: bool) -> (r: Option<
        Vec<u8>,
    >)
        requires
            self.wf(),
        ensures
            match r {
                Some(bytes) => extracted(self@, stream_id, decompress) == Some(bytes@),
                None => extracted(self@, stream_id, decompress).is_none(),
            },
    {
        match self.objects.get(stream_id) {
            Some(object) => {
                match object {
                    Object::Stream(stream) => {
                        if decompress {
                            match stream.decompressed_content() {
                                Ok(bytes) => Some(bytes),
                                Err(_) => Some(stream.content.clone()),
                            }
                        } else {
                            Some(stream.content.clone())
                        }
                    },
                    _ => None,
                }
            },
            None => None,
        }
    }
}

} // verus!
