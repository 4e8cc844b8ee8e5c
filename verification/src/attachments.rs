//! Embedded files: listing their names, and adding one.
//!
//! The names stand in a flat array that the catalog leads to: under "Names"
//! a dictionary, in it under "EmbeddedFiles" a dictionary, in it under
//! "Names" the array. The array holds, for each file, its name as a string
//! and a reference to the dictionary that describes the file.

use vstd::prelude::*;
use vstd::slice::slice_to_vec;
use crate::document::{catalog_of, Document};
use crate::model::{lemma_lookup_with_entry, lookup, with_entry, DocumentValue, Entries, ObjectId, StreamValue, StringFormat, Table, Value};
use crate::names::{DL, EF, EMBEDDED_FILES, F, FILESPEC, NAMES, PARAMS, ROOT, SIZE, TYPE};
use crate::object::{clone_items, values_of, Dictionary, Error, Object, Stream};
use crate::stream::{compressed, length_object, length_value, with_content};
use crate::table::{lemma_table_with, table_with};

verus! {

/// The array that `v` is or, through the table, refers to.
pub open spec fn array_behind(doc: DocumentValue, v: Value) -> Option<Seq<Value>> {
    match v {
        Value::Array(a) => Some(a),
        Value::Reference(id) => match doc.object(id) {
            Some(Value::Array(a)) => Some(a),
            _ => None,
        },
        _ => None,
    }
}

/// The dictionary that `d` holds or refers to under `key`.
pub open spec fn entry_dict(doc: DocumentValue, d: Entries, key: Seq<u8>) -> Option<Entries> {
    match lookup(d, key) {
        Some(v) => doc.dict_behind(v),
        None => None,
    }
}

/// The array that `d` holds or refers to under `key`.
pub open spec fn entry_array(doc: DocumentValue, d: Entries, key: Seq<u8>) -> Option<Seq<Value>> {
    match lookup(d, key) {
        Some(v) => array_behind(doc, v),
        None => None,
    }
}

/// The array of the names of the embedded files, where the catalog leads
/// to one.
pub open spec fn name_tree(doc: DocumentValue) -> Option<Seq<Value>> {
    match catalog_of(doc) {
        Ok(catalog) => match entry_dict(doc, catalog, NAMES@) {
            Some(names) => match entry_dict(doc, names, EMBEDDED_FILES@) {
                Some(files) => entry_array(doc, files, NAMES@),
                None => None,
            },
            None => None,
        },
        Err(_) => None,
    }
}

/// The bytes of the literal strings among `a`, in their order.
pub open spec fn literal_strings(a: Seq<Value>) -> Seq<Seq<u8>>
    decreases a.len(),
{
    if a.len() == 0 {
        Seq::empty()
    } else {
        match a.last() {
            Value::String(bytes, StringFormat::Literal) => literal_strings(a.drop_last()).push(
                bytes,
            ),
            _ => literal_strings(a.drop_last()),
        }
    }
}

/// The names of the embedded files, in the order of the array.
pub open spec fn attachment_names(doc: DocumentValue) -> Seq<Seq<u8>> {
    match name_tree(doc) {
        Some(a) => literal_strings(a),
        None => Seq::empty(),
    }
}

/// What byte strings in memory stand for.
pub open spec fn byte_strings(v: Seq<Vec<u8>>) -> Seq<Seq<u8>> {
    Seq::new(v.len(), |i: int| v[i]@)
}

/// A dictionary with one entry.
pub open spec fn entry(key: Seq<u8>, v: Value) -> Entries {
    with_entry(Seq::empty(), key, v)
}

/// The identity with the number `n` and generation 0.
pub open spec fn minted(n: int) -> ObjectId {
    (n as u32, 0u16)
}

/// A document with other objects and another counter.
pub open spec fn with_objects(doc: DocumentValue, objects: Table, max_id: int) -> DocumentValue {
    DocumentValue { objects, trailer: doc.trailer, max_id: max_id as u32 }
}

/// What stands under "Names" in the catalog, and the document in which it
/// stands. Where the catalog has no such entry, two objects are added: a
/// dictionary that refers to an array of names under "EmbeddedFiles" and
/// "Names", and that array, empty; the dictionary is what then counts as
/// standing there.
pub open spec fn names_prepared(doc: DocumentValue, catalog: Entries) -> (DocumentValue, Value) {
    match lookup(catalog, NAMES@) {
        Some(v) => (doc, v),
        None => {
            let tree_id = minted(doc.max_id + 1);
            let names_id = minted(doc.max_id + 2);
            let names = Value::Dictionary(
                entry(
                    EMBEDDED_FILES@,
                    Value::Dictionary(entry(NAMES@, Value::Reference(tree_id))),
                ),
            );
            let objects = table_with(
                table_with(doc.objects, names_id, names),
                tree_id,
                Value::Array(Seq::empty()),
            );
            (with_objects(doc, objects, doc.max_id + 2), names)
        },
    }
}

/// What stands under "EmbeddedFiles" in `names`, with the document and the
/// dictionary in which it stands. Where `names` has no such entry, two
/// objects are added: a dictionary that refers to an array of names under
/// "Names", and that array, empty; `names` gets a reference to the
/// dictionary, and the dictionary is what then counts as standing there.
pub open spec fn files_prepared(doc: DocumentValue, names: Entries) -> (
    DocumentValue,
    Entries,
    Value,
) {
    match lookup(names, EMBEDDED_FILES@) {
        Some(v) => (doc, names, v),
        None => {
            let tree_id = minted(doc.max_id + 1);
            let files_id = minted(doc.max_id + 2);
            let files = Value::Dictionary(entry(NAMES@, Value::Reference(tree_id)));
            let objects = table_with(
                table_with(doc.objects, files_id, files),
                tree_id,
                Value::Array(Seq::empty()),
            );
            (
                with_objects(doc, objects, doc.max_id + 2),
                with_entry(names, EMBEDDED_FILES@, Value::Reference(files_id)),
                files,
            )
        },
    }
}

/// The stream that holds an embedded file: its size under "DL" and under
/// "Size" in "Params", the content, compressed where that saves bytes.
pub open spec fn file_stream(content: Seq<u8>) -> StreamValue {
    compressed(
        with_content(
            StreamValue {
                dict: with_entry(
                    entry(DL@, length_value(content.len())),
                    PARAMS@,
                    Value::Dictionary(entry(SIZE@, length_value(content.len()))),
                ),
                content,
                allows_compression: true,
            },
            content,
        ),
    )
}

/// The dictionary that describes an embedded file: its name, and a
/// reference to the dictionary that refers to its stream.
pub open spec fn file_specification(file_name: Seq<u8>, stream_holder: ObjectId) -> Value {
    Value::Dictionary(
        with_entry(
            with_entry(
                entry(TYPE@, Value::Name(FILESPEC@)),
                F@,
                Value::String(file_name, StringFormat::Literal),
            ),
            EF@,
            Value::Reference(stream_holder),
        ),
    )
}

/// The document and the dictionary `names` after the file was attached.
/// Where `files` leads to an array of names, three objects are added: the
/// stream of the file, a dictionary that refers to it under "F", and the
/// dictionary that describes the file; the array, with the name of the file
/// and a reference to that last dictionary at its end, is put into `files`
/// under "Names", and `files` into `names` under "EmbeddedFiles". Where
/// `files` leads to no array, nothing changes.
pub open spec fn file_attached(
    doc: DocumentValue,
    names: Entries,
    files: Entries,
    file_name: Seq<u8>,
    content: Seq<u8>,
) -> (DocumentValue, Entries) {
    match entry_array(doc, files, NAMES@) {
        Some(tree) => {
            let stream_id = minted(doc.max_id + 1);
            let holder_id = minted(doc.max_id + 2);
            let spec_id = minted(doc.max_id + 3);
            let objects = table_with(
                table_with(
                    table_with(doc.objects, stream_id, Value::Stream(file_stream(content))),
                    holder_id,
                    Value::Dictionary(entry(F@, Value::Reference(stream_id))),
                ),
                spec_id,
                file_specification(file_name, holder_id),
            );
            let grown = tree.push(Value::String(file_name, StringFormat::Literal)).push(
                Value::Reference(spec_id),
            );
            (
                with_objects(doc, objects, doc.max_id + 3),
                with_entry(
                    names,
                    EMBEDDED_FILES@,
                    Value::Dictionary(with_entry(files, NAMES@, Value::Array(grown))),
                ),
            )
        },
        None => (doc, names),
    }
}

/// The document after a file with the name `file_name` and the bytes
/// `content` was attached, or why it cannot be: the document has no
/// catalog, or what the catalog has under "Names", or that under
/// "EmbeddedFiles", is no dictionary. The catalog, with the names in it,
/// then stands in the trailer itself under "Root".
pub open spec fn attachment_added(doc: DocumentValue, file_name: Seq<u8>, content: Seq<u8>) -> Result<
    DocumentValue,
    Error,
> {
    match catalog_of(doc) {
        Err(e) => Err(e),
        Ok(catalog) => {
            let first = names_prepared(doc, catalog);
            match first.1 {
                Value::Dictionary(names) => {
                    let second = files_prepared(first.0, names);
                    match second.2 {
                        Value::Dictionary(files) => {
                            let third = file_attached(
                                second.0,
                                second.1,
                                files,
                                file_name,
                                content,
                            );
                            Ok(
                                DocumentValue {
                                    objects: third.0.objects,
                                    trailer: with_entry(
                                        third.0.trailer,
                                        ROOT@,
                                        Value::Dictionary(
                                            with_entry(
                                                catalog,
                                                NAMES@,
                                                Value::Dictionary(third.1),
                                            ),
                                        ),
                                    ),
                                    max_id: third.0.max_id,
                                },
                            )
                        },
                        _ => Err(Error::Type),
                    }
                },
                _ => Err(Error::Type),
            }
        },
    }
}

/// A dictionary with one entry.
fn single(key: &[u8], value: Object) -> (r: Dictionary)
    ensures
        r@ == entry(key@, value@),
{
    let mut d = Dictionary::new();
    d.set(key, value);
    d
}

impl Document {
    /// The dictionary that `object` is or refers to.
    pub fn dict_behind<'a>(&'a self, object: &'a Object) -> (r: Option<&'a Dictionary>)
        requires
            self.wf(),
        ensures
            match r {
                Some(d) => self@.dict_behind(object@) == Some(d@),
                None => self@.dict_behind(object@).is_none(),
            },
    {
        match object {
            Object::Dictionary(d) => Some(d),
            Object::Reference(id) => match self.objects.get(*id) {
                Some(Object::Dictionary(d)) => Some(d),
                _ => None,
            },
            _ => None,
        }
    }

    /// The array that `object` is or refers to.
    pub fn array_behind<'a>(&'a self, object: &'a Object) -> (r: Option<&'a Vec<Object>>)
        requires
            self.wf(),
        ensures
            match r {
                Some(a) => array_behind(self@, object@) == Some(values_of(a@)),
                None => array_behind(self@, object@).is_none(),
            },
    {
        match object {
            Object::Array(a) => Some(a),
            Object::Reference(id) => match self.objects.get(*id) {
                Some(Object::Array(a)) => Some(a),
                _ => None,
            },
            _ => None,
        }
    }

    /// Finds what the catalog has under "Names", or adds it: see
    /// `names_prepared`.
    fn prepare_names(&mut self, catalog: &Dictionary) -> (r: Object)
        requires
            old(self).wf(),
            old(self).max_id <= u32::MAX - 2,
        ensures
            final(self).wf(),
            (final(self)@, r@) == names_prepared(old(self)@, catalog@),
    {
        match catalog.get(&NAMES) {
            Ok(v) => v.clone(),
            Err(_) => {
                let tree_id = self.new_object_id();
                let inner = single(&NAMES, Object::Reference(tree_id));
                let names = single(&EMBEDDED_FILES, Object::Dictionary(inner));
                let copy = names.clone();
                self.add_object(Object::Dictionary(names));
                self.objects.insert(tree_id, Object::Array(Vec::new()));
                proof {
                    assert(values_of(Seq::<Object>::empty()) =~= Seq::<Value>::empty());
                }
                Object::Dictionary(copy)
            },
        }
    }

    /// Finds what `names` has under "EmbeddedFiles", or adds it: see
    /// `files_prepared`.
    fn prepare_files(&mut self, names: &mut Dictionary) -> (r: Object)
        requires
            old(self).wf(),
            old(self).max_id <= u32::MAX - 2,
        ensures
            final(self).wf(),
            (final(self)@, final(names)@, r@) == files_prepared(old(self)@, old(names)@),
    {
        match names.get(&EMBEDDED_FILES) {
            Ok(v) => v.clone(),
            Err(_) => {
                let tree_id = self.new_object_id();
                let files = single(&NAMES, Object::Reference(tree_id));
                let copy = files.clone();
                let files_id = self.add_object(Object::Dictionary(files));
                self.objects.insert(tree_id, Object::Array(Vec::new()));
                names.set(&EMBEDDED_FILES, Object::Reference(files_id));
                proof {
                    assert(values_of(Seq::<Object>::empty()) =~= Seq::<Value>::empty());
                }
                Object::Dictionary(copy)
            },
        }
    }

    /// A copy of the array of names that `files` leads to.
    fn copy_name_array(&self, files: &Dictionary) -> (r: Option<Vec<Object>>)
        requires
            self.wf(),
        ensures
            match r {
                Some(a) => entry_array(self@, files@, NAMES@) == Some(values_of(a@)),
                None => entry_array(self@, files@, NAMES@).is_none(),
            },
    {
        match files.get(&NAMES) {
            Ok(v) => match self.array_behind(v) {
                Some(a) => Some(clone_items(a)),
                None => None,
            },
            Err(_) => None,
        }
    }

    /// Adds the objects of the file and enters it in the array of names:
    /// see `file_attached`.
    fn attach_file(
        &mut self,
        names: &mut Dictionary,
        files: Dictionary,
        file_name: &[u8],
        content: Vec<u8>,
    )
        requires
            old(self).wf(),
            old(self).max_id <= u32::MAX - 3,
        ensures
            final(self).wf(),
            (final(self)@, final(names)@) == file_attached(
                old(self)@,
                old(names)@,
                files@,
                file_name@,
                content@,
            ),
    {
        let mut files = files;
        match self.copy_name_array(&files) {
            Some(tree) => {
                let mut tree = tree;
                let ghost before = values_of(tree@);
                tree.push(Object::string_literal(file_name));
                let size = content.len();
                let mut params = single(&DL, length_object(size));
                params.set(&PARAMS, Object::Dictionary(single(&SIZE, length_object(size))));
                let mut stream = Stream::new(params, content);
                let _ = stream.compress();
                let stream_id = self.add_object(Object::Stream(stream));
                let holder_id = self.add_object(
                    Object::Dictionary(single(&F, Object::Reference(stream_id))),
                );
                let mut description = single(&TYPE, Object::Name(slice_to_vec(&FILESPEC)));
                description.set(&F, Object::string_literal(file_name));
                description.set(&EF, Object::Reference(holder_id));
                let spec_id = self.add_object(Object::Dictionary(description));
                tree.push(Object::Reference(spec_id));
                proof {
                    assert(values_of(tree@) =~= before.push(
                        Value::String(file_name@, StringFormat::Literal),
                    ).push(Value::Reference(spec_id)));
                }
                files.set(&NAMES, Object::Array(tree));
                names.set(&EMBEDDED_FILES, Object::Dictionary(files));
            },
            None => {},
        }
    }

    /// Attaches a file with the name `file_name` and the bytes `content`:
    /// see `attachment_added`. Where it fails, the document is as it was.
    pub fn add_attachment(&mut self, file_name: &[u8], content: Vec<u8>) -> (r: Result<(), Error>)
        requires
            old(self).wf(),
            old(self).max_id <= u32::MAX - 5,
        ensures
            final(self).wf(),
            match r {
                Ok(_) => attachment_added(old(self)@, file_name@, content@) == Ok::<
                    DocumentValue,
                    Error,
                >(final(self)@),
                Err(e) => attachment_added(old(self)@, file_name@, content@) == Err::<
                    DocumentValue,
                    Error,
                >(e) && final(self)@ == old(self)@,
            },
    {
        let mut catalog = match self.catalog() {
            Ok(c) => c.clone(),
            Err(e) => {
                return Err(e);
            },
        };
        let mut names = match self.prepare_names(&catalog) {
            Object::Dictionary(d) => d,
            _ => {
                return Err(Error::Type);
            },
        };
        proof {
            if lookup(catalog@, NAMES@).is_none() {
                lemma_lookup_with_entry(
                    Seq::<(Seq<u8>, Value)>::empty(),
                    EMBEDDED_FILES@,
                    Value::Dictionary(
                        entry(NAMES@, Value::Reference(minted(old(self).max_id + 1))),
                    ),
                    EMBEDDED_FILES@,
                );
            }
        }
        let files = match self.prepare_files(&mut names) {
            Object::Dictionary(d) => d,
            _ => {
                return Err(Error::Type);
            },
        };
        self.attach_file(&mut names, files, file_name, content);
        catalog.set(&NAMES, Object::Dictionary(names));
        self.trailer.set(&ROOT, Object::Dictionary(catalog));
        Ok(())
    }

    /// The array of the names of the embedded files.
    fn name_tree(&self) -> (r: Result<Option<&Vec<Object>>, Error>)
        requires
            self.wf(),
        ensures
            match r {
                Ok(Some(a)) => catalog_of(self@) is Ok && name_tree(self@) == Some(values_of(a@)),
                Ok(None) => catalog_of(self@) is Ok && name_tree(self@).is_none(),
                Err(e) => catalog_of(self@) == Err::<Entries, Error>(e),
            },
    {
        let catalog = self.catalog()?;
        let names = match catalog.get(&NAMES) {
            Ok(v) => match self.dict_behind(v) {
                Some(d) => d,
                None => {
                    return Ok(None);
                },
            },
            Err(_) => {
                return Ok(None);
            },
        };
        let files = match names.get(&EMBEDDED_FILES) {
            Ok(v) => match self.dict_behind(v) {
                Some(d) => d,
                None => {
                    return Ok(None);
                },
            },
            Err(_) => {
                return Ok(None);
            },
        };
        match files.get(&NAMES) {
            Ok(v) => Ok(self.array_behind(v)),
            Err(_) => Ok(None),
        }
    }

    /// The names of the embedded files, in the order of the array that
    /// holds them: the bytes of each literal string in it. Fails where the
    /// document has no catalog; a document whose catalog leads to no such
    /// array has no names.
    pub fn list_attachments(&self) -> (r: Result<Vec<Vec<u8>>, Error>)
        requires
            self.wf(),
        ensures
            match r {
                Ok(names) => catalog_of(self@) is Ok && byte_strings(names@) == attachment_names(
                    self@,
                ),
                Err(e) => catalog_of(self@) == Err::<Entries, Error>(e),
            },
    {
        let mut names: Vec<Vec<u8>> = Vec::new();
        proof {
            assert(byte_strings(names@) =~= Seq::<Seq<u8>>::empty());
        }
        match self.name_tree()? {
            Some(tree) => {
                let ghost a = values_of(tree@);
                let mut i: usize = 0;
                proof {
                    assert(a.take(0) =~= Seq::<Value>::empty());
                }
                while i < tree.len()
                    invariant
                        i <= tree.len(),
                        a == values_of(tree@),
                        byte_strings(names@) == literal_strings(a.take(i as int)),
                    decreases tree.len() - i,
                {
                    proof {
                        assert(a.take(i + 1).drop_last() =~= a.take(i as int));
                        assert(a.take(i + 1).last() == tree@[i as int]@);
                    }
                    match &tree[i] {
                        Object::String(bytes, StringFormat::Literal) => {
                            let ghost before = names@;
                            names.push(bytes.clone());
                            proof {
                                assert(byte_strings(names@) =~= byte_strings(before).push(bytes@));
                            }
                        },
                        _ => {},
                    }
                    i += 1;
                }
                proof {
                    assert(a.take(tree.len() as int) =~= a);
                }
            },
            None => {},
        }
        Ok(names)
    }
}

/// The array of names that a new file is entered in, as it is before: the
/// one that the catalog leads to through dictionaries that it holds
/// itself, or the empty one made for it. `None` where the document has no
/// catalog, where what should be a dictionary is none, and where the
/// dictionary of embedded files leads to no array.
pub open spec fn attachment_slot(doc: DocumentValue) -> Option<Seq<Value>> {
    match catalog_of(doc) {
        Ok(catalog) => {
            let first = names_prepared(doc, catalog);
            match first.1 {
                Value::Dictionary(names) => {
                    let second = files_prepared(first.0, names);
                    match second.2 {
                        Value::Dictionary(files) => entry_array(second.0, files, NAMES@),
                        _ => None,
                    }
                },
                _ => None,
            }
        },
        Err(_) => None,
    }
}

/// The names that a list ends with after a string was added to what it
/// reads, and a reference behind it.
proof fn lemma_literal_strings_grown(tree: Seq<Value>, name: Seq<u8>, id: ObjectId)
    ensures
        literal_strings(
            tree.push(Value::String(name, StringFormat::Literal)).push(Value::Reference(id)),
        ) == literal_strings(tree).push(name),
{
    let one = tree.push(Value::String(name, StringFormat::Literal));
    let two = one.push(Value::Reference(id));
    assert(two.drop_last() =~= one);
    assert(one.drop_last() =~= tree);
    assert(two.last() == Value::Reference(id));
    assert(one.last() == Value::String(name, StringFormat::Literal));
    assert(literal_strings(two) == literal_strings(one));
    assert(literal_strings(one) == literal_strings(tree).push(name));
}

/// The array for the names, just made, is what its reference leads to.
proof fn lemma_fresh_tree(doc: DocumentValue, holder: Value)
    requires
        doc.wf(),
        doc.max_id <= u32::MAX - 2,
    ensures
        ({
            let tree_id = minted(doc.max_id + 1);
            let holder_id = minted(doc.max_id + 2);
            let objects = table_with(
                table_with(doc.objects, holder_id, holder),
                tree_id,
                Value::Array(Seq::empty()),
            );
            &&& crate::model::ascending(objects)
            &&& lookup(objects, tree_id) == Some(Value::Array(Seq::empty()))
        }),
{
    let tree_id = minted(doc.max_id + 1);
    let holder_id = minted(doc.max_id + 2);
    let one = table_with(doc.objects, holder_id, holder);
    lemma_table_with(doc.objects, holder_id, holder, tree_id);
    lemma_table_with(one, tree_id, Value::Array(Seq::empty()), tree_id);
}

/// Attaching a file to a document that has a place for its name succeeds,
/// and the names listed after it are those listed before it and, behind
/// them, the name of the file.
pub proof fn lemma_attachment_listed(doc: DocumentValue, file_name: Seq<u8>, content: Seq<u8>)
    requires
        doc.wf(),
        doc.max_id <= u32::MAX - 5,
        attachment_slot(doc).is_some(),
    ensures
        attachment_added(doc, file_name, content) is Ok,
        attachment_names(attachment_added(doc, file_name, content).unwrap()) == attachment_names(
            doc,
        ).push(file_name),
{
    let catalog = catalog_of(doc).unwrap();
    let first = names_prepared(doc, catalog);
    let names = first.1->Dictionary_0;
    let second = files_prepared(first.0, names);
    let files = second.2->Dictionary_0;
    let tree = entry_array(second.0, files, NAMES@).unwrap();
    let third = file_attached(second.0, second.1, files, file_name, content);
    let after = attachment_added(doc, file_name, content).unwrap();
    let spec_id = minted(second.0.max_id + 3);
    let grown = tree.push(Value::String(file_name, StringFormat::Literal)).push(
        Value::Reference(spec_id),
    );
    let files_after = with_entry(files, NAMES@, Value::Array(grown));
    let names_after = with_entry(second.1, EMBEDDED_FILES@, Value::Dictionary(files_after));
    let catalog_after = with_entry(catalog, NAMES@, Value::Dictionary(names_after));
    assert(third.1 == names_after);
    // What is listed after.
    lemma_lookup_with_entry(doc.trailer, ROOT@, Value::Dictionary(catalog_after), ROOT@);
    lemma_lookup_with_entry(catalog, NAMES@, Value::Dictionary(names_after), NAMES@);
    lemma_lookup_with_entry(
        second.1,
        EMBEDDED_FILES@,
        Value::Dictionary(files_after),
        EMBEDDED_FILES@,
    );
    lemma_lookup_with_entry(files, NAMES@, Value::Array(grown), NAMES@);
    lemma_literal_strings_grown(tree, file_name, spec_id);
    assert(catalog_of(after) == Ok::<Entries, Error>(catalog_after));
    assert(name_tree(after) == Some(grown));
    // What was listed before.
    match lookup(catalog, NAMES@) {
        None => {
            lemma_lookup_with_entry(
                Seq::<(Seq<u8>, Value)>::empty(),
                EMBEDDED_FILES@,
                Value::Dictionary(entry(NAMES@, Value::Reference(minted(doc.max_id + 1)))),
                EMBEDDED_FILES@,
            );
            lemma_lookup_with_entry(
                Seq::<(Seq<u8>, Value)>::empty(),
                NAMES@,
                Value::Reference(minted(doc.max_id + 1)),
                NAMES@,
            );
            lemma_fresh_tree(doc, first.1);
            assert(tree =~= Seq::<Value>::empty());
        },
        Some(_) => {
            match lookup(names, EMBEDDED_FILES@) {
                None => {
                    lemma_lookup_with_entry(
                        Seq::<(Seq<u8>, Value)>::empty(),
                        NAMES@,
                        Value::Reference(minted(doc.max_id + 1)),
                        NAMES@,
                    );
                    lemma_fresh_tree(doc, second.2);
                    assert(tree =~= Seq::<Value>::empty());
                },
                Some(_) => {},
            }
        },
    }
}

/// The stream of a file that was just attached holds, decoded, the bytes of
/// the file: extracting it with decoding gives them back.
pub proof fn lemma_attachment_extracted(doc: DocumentValue, file_name: Seq<u8>, content: Seq<u8>)
    requires
        doc.wf(),
        doc.max_id <= u32::MAX - 5,
        attachment_slot(doc).is_some(),
    ensures
        attachment_added(doc, file_name, content) is Ok,
        crate::content::extracted(
            attachment_added(doc, file_name, content).unwrap(),
            minted(attachment_added(doc, file_name, content).unwrap().max_id - 2),
            true,
        ) == Some(content),
{
    let catalog = catalog_of(doc).unwrap();
    let first = names_prepared(doc, catalog);
    let names = first.1->Dictionary_0;
    let second = files_prepared(first.0, names);
    let files = second.2->Dictionary_0;
    let after = attachment_added(doc, file_name, content).unwrap();
    let base = second.0;
    // The table is in order when the objects of the file are added.
    match lookup(catalog, NAMES@) {
        None => {
            lemma_lookup_with_entry(
                Seq::<(Seq<u8>, Value)>::empty(),
                EMBEDDED_FILES@,
                Value::Dictionary(entry(NAMES@, Value::Reference(minted(doc.max_id + 1)))),
                EMBEDDED_FILES@,
            );
            lemma_fresh_tree(doc, first.1);
        },
        Some(_) => {
            match lookup(names, EMBEDDED_FILES@) {
                None => {
                    lemma_fresh_tree(doc, second.2);
                },
                Some(_) => {},
            }
        },
    }
    assert(base.wf());
    let stream_id = minted(base.max_id + 1);
    let holder_id = minted(base.max_id + 2);
    let spec_id = minted(base.max_id + 3);
    let stream = Value::Stream(file_stream(content));
    let holder = Value::Dictionary(entry(F@, Value::Reference(stream_id)));
    let one = table_with(base.objects, stream_id, stream);
    let two = table_with(one, holder_id, holder);
    lemma_table_with(base.objects, stream_id, stream, stream_id);
    lemma_table_with(one, holder_id, holder, stream_id);
    lemma_table_with(two, spec_id, file_specification(file_name, holder_id), stream_id);
    assert(lookup(after.objects, stream_id) == Some(stream));
    // The stream decodes to the bytes of the file.
    let size = length_value(content.len());
    let described = with_entry(
        entry(DL@, size),
        PARAMS@,
        Value::Dictionary(entry(SIZE@, size)),
    );
    let plain = with_content(
        StreamValue { dict: described, content, allows_compression: true },
        content,
    );
    assert(crate::names::FILTER@[0] != crate::names::LENGTH@[0]);
    assert(crate::names::FILTER@[0] != PARAMS@[0]);
    assert(crate::names::FILTER@[0] != DL@[0]);
    lemma_lookup_with_entry(Seq::<(Seq<u8>, Value)>::empty(), DL@, size, crate::names::FILTER@);
    lemma_lookup_with_entry(
        entry(DL@, size),
        PARAMS@,
        Value::Dictionary(entry(SIZE@, size)),
        crate::names::FILTER@,
    );
    lemma_lookup_with_entry(described, crate::names::LENGTH@, size, crate::names::FILTER@);
    crate::stream::lemma_compress_round_trip(plain);
}

} // verus!
