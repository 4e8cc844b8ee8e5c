//! The document: a trailer, a table of objects and a counter of identities.

use vstd::prelude::*;
use crate::model::{ascending, lookup, DocumentValue, Entries, ObjectId, Value};
use crate::names::ROOT;
use crate::object::{Dictionary, Error, Object};
use crate::table::{table_with, ObjectTable};

verus! {

/// A document in memory.
#[derive(Debug, PartialEq)]
pub struct Document {
    /// The entry points: "Root", "Info" and others.
    pub trailer: Dictionary,
    /// The objects, each under its identity.
    pub objects: ObjectTable,
    /// The largest object number handed out so far.
    pub max_id: u32,
}

impl DocumentValue {
    /// The identities of the table ascend strictly.
    pub open spec fn wf(self) -> bool {
        ascending(self.objects)
    }

    /// The value under `id` in the table.
    pub open spec fn object(self, id: ObjectId) -> Option<Value> {
        lookup(self.objects, id)
    }

    /// The dictionary that `v` is or, through the table, refers to.
    pub open spec fn dict_behind(self, v: Value) -> Option<Entries> {
        match v {
            Value::Dictionary(d) => Some(d),
            Value::Reference(id) => match self.object(id) {
                Some(Value::Dictionary(d)) => Some(d),
                _ => None,
            },
            _ => None,
        }
    }
}

impl Document {
    /// The document as a value.
    pub open spec fn view(&self) -> DocumentValue {
        DocumentValue { objects: self.objects@, trailer: self.trailer@, max_id: self.max_id }
    }

    /// The object table is in order.
    pub open spec fn wf(&self) -> bool {
        self.objects.wf()
    }

    /// A document without objects and with an empty trailer.
    pub fn new() -> (r: Document)
        ensures
            r.wf(),
            r@ == (DocumentValue { objects: Seq::empty(), trailer: Seq::empty(), max_id: 0 }),
    {
        Document { trailer: Dictionary::new(), objects: ObjectTable::new(), max_id: 0 }
    }

    /// Whether the object table is in order, as every operation asks.
    pub fn is_well_formed(&self) -> (r: bool)
        ensures
            r == self.wf(),
    {
        self.objects.is_ordered()
    }

    /// The object under `id`.
    pub fn get_object(&self, id: ObjectId) -> (r: Result<&Object, Error>)
        requires
            self.wf(),
        ensures
            match r {
                Ok(o) => self@.object(id) == Some(o@),
                Err(e) => e == Error::ObjectNotFound && self@.object(id).is_none(),
            },
    {
        match self.objects.get(id) {
            Some(o) => Ok(o),
            None => Err(Error::ObjectNotFound),
        }
    }

    /// The object under `id`, to be changed in place.
    pub fn get_object_mut(&mut self, id: ObjectId) -> (r: Result<&mut Object, Error>)
        requires
            old(self).wf(),
        ensures
            match r {
                Ok(o) => old(self)@.object(id) == Some(o@) && final(self).wf() && final(self)@ == (
                DocumentValue {
                    objects: table_with(old(self)@.objects, id, final(o)@),
                    ..old(self)@
                }),
                Err(e) => e == Error::ObjectNotFound && old(self)@.object(id).is_none() && final(self)@ == old(self)@,
            },
    {
        match self.objects.get_mut(id) {
            Some(o) => Ok(o),
            None => Err(Error::ObjectNotFound),
        }
    }

    /// The dictionary under `id`, to be changed in place.
    pub fn get_dictionary_mut(&mut self, id: ObjectId) -> (r: Result<&mut Dictionary, Error>)
        requires
            old(self).wf(),
        ensures
            match r {
                Ok(d) => old(self)@.object(id) == Some(Value::Dictionary(d@)) && final(self).wf()
                    && final(self)@ == (DocumentValue {
                    objects: table_with(old(self)@.objects, id, Value::Dictionary(final(d)@)),
                    ..old(self)@
                }),
                Err(e) => final(self)@ == old(self)@ && match old(self)@.object(id) {
                    Some(v) => e == Error::Type && !(v is Dictionary),
                    None => e == Error::ObjectNotFound,
                },
            },
    {
        proof {
            if crate::model::has_key(self@.objects, id) {
                crate::table::lemma_table_with_same(self@.objects, id);
            }
        }
        match self.objects.get_mut(id) {
            Some(o) => o.as_dict_mut(),
            None => Err(Error::ObjectNotFound),
        }
    }

    /// The dictionary under `id`.
    pub fn get_dictionary(&self, id: ObjectId) -> (r: Result<&Dictionary, Error>)
        requires
            self.wf(),
        ensures
            match r {
                Ok(d) => self@.object(id) == Some(Value::Dictionary(d@)),
                Err(e) => match self@.object(id) {
                    Some(v) => e == Error::Type && !(v is Dictionary),
                    None => e == Error::ObjectNotFound,
                },
            },
    {
        match self.objects.get(id) {
            Some(o) => o.as_dict(),
            None => Err(Error::ObjectNotFound),
        }
    }

    /// Hands out the next object number, with generation 0.
    pub fn new_object_id(&mut self) -> (r: ObjectId)
        requires
            old(self).max_id < u32::MAX,
        ensures
            r == ((old(self).max_id + 1) as u32, 0u16),
            final(self).max_id == r.0,
            final(self).objects == old(self).objects,
            final(self).trailer == old(self).trailer,
    {
        self.max_id = self.max_id + 1;
        (self.max_id, 0)
    }

    /// Puts `object` into the table under `id`, in place of what was there.
    pub fn set_object(&mut self, id: ObjectId, object: Object)
        requires
            old(self).wf(),
        ensures
            final(self).wf(),
            final(self)@ == (DocumentValue {
                objects: table_with(old(self)@.objects, id, object@),
                ..old(self)@
            }),
    {
        self.objects.insert(id, object);
    }

    /// Puts `object` into the table under a new identity, and returns it.
    pub fn add_object(&mut self, object: Object) -> (r: ObjectId)
        requires
            old(self).wf(),
            old(self).max_id < u32::MAX,
        ensures
            final(self).wf(),
            r == ((old(self).max_id + 1) as u32, 0u16),
            final(self)@ == (DocumentValue {
                objects: table_with(old(self)@.objects, r, object@),
                trailer: old(self)@.trailer,
                max_id: r.0,
            }),
    {
        let id = self.new_object_id();
        self.objects.insert(id, object);
        id
    }

    /// The catalog: the dictionary that the trailer's "Root" is or refers to.
    pub fn catalog(&self) -> (r: Result<&Dictionary, Error>)
        requires
            self.wf(),
        ensures
            match r {
                Ok(d) => catalog_of(self@) == Ok::<Entries, Error>(d@),
                Err(e) => catalog_of(self@) == Err::<Entries, Error>(e),
            },
    {
        let root = self.trailer.get(&ROOT)?;
        match root {
            Object::Dictionary(d) => Ok(d),
            Object::Reference(id) => self.get_dictionary(*id),
            _ => Err(Error::Type),
        }
    }
}

/// The catalog of a document, or why it has none.
pub open spec fn catalog_of(doc: DocumentValue) -> Result<Entries, Error> {
    match lookup(doc.trailer, ROOT@) {
        None => Err(Error::DictKey),
        Some(Value::Dictionary(d)) => Ok(d),
        Some(Value::Reference(id)) => match doc.object(id) {
            None => Err(Error::ObjectNotFound),
            Some(Value::Dictionary(d)) => Ok(d),
            Some(_) => Err(Error::Type),
        },
        Some(_) => Err(Error::Type),
    }
}

impl Clone for Document {
    fn clone(&self) -> (r: Self)
        ensures
            r@ == self@,
    {
        Document {
            trailer: self.trailer.clone(),
            objects: self.objects.clone(),
            max_id: self.max_id,
        }
    }
}

} // verus!
