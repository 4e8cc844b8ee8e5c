//! Objects as they are held in memory, and the values they stand for.

use vstd::prelude::*;
use vstd::slice::slice_to_vec;
use crate::model::{Entries, ObjectId, StreamValue, StringFormat, Value};

verus! {

/// Why an operation on objects or on a document failed.
#[derive(Clone, Copy, Debug, PartialEq, Eq, Structural)]
pub enum Error {
    /// An object is of another kind than the one asked for.
    Type,
    /// A dictionary has no entry under the key.
    DictKey,
    /// The object table has no object of the identity.
    ObjectNotFound,
    /// Stream content cannot be decoded with the filter it names.
    Codec,
}

/// An object of a document.
#[derive(Debug, PartialEq)]
pub enum Object {
    Null,
    Boolean(bool),
    Integer(i64),
    /// The IEEE 754 binary64 bit pattern of the number.
    Real(u64),
    Name(Vec<u8>),
    String(Vec<u8>, StringFormat),
    Array(Vec<Object>),
    Dictionary(Dictionary),
    Stream(Stream),
    Reference(ObjectId),
}

/// A dictionary: entries of a name and an object, looked up by name.
#[derive(Debug, PartialEq)]
pub struct Dictionary {
    pub entries: Vec<(Vec<u8>, Object)>,
}

/// A stream: a dictionary that describes it, and its bytes.
#[derive(Debug, PartialEq)]
pub struct Stream {
    pub dict: Dictionary,
    pub content: Vec<u8>,
    pub allows_compression: bool,
}

/// The values of a sequence of objects.
pub open spec fn values_of(s: Seq<Object>) -> Seq<Value>
    decreases s,
{
    Seq::new(
        s.len(),
        |i: int|
            if 0 <= i < s.len() {
                s[i].view()
            } else {
                Value::Null
            },
    )
}

/// The entries that a sequence of pairs of a name and an object stand for.
pub open spec fn entries_of(s: Seq<(Vec<u8>, Object)>) -> Entries
    decreases s,
{
    Seq::new(
        s.len(),
        |i: int|
            if 0 <= i < s.len() {
                (s[i].0@, s[i].1.view())
            } else {
                (Seq::empty(), Value::Null)
            },
    )
}

impl Object {
    /// The value that this object stands for.
    pub open spec fn view(&self) -> Value
        decreases self,
    {
        match self {
            Object::Null => Value::Null,
            Object::Boolean(b) => Value::Boolean(*b),
            Object::Integer(i) => Value::Integer(*i),
            Object::Real(r) => Value::Real(*r),
            Object::Name(n) => Value::Name(n@),
            Object::String(s, f) => Value::String(s@, *f),
            Object::Array(a) => Value::Array(values_of(a@)),
            Object::Dictionary(d) => Value::Dictionary(entries_of(d.entries@)),
            Object::Stream(s) => Value::Stream(
                StreamValue {
                    dict: entries_of(s.dict.entries@),
                    content: s.content@,
                    allows_compression: s.allows_compression,
                },
            ),
            Object::Reference(id) => Value::Reference(*id),
        }
    }
}

impl Dictionary {
    /// The entries of this dictionary.
    pub open spec fn view(&self) -> Entries {
        entries_of(self.entries@)
    }
}

impl Stream {
    /// The value that this stream stands for.
    pub open spec fn view(&self) -> StreamValue {
        StreamValue {
            dict: self.dict.view(),
            content: self.content@,
            allows_compression: self.allows_compression,
        }
    }
}

impl Object {
    /// A literal string that holds `bytes`.
    pub fn string_literal(bytes: &[u8]) -> (r: Object)
        ensures
            r@ == Value::String(bytes@, StringFormat::Literal),
    {
        Object::String(slice_to_vec(bytes), StringFormat::Literal)
    }

    /// The integer that this object is.
    pub fn as_i64(&self) -> (r: Result<i64, Error>)
        ensures
            match r {
                Ok(i) => self@ == Value::Integer(i),
                Err(e) => e == Error::Type && !(self@ is Integer),
            },
    {
        match self {
            Object::Integer(i) => Ok(*i),
            _ => Err(Error::Type),
        }
    }

    /// The name that this object is.
    pub fn as_name(&self) -> (r: Result<&[u8], Error>)
        ensures
            match r {
                Ok(n) => self@ == Value::Name(n@),
                Err(e) => e == Error::Type && !(self@ is Name),
            },
    {
        match self {
            Object::Name(n) => Ok(n.as_slice()),
            _ => Err(Error::Type),
        }
    }

    /// The identity that this object refers to.
    pub fn as_reference(&self) -> (r: Result<ObjectId, Error>)
        ensures
            match r {
                Ok(id) => self@ == Value::Reference(id),
                Err(e) => e == Error::Type && !(self@ is Reference),
            },
    {
        match self {
            Object::Reference(id) => Ok(*id),
            _ => Err(Error::Type),
        }
    }

    /// The elements of the array that this object is.
    pub fn as_array(&self) -> (r: Result<&Vec<Object>, Error>)
        ensures
            match r {
                Ok(a) => self@ == Value::Array(values_of(a@)),
                Err(e) => e == Error::Type && !(self@ is Array),
            },
    {
        match self {
            Object::Array(a) => Ok(a),
            _ => Err(Error::Type),
        }
    }

    /// The elements of the array that this object is, to be changed in place.
    pub fn as_array_mut(&mut self) -> (r: Result<&mut Vec<Object>, Error>)
        ensures
            match r {
                Ok(a) => old(self)@ == Value::Array(values_of(a@)) && final(self)@ == Value::Array(
                    values_of(final(a)@),
                ),
                Err(e) => e == Error::Type && !(old(self)@ is Array) && final(self)@ == old(self)@,
            },
    {
        match self {
            Object::Array(a) => Ok(a),
            _ => Err(Error::Type),
        }
    }

    /// The dictionary that this object is.
    pub fn as_dict(&self) -> (r: Result<&Dictionary, Error>)
        ensures
            match r {
                Ok(d) => self@ == Value::Dictionary(d@),
                Err(e) => e == Error::Type && !(self@ is Dictionary),
            },
    {
        match self {
            Object::Dictionary(d) => Ok(d),
            _ => Err(Error::Type),
        }
    }

    /// The dictionary that this object is, to be changed in place.
    pub fn as_dict_mut(&mut self) -> (r: Result<&mut Dictionary, Error>)
        ensures
            match r {
                Ok(d) => old(self)@ == Value::Dictionary(d@) && final(self)@ == Value::Dictionary(
                    final(d)@,
                ),
                Err(e) => e == Error::Type && !(old(self)@ is Dictionary) && final(self)@ == old(self)@,
            },
    {
        match self {
            Object::Dictionary(d) => Ok(d),
            _ => Err(Error::Type),
        }
    }

    /// The stream that this object is.
    pub fn as_stream(&self) -> (r: Result<&Stream, Error>)
        ensures
            match r {
                Ok(s) => self@ == Value::Stream(s@),
                Err(e) => e == Error::Type && !(self@ is Stream),
            },
    {
        match self {
            Object::Stream(s) => Ok(s),
            _ => Err(Error::Type),
        }
    }

    /// The stream that this object is, to be changed in place.
    pub fn as_stream_mut(&mut self) -> (r: Result<&mut Stream, Error>)
        ensures
            match r {
                Ok(s) => old(self)@ == Value::Stream(s@) && final(self)@ == Value::Stream(
                    final(s)@,
                ),
                Err(e) => e == Error::Type && !(old(self)@ is Stream) && final(self)@ == old(self)@,
            },
    {
        match self {
            Object::Stream(s) => Ok(s),
            _ => Err(Error::Type),
        }
    }
}

/// A copy of each of `items`.
pub fn clone_items(items: &Vec<Object>) -> (r: Vec<Object>)
    ensures
        values_of(r@) == values_of(items@),
{
    let mut out: Vec<Object> = Vec::new();
    let mut i: usize = 0;
    while i < items.len()
        invariant
            i <= items.len(),
            out@.len() == i,
            forall|j: int| 0 <= j < i ==> out@[j]@ == items@[j]@,
        decreases items.len() - i,
    {
        out.push(items[i].clone());
        i += 1;
    }
    proof {
        assert(values_of(out@) =~= values_of(items@));
    }
    out
}

impl Clone for Object {
    fn clone(&self) -> (r: Self)
        ensures
            r@ == self@,
        decreases self,
    {
        match self {
            Object::Null => Object::Null,
            Object::Boolean(b) => Object::Boolean(*b),
            Object::Integer(i) => Object::Integer(*i),
            Object::Real(x) => Object::Real(*x),
            Object::Name(n) => Object::Name(n.clone()),
            Object::String(s, f) => Object::String(s.clone(), *f),
            Object::Array(a) => {
                let mut out: Vec<Object> = Vec::new();
                let mut i: usize = 0;
                while i < a.len()
                    invariant
                        i <= a.len(),
                        out@.len() == i,
                        *self == Object::Array(*a),
                        forall|j: int| 0 <= j < i ==> out@[j]@ == a@[j]@,
                    decreases a.len() - i,
                {
                    proof {
                        assert(decreases_to!(*self => self->Array_0));
                    }
                    out.push(a[i].clone());
                    i += 1;
                }
                proof {
                    assert(values_of(out@) =~= values_of(a@));
                }
                Object::Array(out)
            },
            Object::Dictionary(d) => Object::Dictionary(d.clone()),
            Object::Stream(s) => Object::Stream(s.clone()),
            Object::Reference(id) => Object::Reference(*id),
        }
    }
}

impl Clone for Dictionary {
    fn clone(&self) -> (r: Self)
        ensures
            r@ == self@,
        decreases self,
    {
        let mut out: Vec<(Vec<u8>, Object)> = Vec::new();
        let mut i: usize = 0;
        while i < self.entries.len()
            invariant
                i <= self.entries.len(),
                out@.len() == i,
                forall|j: int| 0 <= j < i ==> out@[j].0@ == self.entries@[j].0@ && out@[j].1@ == self.entries@[j].1@,
            decreases self.entries.len() - i,
        {
            let key = self.entries[i].0.clone();
            let value = self.entries[i].1.clone();
            out.push((key, value));
            i += 1;
        }
        proof {
            assert(entries_of(out@) =~= entries_of(self.entries@));
        }
        Dictionary { entries: out }
    }
}

impl Clone for Stream {
    fn clone(&self) -> (r: Self)
        ensures
            r@ == self@,
        decreases self,
    {
        Stream {
            dict: self.dict.clone(),
            content: self.content.clone(),
            allows_compression: self.allows_compression,
        }
    }
}

} // verus!
