//! Streams: content, its length entry, and the filter that encodes it.

use vstd::prelude::*;
use vstd::slice::slice_to_vec;
use crate::model::{has_key, lemma_lookup_with_entry, lookup, with_entry, without_key, Entries, StreamValue, Value};
use crate::names::{DECODE_PARMS, FILTER, LENGTH, RUN_LENGTH_DECODE};
use crate::object::{Dictionary, Error, Object, Stream};
use crate::runlength::{decode, decoded, encode, encoded, lemma_round_trip};
use crate::dictionary::bytes_eq;

verus! {

/// How many bytes encoded content must save before a stream is kept
/// encoded: about what the filter entry itself takes.
pub const FILTER_OVERHEAD: usize = 24;

/// The "Length" entry for content of `n` bytes: `n`, or the largest value
/// there is where `n` is larger.
pub open spec fn length_value(n: nat) -> Value {
    if n <= i64::MAX {
        Value::Integer(n as i64)
    } else {
        Value::Integer(i64::MAX)
    }
}

/// The stream with `content` as its bytes and a "Length" to match.
pub open spec fn with_content(s: StreamValue, content: Seq<u8>) -> StreamValue {
    StreamValue {
        dict: with_entry(s.dict, LENGTH@, length_value(content.len())),
        content,
        allows_compression: s.allows_compression,
    }
}

/// The dictionary without what describes an encoding.
pub open spec fn without_encoding(d: Entries) -> Entries {
    without_key(without_key(d, DECODE_PARMS@), FILTER@)
}

/// The stream with `content` as its plain bytes: nothing is left of an
/// encoding, and "Length" matches.
pub open spec fn with_plain_content(s: StreamValue, content: Seq<u8>) -> StreamValue {
    StreamValue {
        dict: with_entry(without_encoding(s.dict), LENGTH@, length_value(content.len())),
        content,
        allows_compression: s.allows_compression,
    }
}

/// Whether encoding pays: the encoded bytes and the filter entry together
/// take less than the plain bytes.
pub open spec fn worth_encoding(content: Seq<u8>) -> bool {
    encoded(content).len() + FILTER_OVERHEAD < content.len()
}

/// The stream after compression: one that names a filter already, or whose
/// content would not shrink, stays as it is; any other holds the encoded
/// content and names the run-length filter.
pub open spec fn compressed(s: StreamValue) -> StreamValue {
    if has_key(s.dict, FILTER@) || !worth_encoding(s.content) {
        s
    } else {
        with_content(
            StreamValue {
                dict: with_entry(s.dict, FILTER@, Value::Name(RUN_LENGTH_DECODE@)),
                content: s.content,
                allows_compression: s.allows_compression,
            },
            encoded(s.content),
        )
    }
}

/// The decoded content of the stream, or why there is none: no filter is
/// named, the filter is not the run-length filter, or the content does not
/// decode.
pub open spec fn plain_content(s: StreamValue) -> Result<Seq<u8>, Error> {
    match lookup(s.dict, FILTER@) {
        None => Err(Error::DictKey),
        Some(Value::Name(n)) => if n == RUN_LENGTH_DECODE@ {
            match decoded(s.content) {
                Some(bytes) => Ok(bytes),
                None => Err(Error::Codec),
            }
        } else {
            Err(Error::Type)
        },
        Some(_) => Err(Error::Type),
    }
}

/// The stream after decompression: with its decoded content as plain
/// content where there is one, else as it is.
pub open spec fn decompressed(s: StreamValue) -> StreamValue {
    match plain_content(s) {
        Ok(bytes) => with_plain_content(s, bytes),
        Err(_) => s,
    }
}

/// Decompressing a stream that was compressed gives back the content it
/// had before, where it named no filter then.
pub proof fn lemma_compress_round_trip(s: StreamValue)
    requires
        !has_key(s.dict, FILTER@),
    ensures
        decompressed(compressed(s)).content == s.content,
        worth_encoding(s.content) ==> plain_content(compressed(s)) == Ok::<Seq<u8>, Error>(
            s.content,
        ),
{
    if worth_encoding(s.content) {
        let named = with_entry(s.dict, FILTER@, Value::Name(RUN_LENGTH_DECODE@));
        let packed = encoded(s.content);
        assert(FILTER@[0] != LENGTH@[0]);
        lemma_lookup_with_entry(s.dict, FILTER@, Value::Name(RUN_LENGTH_DECODE@), FILTER@);
        lemma_lookup_with_entry(named, LENGTH@, length_value(packed.len()), FILTER@);
        lemma_round_trip(s.content);
    }
}

/// The "Length" entry for content of `n` bytes.
pub fn length_object(n: usize) -> (r: Object)
    ensures
        r@ == length_value(n as nat),
{
    if n as u64 <= 0x7fff_ffff_ffff_ffff {
        Object::Integer(n as u64 as i64)
    } else {
        Object::Integer(0x7fff_ffff_ffff_ffff)
    }
}

impl Stream {
    /// A stream of `content` that `dict` describes, with a "Length" to
    /// match, which may be compressed.
    pub fn new(dict: Dictionary, content: Vec<u8>) -> (r: Stream)
        ensures
            r@ == with_content(
                StreamValue { dict: dict@, content: content@, allows_compression: true },
                content@,
            ),
    {
        let mut stream = Stream { dict, content: Vec::new(), allows_compression: true };
        stream.set_content(content);
        stream
    }

    /// Puts `content` in place of the bytes, and sets "Length" to match.
    pub fn set_content(&mut self, content: Vec<u8>)
        ensures
            final(self)@ == with_content(old(self)@, content@),
    {
        self.dict.set(&LENGTH, length_object(content.len()));
        self.content = content;
    }

    /// Puts `content` in place of the bytes as plain content: takes out what
    /// describes an encoding, and sets "Length" to match.
    pub fn set_plain_content(&mut self, content: Vec<u8>)
        ensures
            final(self)@ == with_plain_content(old(self)@, content@),
    {
        self.dict.remove(&DECODE_PARMS);
        self.dict.remove(&FILTER);
        self.dict.set(&LENGTH, length_object(content.len()));
        self.content = content;
    }

    /// Encodes the content with the run-length filter where the stream names
    /// no filter yet and the encoding saves bytes. Never fails.
    pub fn compress(&mut self) -> (r: Result<(), Error>)
        ensures
            r is Ok,
            final(self)@ == compressed(old(self)@),
    {
        if !self.dict.has(&FILTER) {
            let packed = encode(self.content.as_slice());
            if packed.len() < self.content.len() && self.content.len() - packed.len()
                > FILTER_OVERHEAD {
                self.dict.set(&FILTER, Object::Name(slice_to_vec(&RUN_LENGTH_DECODE)));
                self.set_content(packed);
            }
        }
        Ok(())
    }

    /// The decoded content.
    pub fn decompressed_content(&self) -> (r: Result<Vec<u8>, Error>)
        ensures
            match r {
                Ok(bytes) => plain_content(self@) == Ok::<Seq<u8>, Error>(bytes@),
                Err(e) => plain_content(self@) == Err::<Seq<u8>, Error>(e),
            },
    {
        let filter = self.dict.get(&FILTER)?;
        let name = filter.as_name()?;
        if !bytes_eq(name, &RUN_LENGTH_DECODE) {
            return Err(Error::Type);
        }
        match decode(self.content.as_slice()) {
            Some(bytes) => Ok(bytes),
            None => Err(Error::Codec),
        }
    }

    /// Decodes the content in place where it can be decoded; leaves the
    /// stream as it is where it cannot.
    pub fn decompress(&mut self)
        ensures
            final(self)@ == decompressed(old(self)@),
    {
        match self.decompressed_content() {
            Ok(bytes) => {
                self.set_plain_content(bytes);
            },
            Err(_) => {},
        }
    }
}

} // verus!
