//! Handing stream content out: the bytes, and the name of the file they go
//! to where the caller gives none.

use vstd::prelude::*;
use crate::content::extracted;
use crate::document::Document;
use crate::model::ObjectId;

verus! {

/// What extracting a stream hands to the caller to write: the name of the
/// file, and the bytes, if the identity names a stream.
#[derive(Debug, PartialEq)]
pub struct Extraction {
    pub file_name: Vec<u8>,
    pub content: Option<Vec<u8>>,
}

/// `n` in decimal digits.
pub open spec fn decimal(n: nat) -> Seq<u8>
    decreases n,
{
    if n < 10 {
        seq![(48 + n) as u8]
    } else {
        decimal(n / 10).push((48 + n % 10) as u8)
    }
}

/// The end of every file name: ").bin".
pub open spec fn name_end() -> Seq<u8> {
    seq![')' as u8, '.' as u8, 'b' as u8, 'i' as u8, 'n' as u8]
}

/// The file that the stream `id` is extracted to where no path is given:
/// for the object 12 of generation 0 it is "(12, 0).bin".
pub open spec fn extraction_name(id: ObjectId) -> Seq<u8> {
    seq!['(' as u8] + decimal(id.0 as nat) + seq![',' as u8, ' ' as u8] + decimal(id.1 as nat)
        + name_end()
}

/// Adds the decimal digits of `n` to `out`.
pub fn push_decimal(out: &mut Vec<u8>, n: u32)
    ensures
        final(out)@ == old(out)@ + decimal(n as nat),
    decreases n,
{
    if n >= 10 {
        push_decimal(out, n / 10);
    }
    out.push(48 + (n % 10) as u8);
    proof {
        if n >= 10 {
            assert(out@ =~= old(out)@ + decimal(n as nat / 10).push((48 + n as nat % 10) as u8));
        } else {
            assert(out@ =~= old(out)@ + seq![(48 + n) as u8]);
        }
    }
}

/// The name of the file that the stream `id` is extracted to.
pub fn extraction_file_name(id: ObjectId) -> (r: Vec<u8>)
    ensures
        r@ == extraction_name(id),
{
    let mut out: Vec<u8> = Vec::new();
    out.push('(' as u8);
    push_decimal(&mut out, id.0);
    out.push(',' as u8);
    out.push(' ' as u8);
    push_decimal(&mut out, id.1 as u32);
    out.push(')' as u8);
    out.push('.' as u8);
    out.push('b' as u8);
    out.push('i' as u8);
    out.push('n' as u8);
    proof {
        assert(out@ =~= extraction_name(id));
    }
    out
}

impl Document {
    /// What extracting the stream `stream_id` writes, and where: the file is
    /// named after the identity, and holds the content of the stream, decoded
    /// where `decompress` asks for it and the content decodes. Where
    /// `stream_id` names no stream there is nothing to write into the file.
    pub fn extract_stream(&self, stream_id: ObjectId, decompress: bool) -> (r: Extraction)
        requires
            self.wf(),
        ensures
            r.file_name@ == extraction_name(stream_id),
            match r.content {
                Some(bytes) => extracted(self@, stream_id, decompress) == Some(bytes@),
                None => extracted(self@, stream_id, decompress).is_none(),
            },
    {
        Extraction {
            file_name: extraction_file_name(stream_id),
            content: self.extract_stream_content(stream_id, decompress),
        }
    }
}

} // verus!
