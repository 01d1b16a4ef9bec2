//! A block handle: the (offset, size) pair naming a byte range of the file,
//! stored as two consecutive 64-bit varints.

use vstd::prelude::*;
use crate::Error;
use crate::varint::{
    decode_var_u64, encode_var_u64, lemma_decode_encode, lemma_encode_len, lemma_encode_wf, pow128,
    spec_decode_u64, spec_encode_varint,
};

verus! {

/// Identifies the contiguous byte range `[offset, offset + size)` of the
/// file. Immutable once decoded.
#[derive(Clone, Copy, Debug, PartialEq, Eq, Structural)]
pub struct Handle {
    pub offset: u64,
    pub size: u64,
}

/// What decoding a handle at `pos` yields: offset then size, each a 64-bit
/// varint, and the position just past both.
pub open spec fn spec_decode_handle(s: Seq<u8>, pos: int) -> Result<(Handle, int), Error> {
    match spec_decode_u64(s, pos) {
        Err(e) => Err(e),
        Ok((offset, p1)) => match spec_decode_u64(s, p1) {
            Err(e) => Err(e),
            Ok((size, p2)) => Ok((Handle { offset: offset as u64, size: size as u64 }, p2)),
        },
    }
}

/// The canonical encoding of a handle: its offset's varint then its size's.
pub open spec fn spec_encode_handle(h: Handle) -> Seq<u8> {
    spec_encode_varint(h.offset as nat) + spec_encode_varint(h.size as nat)
}

impl Handle {
    /// Decodes a handle from `input` at `pos`: the offset varint, then the
    /// size varint.
    pub fn decode(input: &[u8], pos: usize) -> (r: Result<(Handle, usize), Error>)
        requires
            pos <= input@.len(),
        ensures
            (match r {
                Ok((h, np)) => spec_decode_handle(input@, pos as int) == Ok::<
                    (Handle, int),
                    Error,
                >((h, np as int)) && pos < np <= input@.len(),
                Err(e) => spec_decode_handle(input@, pos as int) == Err::<(Handle, int), Error>(e),
            }),
    {
        let (offset, p1) = match decode_var_u64(input, pos) {
            Ok(v) => v,
            Err(e) => {
                return Err(e);
            },
        };
        let (size, p2) = match decode_var_u64(input, p1) {
            Ok(v) => v,
            Err(e) => {
                return Err(e);
            },
        };
        Ok((Handle { offset, size }, p2))
    }

    /// Writes the canonical encoding of this handle.
    pub fn encode(&self) -> (r: Vec<u8>)
        ensures
            r@ == spec_encode_handle(*self),
            1 <= r@.len() <= 20,
    {
        let mut out = encode_var_u64(self.offset);
        let mut tail = encode_var_u64(self.size);
        proof {
            lemma_handle_encode_len(*self);
        }
        out.append(&mut tail);
        out
    }
}

/// A handle's canonical encoding is never longer than twenty bytes.
pub proof fn lemma_handle_encode_len(h: Handle)
    ensures
        2 <= spec_encode_handle(h).len() <= 20,
{
    assert(h.offset < pow128(10) && h.size < pow128(10)) by {
        reveal_with_fuel(pow128, 11);
    };
    lemma_encode_len(h.offset as nat, 10);
    lemma_encode_len(h.size as nat, 10);
    lemma_encode_wf(h.offset as nat);
    lemma_encode_wf(h.size as nat);
}

/// Handle round trip: decoding from a position where a handle's canonical
/// encoding was laid down yields that handle back and consumes exactly the
/// encoding's length.
pub proof fn lemma_decode_encode_handle(s: Seq<u8>, pos: int, h: Handle)
    requires
        0 <= pos,
        pos + spec_encode_handle(h).len() <= s.len(),
        s.subrange(pos, pos + spec_encode_handle(h).len()) == spec_encode_handle(h),
    ensures
        spec_decode_handle(s, pos) == Ok::<(Handle, int), Error>(
            (h, pos + spec_encode_handle(h).len()),
        ),
{
    let eo = spec_encode_varint(h.offset as nat);
    let es = spec_encode_varint(h.size as nat);
    assert(h.offset < pow128(10) && h.size < pow128(10)) by {
        reveal_with_fuel(pow128, 11);
    };
    lemma_encode_len(h.offset as nat, 10);
    lemma_encode_len(h.size as nat, 10);
    assert(s.subrange(pos, pos + eo.len()) =~= eo);
    lemma_decode_encode(s, pos, h.offset as nat, 10, 0x1_0000_0000_0000_0000);
    let p1 = pos + eo.len();
    assert forall|k: int| 0 <= k < es.len() implies s[p1 + k] == es[k] by {
        assert(s.subrange(pos, pos + spec_encode_handle(h).len())[eo.len() + k] == s[p1 + k]);
        assert((eo + es)[eo.len() + k] == es[k]);
    };
    assert(s.subrange(p1, p1 + es.len()) =~= es);
    lemma_decode_encode(s, p1, h.size as nat, 10, 0x1_0000_0000_0000_0000);
}

} // verus!
