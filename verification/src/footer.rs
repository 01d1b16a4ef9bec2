//! The file footer: two block handles (metaindex, index) inside a
//! fixed-size trailer that ends with the format's 8-byte magic number.

use vstd::prelude::*;
use crate::{Error, FOOTER_ENCODE_LENGTH};
use crate::handle::{Handle, lemma_decode_encode_handle, lemma_handle_encode_len, spec_decode_handle, spec_encode_handle};

verus! {

/// The fixed magic number closing every footer of this format.
pub open spec fn spec_magic() -> Seq<u8> {
    seq![0x57u8, 0xFBu8, 0x80u8, 0x8Bu8, 0x24u8, 0x75u8, 0x47u8, 0xDBu8]
}

/// Byte `i` of the magic number.
pub fn magic_byte(i: usize) -> (r: u8)
    requires
        i < 8,
    ensures
        r == spec_magic()[i as int],
{
    if i == 0 {
        0x57
    } else if i == 1 {
        0xFB
    } else if i == 2 {
        0x80
    } else if i == 3 {
        0x8B
    } else if i == 4 {
        0x24
    } else if i == 5 {
        0x75
    } else if i == 6 {
        0x47
    } else {
        0xDB
    }
}

/// The fixed-size trailer of the file: where the metaindex and the index
/// block live.
#[derive(Clone, Copy, Debug, PartialEq, Eq, Structural)]
pub struct Footer {
    pub meta_index: Handle,
    pub index: Handle,
}

/// What decoding a 48-byte footer buffer yields: `BadMagic` unless the last
/// eight bytes are the magic number, else the metaindex handle and then the
/// index handle, decoded from the front; trailing padding is ignored.
pub open spec fn spec_decode_footer(s: Seq<u8>) -> Result<Footer, Error> {
    if s.subrange(FOOTER_ENCODE_LENGTH - 8, FOOTER_ENCODE_LENGTH as int) != spec_magic() {
        Err(Error::BadMagic)
    } else {
        match spec_decode_handle(s, 0) {
            Err(e) => Err(e),
            Ok((meta_index, p1)) => match spec_decode_handle(s, p1) {
                Err(e) => Err(e),
                Ok((index, _)) => Ok(Footer { meta_index, index }),
            },
        }
    }
}

/// The canonical encoding of a footer: both handles, zero padding up to
/// byte forty, then the magic number.
pub open spec fn spec_encode_footer(f: Footer) -> Seq<u8> {
    let hs = spec_encode_handle(f.meta_index) + spec_encode_handle(f.index);
    hs + Seq::new((40 - hs.len()) as nat, |i: int| 0u8) + spec_magic()
}

impl Footer {
    /// Decodes a footer from a buffer of exactly `FOOTER_ENCODE_LENGTH`
    /// bytes: checks the magic number, then reads the two handles.
    pub fn decode(input: &[u8]) -> (r: Result<Footer, Error>)
        requires
            input@.len() == FOOTER_ENCODE_LENGTH,
        ensures
            r == spec_decode_footer(input@),
    {
        let mut i: usize = 0;
        while i < 8
            invariant
                i <= 8,
                input@.len() == 48,
                forall|k: int| 0 <= k < i ==> input@[40 + k] == spec_magic()[k],
            decreases 8 - i,
        {
            if input[40 + i] != magic_byte(i) {
                proof {
                    assert(input@.subrange(40, 48)[i as int] != spec_magic()[i as int]);
                }
                return Err(Error::BadMagic);
            }
            i = i + 1;
        }
        proof {
            assert(input@.subrange(40, 48) =~= spec_magic());
        }
        let (meta_index, p1) = match Handle::decode(input, 0) {
            Ok(v) => v,
            Err(e) => {
                return Err(e);
            },
        };
        let (index, _p2) = match Handle::decode(input, p1) {
            Ok(v) => v,
            Err(e) => {
                return Err(e);
            },
        };
        Ok(Footer { meta_index, index })
    }

    /// Writes the canonical `FOOTER_ENCODE_LENGTH`-byte encoding of this
    /// footer.
    pub fn encode(&self) -> (r: Vec<u8>)
        ensures
            r@ == spec_encode_footer(*self),
            r@.len() == FOOTER_ENCODE_LENGTH,
    {
        proof {
            lemma_handle_encode_len(self.meta_index);
            lemma_handle_encode_len(self.index);
        }
        let ghost hs = spec_encode_handle(self.meta_index) + spec_encode_handle(self.index);
        let mut out = self.meta_index.encode();
        let mut tail = self.index.encode();
        out.append(&mut tail);
        while out.len() < 40
            invariant
                hs.len() <= out@.len() <= 40,
                out@ == hs + Seq::new((out@.len() - hs.len()) as nat, |i: int| 0u8),
            decreases 40 - out@.len(),
        {
            out.push(0u8);
            proof {
                assert(out@ =~= hs + Seq::new((out@.len() - hs.len()) as nat, |i: int| 0u8));
            }
        }
        let mut i: usize = 0;
        while i < 8
            invariant
                i <= 8,
                out@.len() == 40 + i,
                out@ == hs + Seq::new((40 - hs.len()) as nat, |i: int| 0u8) + spec_magic().subrange(
                    0,
                    i as int,
                ),
            decreases 8 - i,
        {
            out.push(magic_byte(i));
            i = i + 1;
            proof {
                assert(out@ =~= hs + Seq::new((40 - hs.len()) as nat, |i: int| 0u8)
                    + spec_magic().subrange(0, i as int));
            }
        }
        proof {
            assert(spec_magic().subrange(0, 8) =~= spec_magic());
            assert(out@ =~= spec_encode_footer(*self));
        }
        out
    }
}

/// Footer round trip: decoding a footer's canonical encoding yields the
/// footer back, for every pair of handle values.
pub proof fn lemma_footer_round_trip(f: Footer)
    ensures
        spec_encode_footer(f).len() == FOOTER_ENCODE_LENGTH,
        spec_decode_footer(spec_encode_footer(f)) == Ok::<Footer, Error>(f),
{
    lemma_handle_encode_len(f.meta_index);
    lemma_handle_encode_len(f.index);
    let hm = spec_encode_handle(f.meta_index);
    let hi = spec_encode_handle(f.index);
    let hs = hm + hi;
    let pad = Seq::new((40 - hs.len()) as nat, |i: int| 0u8);
    let s = spec_encode_footer(f);
    assert(s == hs + pad + spec_magic());
    assert(s.len() == 48);
    assert(s.subrange(40, 48) =~= spec_magic());
    assert(s.subrange(0, hm.len() as int) =~= hm);
    lemma_decode_encode_handle(s, 0, f.meta_index);
    let p1 = hm.len() as int;
    assert forall|k: int| 0 <= k < hi.len() implies s[p1 + k] == hi[k] by {
        assert((hm + hi)[p1 + k] == hi[k]);
        assert(s[p1 + k] == (hs + pad)[p1 + k]);
    };
    assert(s.subrange(p1, p1 + hi.len()) =~= hi);
    lemma_decode_encode_handle(s, p1, f.index);
}

/// A 48-byte buffer whose last eight bytes are not the magic number is
/// rejected as `BadMagic`, whatever the rest holds.
pub proof fn lemma_footer_bad_magic(s: Seq<u8>)
    requires
        s.len() == FOOTER_ENCODE_LENGTH,
        s.subrange(40, 48) != spec_magic(),
    ensures
        spec_decode_footer(s) == Err::<Footer, Error>(Error::BadMagic),
{
}

} // verus!
