//! Reading a block out of the file: bounds check, trailer split,
//! compression-tag dispatch, checksum verification, and parsing the
//! restart-point array off the end of the payload.

use vstd::prelude::*;
use crate::{Error, BLOCK_TRAILER_SIZE, COMPRESSION_NO};
use crate::checksum::{crc32c_range, mask_crc, spec_crc32c, spec_mask_crc};
use crate::footer::Footer;
use crate::handle::Handle;

verus! {

/// The little-endian 32-bit integer stored at `pos`.
pub open spec fn spec_le32(s: Seq<u8>, pos: int) -> u32 {
    ((s[pos] as nat) + 256 * (s[pos + 1] as nat) + 65536 * (s[pos + 2] as nat) + 16777216 * (s[pos
        + 3] as nat)) as u32
}

/// Reads the little-endian 32-bit integer stored at `pos`.
pub fn le_u32(input: &[u8], pos: usize) -> (r: u32)
    requires
        pos + 4 <= input@.len(),
    ensures
        r == spec_le32(input@, pos as int),
{
    (input[pos] as u32) + 256 * (input[pos + 1] as u32) + 65536 * (input[pos + 2] as u32)
        + 16777216 * (input[pos + 3] as u32)
}

/// A decompressed block: the entry payload and the restart-point offsets
/// that were stored after it.
#[derive(Debug)]
pub struct Block {
    pub data: Vec<u8>,
    pub restarts: Vec<u32>,
}

/// What splitting a decompressed region into payload and restart array
/// yields: the last four bytes count the restart offsets, the array of that
/// many 4-byte offsets precedes the count, the payload is everything before.
pub open spec fn spec_block_from(s: Seq<u8>) -> Result<(Seq<u8>, Seq<u32>), Error> {
    if s.len() < 4 {
        Err(Error::CorruptBlock)
    } else {
        let n = spec_le32(s, s.len() - 4) as int;
        if s.len() - 4 < 4 * n {
            Err(Error::CorruptBlock)
        } else {
            let ro = s.len() - 4 - 4 * n;
            Ok((s.subrange(0, ro), Seq::new(n as nat, |i: int| spec_le32(s, ro + 4 * i))))
        }
    }
}

/// What reading the block a handle names out of the whole file yields:
/// `ShortRead` where the range runs past the file, then the trailer's
/// compression tag is dispatched, the stored checksum is held against the
/// computed one, and the payload is split into entries and restarts.
pub open spec fn spec_read_block(file: Seq<u8>, h: Handle) -> Result<(Seq<u8>, Seq<u32>), Error> {
    if h.offset + h.size + BLOCK_TRAILER_SIZE > file.len() {
        Err(Error::ShortRead)
    } else {
        let tag = file[h.offset + h.size];
        if tag != COMPRESSION_NO {
            Err(Error::UnsupportedCompression(tag))
        } else if spec_le32(file, h.offset + h.size + 1) != spec_mask_crc(
            spec_crc32c(file.subrange(h.offset as int, h.offset + h.size + 1)),
        ) {
            Err(Error::ChecksumMismatch)
        } else {
            spec_block_from(file.subrange(h.offset as int, h.offset + h.size))
        }
    }
}

impl Block {
    /// Splits a decompressed region into entry payload and restart array.
    pub fn from(data: Vec<u8>) -> (r: Result<Block, Error>)
        ensures
            (match r {
                Ok(b) => spec_block_from(data@) == Ok::<(Seq<u8>, Seq<u32>), Error>(
                    (b.data@, b.restarts@),
                ),
                Err(e) => spec_block_from(data@) == Err::<(Seq<u8>, Seq<u32>), Error>(e),
            }),
    {
        let n_bytes = data.len();
        if n_bytes < 4 {
            return Err(Error::CorruptBlock);
        }
        let num_restarts = le_u32(data.as_slice(), n_bytes - 4);
        if ((n_bytes - 4) as u64) < 4 * (num_restarts as u64) {
            return Err(Error::CorruptBlock);
        }
        let ro = n_bytes - 4 - 4 * (num_restarts as usize);
        let mut restarts: Vec<u32> = Vec::new();
        let mut i: usize = 0;
        while i < num_restarts as usize
            invariant
                restarts@.len() == i,
                i <= num_restarts,
                n_bytes == data@.len(),
                ro + 4 * (num_restarts as int) + 4 == data@.len(),
                forall|k: int| 0 <= k < i ==> restarts@[k] == spec_le32(data@, ro + 4 * k),
            decreases num_restarts as usize - i,
        {
            let off = le_u32(data.as_slice(), ro + 4 * i);
            restarts.push(off);
            i = i + 1;
        }
        proof {
            assert(restarts@ =~= Seq::new(
                num_restarts as nat,
                |k: int| spec_le32(data@, ro + 4 * k),
            ));
        }
        let mut payload = data;
        payload.truncate(ro);
        Ok(Block { data: payload, restarts })
    }
}

impl Handle {
    /// Copies out the `size` bytes this handle names, or `ShortRead` where
    /// they run past the end of the file.
    pub fn read_data(&self, file: &[u8]) -> (r: Result<Vec<u8>, Error>)
        ensures
            (match r {
                Ok(v) => self.offset + self.size <= file@.len() && v@ == file@.subrange(
                    self.offset as int,
                    self.offset + self.size,
                ),
                Err(e) => e == Error::ShortRead && self.offset + self.size > file@.len(),
            }),
    {
        let flen = file.len();
        if self.offset > flen as u64 || self.size > (flen as u64) - self.offset {
            return Err(Error::ShortRead);
        }
        let off = self.offset as usize;
        let sz = self.size as usize;
        let mut out: Vec<u8> = Vec::new();
        let mut i: usize = 0;
        while i < sz
            invariant
                i <= sz,
                flen == file@.len(),
                off + sz <= flen,
                out@.len() == i,
                forall|k: int| 0 <= k < i ==> out@[k] == file@[off + k],
            decreases sz - i,
        {
            out.push(file[off + i]);
            i = i + 1;
        }
        proof {
            assert(out@ =~= file@.subrange(self.offset as int, self.offset + self.size));
        }
        Ok(out)
    }

    /// Reads the block this handle names: checks the range lies within the
    /// file, dispatches on the trailer's compression tag, verifies the
    /// stored checksum, and parses the restart array out of the payload.
    pub fn read_block(&self, file: &[u8]) -> (r: Result<Block, Error>)
        ensures
            (match r {
                Ok(b) => spec_read_block(file@, *self) == Ok::<(Seq<u8>, Seq<u32>), Error>(
                    (b.data@, b.restarts@),
                ),
                Err(e) => spec_read_block(file@, *self) == Err::<(Seq<u8>, Seq<u32>), Error>(e),
            }),
    {
        let flen = file.len();
        if self.offset > flen as u64 || self.size > (flen as u64) - self.offset || ((flen as u64)
            - self.offset) - self.size < 5 {
            return Err(Error::ShortRead);
        }
        let off = self.offset as usize;
        let sz = self.size as usize;
        let tag = file[off + sz];
        if tag != COMPRESSION_NO {
            return Err(Error::UnsupportedCompression(tag));
        }
        let computed = crc32c_range(file, off, off + sz + 1);
        let masked = mask_crc(computed);
        let stored = le_u32(file, off + sz + 1);
        if stored != masked {
            return Err(Error::ChecksumMismatch);
        }
        let mut payload: Vec<u8> = Vec::new();
        let mut i: usize = 0;
        while i < sz
            invariant
                i <= sz,
                flen == file@.len(),
                off + sz + 5 <= flen,
                payload@.len() == i,
                forall|k: int| 0 <= k < i ==> payload@[k] == file@[off + k],
            decreases sz - i,
        {
            payload.push(file[off + i]);
            i = i + 1;
        }
        proof {
            assert(payload@ =~= file@.subrange(self.offset as int, self.offset + self.size));
        }
        Block::from(payload)
    }

    /// The stored and the computed (masked) checksum of the block this
    /// handle names, for callers that set their own verification policy.
    pub fn block_checksums(&self, file: &[u8]) -> (r: Result<(u32, u32), Error>)
        ensures
            (match r {
                Ok((stored, computed)) => self.offset + self.size + 5 <= file@.len() && stored
                    == spec_le32(file@, self.offset + self.size + 1) && computed == spec_mask_crc(
                    spec_crc32c(file@.subrange(self.offset as int, self.offset + self.size + 1)),
                ),
                Err(e) => e == Error::ShortRead && self.offset + self.size + 5 > file@.len(),
            }),
    {
        let flen = file.len();
        if self.offset > flen as u64 || self.size > (flen as u64) - self.offset || ((flen as u64)
            - self.offset) - self.size < 5 {
            return Err(Error::ShortRead);
        }
        let off = self.offset as usize;
        let sz = self.size as usize;
        let computed = crc32c_range(file, off, off + sz + 1);
        let masked = mask_crc(computed);
        let stored = le_u32(file, off + sz + 1);
        Ok((stored, masked))
    }
}

impl Footer {
    /// Reads the index block this footer points at.
    pub fn read_index(&self, file: &[u8]) -> (r: Result<Block, Error>)
        ensures
            (match r {
                Ok(b) => spec_read_block(file@, self.index) == Ok::<(Seq<u8>, Seq<u32>), Error>(
                    (b.data@, b.restarts@),
                ),
                Err(e) => spec_read_block(file@, self.index) == Err::<(Seq<u8>, Seq<u32>), Error>(
                    e,
                ),
            }),
    {
        self.index.read_block(file)
    }
}

} // verus!
