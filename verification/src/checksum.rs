//! CRC32C (Castagnoli) over a byte range, with the masking this file format
//! applies before storing a checksum, so callers can hold a block's stored
//! checksum against a computed one.

use vstd::prelude::*;

verus! {

/// One shift step of the reflected CRC32C polynomial.
pub open spec fn crc32c_step(c: u32) -> u32 {
    if c & 1 == 1 {
        (c >> 1) ^ 0x82F63B78
    } else {
        c >> 1
    }
}

/// `n` shift steps applied in order.
pub open spec fn crc32c_steps(c: u32, n: nat) -> u32
    decreases n,
{
    if n == 0 {
        c
    } else {
        crc32c_steps(crc32c_step(c), (n - 1) as nat)
    }
}

/// Folds one byte into the running remainder: eight shift steps.
pub open spec fn crc32c_update(c: u32, b: u8) -> u32 {
    crc32c_steps(c ^ (b as u32), 8)
}

/// The running remainder after folding in the bytes of `s` from `i` on.
pub open spec fn crc32c_acc(s: Seq<u8>, i: int, c: u32) -> u32
    decreases s.len() - i,
{
    if i < 0 || i >= s.len() {
        c
    } else {
        crc32c_acc(s, i + 1, crc32c_update(c, s[i]))
    }
}

/// The CRC32C of a byte sequence: all-ones start, final inversion.
pub open spec fn spec_crc32c(s: Seq<u8>) -> u32 {
    crc32c_acc(s, 0, 0xFFFF_FFFFu32) ^ 0xFFFF_FFFF
}

/// The stored form of a checksum: rotate right by fifteen, then add a
/// fixed constant modulo `2^32`.
pub open spec fn spec_mask_crc(c: u32) -> u32 {
    (((((c >> 15) | (c << 17)) as nat) + 0xA282EAD8) % 0x1_0000_0000) as u32
}

/// One shift step, executably.
fn crc32c_step_exec(c: u32) -> (r: u32)
    ensures
        r == crc32c_step(c),
{
    if c & 1 == 1 {
        (c >> 1) ^ 0x82F63B78
    } else {
        c >> 1
    }
}

/// Computes the CRC32C of `data[start..end]`.
pub fn crc32c_range(data: &[u8], start: usize, end: usize) -> (r: u32)
    requires
        start <= end <= data@.len(),
    ensures
        r == spec_crc32c(data@.subrange(start as int, end as int)),
{
    let ghost s = data@.subrange(start as int, end as int);
    let mut c: u32 = 0xFFFF_FFFF;
    let mut i: usize = start;
    while i < end
        invariant
            start <= i <= end <= data@.len(),
            s == data@.subrange(start as int, end as int),
            crc32c_acc(s, i - start, c) == crc32c_acc(s, 0, 0xFFFF_FFFFu32),
        decreases end - i,
    {
        let ghost cprev = c;
        let ghost c0 = c ^ (data@[i as int] as u32);
        c = c ^ (data[i] as u32);
        let mut j: usize = 0;
        while j < 8
            invariant
                j <= 8,
                crc32c_steps(c, (8 - j) as nat) == crc32c_steps(c0, 8),
            decreases 8 - j,
        {
            c = crc32c_step_exec(c);
            j = j + 1;
        }
        proof {
            assert(crc32c_steps(c, 0) == c);
            assert(s[i - start] == data@[i as int]);
            assert(crc32c_update(cprev, s[i - start]) == crc32c_steps(c0, 8));
            assert(crc32c_acc(s, i - start, cprev) == crc32c_acc(
                s,
                i + 1 - start,
                crc32c_update(cprev, s[i - start]),
            ));
        }
        i = i + 1;
    }
    proof {
        assert(crc32c_acc(s, end - start, c) == c);
    }
    c ^ 0xFFFF_FFFF
}

/// Masks a computed CRC the way this format stores it.
pub fn mask_crc(c: u32) -> (r: u32)
    ensures
        r == spec_mask_crc(c),
{
    let rot: u32 = (c >> 15) | (c << 17);
    let sum: u64 = rot as u64 + 0xA282EAD8u64;
    let masked: u64 = sum % 0x1_0000_0000u64;
    masked as u32
}

} // verus!
