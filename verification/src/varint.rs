//! Little-endian base-128 variable-length integer codec: each byte carries
//! seven payload bits, the high bit says whether another byte follows.

use vstd::prelude::*;
use crate::Error;

verus! {

/// The unsigned value a base-128 little-endian byte sequence stands for:
/// each byte contributes its low seven bits at the next higher position.
pub open spec fn varint_value(s: Seq<u8>) -> nat
    decreases s.len(),
{
    if s.len() == 0 {
        0
    } else {
        (s[0] as nat) % 128 + 128 * varint_value(s.subrange(1, s.len() as int))
    }
}

/// Index of the first byte at or after `pos` whose continuation bit is
/// clear, if any: that byte terminates the varint that starts at `pos`.
pub open spec fn varint_term(s: Seq<u8>, pos: int) -> Option<int>
    decreases s.len() - pos,
{
    if pos < 0 || pos >= s.len() {
        None
    } else if s[pos] < 128 {
        Some(pos)
    } else {
        varint_term(s, pos + 1)
    }
}

/// What decoding a varint of at most `max_len` bytes whose value must lie
/// below `bound` yields: the value and the position just past its last byte.
pub open spec fn spec_decode_varint(s: Seq<u8>, pos: int, max_len: int, bound: nat) -> Result<
    (nat, int),
    Error,
> {
    match varint_term(s, pos) {
        Some(e) => if e - pos < max_len {
            if varint_value(s.subrange(pos, e + 1)) < bound {
                Ok((varint_value(s.subrange(pos, e + 1)), e + 1))
            } else {
                Err(Error::MalformedVarint)
            }
        } else {
            Err(Error::MalformedVarint)
        },
        None => if s.len() - pos < max_len {
            Err(Error::TruncatedInput)
        } else {
            Err(Error::MalformedVarint)
        },
    }
}

/// Decoding a 64-bit varint at `pos`: at most ten bytes, value below `2^64`.
pub open spec fn spec_decode_u64(s: Seq<u8>, pos: int) -> Result<(nat, int), Error> {
    spec_decode_varint(s, pos, 10, 0x1_0000_0000_0000_0000)
}

/// Decoding a 32-bit varint at `pos`: at most five bytes, value below `2^32`.
pub open spec fn spec_decode_u32(s: Seq<u8>, pos: int) -> Result<(nat, int), Error> {
    spec_decode_varint(s, pos, 5, 0x1_0000_0000)
}

/// 128 raised to the power `n`.
pub open spec fn pow128(n: nat) -> nat
    decreases n,
{
    if n == 0 {
        1
    } else {
        128 * pow128((n - 1) as nat)
    }
}

/// Appending a byte to a varint byte sequence raises its contribution to the
/// position the sequence length names.
pub proof fn lemma_varint_value_push(s: Seq<u8>, b: u8)
    ensures
        varint_value(s.push(b)) == varint_value(s) + ((b as nat) % 128) * pow128(s.len()),
    decreases s.len(),
{
    if s.len() == 0 {
        assert(s.push(b).subrange(1, 1) =~= Seq::<u8>::empty());
        assert(varint_value(Seq::<u8>::empty()) == 0);
        assert(s.push(b)[0] == b);
        assert(varint_value(s.push(b)) == (b as nat) % 128);
        assert(pow128(0) == 1);
    } else {
        let t = s.subrange(1, s.len() as int);
        assert(s.push(b).subrange(1, s.len() as int + 1) =~= t.push(b));
        lemma_varint_value_push(t, b);
        assert(varint_value(s.push(b)) == (s[0] as nat) % 128 + 128 * varint_value(t.push(b)));
        assert(128 * (varint_value(t) + ((b as nat) % 128) * pow128(t.len())) == 128 * varint_value(
            t,
        ) + 128 * (((b as nat) % 128) * pow128(t.len()))) by (nonlinear_arith);
        assert(128 * (((b as nat) % 128) * pow128(t.len())) == ((b as nat) % 128) * (128 * pow128(
            t.len(),
        ))) by (nonlinear_arith);
        assert(pow128(s.len()) == 128 * pow128(t.len()));
    }
}

/// A terminator found from `pos` lies at or after `pos`, within the
/// sequence, holds a byte below 128, and only continuation bytes precede it.
pub proof fn lemma_varint_term_some(s: Seq<u8>, pos: int, e: int)
    requires
        varint_term(s, pos) == Some(e),
    ensures
        pos <= e < s.len(),
        s[e] < 128,
        forall|k: int| pos <= k < e ==> s[k] >= 128,
    decreases s.len() - pos,
{
    if 0 <= pos < s.len() && s[pos] >= 128 {
        lemma_varint_term_some(s, pos + 1, e);
    }
}

/// Where the byte at `e` terminates and all bytes from `pos` up to it carry
/// the continuation bit, the scan from `pos` finds exactly `e`.
pub proof fn lemma_varint_term_exact(s: Seq<u8>, pos: int, e: int)
    requires
        0 <= pos <= e < s.len(),
        s[e] < 128,
        forall|k: int| pos <= k < e ==> s[k] >= 128,
    ensures
        varint_term(s, pos) == Some(e),
    decreases e - pos,
{
    if pos < e {
        lemma_varint_term_exact(s, pos + 1, e);
    }
}

/// Decodes a 64-bit unsigned varint from `input` starting at `pos`,
/// returning the value and the position just past its final byte.
pub fn decode_var_u64(input: &[u8], pos: usize) -> (r: Result<(u64, usize), Error>)
    requires
        pos <= input@.len(),
    ensures
        (match r {
            Ok((v, np)) => spec_decode_u64(input@, pos as int) == Ok::<(nat, int), Error>(
                (v as nat, np as int),
            ) && pos < np <= input@.len(),
            Err(e) => spec_decode_u64(input@, pos as int) == Err::<(nat, int), Error>(e),
        }),
{
    let ghost s = input@;
    let mut i: usize = 0;
    let mut res: u64 = 0;
    let mut mult: u64 = 1;
    proof {
        assert(s.subrange(pos as int, pos as int) =~= Seq::<u8>::empty());
        reveal_with_fuel(pow128, 11);
    }
    loop
        invariant
            i <= 9,
            pos + i <= s.len(),
            s == input@,
            varint_term(s, pos as int) == varint_term(s, pos + i),
            mult == pow128(i as nat),
            res == varint_value(s.subrange(pos as int, pos + i)),
            res < mult,
        decreases 10 - i,
    {
        proof {
            reveal_with_fuel(pow128, 11);
            assert(pow128(9) == 0x8000_0000_0000_0000);
            if i < 9 {
                assert(pow128(i as nat) * 128 == pow128((i + 1) as nat)) by (nonlinear_arith);
                assert(pow128((i + 1) as nat) <= pow128(9)) by {
                    lemma_pow128_le((i + 1) as nat, 9);
                };
            }
        }
        if input.len() - pos <= i {
            assert(varint_term(s, pos + i) is None);
            return Err(Error::TruncatedInput);
        }
        let b = input[pos + i];
        proof {
            assert(s.subrange(pos as int, pos + i + 1) =~= s.subrange(pos as int, pos + i).push(
                s[pos + i],
            ));
            lemma_varint_value_push(s.subrange(pos as int, pos + i), b);
        }
        if b < 128 {
            proof {
                assert(varint_term(s, pos + i) == Some(pos + i));
            }
            if i == 9 && b > 1 {
                proof {
                    assert(((b as nat) % 128) * pow128(9) >= 2 * pow128(9)) by (nonlinear_arith)
                        requires
                            b >= 2,
                            b < 128,
                            pow128(9) > 0,
                    ;
                    assert(varint_value(s.subrange(pos as int, pos + 10)) >= 0x1_0000_0000_0000_0000);
                }
                return Err(Error::MalformedVarint);
            }
            proof {
                assert(((b as nat) % 128) * (mult as nat) <= 127 * (mult as nat))
                    by (nonlinear_arith)
                    requires
                        b < 128,
                        mult >= 0,
                ;
                if i == 9 {
                    assert(((b as nat) % 128) * (mult as nat) <= mult as nat) by (nonlinear_arith)
                        requires
                            b <= 1,
                            mult >= 0,
                    ;
                } else {
                    assert(127 * (mult as nat) <= 127 * pow128(8)) by (nonlinear_arith)
                        requires
                            mult as nat <= pow128(8),
                    ;
                    assert(mult as nat <= pow128(8)) by {
                        lemma_pow128_le(i as nat, 8);
                    };
                }
            }
            let v = res + (b as u64) * mult;
            return Ok((v, pos + i + 1));
        } else {
            if i == 9 {
                proof {
                    assert(varint_term(s, pos + 9) == varint_term(s, pos + 10));
                    match varint_term(s, pos + 10) {
                        Some(e) => {
                            lemma_varint_term_some(s, pos + 10, e);
                        },
                        None => {
                            assert(s.len() - pos >= 10);
                        },
                    }
                }
                return Err(Error::MalformedVarint);
            }
            proof {
                assert(mult as nat <= pow128(8)) by {
                    lemma_pow128_le(i as nat, 8);
                };
                assert(((b as nat) % 128) * (mult as nat) <= 127 * (mult as nat))
                    by (nonlinear_arith)
                    requires
                        mult >= 0,
                ;
                assert(127 * (mult as nat) <= 127 * pow128(8)) by (nonlinear_arith)
                    requires
                        mult as nat <= pow128(8),
                ;
                assert((b - 128) as nat == (b as nat) % 128);
            }
            res = res + ((b - 128) as u64) * mult;
            mult = mult * 128;
            i = i + 1;
        }
    }
}

/// `pow128` grows with its exponent.
pub proof fn lemma_pow128_le(n: nat, m: nat)
    requires
        n <= m,
    ensures
        pow128(n) <= pow128(m),
    decreases m,
{
    if n < m {
        lemma_pow128_le(n, (m - 1) as nat);
        assert(pow128((m - 1) as nat) <= 128 * pow128((m - 1) as nat)) by (nonlinear_arith)
            requires
                pow128((m - 1) as nat) >= 0,
        ;
    }
}

/// The canonical, shortest varint encoding of `x`.
pub open spec fn spec_encode_varint(x: nat) -> Seq<u8>
    decreases x,
{
    if x < 128 {
        seq![x as u8]
    } else {
        seq![(128 + x % 128) as u8] + spec_encode_varint(x / 128)
    }
}

/// The canonical encoding stands for the value it was built from.
pub proof fn lemma_encode_value(x: nat)
    ensures
        varint_value(spec_encode_varint(x)) == x,
    decreases x,
{
    if x < 128 {
        assert(spec_encode_varint(x).subrange(1, 1) =~= Seq::<u8>::empty());
        assert(varint_value(Seq::<u8>::empty()) == 0);
    } else {
        let e = spec_encode_varint(x);
        lemma_encode_value(x / 128);
        assert(e.subrange(1, e.len() as int) =~= spec_encode_varint(x / 128));
        assert(e[0] == (128 + x % 128) as u8);
        assert((e[0] as nat) % 128 == x % 128);
        assert(varint_value(e) == x % 128 + 128 * (x / 128));
    }
}

/// Every byte of the canonical encoding but the last carries the
/// continuation bit; the last does not.
pub proof fn lemma_encode_wf(x: nat)
    ensures
        spec_encode_varint(x).len() >= 1,
        forall|k: int|
            0 <= k < spec_encode_varint(x).len() - 1 ==> spec_encode_varint(x)[k] >= 128,
        spec_encode_varint(x)[spec_encode_varint(x).len() - 1] < 128,
    decreases x,
{
    if x >= 128 {
        lemma_encode_wf(x / 128);
        let e = spec_encode_varint(x);
        let t = spec_encode_varint(x / 128);
        assert(forall|k: int| 1 <= k < e.len() ==> e[k] == t[k - 1]);
    }
}

/// A value below `128^k` encodes in at most `k` bytes.
pub proof fn lemma_encode_len(x: nat, k: nat)
    requires
        x < pow128(k),
        k >= 1,
    ensures
        spec_encode_varint(x).len() <= k,
    decreases k,
{
    if x >= 128 {
        assert(k >= 2) by {
            if k == 1 {
                assert(pow128(1) == 128 * pow128(0));
            }
        };
        assert(x / 128 < pow128((k - 1) as nat)) by {
            assert(pow128(k as nat) == 128 * pow128((k - 1) as nat));
            vstd::arithmetic::div_mod::lemma_multiply_divide_lt(
                x as int,
                128,
                pow128((k - 1) as nat) as int,
            );
        };
        lemma_encode_len(x / 128, (k - 1) as nat);
    }
}

/// Decoding from a position where the canonical encoding of `x` was laid
/// down yields `x` and consumes exactly the encoding's length.
pub proof fn lemma_decode_encode(s: Seq<u8>, pos: int, x: nat, max_len: int, bound: nat)
    requires
        0 <= pos,
        pos + spec_encode_varint(x).len() <= s.len(),
        s.subrange(pos, pos + spec_encode_varint(x).len()) == spec_encode_varint(x),
        spec_encode_varint(x).len() <= max_len,
        x < bound,
    ensures
        spec_decode_varint(s, pos, max_len, bound) == Ok::<(nat, int), Error>(
            (x, pos + spec_encode_varint(x).len()),
        ),
{
    let e = spec_encode_varint(x);
    let n = e.len() as int;
    lemma_encode_wf(x);
    assert(forall|k: int| pos <= k < pos + n - 1 ==> s[k] == e[k - pos] && s[k] >= 128);
    assert(s[pos + n - 1] == e[n - 1]);
    lemma_varint_term_exact(s, pos, pos + n - 1);
    lemma_encode_value(x);
    assert(s.subrange(pos, pos + n) =~= e);
}

/// Varint round trip: decoding the canonical 64-bit encoding of any value
/// yields that value back, and the bytes consumed are exactly the canonical
/// minimal encoding length.
pub proof fn lemma_varint_u64_round_trip(x: u64)
    ensures
        spec_decode_u64(spec_encode_varint(x as nat), 0) == Ok::<(nat, int), Error>(
            (x as nat, spec_encode_varint(x as nat).len() as int),
        ),
        1 <= spec_encode_varint(x as nat).len() <= 10,
{
    assert(x < pow128(10)) by {
        reveal_with_fuel(pow128, 11);
    };
    lemma_encode_len(x as nat, 10);
    lemma_encode_wf(x as nat);
    let e = spec_encode_varint(x as nat);
    assert(e.subrange(0, e.len() as int) =~= e);
    lemma_decode_encode(e, 0, x as nat, 10, 0x1_0000_0000_0000_0000);
}

/// Varint round trip for the 32-bit width.
pub proof fn lemma_varint_u32_round_trip(x: u32)
    ensures
        spec_decode_u32(spec_encode_varint(x as nat), 0) == Ok::<(nat, int), Error>(
            (x as nat, spec_encode_varint(x as nat).len() as int),
        ),
        1 <= spec_encode_varint(x as nat).len() <= 5,
{
    assert(x < pow128(5)) by {
        reveal_with_fuel(pow128, 6);
    };
    lemma_encode_len(x as nat, 5);
    lemma_encode_wf(x as nat);
    let e = spec_encode_varint(x as nat);
    assert(e.subrange(0, e.len() as int) =~= e);
    lemma_decode_encode(e, 0, x as nat, 5, 0x1_0000_0000);
}

/// Writes the canonical varint encoding of `x`.
pub fn encode_var_u64(x: u64) -> (r: Vec<u8>)
    ensures
        r@ == spec_encode_varint(x as nat),
{
    let mut out: Vec<u8> = Vec::new();
    let mut y = x;
    proof {
        assert(out@ + spec_encode_varint(y as nat) =~= spec_encode_varint(x as nat));
    }
    loop
        invariant
            out@ + spec_encode_varint(y as nat) == spec_encode_varint(x as nat),
        decreases y,
    {
        if y < 128 {
            out.push(y as u8);
            proof {
                assert(spec_encode_varint(y as nat) =~= seq![y as u8]);
                assert(out@ =~= spec_encode_varint(x as nat));
            }
            return out;
        } else {
            let ghost y0 = y as nat;
            let b = (128 + y % 128) as u8;
            out.push(b);
            y = y / 128;
            proof {
                assert(spec_encode_varint(y0) == seq![b] + spec_encode_varint(y as nat));
                assert(out@ + spec_encode_varint(y as nat) =~= spec_encode_varint(x as nat));
            }
        }
    }
}

/// Decodes a 32-bit unsigned varint from `input` starting at `pos`,
/// returning the value and the position just past its final byte.
pub fn decode_var_u32(input: &[u8], pos: usize) -> (r: Result<(u32, usize), Error>)
    requires
        pos <= input@.len(),
    ensures
        (match r {
            Ok((v, np)) => spec_decode_u32(input@, pos as int) == Ok::<(nat, int), Error>(
                (v as nat, np as int),
            ) && pos < np <= input@.len(),
            Err(e) => spec_decode_u32(input@, pos as int) == Err::<(nat, int), Error>(e),
        }),
{
    let ghost s = input@;
    let mut i: usize = 0;
    let mut res: u32 = 0;
    let mut mult: u32 = 1;
    proof {
        assert(s.subrange(pos as int, pos as int) =~= Seq::<u8>::empty());
        reveal_with_fuel(pow128, 6);
    }
    loop
        invariant
            i <= 4,
            pos + i <= s.len(),
            s == input@,
            varint_term(s, pos as int) == varint_term(s, pos + i),
            mult == pow128(i as nat),
            res == varint_value(s.subrange(pos as int, pos + i)),
            res < mult,
        decreases 5 - i,
    {
        proof {
            reveal_with_fuel(pow128, 6);
            assert(pow128(4) == 0x1000_0000);
            if i < 4 {
                assert(pow128(i as nat) * 128 == pow128((i + 1) as nat)) by (nonlinear_arith);
                assert(pow128((i + 1) as nat) <= pow128(4)) by {
                    lemma_pow128_le((i + 1) as nat, 4);
                };
            }
        }
        if input.len() - pos <= i {
            assert(varint_term(s, pos + i) is None);
            return Err(Error::TruncatedInput);
        }
        let b = input[pos + i];
        proof {
            assert(s.subrange(pos as int, pos + i + 1) =~= s.subrange(pos as int, pos + i).push(
                s[pos + i],
            ));
            lemma_varint_value_push(s.subrange(pos as int, pos + i), b);
        }
        if b < 128 {
            proof {
                assert(varint_term(s, pos + i) == Some(pos + i));
            }
            if i == 4 && b > 15 {
                proof {
                    assert(((b as nat) % 128) * pow128(4) >= 16 * pow128(4)) by (nonlinear_arith)
                        requires
                            b >= 16,
                            b < 128,
                            pow128(4) > 0,
                    ;
                    assert(varint_value(s.subrange(pos as int, pos + 5)) >= 0x1_0000_0000);
                }
                return Err(Error::MalformedVarint);
            }
            proof {
                if i == 4 {
                    assert(((b as nat) % 128) * (mult as nat) <= 15 * (mult as nat))
                        by (nonlinear_arith)
                        requires
                            b <= 15,
                            mult >= 0,
                    ;
                } else {
                    assert(((b as nat) % 128) * (mult as nat) <= 127 * (mult as nat))
                        by (nonlinear_arith)
                        requires
                            b < 128,
                            mult >= 0,
                    ;
                    assert(127 * (mult as nat) <= 127 * pow128(3)) by (nonlinear_arith)
                        requires
                            mult as nat <= pow128(3),
                    ;
                    assert(mult as nat <= pow128(3)) by {
                        lemma_pow128_le(i as nat, 3);
                    };
                }
            }
            let v = res + (b as u32) * mult;
            return Ok((v, pos + i + 1));
        } else {
            if i == 4 {
                proof {
                    assert(varint_term(s, pos + 4) == varint_term(s, pos + 5));
                    match varint_term(s, pos + 5) {
                        Some(e) => {
                            lemma_varint_term_some(s, pos + 5, e);
                        },
                        None => {
                            assert(s.len() - pos >= 5);
                        },
                    }
                }
                return Err(Error::MalformedVarint);
            }
            proof {
                assert(mult as nat <= pow128(3)) by {
                    lemma_pow128_le(i as nat, 3);
                };
                assert(((b as nat) % 128) * (mult as nat) <= 127 * (mult as nat))
                    by (nonlinear_arith)
                    requires
                        mult >= 0,
                ;
                assert(127 * (mult as nat) <= 127 * pow128(3)) by (nonlinear_arith)
                    requires
                        mult as nat <= pow128(3),
                ;
                assert((b - 128) as nat == (b as nat) % 128);
            }
            res = res + ((b - 128) as u32) * mult;
            mult = mult * 128;
            i = i + 1;
        }
    }
}

} // verus!
