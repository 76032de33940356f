//! The variable-length integer primitive used by every other encoder.
//!
//! An integer is encoded 7 bits at a time, least-significant group first;
//! each emitted byte carries the next 7 bits, with the high bit set on every
//! byte except the last. Every integer has exactly one encoding: a decoder
//! rejects a multi-byte sequence whose remaining groups are all zero, since
//! the encoder never produces one.

use vstd::prelude::*;

use crate::error::Error;

verus! {

/// The canonical encoding of `n`, least-significant 7-bit group first.
pub open spec fn varint_enc(n: nat) -> Seq<u8>
    decreases n,
{
    if n < 128 {
        seq![n as u8]
    } else {
        seq![(128 + (n % 128)) as u8] + varint_enc(n / 128)
    }
}

/// Decodes the varint at the front of `s`: the value and the number of bytes
/// consumed, or `None` when `s` ends mid-sequence or the bytes are not the
/// canonical encoding of any integer.
pub open spec fn varint_dec(s: Seq<u8>) -> Option<(nat, int)>
    decreases s.len(),
{
    if s.len() == 0 {
        None
    } else if s[0] < 128 {
        Some((s[0] as nat, 1))
    } else {
        match varint_dec(s.skip(1)) {
            Some(t) => {
                if t.0 == 0 {
                    None
                } else {
                    Some((((s[0] - 128) + 128 * t.0) as nat, t.1 + 1))
                }
            },
            None => None,
        }
    }
}

/// An encoding is never empty, and encodings of values below `2^64` take at
/// most ten bytes.
pub proof fn lemma_varint_enc_len(n: nat)
    ensures
        1 <= varint_enc(n).len(),
        n <= u64::MAX ==> varint_enc(n).len() <= 10,
    decreases n,
{
    if n >= 128 {
        lemma_varint_enc_len(n / 128);
        if n <= u64::MAX {
            assert(varint_enc(n / 128).len() <= 9) by {
                lemma_pow128_9();
                assert(n / 128 < pow128(9)) by {
                    vstd::arithmetic::div_mod::lemma_fundamental_div_mod(n as int, 128);
                    if n / 128 >= pow128(9) {
                        vstd::arithmetic::mul::lemma_mul_inequality(
                            pow128(9) as int,
                            (n / 128) as int,
                            128,
                        );
                    }
                }
                lemma_varint_enc_len_helper(n / 128, 9);
            }
        }
    }
}

/// `128^9` is `2^63`, so every value a `u64` can hold is below `128 * 128^9`.
proof fn lemma_pow128_9()
    ensures
        pow128(9) == 0x8000000000000000,
{
    assert(pow128(0) == 1);
    assert(pow128(1) == 128);
    assert(pow128(2) == 0x4000);
    assert(pow128(3) == 0x200000);
    assert(pow128(4) == 0x10000000);
    assert(pow128(5) == 0x800000000);
    assert(pow128(6) == 0x40000000000);
    assert(pow128(7) == 0x2000000000000);
    assert(pow128(8) == 0x100000000000000);
    assert(pow128(9) == 0x8000000000000000);
}

/// Values below `128^k` encode in at most `k` bytes.
proof fn lemma_varint_enc_len_helper(n: nat, k: nat)
    requires
        n < pow128(k),
        1 <= k,
    ensures
        varint_enc(n).len() <= k,
    decreases k,
{
    if n >= 128 {
        assert(n / 128 < pow128((k - 1) as nat));
        lemma_varint_enc_len_helper(n / 128, (k - 1) as nat);
    }
}

/// `128^k`, the number of values that fit in `k` 7-bit groups.
pub open spec fn pow128(k: nat) -> nat
    decreases k,
{
    if k == 0 {
        1
    } else {
        128 * pow128((k - 1) as nat)
    }
}

/// Decoding starts over again at the front of an encoding: the varint
/// decoder consumes exactly the bytes the encoder emitted and returns the
/// value they came from, whatever follows them in the stream.
pub proof fn lemma_varint_round_trip(n: nat, rest: Seq<u8>)
    ensures
        varint_dec(varint_enc(n) + rest) == Some((n, varint_enc(n).len() as int)),
    decreases n,
{
    let s = varint_enc(n) + rest;
    if n < 128 {
        assert(s[0] == n as u8);
    } else {
        lemma_varint_round_trip(n / 128, rest);
        assert(s.skip(1) =~= varint_enc(n / 128) + rest);
        assert(s[0] == (128 + (n % 128)) as u8);
        assert((s[0] - 128) + 128 * (n / 128) == n) by {
            vstd::arithmetic::div_mod::lemma_fundamental_div_mod(n as int, 128);
        }
    }
}

/// Each accepted byte sequence is the canonical encoding of the value it
/// decodes to: re-encoding reproduces the consumed bytes exactly.
pub proof fn lemma_varint_canonical(s: Seq<u8>)
    ensures
        varint_dec(s) matches Some(t) ==> {
            &&& 0 < t.1 <= s.len()
            &&& varint_enc(t.0) == s.subrange(0, t.1)
        },
    decreases s.len(),
{
    if varint_dec(s) is Some {
        let t = varint_dec(s)->Some_0;
        if s[0] < 128 {
            assert(varint_enc(t.0) =~= s.subrange(0, 1));
        } else {
            lemma_varint_canonical(s.skip(1));
            let u = varint_dec(s.skip(1)).unwrap();
            assert(t.0 == (s[0] - 128) + 128 * u.0);
            assert(t.0 >= 128) by {
                assert(128 * u.0 >= 128 * 1) by {
                    vstd::arithmetic::mul::lemma_mul_inequality(1, u.0 as int, 128);
                }
            }
            assert(t.0 % 128 == s[0] - 128 && t.0 / 128 == u.0) by {
                vstd::arithmetic::div_mod::lemma_fundamental_div_mod_converse(
                    t.0 as int,
                    128,
                    u.0 as int,
                    s[0] - 128,
                );
            }
            assert(s.skip(1).subrange(0, u.1) =~= s.subrange(1, u.1 + 1));
            assert(varint_enc(t.0) =~= s.subrange(0, t.1));
        }
    }
}

/// A stream that starts with the encoding of `n` decodes to `n`, whatever
/// follows: the decoder never reads past one value's encoding.
pub proof fn lemma_varint_prefix(n: nat, s: Seq<u8>)
    requires
        crate::codec::prefix_of(varint_enc(n), s),
    ensures
        varint_dec(s) == Some((n, varint_enc(n).len() as int)),
{
    assert(s =~= varint_enc(n) + s.skip(varint_enc(n).len() as int));
    lemma_varint_round_trip(n, s.skip(varint_enc(n).len() as int));
}

/// Appends the encoding of `n` to `dest`.
pub fn encode_varint(n: u64, dest: &mut Vec<u8>)
    ensures
        final(dest)@ == old(dest)@ + varint_enc(n as nat),
    decreases n,
{
    if n < 128 {
        dest.push(n as u8);
        assert(final(dest)@ =~= old(dest)@ + varint_enc(n as nat));
    } else {
        dest.push((128 + (n % 128)) as u8);
        encode_varint(n / 128, dest);
        assert(final(dest)@ =~= old(dest)@ + varint_enc(n as nat));
    }
}

/// Decodes the varint starting at `src[pos]`. On success the value and the
/// position just past it; `MalformedInput` when the stream ends
/// mid-sequence, when the bytes are not canonical, or when the value does
/// not fit in 64 bits.
pub fn decode_varint(src: &[u8], pos: usize) -> (r: Result<(u64, usize), Error>)
    requires
        pos <= src@.len(),
    ensures
        match r {
            Ok(vp) => {
                &&& varint_dec(src@.skip(pos as int)) == Some((vp.0 as nat, vp.1 - pos as int))
                &&& pos < vp.1 <= src@.len()
            },
            Err(e) => {
                &&& e matches Error::MalformedInput
                &&& match varint_dec(src@.skip(pos as int)) {
                    Some(t) => t.0 > u64::MAX,
                    None => true,
                }
            },
        },
    decreases src@.len() - pos,
{
    if pos >= src.len() {
        return Err(Error::MalformedInput);
    }
    let b = src[pos];
    if b < 128 {
        Ok((b as u64, pos + 1))
    } else {
        let d = (b - 128) as u64;
        assert(src@.skip(pos as int).skip(1) =~= src@.skip(pos as int + 1));
        match decode_varint(src, pos + 1) {
            Ok((m, p)) => {
                if m == 0 {
                    Err(Error::MalformedInput)
                } else if m <= (u64::MAX - d) / 128 {
                    assert(128 * m <= u64::MAX - d) by {
                        vstd::arithmetic::div_mod::lemma_fundamental_div_mod(
                            (u64::MAX - d) as int,
                            128,
                        );
                        vstd::arithmetic::mul::lemma_mul_inequality(
                            m as int,
                            ((u64::MAX - d) / 128) as int,
                            128,
                        );
                    }
                    Ok((d + 128 * m, p))
                } else {
                    assert(d + 128 * m > u64::MAX) by {
                        vstd::arithmetic::div_mod::lemma_fundamental_div_mod(
                            (u64::MAX - d) as int,
                            128,
                        );
                        vstd::arithmetic::mul::lemma_mul_inequality(
                            ((u64::MAX - d) / 128 + 1) as int,
                            m as int,
                            128,
                        );
                    }
                    Err(Error::MalformedInput)
                }
            },
            Err(e) => Err(e),
        }
    }
}

} // verus!
