//! Fixed-width big-endian byte strings for the integer scalars.

use vstd::prelude::*;

use crate::error::Error;

verus! {

/// `256^k`, the number of values that fit in `k` bytes.
pub open spec fn pow256(k: nat) -> nat
    decreases k,
{
    if k == 0 {
        1
    } else {
        256 * pow256((k - 1) as nat)
    }
}

/// The `width`-byte big-endian encoding of `n` (modulo `256^width`).
pub open spec fn be_enc(n: nat, width: nat) -> Seq<u8>
    decreases width,
{
    if width == 0 {
        Seq::empty()
    } else {
        be_enc(n / 256, (width - 1) as nat) + seq![(n % 256) as u8]
    }
}

/// The value of a big-endian byte string.
pub open spec fn be_dec(s: Seq<u8>) -> nat
    decreases s.len(),
{
    if s.len() == 0 {
        0
    } else {
        (256 * be_dec(s.drop_last()) + s.last()) as nat
    }
}

pub proof fn lemma_be_enc_len(n: nat, width: nat)
    ensures
        be_enc(n, width).len() == width,
    decreases width,
{
    if width > 0 {
        lemma_be_enc_len(n / 256, (width - 1) as nat);
    }
}

/// Dividing by 256 drops a value below its bound divided by 256.
proof fn lemma_div256_bound(n: nat, p: nat)
    requires
        n < 256 * p,
    ensures
        n / 256 < p,
{
    vstd::arithmetic::div_mod::lemma_fundamental_div_mod(n as int, 256);
    if n / 256 >= p {
        vstd::arithmetic::mul::lemma_mul_inequality(p as int, (n / 256) as int, 256);
    }
}

/// A value below `256^width` is recovered exactly from its encoding.
pub proof fn lemma_be_round_trip(n: nat, width: nat)
    requires
        n < pow256(width),
    ensures
        be_dec(be_enc(n, width)) == n,
    decreases width,
{
    if width == 0 {
    } else {
        lemma_div256_bound(n, pow256((width - 1) as nat));
        lemma_be_round_trip(n / 256, (width - 1) as nat);
        let s = be_enc(n, width);
        lemma_be_enc_len(n / 256, (width - 1) as nat);
        assert(s.drop_last() =~= be_enc(n / 256, (width - 1) as nat));
        assert(s.last() == (n % 256) as u8);
        vstd::arithmetic::div_mod::lemma_fundamental_div_mod(n as int, 256);
    }
}

/// A big-endian byte string never holds a value as large as `256^len`.
pub proof fn lemma_be_dec_bound(s: Seq<u8>)
    ensures
        be_dec(s) < pow256(s.len()),
    decreases s.len(),
{
    if s.len() > 0 {
        lemma_be_dec_bound(s.drop_last());
        assert(256 * be_dec(s.drop_last()) <= 256 * (pow256((s.len() - 1) as nat) - 1)) by {
            vstd::arithmetic::mul::lemma_mul_inequality(
                be_dec(s.drop_last()) as int,
                pow256((s.len() - 1) as nat) - 1,
                256,
            );
        }
    }
}

/// Every byte string of the right width is the canonical encoding of its
/// value: no two byte strings of one width decode to the same integer.
pub proof fn lemma_be_canonical(s: Seq<u8>)
    ensures
        be_enc(be_dec(s), s.len()) == s,
    decreases s.len(),
{
    if s.len() > 0 {
        lemma_be_canonical(s.drop_last());
        let m = be_dec(s.drop_last());
        let n = be_dec(s);
        assert(n == 256 * m + s.last());
        assert(n / 256 == m && n % 256 == s.last()) by {
            vstd::arithmetic::div_mod::lemma_fundamental_div_mod_converse(
                n as int,
                256,
                m as int,
                s.last() as int,
            );
        }
        assert(be_enc(n, s.len()) =~= s);
    }
}

/// `256^8` is one more than the largest `u64`.
pub proof fn lemma_pow256_8()
    ensures
        pow256(8) == 0x10000000000000000,
{
    assert(pow256(0) == 1);
    assert(pow256(1) == 0x100);
    assert(pow256(2) == 0x10000);
    assert(pow256(3) == 0x1000000);
    assert(pow256(4) == 0x100000000);
    assert(pow256(5) == 0x10000000000);
    assert(pow256(6) == 0x1000000000000);
    assert(pow256(7) == 0x100000000000000);
    assert(pow256(8) == 0x10000000000000000);
}

pub proof fn lemma_pow256_mono(a: nat, b: nat)
    requires
        a <= b,
    ensures
        pow256(a) <= pow256(b),
    decreases b,
{
    if a < b {
        lemma_pow256_mono(a, (b - 1) as nat);
        assert(pow256(b) == 256 * pow256((b - 1) as nat));
        assert(pow256((b - 1) as nat) <= 256 * pow256((b - 1) as nat)) by {
            vstd::arithmetic::mul::lemma_mul_inequality(1, 256, pow256((b - 1) as nat) as int);
        }
    }
}

/// Appends the `width`-byte big-endian encoding of `n` to `dest`.
pub fn encode_be(n: u64, width: usize, dest: &mut Vec<u8>)
    ensures
        final(dest)@ == old(dest)@ + be_enc(n as nat, width as nat),
    decreases width,
{
    if width > 0 {
        encode_be(n / 256, width - 1, dest);
        dest.push((n % 256) as u8);
        assert(final(dest)@ =~= old(dest)@ + be_enc(n as nat, width as nat));
    } else {
        assert(final(dest)@ =~= old(dest)@ + be_enc(n as nat, 0));
    }
}

/// Reads `width` big-endian bytes starting at `src[pos]` into an integer;
/// `UnexpectedEof` when fewer than `width` bytes remain.
pub fn decode_be(src: &[u8], pos: usize, width: usize) -> (r: Result<(u64, usize), Error>)
    requires
        pos <= src@.len(),
        width <= 8,
    ensures
        match r {
            Ok(vp) => {
                &&& vp.1 == pos + width
                &&& vp.1 <= src@.len()
                &&& vp.0 as nat == be_dec(src@.subrange(pos as int, pos + width as int))
            },
            Err(e) => {
                &&& e matches Error::UnexpectedEof
                &&& src@.len() < pos + width
            },
        },
{
    let n = src.len();
    if n - pos < width {
        return Err(Error::UnexpectedEof);
    }
    let mut v: u64 = 0;
    let mut i: usize = 0;
    proof {
        lemma_pow256_8();
        assert(src@.subrange(pos as int, pos as int) =~= Seq::<u8>::empty());
    }
    while i < width
        invariant
            pos + width <= src@.len(),
            src@.len() <= usize::MAX,
            width <= 8,
            i <= width,
            v as nat == be_dec(src@.subrange(pos as int, pos + i as int)),
            (v as nat) < pow256(i as nat),
            pow256(8) == 0x10000000000000000,
        decreases width - i,
    {
        proof {
            lemma_pow256_mono((i + 1) as nat, 8);
            assert(256 * (v as nat) <= 256 * (pow256(i as nat) - 1)) by {
                vstd::arithmetic::mul::lemma_mul_inequality(
                    v as int,
                    pow256(i as nat) - 1,
                    256,
                );
            }
        }
        let b = src[pos + i];
        proof {
            let s0 = src@.subrange(pos as int, pos + i as int);
            let s1 = src@.subrange(pos as int, pos + i + 1 as int);
            assert(s1.drop_last() =~= s0);
            assert(s1.last() == b);
        }
        v = v * 256 + (b as u64);
        i = i + 1;
    }
    Ok((v, pos + width))
}

} // verus!
