use vstd::prelude::*;

use crate::bytes::{be_bytes, be_value, pow256, u64_to_be};

verus! {

/// Writes `n` as 4 big-endian bytes.
pub fn u32_to_be(n: u32) -> (r: Vec<u8>)
    ensures
        r@ == be_bytes(n as nat, 4),
        r@.len() == 4,
{
    let wide = u64_to_be(n as u64);
    let r: Vec<u8> = vec![wide[4], wide[5], wide[6], wide[7]];
    proof {
        lemma_be_bytes_suffix(n as nat, 4, 4);
        assert(r@ =~= be_bytes(n as nat, 8).subrange(4, 8));
    }
    r
}

/// The last `w` bytes of the `w + k`-byte form are the `w`-byte form.
pub proof fn lemma_be_bytes_suffix(n: nat, w: nat, k: nat)
    ensures
        be_bytes(n, w + k).subrange(k as int, (w + k) as int) == be_bytes(n, w),
    decreases w,
{
    crate::bytes::lemma_be_bytes_len(n, w + k);
    crate::bytes::lemma_be_bytes_len(n, w);
    if w == 0 {
        assert(be_bytes(n, k).subrange(k as int, k as int) =~= Seq::<u8>::empty());
    } else {
        lemma_be_bytes_suffix(n / 256, (w - 1) as nat, k);
        crate::bytes::lemma_be_bytes_len(n / 256, (w - 1 + k) as nat);
        assert(((w + k) - 1) as nat == (w - 1 + k) as nat);
        let big = be_bytes(n / 256, (w - 1 + k) as nat);
        assert(be_bytes(n, w + k) == big.push((n % 256) as u8));
        assert(be_bytes(n, w + k).subrange(k as int, (w + k) as int) =~= big.subrange(
            k as int,
            (w - 1 + k) as int,
        ).push((n % 256) as u8));
    }
}

/// The shortest big-endian form of `n`: no leading zero byte, and empty for zero.
pub open spec fn minimal_be(n: nat) -> Seq<u8>
    decreases n,
{
    if n == 0 {
        Seq::empty()
    } else {
        minimal_be(n / 256).push((n % 256) as u8)
    }
}

pub proof fn lemma_minimal_be(n: nat)
    ensures
        be_value(minimal_be(n)) == n,
        n < pow256(16) ==> minimal_be(n).len() <= 16,
        forall|k: nat| n < pow256(k) ==> minimal_be(n).len() <= k,
    decreases n,
{
    if n > 0 {
        lemma_minimal_be(n / 256);
        assert(minimal_be(n).drop_last() == minimal_be(n / 256));
        assert forall|k: nat| n < pow256(k) implies minimal_be(n).len() <= k by {
            if k == 0 {
                assert(pow256(0) == 1);
            } else {
                assert(pow256(k) == 256 * pow256((k - 1) as nat));
                assert(n / 256 < pow256((k - 1) as nat)) by (nonlinear_arith)
                    requires
                        n < 256 * pow256((k - 1) as nat),
                ;
            }
        }
    }
}

/// A token amount as its shortest big-endian bytes (zero is empty).
pub fn amount_to_bytes(n: u128) -> (r: Vec<u8>)
    ensures
        r@ == minimal_be(n as nat),
        r@.len() <= 16,
        be_value(r@) == n as nat,
    decreases n,
{
    proof {
        lemma_minimal_be(n as nat);
        lemma_pow256_16();
    }
    if n == 0 {
        Vec::new()
    } else {
        let mut r = amount_to_bytes(n / 256);
        r.push((n % 256) as u8);
        r
    }
}

pub proof fn lemma_pow256_16()
    ensures
        pow256(16) == 0x1_0000_0000_0000_0000_0000_0000_0000_0000,
{
    reveal_with_fuel(pow256, 17);
}

/// Reads a token amount from at most 16 big-endian bytes.
pub fn amount_from_bytes(s: &Vec<u8>) -> (r: u128)
    requires
        s@.len() <= 16,
    ensures
        r as nat == be_value(s@),
{
    let mut r: u128 = 0;
    let mut k: usize = 0;
    while k < s.len()
        invariant
            k <= s@.len(),
            s@.len() <= 16,
            r as nat == be_value(s@.subrange(0, k as int)),
        decreases s.len() - k,
    {
        proof {
            assert(s@.subrange(0, k + 1).drop_last() =~= s@.subrange(0, k as int));
            crate::bytes::lemma_be_value_bound(s@.subrange(0, k as int));
            lemma_pow_le_16(k as nat);
            lemma_pow256_16();
            assert(r as nat * 256 + s@[k as int] < 256 * pow256(k as nat)) by (nonlinear_arith)
                requires
                    (r as nat) < pow256(k as nat),
                    s@[k as int] < 256,
            ;
            assert(256 * pow256(k as nat) == pow256((k + 1) as nat));
            lemma_pow_le_16((k + 1) as nat);
        }
        r = r * 256 + s[k] as u128;
        k = k + 1;
    }
    proof {
        assert(s@.subrange(0, s@.len() as int) =~= s@);
    }
    r
}

proof fn lemma_pow_le_16(k: nat)
    requires
        k <= 16,
    ensures
        pow256(k) <= pow256(16),
    decreases 16 - k,
{
    if k < 16 {
        lemma_pow_le_16(k + 1);
        crate::bytes::lemma_pow_pos(k);
    }
}

/// The head of a CBOR data item: major type `major` with argument `n`, in
/// its shortest form.
pub open spec fn cbor_head(major: u8, n: u64) -> Seq<u8> {
    if n < 24 {
        seq![(major * 32 + n) as u8]
    } else if n < 0x100 {
        seq![(major * 32 + 24) as u8] + be_bytes(n as nat, 1)
    } else if n < 0x10000 {
        seq![(major * 32 + 25) as u8] + be_bytes(n as nat, 2)
    } else if n < 0x1_0000_0000 {
        seq![(major * 32 + 26) as u8] + be_bytes(n as nat, 4)
    } else {
        seq![(major * 32 + 27) as u8] + be_bytes(n as nat, 8)
    }
}

/// A CBOR byte string.
pub open spec fn cbor_bytes(b: Seq<u8>) -> Seq<u8> {
    cbor_head(2, b.len() as u64) + b
}

/// Appends the head of a CBOR item to `out`.
pub fn push_cbor_head(out: &mut Vec<u8>, major: u8, n: u64)
    requires
        major < 8,
    ensures
        final(out)@ == old(out)@ + cbor_head(major, n),
{
    let lead: u8 = major * 32;
    if n < 24 {
        out.push(lead + n as u8);
        proof {
            assert(final(out)@ =~= old(out)@ + cbor_head(major, n));
        }
    } else {
        let width: usize;
        if n < 0x100 {
            out.push(lead + 24);
            width = 1;
        } else if n < 0x10000 {
            out.push(lead + 25);
            width = 2;
        } else if n < 0x1_0000_0000 {
            out.push(lead + 26);
            width = 4;
        } else {
            out.push(lead + 27);
            width = 8;
        }
        let ghost head = out@;
        let wide = u64_to_be(n);
        let mut k: usize = 8 - width;
        while k < 8
            invariant
                8 - width <= k <= 8,
                width == 1 || width == 2 || width == 4 || width == 8,
                wide@.len() == 8,
                out@ == head + wide@.subrange(8 - width, k as int),
            decreases 8 - k,
        {
            out.push(wide[k]);
            proof {
                assert(out@ =~= head + wide@.subrange(8 - width, k + 1));
            }
            k = k + 1;
        }
        proof {
            lemma_be_bytes_suffix(n as nat, width as nat, (8 - width) as nat);
            assert((width + (8 - width)) as nat == 8);
            assert(wide@.subrange(8 - width, 8) == be_bytes(n as nat, width as nat));
            assert(final(out)@ =~= old(out)@ + cbor_head(major, n));
        }
    }
}

/// Appends a CBOR byte string to `out`.
pub fn push_cbor_bytes(out: &mut Vec<u8>, b: &Vec<u8>)
    ensures
        final(out)@ == old(out)@ + cbor_bytes(b@),
{
    push_cbor_head(out, 2, b.len() as u64);
    let ghost head = out@;
    let mut i: usize = 0;
    while i < b.len()
        invariant
            i <= b@.len(),
            out@ == head + b@.subrange(0, i as int),
        decreases b.len() - i,
    {
        out.push(b[i]);
        proof {
            assert(out@ =~= head + b@.subrange(0, i + 1));
        }
        i = i + 1;
    }
    proof {
        assert(b@.subrange(0, b@.len() as int) =~= b@);
        assert(final(out)@ =~= old(out)@ + cbor_bytes(b@));
    }
}

} // verus!
