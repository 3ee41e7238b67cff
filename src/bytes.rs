use vstd::prelude::*;

verus! {

/// Strict bytewise (lexicographic) order on byte strings, the order in which
/// the store keeps its keys.
pub open spec fn lex_lt(a: Seq<u8>, b: Seq<u8>) -> bool
    decreases a.len(),
{
    if a.len() == 0 {
        b.len() > 0
    } else if b.len() == 0 {
        false
    } else if a[0] != b[0] {
        a[0] < b[0]
    } else {
        lex_lt(a.drop_first(), b.drop_first())
    }
}

pub proof fn lemma_lex_irreflexive(a: Seq<u8>)
    ensures
        !lex_lt(a, a),
    decreases a.len(),
{
    if a.len() > 0 {
        lemma_lex_irreflexive(a.drop_first());
    }
}

pub proof fn lemma_lex_asymmetric(a: Seq<u8>, b: Seq<u8>)
    ensures
        lex_lt(a, b) ==> !lex_lt(b, a),
    decreases a.len(),
{
    if a.len() > 0 && b.len() > 0 && a[0] == b[0] {
        lemma_lex_asymmetric(a.drop_first(), b.drop_first());
    }
}

pub proof fn lemma_lex_transitive(a: Seq<u8>, b: Seq<u8>, c: Seq<u8>)
    requires
        lex_lt(a, b),
        lex_lt(b, c),
    ensures
        lex_lt(a, c),
    decreases a.len(),
{
    if a.len() > 0 && b.len() > 0 && c.len() > 0 && a[0] == b[0] && b[0] == c[0] {
        lemma_lex_transitive(a.drop_first(), b.drop_first(), c.drop_first());
    }
}

pub proof fn lemma_lex_total(a: Seq<u8>, b: Seq<u8>)
    ensures
        a == b || lex_lt(a, b) || lex_lt(b, a),
    decreases a.len(),
{
    if a.len() > 0 && b.len() > 0 && a[0] == b[0] {
        lemma_lex_total(a.drop_first(), b.drop_first());
        if a.drop_first() == b.drop_first() {
            assert(a =~= seq![a[0]] + a.drop_first());
            assert(b =~= seq![b[0]] + b.drop_first());
        }
    } else if a.len() == 0 && b.len() == 0 {
        assert(a =~= b);
    }
}

/// A common prefix does not change the order of two byte strings.
pub proof fn lemma_lex_prefix(p: Seq<u8>, a: Seq<u8>, b: Seq<u8>)
    ensures
        lex_lt(p + a, p + b) == lex_lt(a, b),
    decreases p.len(),
{
    if p.len() > 0 {
        assert((p + a).drop_first() =~= p.drop_first() + a);
        assert((p + b).drop_first() =~= p.drop_first() + b);
        lemma_lex_prefix(p.drop_first(), a, b);
    } else {
        assert(p + a =~= a);
        assert(p + b =~= b);
    }
}

/// Compares two byte strings in bytewise order: -1, 0 or 1.
pub fn compare_bytes(a: &Vec<u8>, b: &Vec<u8>) -> (r: i8)
    ensures
        r == -1 <==> lex_lt(a@, b@),
        r == 0 <==> a@ == b@,
        r == 1 <==> lex_lt(b@, a@),
        r == -1 || r == 0 || r == 1,
{
    let mut i: usize = 0;
    while i < a.len() && i < b.len()
        invariant
            i <= a.len(),
            i <= b.len(),
            a@.subrange(0, i as int) == b@.subrange(0, i as int),
        decreases a.len() - i,
    {
        if a[i] != b[i] {
            proof {
                lemma_lex_split(a@, b@, i as int);
            }
            if a[i] < b[i] {
                return -1;
            } else {
                return 1;
            }
        }
        proof {
            assert(a@.subrange(0, i + 1) =~= a@.subrange(0, i as int).push(a@[i as int]));
            assert(b@.subrange(0, i + 1) =~= b@.subrange(0, i as int).push(b@[i as int]));
        }
        i = i + 1;
    }
    proof {
        lemma_lex_split(a@, b@, i as int);
    }
    if a.len() < b.len() {
        -1
    } else if a.len() > b.len() {
        1
    } else {
        proof {
            assert(a@ =~= a@.subrange(0, i as int));
            assert(b@ =~= b@.subrange(0, i as int));
        }
        0
    }
}

/// After a common prefix of length `i`, the order is decided from position `i`.
proof fn lemma_lex_split(a: Seq<u8>, b: Seq<u8>, i: int)
    requires
        0 <= i <= a.len(),
        i <= b.len(),
        a.subrange(0, i) == b.subrange(0, i),
    ensures
        lex_lt(a, b) == lex_lt(a.subrange(i, a.len() as int), b.subrange(i, b.len() as int)),
        lex_lt(b, a) == lex_lt(b.subrange(i, b.len() as int), a.subrange(i, a.len() as int)),
        (i == a.len() && i == b.len()) ==> a == b,
{
    let p = a.subrange(0, i);
    assert(a =~= p + a.subrange(i, a.len() as int));
    assert(b =~= p + b.subrange(i, b.len() as int));
    lemma_lex_prefix(p, a.subrange(i, a.len() as int), b.subrange(i, b.len() as int));
    lemma_lex_prefix(p, b.subrange(i, b.len() as int), a.subrange(i, a.len() as int));
}

/// The natural number that a big-endian byte string spells.
pub open spec fn be_value(s: Seq<u8>) -> nat
    decreases s.len(),
{
    if s.len() == 0 {
        0
    } else {
        be_value(s.drop_last()) * 256 + s.last() as nat
    }
}

/// `n` as exactly `width` big-endian bytes (the high bits beyond them dropped).
pub open spec fn be_bytes(n: nat, width: nat) -> Seq<u8>
    decreases width,
{
    if width == 0 {
        Seq::empty()
    } else {
        be_bytes(n / 256, (width - 1) as nat).push((n % 256) as u8)
    }
}

proof fn lemma_be_bytes_unfold(n: nat, w: nat)
    requires
        w > 0,
    ensures
        be_bytes(n, w) == be_bytes(n / 256, (w - 1) as nat).push((n % 256) as u8),
{
}

pub proof fn lemma_be_bytes_len(n: nat, width: nat)
    ensures
        be_bytes(n, width).len() == width,
    decreases width,
{
    if width > 0 {
        lemma_be_bytes_len(n / 256, (width - 1) as nat);
    }
}

pub open spec fn pow256(k: nat) -> nat
    decreases k,
{
    if k == 0 {
        1
    } else {
        256 * pow256((k - 1) as nat)
    }
}

pub proof fn lemma_be_bytes_value(n: nat, width: nat)
    requires
        n < pow256(width),
    ensures
        be_value(be_bytes(n, width)) == n,
        be_bytes(n, width).len() == width,
    decreases width,
{
    lemma_be_bytes_len(n, width);
    if width > 0 {
        assert(n / 256 < pow256((width - 1) as nat)) by (nonlinear_arith)
            requires
                n < 256 * pow256((width - 1) as nat),
        ;
        lemma_be_bytes_value(n / 256, (width - 1) as nat);
        let s = be_bytes(n, width);
        assert(s.drop_last() =~= be_bytes(n / 256, (width - 1) as nat));
    }
}

/// A byte string of width `w` is the `w`-byte form of its value.
pub proof fn lemma_be_bytes_of_value(s: Seq<u8>)
    ensures
        be_bytes(be_value(s), s.len()) == s,
    decreases s.len(),
{
    if s.len() > 0 {
        let v = be_value(s);
        let d = be_value(s.drop_last());
        assert(v == d * 256 + s.last() as nat);
        assert(v / 256 == d) by (nonlinear_arith)
            requires
                v == d * 256 + s.last() as nat,
                s.last() < 256,
        ;
        assert(v % 256 == s.last() as nat) by (nonlinear_arith)
            requires
                v == d * 256 + s.last() as nat,
                s.last() < 256,
        ;
        lemma_be_bytes_of_value(s.drop_last());
        assert(((s.len() - 1) as nat) == s.drop_last().len());
        assert(s =~= s.drop_last().push(s.last()));
    }
}

pub proof fn lemma_be_value_bound(s: Seq<u8>)
    ensures
        be_value(s) < pow256(s.len()),
    decreases s.len(),
{
    if s.len() > 0 {
        lemma_be_value_bound(s.drop_last());
        let v = be_value(s.drop_last());
        let p = pow256((s.len() - 1) as nat);
        assert(v * 256 + s.last() < 256 * p) by (nonlinear_arith)
            requires
                v < p,
                s.last() < 256,
        ;
    }
}

/// Leading zero bytes do not change the value.
pub proof fn lemma_be_value_zero_prefix(k: nat, s: Seq<u8>)
    ensures
        be_value(Seq::new(k, |i: int| 0u8) + s) == be_value(s),
    decreases s.len(),
{
    let z = Seq::new(k, |i: int| 0u8);
    if s.len() == 0 {
        assert(z + s =~= z);
        lemma_be_value_zeros(k);
    } else {
        assert((z + s).drop_last() =~= z + s.drop_last());
        lemma_be_value_zero_prefix(k, s.drop_last());
    }
}

pub proof fn lemma_be_value_zeros(k: nat)
    ensures
        be_value(Seq::new(k, |i: int| 0u8)) == 0,
    decreases k,
{
    if k > 0 {
        assert(Seq::new(k, |i: int| 0u8).drop_last() =~= Seq::new((k - 1) as nat, |i: int| 0u8));
        lemma_be_value_zeros((k - 1) as nat);
    }
}

/// Among byte strings of one length, bytewise order is numeric order.
pub proof fn lemma_lex_same_len_value(a: Seq<u8>, b: Seq<u8>)
    requires
        a.len() == b.len(),
    ensures
        lex_lt(a, b) <==> be_value(a) < be_value(b),
    decreases a.len(),
{
    if a.len() > 0 {
        lemma_lex_same_len_value(a.drop_first(), b.drop_first());
        lemma_be_value_first(a);
        lemma_be_value_first(b);
        lemma_be_value_bound(a.drop_first());
        lemma_be_value_bound(b.drop_first());
        let p = pow256((a.len() - 1) as nat);
        let x = be_value(a.drop_first());
        let y = be_value(b.drop_first());
        let a0 = a[0] as nat;
        let b0 = b[0] as nat;
        if a0 < b0 {
            assert(a0 * p + x < b0 * p + y) by (nonlinear_arith)
                requires
                    a0 < b0,
                    x < p,
            ;
        } else if a0 > b0 {
            assert(b0 * p + y < a0 * p + x) by (nonlinear_arith)
                requires
                    b0 < a0,
                    y < p,
            ;
        }
    }
}

/// The value of a byte string read from its first byte.
pub proof fn lemma_be_value_first(s: Seq<u8>)
    requires
        s.len() > 0,
    ensures
        be_value(s) == s[0] as nat * pow256((s.len() - 1) as nat) + be_value(s.drop_first()),
    decreases s.len(),
{
    if s.len() == 1 {
        assert(s.drop_first() =~= Seq::<u8>::empty());
        assert(s.drop_last() =~= Seq::<u8>::empty());
        assert(be_value(s) == be_value(s.drop_last()) * 256 + s.last() as nat);
        assert(pow256(0) == 1);
        assert(be_value(s.drop_last()) == 0);
        assert(be_value(s.drop_first()) == 0);
        assert(s.last() == s[0]);
        assert(s[0] as nat * 1 == s[0] as nat);
    } else {
        let t = s.drop_last();
        lemma_be_value_first(t);
        assert(t.drop_first() =~= s.drop_first().drop_last());
        let p = pow256((t.len() - 1) as nat);
        let a = s[0] as nat;
        let r = be_value(t.drop_first());
        assert(pow256((s.len() - 1) as nat) == 256 * p);
        assert(s.drop_first().last() == s.last());
        assert(be_value(s.drop_first()) == r * 256 + s.last() as nat);
        assert(t[0] == s[0]);
        assert(be_value(s) == be_value(t) * 256 + s.last() as nat);
        assert((a * p + r) * 256 + s.last() as nat == a * (256 * p) + (r * 256 + s.last() as nat))
            by (nonlinear_arith);
        assert(be_value(t) == a * p + r);
    }
}

/// The value of a concatenation: the high part shifted past the low part.
pub proof fn lemma_be_value_concat(a: Seq<u8>, b: Seq<u8>)
    ensures
        be_value(a + b) == be_value(a) * pow256(b.len()) + be_value(b),
    decreases b.len(),
{
    if b.len() == 0 {
        assert(a + b =~= a);
        assert(be_value(b) == 0);
        assert(pow256(0) == 1);
        assert(be_value(a) * 1 == be_value(a));
    } else {
        assert((a + b).drop_last() =~= a + b.drop_last());
        lemma_be_value_concat(a, b.drop_last());
        assert(pow256(b.len()) == 256 * pow256((b.len() - 1) as nat));
        assert(be_value(b) == be_value(b.drop_last()) * 256 + b.last() as nat);
        assert(be_value(a + b) == be_value((a + b).drop_last()) * 256 + (a + b).last() as nat);
        let x = be_value(a);
        let p = pow256((b.len() - 1) as nat);
        let y = be_value(b.drop_last());
        assert((x * p + y) * 256 + b.last() as nat == x * (256 * p) + (y * 256 + b.last() as nat))
            by (nonlinear_arith);
        assert((a + b).last() == b.last());
    }
}

/// A run of `k` bytes 0xff spells 256^k - 1.
pub proof fn lemma_be_value_all_ff(k: nat)
    ensures
        be_value(Seq::new(k, |i: int| 0xffu8)) + 1 == pow256(k),
    decreases k,
{
    if k > 0 {
        assert(Seq::new(k, |i: int| 0xffu8).drop_last() =~= Seq::new((k - 1) as nat, |i: int| 0xffu8));
        lemma_be_value_all_ff((k - 1) as nat);
    }
}

/// Writes `x` as 8 big-endian bytes.
pub fn u64_to_be(x: u64) -> (r: Vec<u8>)
    ensures
        r@ == be_bytes(x as nat, 8),
        r@.len() == 8,
        be_value(r@) == x as nat,
{
    let mut r: Vec<u8> = Vec::new();
    let mut k: usize = 0;
    while k < 8
        invariant
            k <= 8,
            r@ == be_bytes(x as nat / pow256((8 - k) as nat), k as nat),
        decreases 8 - k,
    {
        let j: usize = 7 - k;
        let shift: u64 = (j * 8) as u64;
        #[verifier::truncate]
        let byte: u8 = (((x >> shift) & 0xff) as u8);
        proof {
            lemma_shift_byte(x, j as nat);
            lemma_div_pow_step(x as nat, j as nat);
            assert(byte as nat == (x as nat / pow256(j as nat)) % 256);
            assert((8 - (k + 1)) as nat == j as nat);
            assert((8 - k) as nat == (j + 1) as nat);
            let m = x as nat / pow256(j as nat);
            let w = (k + 1) as nat;
            assert((w - 1) as nat == k as nat);
            lemma_be_bytes_unfold(m, w);
        }
        r.push(byte);
        k = k + 1;
    }
    proof {
        assert(pow256(0) == 1);
        assert(x as nat / 1 == x as nat);
        reveal_with_fuel(pow256, 9);
        lemma_be_bytes_value(x as nat, 8);
    }
    r
}

proof fn lemma_shift_byte(x: u64, j: nat)
    requires
        j < 8,
    ensures
        ((x >> ((j * 8) as u64)) & 0xff) as nat == (x as nat / pow256(j)) % 256,
{
    let s: u64 = (j * 8) as u64;
    lemma_shr_is_div(x, j);
    assert((x >> s) & 0xff == (x >> s) % 256) by (bit_vector);
}

proof fn lemma_shr_is_div(x: u64, j: nat)
    requires
        j < 8,
    ensures
        (x >> ((j * 8) as u64)) as nat == x as nat / pow256(j),
{
    reveal_with_fuel(pow256, 9);
    if j == 0 {
        assert(x >> 0u64 == x) by (bit_vector);
        assert(pow256(0) == 1);
    } else if j == 1 {
        assert(x >> 8u64 == x / 0x100) by (bit_vector);
        assert(pow256(1) == 0x100);
        assert(((j * 8) as u64) == 8u64);
    } else if j == 2 {
        assert(x >> 16u64 == x / 0x10000) by (bit_vector);
        assert(pow256(2) == 0x10000);
        assert(((j * 8) as u64) == 16u64);
    } else if j == 3 {
        assert(x >> 24u64 == x / 0x1000000) by (bit_vector);
        assert(pow256(3) == 0x1000000);
        assert(((j * 8) as u64) == 24u64);
    } else if j == 4 {
        assert(x >> 32u64 == x / 0x100000000) by (bit_vector);
        assert(pow256(4) == 0x100000000);
        assert(((j * 8) as u64) == 32u64);
    } else if j == 5 {
        assert(x >> 40u64 == x / 0x10000000000) by (bit_vector);
        assert(pow256(5) == 0x10000000000);
        assert(((j * 8) as u64) == 40u64);
    } else if j == 6 {
        assert(x >> 48u64 == x / 0x1000000000000) by (bit_vector);
        assert(pow256(6) == 0x1000000000000);
        assert(((j * 8) as u64) == 48u64);
    } else {
        assert(x >> 56u64 == x / 0x100000000000000) by (bit_vector);
        assert(pow256(7) == 0x100000000000000);
        assert(((j * 8) as u64) == 56u64);
    }
}

proof fn lemma_div_pow_step(n: nat, j: nat)
    ensures
        n / pow256(j + 1) == (n / pow256(j)) / 256,
{
    lemma_pow_pos(j);
    assert(pow256(j + 1) == 256 * pow256(j));
    vstd::arithmetic::div_mod::lemma_div_denominator(n as int, pow256(j) as int, 256);
    assert(pow256(j) * 256 == 256 * pow256(j)) by (nonlinear_arith);
}

pub proof fn lemma_pow_pos(j: nat)
    ensures
        pow256(j) > 0,
    decreases j,
{
    if j > 0 {
        lemma_pow_pos((j - 1) as nat);
    }
}

/// Reads 8 big-endian bytes.
pub fn be_to_u64(s: &Vec<u8>) -> (r: u64)
    requires
        s@.len() == 8,
    ensures
        r as nat == be_value(s@),
{
    let mut r: u64 = 0;
    let mut k: usize = 0;
    while k < 8
        invariant
            k <= 8,
            s@.len() == 8,
            r as nat == be_value(s@.subrange(0, k as int)),
            (r as nat) < pow256(k as nat),
        decreases 8 - k,
    {
        proof {
            assert(s@.subrange(0, k + 1).drop_last() =~= s@.subrange(0, k as int));
            reveal_with_fuel(pow256, 9);
            assert(pow256(k as nat) <= 0x100000000000000) by {
                lemma_pow_mono(k as nat, 7);
            }
            assert(r as nat * 256 + s@[k as int] < 256 * pow256(k as nat)) by (nonlinear_arith)
                requires
                    r < pow256(k as nat),
                    s@[k as int] < 256,
            ;
        }
        r = r * 256 + s[k] as u64;
        k = k + 1;
    }
    proof {
        assert(s@.subrange(0, 8) =~= s@);
    }
    r
}

pub proof fn lemma_pow_mono(a: nat, b: nat)
    requires
        a <= b,
    ensures
        pow256(a) <= pow256(b),
    decreases b,
{
    if a < b {
        lemma_pow_mono(a, (b - 1) as nat);
        lemma_pow_pos((b - 1) as nat);
    }
}

} // verus!
