use vstd::prelude::*;

use crate::bytes::be_bytes;
use crate::store::clone_bytes;

verus! {

/// An opaque principal, held as its bytes. The single byte `0` is the
/// anonymous identity.
#[derive(Debug)]
pub struct Identity {
    bytes: Vec<u8>,
}

/// Token symbols are identities of their own.
pub type Symbol = Identity;

impl View for Identity {
    type V = Seq<u8>;

    open spec fn view(&self) -> Seq<u8> {
        self.bytes_view()
    }
}

pub open spec fn anonymous_bytes() -> Seq<u8> {
    seq![0u8]
}

/// The bytes of the sub-identity number `n` of `parent`: a marker byte, the
/// parent's bytes and `n` as 4 big-endian bytes.
pub open spec fn subresource_bytes(parent: Seq<u8>, n: u32) -> Seq<u8> {
    seq![0x80u8] + parent + be_bytes(n as nat, 4)
}

/// A lowercase hexadecimal digit.
pub open spec fn hex_digit(d: u8) -> u8 {
    if d < 10 {
        (48 + d) as u8
    } else {
        (87 + d) as u8
    }
}

/// Two lowercase hexadecimal digits for each byte.
pub open spec fn hex_text(b: Seq<u8>) -> Seq<u8>
    decreases b.len(),
{
    if b.len() == 0 {
        Seq::empty()
    } else {
        hex_text(b.drop_last()) + seq![hex_digit(b.last() / 16), hex_digit(b.last() % 16)]
    }
}

/// The canonical text of an identity, used inside storage keys: `m` followed
/// by the hexadecimal form of its bytes.
pub open spec fn identity_text(b: Seq<u8>) -> Seq<u8> {
    seq![109u8] + hex_text(b)
}

pub proof fn lemma_hex_text_len(b: Seq<u8>)
    ensures
        hex_text(b).len() == 2 * b.len(),
    decreases b.len(),
{
    if b.len() > 0 {
        lemma_hex_text_len(b.drop_last());
    }
}

/// The hexadecimal form has no slash, so it cannot be confused with a separator.
pub proof fn lemma_hex_text_no_slash(b: Seq<u8>)
    ensures
        forall|i: int| 0 <= i < hex_text(b).len() ==> #[trigger] hex_text(b)[i] != 47u8,
    decreases b.len(),
{
    lemma_hex_text_len(b);
    if b.len() > 0 {
        lemma_hex_text_no_slash(b.drop_last());
        let h = hex_text(b.drop_last());
        lemma_hex_text_len(b.drop_last());
        assert forall|i: int| 0 <= i < hex_text(b).len() implies #[trigger] hex_text(b)[i] != 47u8 by {
            if i >= h.len() {
                assert(hex_text(b)[i] == hex_digit(b.last() / 16) || hex_text(b)[i] == hex_digit(
                    b.last() % 16,
                ));
            } else {
                assert(hex_text(b)[i] == h[i]);
            }
        }
    }
}

proof fn lemma_hex_digit_injective(a: u8, b: u8)
    requires
        a < 16,
        b < 16,
        hex_digit(a) == hex_digit(b),
    ensures
        a == b,
{
}

/// Different bytes have different text.
pub proof fn lemma_hex_text_injective(a: Seq<u8>, b: Seq<u8>)
    requires
        hex_text(a) == hex_text(b),
    ensures
        a == b,
    decreases a.len(),
{
    lemma_hex_text_len(a);
    lemma_hex_text_len(b);
    if a.len() > 0 {
        let ha = hex_text(a.drop_last());
        let hb = hex_text(b.drop_last());
        lemma_hex_text_len(a.drop_last());
        lemma_hex_text_len(b.drop_last());
        assert(hex_text(a).subrange(0, ha.len() as int) =~= ha);
        assert(hex_text(b).subrange(0, hb.len() as int) =~= hb);
        lemma_hex_text_injective(a.drop_last(), b.drop_last());
        assert(hex_text(a)[ha.len() as int] == hex_digit(a.last() / 16));
        assert(hex_text(b)[hb.len() as int] == hex_digit(b.last() / 16));
        assert(hex_text(a)[ha.len() as int + 1] == hex_digit(a.last() % 16));
        assert(hex_text(b)[hb.len() as int + 1] == hex_digit(b.last() % 16));
        lemma_hex_digit_injective(a.last() / 16, b.last() / 16);
        lemma_hex_digit_injective(a.last() % 16, b.last() % 16);
        assert(a.last() == b.last());
        assert(a =~= a.drop_last().push(a.last()));
        assert(b =~= b.drop_last().push(b.last()));
    } else {
        assert(a =~= b);
    }
}

pub fn hex_digit_exec(d: u8) -> (r: u8)
    requires
        d < 16,
    ensures
        r == hex_digit(d),
{
    if d < 10 {
        48 + d
    } else {
        87 + d
    }
}

impl Identity {
    pub closed spec fn bytes_view(&self) -> Seq<u8> {
        self.bytes@
    }

    /// The identity with the given bytes.
    pub fn from_bytes(bytes: Vec<u8>) -> (r: Identity)
        ensures
            r@ == bytes@,
    {
        Identity { bytes }
    }

    /// The anonymous identity.
    pub fn anonymous() -> (r: Identity)
        ensures
            r@ == anonymous_bytes(),
    {
        let r = Identity { bytes: vec![0u8] };
        proof {
            assert(r@ =~= anonymous_bytes());
        }
        r
    }

    pub fn to_vec(&self) -> (r: Vec<u8>)
        ensures
            r@ == self@,
    {
        clone_bytes(&self.bytes)
    }

    /// A copy of this identity.
    pub fn duplicate(&self) -> (r: Identity)
        ensures
            r@ == self@,
    {
        Identity { bytes: clone_bytes(&self.bytes) }
    }

    pub fn is_anonymous(&self) -> (r: bool)
        ensures
            r <==> self@ == anonymous_bytes(),
    {
        let r = self.bytes.len() == 1 && self.bytes[0] == 0;
        proof {
            if r {
                assert(self@ =~= anonymous_bytes());
            }
        }
        r
    }

    pub fn same_as(&self, other: &Identity) -> (r: bool)
        ensures
            r <==> self@ == other@,
    {
        if self.bytes.len() != other.bytes.len() {
            return false;
        }
        let mut i: usize = 0;
        while i < self.bytes.len()
            invariant
                i <= self.bytes@.len(),
                self.bytes@.len() == other.bytes@.len(),
                forall|j: int| 0 <= j < i ==> self.bytes@[j] == other.bytes@[j],
            decreases self.bytes.len() - i,
        {
            if self.bytes[i] != other.bytes[i] {
                return false;
            }
            i = i + 1;
        }
        proof {
            assert(self.bytes@ =~= other.bytes@);
        }
        true
    }

    /// The sub-identity number `n` of this identity, used for new accounts.
    pub fn with_subresource_id(&self, n: u32) -> (r: Identity)
        ensures
            r@ == subresource_bytes(self@, n),
    {
        let mut bytes: Vec<u8> = vec![0x80u8];
        let mut i: usize = 0;
        while i < self.bytes.len()
            invariant
                i <= self.bytes@.len(),
                bytes@ == seq![0x80u8] + self.bytes@.subrange(0, i as int),
            decreases self.bytes.len() - i,
        {
            bytes.push(self.bytes[i]);
            proof {
                assert(bytes@ =~= seq![0x80u8] + self.bytes@.subrange(0, i + 1));
            }
            i = i + 1;
        }
        let ghost head = bytes@;
        let tail = crate::codec::u32_to_be(n);
        let mut k: usize = 0;
        while k < 4
            invariant
                k <= 4,
                tail@.len() == 4,
                bytes@ == head + tail@.subrange(0, k as int),
            decreases 4 - k,
        {
            bytes.push(tail[k]);
            proof {
                assert(bytes@ =~= head + tail@.subrange(0, k + 1));
            }
            k = k + 1;
        }
        proof {
            assert(self.bytes@.subrange(0, self.bytes@.len() as int) =~= self.bytes@);
            assert(tail@.subrange(0, 4) =~= tail@);
            assert(bytes@ =~= subresource_bytes(self@, n));
        }
        Identity { bytes }
    }

    /// The canonical text of this identity, as ASCII bytes.
    pub fn text(&self) -> (r: Vec<u8>)
        ensures
            r@ == identity_text(self@),
    {
        let mut r: Vec<u8> = vec![109u8];
        let mut i: usize = 0;
        while i < self.bytes.len()
            invariant
                i <= self.bytes@.len(),
                r@ == seq![109u8] + hex_text(self.bytes@.subrange(0, i as int)),
            decreases self.bytes.len() - i,
        {
            let b = self.bytes[i];
            r.push(hex_digit_exec(b / 16));
            r.push(hex_digit_exec(b % 16));
            proof {
                let s = self.bytes@.subrange(0, i + 1);
                assert(s.drop_last() =~= self.bytes@.subrange(0, i as int));
                assert(r@ =~= seq![109u8] + hex_text(s));
            }
            i = i + 1;
        }
        proof {
            assert(self.bytes@.subrange(0, self.bytes@.len() as int) =~= self.bytes@);
        }
        r
    }
}

/// Distinct counters give distinct sub-identities.
pub proof fn lemma_subresource_injective(parent: Seq<u8>, a: u32, b: u32)
    requires
        subresource_bytes(parent, a) == subresource_bytes(parent, b),
    ensures
        a == b,
{
    let sa = subresource_bytes(parent, a);
    let sb = subresource_bytes(parent, b);
    crate::bytes::lemma_be_bytes_len(a as nat, 4);
    crate::bytes::lemma_be_bytes_len(b as nat, 4);
    let n = sa.len() as int;
    assert(sa.subrange(n - 4, n) =~= be_bytes(a as nat, 4));
    assert(sb.subrange(n - 4, n) =~= be_bytes(b as nat, 4));
    assert(crate::bytes::pow256(4) == 0x1_0000_0000) by {
        reveal_with_fuel(crate::bytes::pow256, 5);
    }
    crate::bytes::lemma_be_bytes_value(a as nat, 4);
    crate::bytes::lemma_be_bytes_value(b as nat, 4);
}

impl PartialEq for Identity {
    fn eq(&self, other: &Identity) -> (r: bool) {
        self.same_as(other)
    }
}

impl vstd::std_specs::cmp::PartialEqSpecImpl for Identity {
    open spec fn obeys_eq_spec() -> bool {
        true
    }

    open spec fn eq_spec(&self, other: &Identity) -> bool {
        self@ == other@
    }
}

impl Eq for Identity {

}

} // verus!
