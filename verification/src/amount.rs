//! Token amounts: natural numbers of any size.

use crate::bytes::{bytes_copy, bytes_slice};
use fvm_shared::bigint::BigUint;
use vstd::prelude::*;

verus! {

/// The number that `s` spells in base 256, the first byte counting most.
pub open spec fn be_value(s: Seq<u8>) -> nat
    decreases s.len(),
{
    if s.len() == 0 {
        0
    } else {
        be_value(s.drop_last()) * 256 + s.last() as nat
    }
}

/// Leading zero bytes count for nothing.
pub proof fn lemma_be_value_leading_zero(s: Seq<u8>)
    requires
        s.len() > 0,
        s[0] == 0,
    ensures
        be_value(s.skip(1)) == be_value(s),
    decreases s.len(),
{
    if s.len() == 1 {
        assert(s.drop_last() =~= Seq::<u8>::empty());
        assert(s.skip(1) =~= Seq::<u8>::empty());
    } else {
        lemma_be_value_leading_zero(s.drop_last());
        assert(s.drop_last().skip(1) =~= s.skip(1).drop_last());
        assert(s.skip(1).last() == s.last());
    }
}

/// The shortest spelling of `n` in base 256, the first byte counting most:
/// no bytes for zero, and no leading zero byte.
pub open spec fn be_min(n: nat) -> Seq<u8>
    decreases n,
{
    if n == 0 {
        Seq::empty()
    } else {
        be_min(n / 256).push((n % 256) as u8)
    }
}

/// The shortest spelling of a number spells it.
pub proof fn lemma_be_min_value(n: nat)
    ensures
        be_value(be_min(n)) == n,
        be_min(n).len() > 0 ==> be_min(n)[0] != 0,
        n > 0 ==> be_min(n).len() > 0,
    decreases n,
{
    if n > 0 {
        lemma_be_min_value(n / 256);
        let s = be_min(n);
        assert(s.drop_last() =~= be_min(n / 256));
        if be_min(n / 256).len() > 0 {
            assert(s[0] == be_min(n / 256)[0]);
        }
    }
}

/// A spelling that does not begin with a zero byte spells a number above
/// zero, unless it is empty.
pub proof fn lemma_be_value_positive(s: Seq<u8>)
    requires
        s.len() > 0,
        s[0] != 0,
    ensures
        be_value(s) > 0,
    decreases s.len(),
{
    if s.len() > 1 {
        assert(s.drop_last()[0] == s[0]);
        lemma_be_value_positive(s.drop_last());
    } else {
        assert(s.drop_last() =~= Seq::<u8>::empty());
    }
}

/// A spelling that does not begin with a zero byte is the shortest spelling
/// of its number.
pub proof fn lemma_be_min_unique(s: Seq<u8>)
    requires
        s.len() > 0 ==> s[0] != 0,
    ensures
        be_min(be_value(s)) == s,
    decreases s.len(),
{
    if s.len() > 0 {
        let t = s.drop_last();
        let x = s.last();
        lemma_be_value_positive(s);
        if t.len() > 0 {
            assert(t[0] == s[0]);
            lemma_be_value_positive(t);
        }
        lemma_be_min_unique(t);
        let v = be_value(s);
        assert(v == be_value(t) * 256 + x);
        assert(v / 256 == be_value(t) && v % 256 == x as nat);
        assert(be_min(v) =~= s);
    }
}

/// The power of 256 with exponent `k`.
pub open spec fn pow256(k: nat) -> nat
    decreases k,
{
    if k == 0 {
        1
    } else {
        256 * pow256((k - 1) as nat)
    }
}

/// Powers of 256 grow with the exponent.
pub proof fn lemma_pow256_grows(a: nat, b: nat)
    requires
        a <= b,
    ensures
        1 <= pow256(a) <= pow256(b),
    decreases b,
{
    if a < b {
        lemma_pow256_grows(a, (b - 1) as nat);
    } else if a > 0 {
        lemma_pow256_grows((a - 1) as nat, (a - 1) as nat);
    }
}

/// What bytes spell is below the power of 256 with their number as
/// exponent, and not below the power before it where the first byte is not
/// zero.
pub proof fn lemma_be_value_bounds(s: Seq<u8>)
    ensures
        be_value(s) < pow256(s.len()),
        s.len() > 0 && s[0] != 0 ==> be_value(s) >= pow256((s.len() - 1) as nat),
    decreases s.len(),
{
    if s.len() > 0 {
        lemma_be_value_bounds(s.drop_last());
        if s.len() > 1 {
            assert(s.drop_last()[0] == s[0]);
        }
    }
}

/// The text of the amount of tokens that is as many of the smallest unit
/// as the bytes spell, as `fvm_shared` shows it: in whole tokens, with a
/// decimal point.
pub uninterp spec fn token_text(atto: Seq<u8>) -> Seq<char>;

/// Calls `BigUint::from_bytes_be` on the bytes,
/// `fvm_shared::econ::TokenAmount::from_atto` on the number and `Display`
/// on the amount. The contract only names the text.
#[verifier::external_body]
fn magnitude_text(a: &[u8]) -> (text: String)
    ensures
        text@ == token_text(a@),
{
    fvm_shared::econ::TokenAmount::from_atto(BigUint::from_bytes_be(a)).to_string()
}

/// Calls `BigUint::from_bytes_be` on both byte strings, adds the numbers and
/// calls `to_bytes_be` on the sum, which spells the sum of what they spell.
#[verifier::external_body]
fn magnitude_add(a: &[u8], b: &[u8]) -> (sum: Vec<u8>)
    ensures
        be_value(sum@) == be_value(a@) + be_value(b@),
{
    (BigUint::from_bytes_be(a) + BigUint::from_bytes_be(b)).to_bytes_be()
}

/// Calls `BigUint::from_bytes_be` on both byte strings, subtracts the second
/// number from the first and calls `to_bytes_be` on the difference. The
/// subtraction of `BigUint` panics where the second number is the larger.
#[verifier::external_body]
fn magnitude_sub(a: &[u8], b: &[u8]) -> (difference: Vec<u8>)
    requires
        be_value(a@) >= be_value(b@),
    ensures
        be_value(difference@) == be_value(a@) - be_value(b@),
{
    (BigUint::from_bytes_be(a) - BigUint::from_bytes_be(b)).to_bytes_be()
}

/// Calls `BigUint::from_bytes_be` on both byte strings and compares the
/// numbers with `<`.
#[verifier::external_body]
fn magnitude_less(a: &[u8], b: &[u8]) -> (less: bool)
    ensures
        less == (be_value(a@) < be_value(b@)),
{
    BigUint::from_bytes_be(a) < BigUint::from_bytes_be(b)
}

/// `s` without its leading zero bytes.
fn trimmed(s: Vec<u8>) -> (t: Vec<u8>)
    ensures
        be_value(t@) == be_value(s@),
        t@.len() > 0 ==> t@[0] != 0,
        t@.len() <= s@.len(),
{
    let mut k: usize = 0;
    assert(s@.skip(0) =~= s@);
    while k < s.len() && s[k] == 0
        invariant
            k <= s@.len(),
            be_value(s@.skip(k as int)) == be_value(s@),
        decreases s@.len() - k,
    {
        proof {
            assert(s@.skip(k as int)[0] == s@[k as int]);
            lemma_be_value_leading_zero(s@.skip(k as int));
            assert(s@.skip(k as int).skip(1) =~= s@.skip(k + 1));
        }
        k += 1;
    }
    let t = bytes_slice(s.as_slice(), k, s.len());
    assert(t@ =~= s@.skip(k as int));
    proof {
        if t@.len() > 0 {
            assert(t@[0] == s@[k as int]);
        }
    }
    t
}

/// A quantity of tokens in the smallest unit: a natural number of any size.
/// Its view is the number.
#[derive(Debug, PartialEq, Eq)]
pub struct TokenAmount {
    /// The number in base 256, the first byte counting most, without
    /// leading zero bytes.
    atto: Vec<u8>,
}

impl View for TokenAmount {
    type V = nat;

    closed spec fn view(&self) -> nat {
        be_value(self.atto@)
    }
}

impl Clone for TokenAmount {
    fn clone(&self) -> (copy: Self)
        ensures
            copy@ == self@,
    {
        proof {
            use_type_invariant(self);
        }
        TokenAmount { atto: bytes_copy(self.atto.as_slice()) }
    }
}

impl Default for TokenAmount {
    fn default() -> (zero: Self)
        ensures
            zero@ == 0,
    {
        TokenAmount::zero()
    }
}

impl TokenAmount {
    #[verifier::type_invariant]
    spec fn trim(&self) -> bool {
        self.atto@.len() > 0 ==> self.atto@[0] != 0
    }

    /// No tokens.
    pub fn zero() -> (zero: Self)
        ensures
            zero@ == 0,
    {
        TokenAmount { atto: Vec::new() }
    }

    /// The amount of `atto` smallest units.
    pub fn from_atto(atto: u64) -> (amount: Self)
        ensures
            amount@ == atto,
    {
        let mut bytes: Vec<u8> = Vec::new();
        bytes.push((atto / 0x100_0000_0000_0000) as u8);
        bytes.push((atto / 0x1_0000_0000_0000 % 0x100) as u8);
        bytes.push((atto / 0x100_0000_0000 % 0x100) as u8);
        bytes.push((atto / 0x1_0000_0000 % 0x100) as u8);
        bytes.push((atto / 0x100_0000 % 0x100) as u8);
        bytes.push((atto / 0x1_0000 % 0x100) as u8);
        bytes.push((atto / 0x100 % 0x100) as u8);
        bytes.push((atto % 0x100) as u8);
        proof {
            lemma_be_value_u64(bytes@, atto);
        }
        TokenAmount { atto: trimmed(bytes) }
    }

    /// The amount that the bytes spell in base 256, the first byte counting
    /// most.
    pub fn from_bytes_be(bytes: &[u8]) -> (amount: Self)
        ensures
            amount@ == be_value(bytes@),
    {
        TokenAmount { atto: trimmed(bytes_copy(bytes)) }
    }

    /// The amount in base 256, the first byte counting most, without leading
    /// zero bytes.
    pub fn to_bytes_be(&self) -> (bytes: Vec<u8>)
        ensures
            bytes@ == be_min(self@),
    {
        proof {
            use_type_invariant(self);
            lemma_be_min_unique(self.atto@);
        }
        bytes_copy(self.atto.as_slice())
    }

    /// The amount as a number of 128 bits; `None` where it is greater.
    pub fn to_u128(&self) -> (r: Option<u128>)
        ensures
            match r {
                Some(n) => n == self@,
                None => self@ > u128::MAX,
            },
    {
        proof {
            use_type_invariant(self);
            lemma_be_value_bounds(self.atto@);
            assert(pow256(16) == u128::MAX + 1) by {
                reveal_with_fuel(pow256, 17);
            }
            if self.atto@.len() > 16 {
                lemma_pow256_grows(16, (self.atto@.len() - 1) as nat);
            }
        }
        if self.atto.len() > 16 {
            return None;
        }
        let mut n: u128 = 0;
        let mut i: usize = 0;
        assert(self.atto@.take(0) =~= Seq::<u8>::empty());
        while i < self.atto.len()
            invariant
                i <= self.atto@.len() <= 16,
                n == be_value(self.atto@.take(i as int)),
                pow256(16) == u128::MAX + 1,
            decreases self.atto@.len() - i,
        {
            proof {
                let next = self.atto@.take(i + 1);
                assert(next.drop_last() =~= self.atto@.take(i as int));
                assert(next.last() == self.atto@[i as int]);
                lemma_be_value_bounds(next);
                lemma_pow256_grows((i + 1) as nat, 16);
            }
            n = n * 256 + self.atto[i] as u128;
            i = i + 1;
        }
        assert(self.atto@.take(i as int) =~= self.atto@);
        Some(n)
    }

    /// The amount in words: in whole tokens, with a decimal point.
    pub fn to_text(&self) -> (text: String)
        ensures
            text@ == token_text(be_min(self@)),
    {
        proof {
            use_type_invariant(self);
            lemma_be_min_unique(self.atto@);
        }
        magnitude_text(self.atto.as_slice())
    }

    /// Whether the amount is no tokens.
    pub fn is_zero(&self) -> (r: bool)
        ensures
            r == (self@ == 0),
    {
        !magnitude_less(&[], self.atto.as_slice())
    }

    /// Whether the amount is less than `other`.
    pub fn less_than(&self, other: &TokenAmount) -> (r: bool)
        ensures
            r == (self@ < other@),
    {
        magnitude_less(self.atto.as_slice(), other.atto.as_slice())
    }

    /// Whether the two amounts are the same.
    pub fn same(&self, other: &TokenAmount) -> (r: bool)
        ensures
            r == (self@ == other@),
    {
        !magnitude_less(self.atto.as_slice(), other.atto.as_slice()) && !magnitude_less(
            other.atto.as_slice(),
            self.atto.as_slice(),
        )
    }

    /// The sum of the two amounts.
    pub fn plus(&self, other: &TokenAmount) -> (sum: Self)
        ensures
            sum@ == self@ + other@,
    {
        TokenAmount {
            atto: trimmed(magnitude_add(self.atto.as_slice(), other.atto.as_slice())),
        }
    }

    /// The amount less `other`, where `other` is no more than the amount.
    pub fn minus(&self, other: &TokenAmount) -> (difference: Option<Self>)
        ensures
            match difference {
                Some(d) => other@ <= self@ && d@ == self@ - other@,
                None => other@ > self@,
            },
    {
        if magnitude_less(self.atto.as_slice(), other.atto.as_slice()) {
            None
        } else {
            Some(
                TokenAmount {
                    atto: trimmed(magnitude_sub(self.atto.as_slice(), other.atto.as_slice())),
                },
            )
        }
    }
}

/// The eight bytes of a 64-bit number spell it.
proof fn lemma_be_value_u64(s: Seq<u8>, n: u64)
    requires
        s.len() == 8,
        s[0] == (n / 0x100_0000_0000_0000) as u8,
        s[1] == (n / 0x1_0000_0000_0000 % 0x100) as u8,
        s[2] == (n / 0x100_0000_0000 % 0x100) as u8,
        s[3] == (n / 0x1_0000_0000 % 0x100) as u8,
        s[4] == (n / 0x100_0000 % 0x100) as u8,
        s[5] == (n / 0x1_0000 % 0x100) as u8,
        s[6] == (n / 0x100 % 0x100) as u8,
        s[7] == (n % 0x100) as u8,
    ensures
        be_value(s) == n,
{
    let s7 = s.drop_last();
    let s6 = s7.drop_last();
    let s5 = s6.drop_last();
    let s4 = s5.drop_last();
    let s3 = s4.drop_last();
    let s2 = s3.drop_last();
    let s1 = s2.drop_last();
    let s0 = s1.drop_last();
    assert(be_value(s0) == 0);
    assert(be_value(s1) == s[0]);
    assert(be_value(s2) == s[0] * 0x100 + s[1]);
    assert(be_value(s3) == (s[0] * 0x100 + s[1]) * 0x100 + s[2]);
    assert(be_value(s4) == ((s[0] * 0x100 + s[1]) * 0x100 + s[2]) * 0x100 + s[3]);
    assert(be_value(s5) == (((s[0] * 0x100 + s[1]) * 0x100 + s[2]) * 0x100 + s[3]) * 0x100
        + s[4]);
    assert(be_value(s6) == ((((s[0] * 0x100 + s[1]) * 0x100 + s[2]) * 0x100 + s[3]) * 0x100
        + s[4]) * 0x100 + s[5]);
    assert(be_value(s7) == (((((s[0] * 0x100 + s[1]) * 0x100 + s[2]) * 0x100 + s[3]) * 0x100
        + s[4]) * 0x100 + s[5]) * 0x100 + s[6]);
    assert(be_value(s) == ((((((s[0] * 0x100 + s[1]) * 0x100 + s[2]) * 0x100 + s[3]) * 0x100
        + s[4]) * 0x100 + s[5]) * 0x100 + s[6]) * 0x100 + s[7]);
    assert(n / 0x100_0000_0000_0000 < 0x100 && (n / 0x100_0000_0000_0000) * 0x100_0000_0000_0000
        + (n / 0x1_0000_0000_0000 % 0x100) * 0x1_0000_0000_0000 + (n / 0x100_0000_0000 % 0x100)
        * 0x100_0000_0000 + (n / 0x1_0000_0000 % 0x100) * 0x1_0000_0000 + (n / 0x100_0000
        % 0x100) * 0x100_0000 + (n / 0x1_0000 % 0x100) * 0x1_0000 + (n / 0x100 % 0x100) * 0x100
        + n % 0x100 == n) by (bit_vector);
}

} // verus!
