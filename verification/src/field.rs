//! A single element of the Goldilocks field, held in one 64-bit word.

use vstd::prelude::*;
use crate::reduce::{
    add_lane, add_word, canonical, inv_word, modulus, mul_lane, mul_word, neg_lane, neg_word,
    pow_lane, pow_word, reduce_lane, reduce_word, sub_lane, sub_word,
};
use crate::traits::{
    add_words, fill_words, inv_words, mul_words, neg_words, sub_words, PrimeFieldLike,
};

verus! {

/// One field element. The word may be any `u64`: it stands for the element
/// `word mod p`, and two words that stand for the same element compare equal.
#[derive(Clone, Copy, Debug)]
pub struct GoldilocksField(pub u64);

impl PartialEq for GoldilocksField {
    fn eq(&self, other: &Self) -> (r: bool) {
        reduce_lane(self.0) == reduce_lane(other.0)
    }
}

impl vstd::std_specs::cmp::PartialEqSpecImpl for GoldilocksField {
    open spec fn obeys_eq_spec() -> bool {
        true
    }

    open spec fn eq_spec(&self, other: &Self) -> bool {
        reduce_word(self.0) == reduce_word(other.0)
    }
}

impl Eq for GoldilocksField {

}

impl Default for GoldilocksField {
    fn default() -> (r: Self)
        ensures
            r.0 == 0,
    {
        GoldilocksField(0)
    }
}

impl GoldilocksField {
    /// The prime `p`.
    pub const ORDER: u64 = 0xFFFF_FFFF_0000_0001;

    /// Number of bits of `p`.
    pub const ORDER_BITS: usize = 64;

    /// The largest `k` such that `2^k` divides `p - 1`.
    pub const TWO_ADICITY: usize = 32;

    /// The additive identity.
    pub fn zero() -> (r: Self)
        ensures
            r.0 == 0,
    {
        GoldilocksField(0)
    }

    /// The multiplicative identity.
    pub fn one() -> (r: Self)
        ensures
            r.0 == 1,
    {
        GoldilocksField(1)
    }

    /// The element `p - 1`.
    pub fn minus_one() -> (r: Self)
        ensures
            r.0 == 0xFFFF_FFFF_0000_0000,
            r.value() == modulus() - 1,
    {
        GoldilocksField(0xFFFF_FFFF_0000_0000)
    }

    /// The field element that this word stands for.
    pub open spec fn value(&self) -> int {
        canonical(self.0)
    }

    /// Takes any word as the element it stands for, without reducing it.
    pub fn from_nonreduced_u64(value: u64) -> (r: Self)
        ensures
            r.0 == value,
    {
        GoldilocksField(value)
    }

    /// The canonical word of this element.
    pub fn to_reduced_u64(&self) -> (r: u64)
        ensures
            r == reduce_word(self.0),
            r as int == self.value(),
    {
        reduce_lane(self.0)
    }

    /// Whether this element is the additive identity.
    pub fn is_zero(&self) -> (r: bool)
        ensures
            r == (self.value() == 0),
    {
        reduce_lane(self.0) == 0
    }

    /// Adds `other` to `self`.
    pub fn add_assign(&mut self, other: &Self) -> (r: &mut Self)
        ensures
            r.0 == add_word(old(self).0, other.0),
            r.value() == (old(self).value() + other.value()) % modulus(),
            *final(self) == *final(r),
    {
        proof {
            crate::reduce::lemma_add_word(self.0, other.0);
        }
        self.0 = add_lane(self.0, other.0);
        self
    }

    /// Subtracts `other` from `self`.
    pub fn sub_assign(&mut self, other: &Self) -> (r: &mut Self)
        ensures
            r.0 == sub_word(old(self).0, other.0),
            r.value() == (old(self).value() - other.value()) % modulus(),
            *final(self) == *final(r),
    {
        proof {
            crate::reduce::lemma_sub_word(self.0, other.0);
        }
        self.0 = sub_lane(self.0, other.0);
        self
    }

    /// Multiplies `self` by `other`; the result is canonical.
    pub fn mul_assign(&mut self, other: &Self) -> (r: &mut Self)
        ensures
            r.0 == mul_word(old(self).0, other.0),
            r.0 as int == (old(self).value() * other.value()) % modulus(),
            *final(self) == *final(r),
    {
        proof {
            crate::reduce::lemma_mul_word(self.0, other.0);
        }
        self.0 = mul_lane(self.0, other.0);
        self
    }

    /// Replaces `self` by its square; the result is canonical.
    pub fn square(&mut self) -> (r: &mut Self)
        ensures
            r.0 == mul_word(old(self).0, old(self).0),
            r.0 as int == (old(self).value() * old(self).value()) % modulus(),
            *final(self) == *final(r),
    {
        proof {
            crate::reduce::lemma_mul_word(self.0, self.0);
        }
        self.0 = mul_lane(self.0, self.0);
        self
    }

    /// Replaces `self` by its double.
    pub fn double(&mut self) -> (r: &mut Self)
        ensures
            r.0 == add_word(old(self).0, old(self).0),
            r.value() == (old(self).value() + old(self).value()) % modulus(),
            *final(self) == *final(r),
    {
        proof {
            crate::reduce::lemma_add_word(self.0, self.0);
        }
        self.0 = add_lane(self.0, self.0);
        self
    }

    /// Replaces `self` by its canonical negative.
    pub fn negate(&mut self) -> (r: &mut Self)
        ensures
            r.0 == neg_word(old(self).0),
            r.0 as int == (modulus() - old(self).value()) % modulus(),
            (old(self).value() + r.value()) % modulus() == 0,
            *final(self) == *final(r),
    {
        proof {
            crate::reduce::lemma_neg_word(self.0);
        }
        self.0 = neg_lane(self.0);
        self
    }

    /// Raises `self` to the power `e`; the result is canonical.
    pub fn pow_u64(&self, e: u64) -> (r: Self)
        ensures
            r.0 == pow_word(self.0, e),
    {
        GoldilocksField(pow_lane(self.0, e))
    }

    /// The multiplicative inverse, `self^(p-2)`; none for the additive
    /// identity.
    pub fn inverse(&self) -> (r: Option<Self>)
        ensures
            r.is_some() <==> self.value() != 0,
            r.is_some() ==> r.unwrap().0 == inv_word(self.0),
    {
        if self.is_zero() {
            None
        } else {
            Some(GoldilocksField(pow_lane(self.0, 0xFFFF_FFFE_FFFF_FFFF)))
        }
    }
}

/// A single element seen as a batch of one lane. Each operation does to the
/// word what the batch operation of the same name does to one lane.
impl PrimeFieldLike for GoldilocksField {
    type Base = GoldilocksField;

    type Context = ();

    open spec fn width() -> nat {
        1
    }

    open spec fn words(&self) -> Seq<u64> {
        seq![self.0]
    }

    open spec fn base_word(base: GoldilocksField) -> u64 {
        base.0
    }

    fn zero(_ctx: &mut ()) -> (r: Self) {
        let r = GoldilocksField(0);
        assert(r.words() =~= fill_words(1, 0));
        r
    }

    fn one(_ctx: &mut ()) -> (r: Self) {
        let r = GoldilocksField(1);
        assert(r.words() =~= fill_words(1, 1));
        r
    }

    fn minus_one(_ctx: &mut ()) -> (r: Self) {
        let r = GoldilocksField(0xFFFF_FFFF_0000_0000);
        assert(r.words() =~= fill_words(1, 0xFFFF_FFFF_0000_0000));
        r
    }

    fn constant(value: GoldilocksField, _ctx: &mut ()) -> (r: Self) {
        assert(value.words() =~= fill_words(1, value.0));
        value
    }

    fn add_assign(&mut self, other: &Self, _ctx: &mut ()) -> (r: &mut Self) {
        self.0 = add_lane(self.0, other.0);
        assert(self.words() =~= add_words(old(self).words(), other.words()));
        self
    }

    fn sub_assign(&mut self, other: &Self, _ctx: &mut ()) -> (r: &mut Self) {
        self.0 = sub_lane(self.0, other.0);
        assert(self.words() =~= sub_words(old(self).words(), other.words()));
        self
    }

    fn mul_assign(&mut self, other: &Self, _ctx: &mut ()) -> (r: &mut Self) {
        self.0 = mul_lane(self.0, other.0);
        assert(self.words() =~= mul_words(old(self).words(), other.words()));
        self
    }

    fn square(&mut self, _ctx: &mut ()) -> (r: &mut Self) {
        self.0 = mul_lane(self.0, self.0);
        assert(self.words() =~= mul_words(old(self).words(), old(self).words()));
        self
    }

    fn negate(&mut self, _ctx: &mut ()) -> (r: &mut Self) {
        self.0 = neg_lane(self.0);
        assert(self.words() =~= neg_words(old(self).words()));
        self
    }

    fn double(&mut self, _ctx: &mut ()) -> (r: &mut Self) {
        self.0 = add_lane(self.0, self.0);
        assert(self.words() =~= add_words(old(self).words(), old(self).words()));
        self
    }

    fn inverse(&self, _ctx: &mut ()) -> (r: Self) {
        let r = GoldilocksField(pow_lane(self.0, 0xFFFF_FFFE_FFFF_FFFF));
        assert(r.words() =~= inv_words(self.words()));
        r
    }
}

} // verus!
