//! The operations that a single field element and a batch of them share, so
//! that an algorithm can be written once and run on either.
//!
//! A value of either kind is seen as a sequence of words, one per lane, and
//! each operation is specified on that sequence lane by lane.

use vstd::prelude::*;
use crate::reduce::{add_word, canonical, inv_word, modulus, mul_word, neg_word, sub_word};

verus! {

/// `n` lanes that all hold `w`.
pub open spec fn fill_words(n: nat, w: u64) -> Seq<u64> {
    Seq::new(n, |i: int| w)
}

/// Lane-wise lazy sum.
pub open spec fn add_words(a: Seq<u64>, b: Seq<u64>) -> Seq<u64> {
    Seq::new(a.len(), |i: int| add_word(a[i], b[i]))
}

/// Lane-wise lazy difference.
pub open spec fn sub_words(a: Seq<u64>, b: Seq<u64>) -> Seq<u64> {
    Seq::new(a.len(), |i: int| sub_word(a[i], b[i]))
}

/// Lane-wise canonical product.
pub open spec fn mul_words(a: Seq<u64>, b: Seq<u64>) -> Seq<u64> {
    Seq::new(a.len(), |i: int| mul_word(a[i], b[i]))
}

/// Lane-wise canonical negative.
pub open spec fn neg_words(a: Seq<u64>) -> Seq<u64> {
    Seq::new(a.len(), |i: int| neg_word(a[i]))
}

/// Lane-wise inverse.
pub open spec fn inv_words(a: Seq<u64>) -> Seq<u64> {
    Seq::new(a.len(), |i: int| inv_word(a[i]))
}

/// Whether no lane stands for the additive identity.
pub open spec fn all_nonzero(a: Seq<u64>) -> bool {
    forall|i: int| 0 <= i < a.len() ==> canonical(#[trigger] a[i]) != 0
}

/// A value that behaves as one or more field elements side by side. Every
/// operation takes a context, which carries nothing today.
pub trait PrimeFieldLike: Sized {
    /// The type of one lane.
    type Base;

    /// The context handed through every call.
    type Context;

    /// Number of lanes.
    spec fn width() -> nat;

    /// The words of the value in lane order; there are `width()` of them.
    spec fn words(&self) -> Seq<u64>;

    /// The word of one lane value.
    spec fn base_word(base: Self::Base) -> u64;

    /// Zero in every lane.
    fn zero(ctx: &mut Self::Context) -> (r: Self)
        ensures
            r.words() == fill_words(Self::width(), 0),
    ;

    /// One in every lane.
    fn one(ctx: &mut Self::Context) -> (r: Self)
        ensures
            r.words() == fill_words(Self::width(), 1),
    ;

    /// `p - 1` in every lane.
    fn minus_one(ctx: &mut Self::Context) -> (r: Self)
        ensures
            r.words() == fill_words(Self::width(), 0xFFFF_FFFF_0000_0000),
    ;

    /// `value` in every lane.
    fn constant(value: Self::Base, ctx: &mut Self::Context) -> (r: Self)
        ensures
            r.words() == fill_words(Self::width(), Self::base_word(value)),
    ;

    /// Adds `other` to `self`, lane by lane.
    fn add_assign(&mut self, other: &Self, ctx: &mut Self::Context) -> (r: &mut Self)
        ensures
            r.words() == add_words(old(self).words(), other.words()),
            *final(self) == *final(r),
    ;

    /// Subtracts `other` from `self`, lane by lane.
    fn sub_assign(&mut self, other: &Self, ctx: &mut Self::Context) -> (r: &mut Self)
        ensures
            r.words() == sub_words(old(self).words(), other.words()),
            *final(self) == *final(r),
    ;

    /// Multiplies `self` by `other`, lane by lane.
    fn mul_assign(&mut self, other: &Self, ctx: &mut Self::Context) -> (r: &mut Self)
        ensures
            r.words() == mul_words(old(self).words(), other.words()),
            *final(self) == *final(r),
    ;

    /// Squares every lane.
    fn square(&mut self, ctx: &mut Self::Context) -> (r: &mut Self)
        ensures
            r.words() == mul_words(old(self).words(), old(self).words()),
            *final(self) == *final(r),
    ;

    /// Replaces every lane by the canonical word of its field negative.
    fn negate(&mut self, ctx: &mut Self::Context) -> (r: &mut Self)
        ensures
            r.words() == neg_words(old(self).words()),
            *final(self) == *final(r),
    ;

    /// Doubles every lane.
    fn double(&mut self, ctx: &mut Self::Context) -> (r: &mut Self)
        ensures
            r.words() == add_words(old(self).words(), old(self).words()),
            *final(self) == *final(r),
    ;

    /// Inverts every lane. No lane may stand for the additive identity.
    fn inverse(&self, ctx: &mut Self::Context) -> (r: Self)
        requires
            all_nonzero(self.words()),
        ensures
            r.words() == inv_words(self.words()),
    ;
}

/// Whatever words two values hold, canonical or not, each lane of their sum,
/// difference and product stands for the field sum, difference and product
/// of the elements that the operands' lanes stand for.
pub proof fn lemma_words_arithmetic(a: Seq<u64>, b: Seq<u64>, i: int)
    requires
        0 <= i < a.len(),
    ensures
        canonical(add_words(a, b)[i]) == (canonical(a[i]) + canonical(b[i])) % modulus(),
        canonical(sub_words(a, b)[i]) == (canonical(a[i]) - canonical(b[i])) % modulus(),
        canonical(mul_words(a, b)[i]) == (canonical(a[i]) * canonical(b[i])) % modulus(),
        mul_words(a, b)[i] as int == (canonical(a[i]) * canonical(b[i])) % modulus(),
{
    crate::reduce::lemma_add_word(a[i], b[i]);
    crate::reduce::lemma_sub_word(a[i], b[i]);
    crate::reduce::lemma_mul_word(a[i], b[i]);
}

/// Whatever words a value holds, each lane of its negative is the canonical
/// word of the field negative, so that lane and negative add up to zero;
/// negating twice gives, in every lane, the canonical word of the lane.
pub proof fn lemma_words_negate_twice(a: Seq<u64>, i: int)
    requires
        0 <= i < a.len(),
    ensures
        neg_words(a)[i] as int == (modulus() - canonical(a[i])) % modulus(),
        (canonical(a[i]) + canonical(neg_words(a)[i])) % modulus() == 0,
        neg_words(neg_words(a))[i] as int == canonical(a[i]),
        canonical(a[i]) == 0 ==> neg_words(a)[i] == 0,
{
    crate::reduce::lemma_neg_word(a[i]);
    crate::reduce::lemma_neg_involution(a[i]);
}

} // verus!
