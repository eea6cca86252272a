//! Branchless reduction of 64-bit words modulo the Goldilocks prime.
//!
//! A word is any `u64`. It stands for the field element `word mod p`; a word
//! below `p` is canonical. Every routine here accepts arbitrary words and is
//! specified by a function on words that says which word comes out, bit for
//! bit, together with lemmas that say which field element that word stands for.

use vstd::prelude::*;
use vstd::arithmetic::div_mod::*;
use vstd::arithmetic::power::*;

verus! {

/// The prime `p = 2^64 - 2^32 + 1`.
pub const ORDER: u64 = 0xFFFF_FFFF_0000_0001;

/// `2^64 mod p`, which is `2^32 - 1`.
pub const EPSILON: u64 = 0xFFFF_FFFF;

/// Number of bits of `p`.
pub const ORDER_BITS: usize = 64;

/// The largest `k` such that `2^k` divides `p - 1`.
pub const TWO_ADICITY: usize = 32;

/// The modulus as a mathematical integer.
pub open spec fn modulus() -> int {
    0xFFFF_FFFF_0000_0001
}

/// The field element that the word `x` stands for, in `[0, p)`.
pub open spec fn canonical(x: u64) -> int {
    x as int % modulus()
}

/// Whether a word is its own canonical form.
pub open spec fn is_canonical(x: u64) -> bool {
    (x as int) < modulus()
}

/// The canonical word of `x`.
pub open spec fn reduce_word(x: u64) -> u64 {
    canonical(x) as u64
}

/// The word that lazy addition leaves: the right operand is made canonical,
/// added, and `p` is taken off once if the sum reached it.
pub open spec fn add_word(a: u64, b: u64) -> u64 {
    let s = a as int + canonical(b);
    if s >= modulus() {
        (s - modulus()) as u64
    } else {
        s as u64
    }
}

/// The word that lazy subtraction leaves: the right operand is made
/// canonical, subtracted, and `p` is added once if the difference went
/// below zero.
pub open spec fn sub_word(a: u64, b: u64) -> u64 {
    let d = a as int - canonical(b);
    if d < 0 {
        (d + modulus()) as u64
    } else {
        d as u64
    }
}

/// The canonical word of the field negative: zero for a word that stands
/// for zero, otherwise `p - (a mod p)`.
pub open spec fn neg_word(a: u64) -> u64 {
    if canonical(a) == 0 {
        0
    } else {
        (modulus() - canonical(a)) as u64
    }
}

/// The canonical word of the product.
pub open spec fn mul_word(a: u64, b: u64) -> u64 {
    ((a as int * b as int) % modulus()) as u64
}

/// The canonical word of `a` raised to `e`.
pub open spec fn pow_word(a: u64, e: u64) -> u64 {
    (pow(a as int, e as nat) % modulus()) as u64
}

/// The canonical word of `a^(p-2)`, the inverse of `a` by Fermat's theorem
/// whenever `a` is not a multiple of `p`.
pub open spec fn inv_word(a: u64) -> u64 {
    pow_word(a, 0xFFFF_FFFE_FFFF_FFFF)
}

/// Makes a word canonical: adds epsilon and keeps the wrapped sum when the
/// addition overflowed.
pub fn reduce_lane(a: u64) -> (r: u64)
    ensures
        r == reduce_word(a),
{
    let shifted: u64 = a.wrapping_add(EPSILON);
    if shifted < EPSILON {
        shifted
    } else {
        a
    }
}

/// Lazy addition of two arbitrary words.
pub fn add_lane(a: u64, b: u64) -> (r: u64)
    ensures
        r == add_word(a, b),
{
    let b: u64 = reduce_lane(b);
    let sum: u64 = a.wrapping_add(b);
    let sum_shifted: u64 = sum.wrapping_add(EPSILON);
    let wrapped: bool = sum_shifted < sum;
    let carried: bool = sum < a;
    if wrapped || carried {
        sum_shifted
    } else {
        sum
    }
}

/// Lazy subtraction of two arbitrary words.
pub fn sub_lane(a: u64, b: u64) -> (r: u64)
    ensures
        r == sub_word(a, b),
{
    let b: u64 = reduce_lane(b);
    let diff: u64 = a.wrapping_sub(b);
    let diff_shifted: u64 = diff.wrapping_sub(EPSILON);
    if a < b {
        diff_shifted
    } else {
        diff
    }
}

/// Negation of an arbitrary word: the word is made canonical, then zero
/// stays and any other word is taken off `p`.
pub fn neg_lane(a: u64) -> (r: u64)
    ensures
        r == neg_word(a),
{
    let a: u64 = reduce_lane(a);
    let flipped: u64 = ORDER.wrapping_sub(a);
    if a == 0 {
        a
    } else {
        flipped
    }
}

/// Multiplication of two arbitrary words. The 128-bit product is split into
/// its low word `lo` and the two halves `hi_lo`, `hi_hi` of its high word, and
/// folded with `2^64 = epsilon` and `2^96 = -1` modulo `p`; two conditional
/// subtractions of `p` finish it.
pub fn mul_lane(a: u64, b: u64) -> (r: u64)
    ensures
        r == mul_word(a, b),
{
    assert(0 <= (a as int) * (b as int) <= 0xFFFF_FFFF_FFFF_FFFF * 0xFFFF_FFFF_FFFF_FFFF)
        by (nonlinear_arith)
        requires
            0 <= a <= 0xFFFF_FFFF_FFFF_FFFF,
            0 <= b <= 0xFFFF_FFFF_FFFF_FFFF,
    ;
    let x: u128 = (a as u128) * (b as u128);
    let lo: u128 = x & 0xFFFF_FFFF_FFFF_FFFF;
    let hi: u128 = x >> 64;
    let hi_lo: u128 = hi & 0xFFFF_FFFF;
    let hi_hi: u128 = hi >> 32;
    assert(lo == x % 0x1_0000_0000_0000_0000 && hi == x / 0x1_0000_0000_0000_0000) by (bit_vector)
        requires
            lo == x & 0xFFFF_FFFF_FFFF_FFFF,
            hi == x >> 64,
    ;
    assert(hi_lo == hi % 0x1_0000_0000 && hi_hi == hi / 0x1_0000_0000) by (bit_vector)
        requires
            hi_lo == hi & 0xFFFF_FFFF,
            hi_hi == hi >> 32,
    ;
    assert(hi_lo * 0xFFFF_FFFF <= 0xFFFF_FFFF * 0xFFFF_FFFF) by (nonlinear_arith)
        requires
            0 <= hi_lo <= 0xFFFF_FFFF,
    ;
    let folded: u128 = lo + hi_lo * 0xFFFF_FFFF + (0xFFFF_FFFF_0000_0001 - hi_hi);
    proof {
        let k: int = hi_lo + hi_hi * 0x1_0000_0001 - 1;
        assert(x == modulus() * k + folded) by (nonlinear_arith)
            requires
                x == lo + 0x1_0000_0000_0000_0000 * hi,
                hi == hi_hi * 0x1_0000_0000 + hi_lo,
                folded == lo + hi_lo * 0xFFFF_FFFF + (0xFFFF_FFFF_0000_0001 - hi_hi),
                k == hi_lo + hi_hi * 0x1_0000_0001 - 1,
                modulus() == 0xFFFF_FFFF_0000_0001,
        ;
        lemma_mod_multiples_vanish(k, folded as int, modulus());
    }
    let once: u128 = if folded >= 0xFFFF_FFFF_0000_0001 {
        folded - 0xFFFF_FFFF_0000_0001
    } else {
        folded
    };
    let twice: u128 = if once >= 0xFFFF_FFFF_0000_0001 {
        once - 0xFFFF_FFFF_0000_0001
    } else {
        once
    };
    twice as u64
}

/// One step of square-and-multiply: taking the lowest bit of the exponent
/// into the accumulator and squaring the base leaves the product unchanged
/// modulo `p`.
proof fn lemma_pow_halve(acc: int, sq: int, rest: nat)
    requires
        rest > 0,
    ensures
        ({
            let taken = if rest % 2 == 1 { acc * sq } else { acc };
            ((taken % modulus()) * pow((sq * sq) % modulus(), rest / 2)) % modulus()
                == (acc * pow(sq, rest)) % modulus()
        }),
{
    let m = modulus();
    let half: nat = rest / 2;
    let bit: nat = rest % 2;
    let taken = if bit == 1 { acc * sq } else { acc };
    let s2 = sq * sq;
    lemma_pow_adds(sq, 2 * half, bit);
    lemma_pow_multiplies(sq, 2, half);
    lemma_square_is_pow2(sq);
    lemma_pow1(sq);
    lemma_pow0(sq);
    assert(pow(sq, rest) == pow(s2, half) * pow(sq, bit));
    assert(acc * pow(sq, rest) == taken * pow(s2, half)) by (nonlinear_arith)
        requires
            pow(sq, rest) == pow(s2, half) * pow(sq, bit),
            bit == 1 ==> pow(sq, bit) == sq && taken == acc * sq,
            bit != 1 ==> pow(sq, bit) == 1 && taken == acc,
    ;
    lemma_pow_mod_noop(s2, half, m);
    lemma_mul_mod_noop_general(taken, pow(s2 % m, half), m);
    lemma_mul_mod_noop_general(taken, pow(s2, half), m);
}

/// Raises a word to a power by square-and-multiply over the bits of `e`.
pub fn pow_lane(a: u64, e: u64) -> (r: u64)
    ensures
        r == pow_word(a, e),
{
    let mut acc: u64 = 1;
    let mut sq: u64 = reduce_lane(a);
    let mut rest: u64 = e;
    proof {
        lemma_pow_mod_noop(a as int, e as nat, modulus());
    }
    while rest > 0
        invariant
            is_canonical(acc),
            is_canonical(sq),
            (acc * pow(sq as int, rest as nat)) % modulus() == pow(a as int, e as nat) % modulus(),
        decreases rest,
    {
        proof {
            lemma_pow_halve(acc as int, sq as int, rest as nat);
        }
        if rest % 2 == 1 {
            acc = mul_lane(acc, sq);
        }
        sq = mul_lane(sq, sq);
        rest = rest / 2;
    }
    proof {
        lemma_pow0(sq as int);
    }
    acc
}

/// Lazy addition computes the field sum, and keeps a canonical left
/// operand canonical.
pub proof fn lemma_add_word(a: u64, b: u64)
    ensures
        canonical(add_word(a, b)) == (canonical(a) + canonical(b)) % modulus(),
        is_canonical(a) ==> is_canonical(add_word(a, b)),
        is_canonical(a) ==> add_word(a, b) as int == (canonical(a) + canonical(b)) % modulus(),
{
}

/// Lazy subtraction computes the field difference, and keeps a canonical
/// left operand canonical.
pub proof fn lemma_sub_word(a: u64, b: u64)
    ensures
        canonical(sub_word(a, b)) == (canonical(a) - canonical(b)) % modulus(),
        is_canonical(a) ==> is_canonical(sub_word(a, b)),
        is_canonical(a) ==> sub_word(a, b) as int == (canonical(a) - canonical(b)) % modulus(),
{
}

/// Multiplication computes the canonical field product of what its
/// operands stand for.
pub proof fn lemma_mul_word(a: u64, b: u64)
    ensures
        is_canonical(mul_word(a, b)),
        mul_word(a, b) as int == (canonical(a) * canonical(b)) % modulus(),
{
    lemma_mul_mod_noop_general(a as int, b as int, modulus());
}

/// Negation computes the canonical field negative of what the word stands
/// for, whatever the word: the word and its negative add up to zero.
pub proof fn lemma_neg_word(a: u64)
    ensures
        is_canonical(neg_word(a)),
        neg_word(a) as int == (modulus() - canonical(a)) % modulus(),
        (canonical(a) + canonical(neg_word(a))) % modulus() == 0,
        neg_word(reduce_word(a)) == neg_word(a),
        add_word(a, neg_word(a)) as int % modulus() == 0,
{
}

/// Negating twice gives the canonical word of the word negated, for every
/// word; zero is its own negative.
pub proof fn lemma_neg_involution(a: u64)
    ensures
        neg_word(neg_word(a)) == reduce_word(a),
        canonical(neg_word(neg_word(a))) == canonical(a),
        neg_word(0) == 0,
{
}

/// One is its own inverse.
pub proof fn lemma_inverse_of_one()
    ensures
        inv_word(1) == 1,
        mul_word(1, inv_word(1)) == 1,
{
    lemma1_pow(0xFFFF_FFFE_FFFF_FFFF);
}

/// Equal powers of two words whose product is one have product one.
pub proof fn lemma_powers_match(w: u64, wi: u64, e: u64)
    requires
        mul_word(w, wi) == 1,
    ensures
        mul_word(pow_word(w, e), pow_word(wi, e)) == 1,
{
    let p = modulus();
    let n = e as nat;
    let a = pow(w as int, n);
    let b = pow(wi as int, n);
    lemma_mul_word(pow_word(w, e), pow_word(wi, e));
    lemma_mul_mod_noop_general(a, b, p);
    lemma_pow_distributes(w as int, wi as int, n);
    lemma_pow_mod_noop(w as int * wi as int, n, p);
    lemma1_pow(n);
}

/// Reduction leaves the canonical word and changes no canonical word.
pub proof fn lemma_reduce_word(a: u64)
    ensures
        is_canonical(reduce_word(a)),
        canonical(reduce_word(a)) == canonical(a),
        is_canonical(a) ==> reduce_word(a) == a,
        reduce_word(reduce_word(a)) == reduce_word(a),
{
}

} // verus!
