//! The number-theoretic transform over the Goldilocks field and its inverse.
//!
//! A buffer of `n` coefficients is seen as a polynomial modulo `x^n - 1`. The
//! forward transform splits a block that holds a polynomial modulo
//! `x^(2h) - c^2` into its residues modulo `x^h - c` and `x^h + c`, where `c`
//! is the block's twiddle factor, and goes on with the two halves; the values
//! come out in bit-reversed order. The inverse transform joins the halves
//! again, which leaves every coefficient multiplied by `n`, and divides by
//! `n` at the end; so it undoes the forward transform exactly.
//!
//! Both work on batches in place. A block that spans several batches is
//! split or joined with the butterfly between two batches; a block within a
//! batch with the butterflies at the strides eight, four, two and one.

use vstd::prelude::*;
use vstd::arithmetic::div_mod::*;
use vstd::arithmetic::power::*;
use crate::field::GoldilocksField;
use crate::traits::PrimeFieldLike;
use crate::mixedgl::{flat, MixedGL};
use crate::reduce::{
    add_word, canonical, inv_word, is_canonical, modulus, mul_lane, mul_word, pow_lane, pow_word,
    sub_word,
};

verus! {

/// The inverse of two in the field, `(p + 1) / 2`.
pub const HALF: u64 = 0x7FFF_FFFF_8000_0001;

/// Whether every lane of every batch holds a canonical word.
pub open spec fn all_canonical(batches: Seq<MixedGL>) -> bool {
    forall|k: int, i: int|
        0 <= k < batches.len() && 0 <= i < 16 ==> is_canonical((#[trigger] batches[k].0[i]).0)
}

/// The field elements that a run of words stands for.
pub open spec fn values(run: Seq<GoldilocksField>) -> Seq<int> {
    Seq::new(run.len(), |i: int| canonical(run[i].0))
}

/// Whether every entry is a field element in `[0, p)`.
pub open spec fn all_in_field(a: Seq<int>) -> bool {
    forall|i: int| 0 <= i < a.len() ==> 0 <= #[trigger] a[i] < modulus()
}

/// Whether `n` is a power of two.
pub open spec fn is_pow2(n: nat) -> bool
    decreases n,
{
    n == 1 || (n >= 2 && n % 2 == 0 && is_pow2(n / 2))
}

/// Tells whether `n` is a power of two.
pub fn is_power_of_two(n: usize) -> (r: bool)
    ensures
        r == is_pow2(n as nat),
    decreases n,
{
    if n == 1 {
        true
    } else if n >= 2 && n % 2 == 0 {
        is_power_of_two(n / 2)
    } else {
        false
    }
}

/// Whether the twiddle table reaches far enough for block `b` of length
/// `len` and all blocks below it.
pub open spec fn table_covers(table_len: nat, b: int, len: nat) -> bool {
    b >= 0 && (len >= 2 ==> (b + 1) * len <= 2 * table_len)
}

/// Whether each entry of `itw` is the field inverse of the entry of `tw` at
/// the same place.
pub open spec fn tables_match(tw: Seq<int>, itw: Seq<int>) -> bool {
    &&& tw.len() == itw.len()
    &&& forall|k: int| 0 <= k < tw.len() ==> (#[trigger] tw[k] * itw[k]) % modulus() == 1
}

/// The sums `lo + hi * w` of the two halves of a block.
pub open spec fn fold_sum(a: Seq<int>, w: int) -> Seq<int> {
    let h = a.len() / 2;
    Seq::new(h, |j: int| (a[j] + a[j + h] * w) % modulus())
}

/// The differences `lo - hi * w` of the two halves of a block.
pub open spec fn fold_diff(a: Seq<int>, w: int) -> Seq<int> {
    let h = a.len() / 2;
    Seq::new(h, |j: int| (a[j] - a[j + h] * w) % modulus())
}

/// The block that joining `x` and `y` gives: the sums `x + y`, then the
/// differences `x - y` times `wi`.
pub open spec fn unfold(x: Seq<int>, y: Seq<int>, wi: int) -> Seq<int> {
    let h = x.len() as int;
    Seq::new(
        (2 * h) as nat,
        |j: int|
            if j < h {
                (x[j] + y[j]) % modulus()
            } else {
                ((x[j - h] - y[j - h]) * wi) % modulus()
            },
    )
}

/// Every entry multiplied by `m`.
pub open spec fn scale(a: Seq<int>, m: int) -> Seq<int> {
    Seq::new(a.len(), |i: int| (a[i] * m) % modulus())
}

/// The factor that splitting and joining a block of `n` elements leaves on
/// every element: two for every halving, so `n` itself when `n` is a power
/// of two.
pub open spec fn weight(n: nat) -> int
    decreases n,
{
    if n < 2 || n % 2 != 0 {
        1
    } else {
        2 * weight(n / 2)
    }
}

/// The field inverse of `weight(n)`: one half for every halving.
pub open spec fn size_inverse(n: nat) -> int
    decreases n,
{
    if n < 2 || n % 2 != 0 {
        1
    } else {
        (0x7FFF_FFFF_8000_0001 * size_inverse(n / 2)) % modulus()
    }
}

/// The forward transform of block `b`, which holds `a`.
pub open spec fn ntt(a: Seq<int>, b: int, tw: Seq<int>) -> Seq<int>
    decreases a.len(),
{
    if a.len() < 2 || a.len() % 2 != 0 {
        a
    } else {
        ntt(fold_sum(a, tw[b]), 2 * b, tw) + ntt(fold_diff(a, tw[b]), 2 * b + 1, tw)
    }
}

/// Block `b`, which holds `c`, with its halves joined all the way up.
pub open spec fn join(c: Seq<int>, b: int, itw: Seq<int>) -> Seq<int>
    decreases c.len(),
{
    if c.len() < 2 || c.len() % 2 != 0 {
        c
    } else {
        let h = c.len() as int / 2;
        unfold(
            join(c.subrange(0, h), 2 * b, itw),
            join(c.subrange(h, 2 * h), 2 * b + 1, itw),
            itw[b],
        )
    }
}

/// The inverse transform of block `b`, which holds `c`: the halves joined,
/// then every element divided by the size of the block.
pub open spec fn intt(c: Seq<int>, b: int, itw: Seq<int>) -> Seq<int> {
    scale(join(c, b, itw), size_inverse(c.len()))
}

/// Entry `i` multiplied by the `i`-th power of `c`.
pub open spec fn coset_scale(a: Seq<int>, c: int) -> Seq<int> {
    Seq::new(a.len(), |i: int| (a[i] * pow(c, i as nat)) % modulus())
}

/// The forward transform keeps the length of its block.
pub proof fn lemma_ntt_len(a: Seq<int>, b: int, tw: Seq<int>)
    ensures
        ntt(a, b, tw).len() == a.len(),
    decreases a.len(),
{
    if a.len() < 2 || a.len() % 2 != 0 {
    } else {
        lemma_ntt_len(fold_sum(a, tw[b]), 2 * b, tw);
        lemma_ntt_len(fold_diff(a, tw[b]), 2 * b + 1, tw);
    }
}

/// Joining keeps the length of its block.
pub proof fn lemma_join_len(c: Seq<int>, b: int, itw: Seq<int>)
    ensures
        join(c, b, itw).len() == c.len(),
    decreases c.len(),
{
    if c.len() < 2 || c.len() % 2 != 0 {
    } else {
        let h = c.len() as int / 2;
        lemma_join_len(c.subrange(0, h), 2 * b, itw);
        lemma_join_len(c.subrange(h, 2 * h), 2 * b + 1, itw);
    }
}

/// The weight of a power of two is that power of two.
pub proof fn lemma_weight_pow2(n: nat)
    requires
        is_pow2(n),
    ensures
        weight(n) == n,
    decreases n,
{
    if n >= 2 {
        lemma_weight_pow2(n / 2);
    }
}

/// `size_inverse(n)` is a field element and the inverse of `weight(n)`.
pub proof fn lemma_size_inverse(n: nat)
    ensures
        0 <= size_inverse(n) < modulus(),
        (weight(n) * size_inverse(n)) % modulus() == 1,
    decreases n,
{
    let p = modulus();
    if n < 2 || n % 2 != 0 {
    } else {
        let half: int = 0x7FFF_FFFF_8000_0001;
        let w = weight(n / 2);
        let s = size_inverse(n / 2);
        lemma_size_inverse(n / 2);
        lemma_mul_mod_noop_general(2 * w, half * s, p);
        assert((2 * w) * (half * s) == (w * s) * (2 * half)) by (nonlinear_arith);
        lemma_mul_mod_noop_general(w * s, 2 * half, p);
    }
}

/// Joining undoes splitting on one pair of elements, up to the factor two:
/// from `u + v * w` and `u - v * w`, each carrying a factor `m`, the sum is
/// `u` and the difference times the inverse of `w` is `v`, each carrying
/// `2 * m`.
proof fn lemma_unfold_pair(u: int, v: int, w: int, wi: int, m: int)
    requires
        (w * wi) % modulus() == 1,
    ensures
        ({
            let x = (((u + v * w) % modulus()) * m) % modulus();
            let y = (((u - v * w) % modulus()) * m) % modulus();
            &&& (x + y) % modulus() == (u * (2 * m)) % modulus()
            &&& ((x - y) * wi) % modulus() == (v * (2 * m)) % modulus()
        }),
{
    let p = modulus();
    let fx = (u + v * w) * m;
    let fy = (u - v * w) * m;
    let x = (((u + v * w) % p) * m) % p;
    let y = (((u - v * w) % p) * m) % p;
    lemma_mul_mod_noop_general(u + v * w, m, p);
    lemma_mul_mod_noop_general(u - v * w, m, p);
    assert(x == fx % p);
    assert(y == fy % p);
    // the sum
    lemma_add_mod_noop(fx, fy, p);
    assert(fx + fy == u * (2 * m)) by (nonlinear_arith)
        requires
            fx == (u + v * w) * m,
            fy == (u - v * w) * m,
    ;
    // the difference
    lemma_sub_mod_noop(fx, fy, p);
    assert(fx - fy == (v * (2 * m)) * w) by (nonlinear_arith)
        requires
            fx == (u + v * w) * m,
            fy == (u - v * w) * m,
    ;
    lemma_mul_mod_noop_general(x - y, wi, p);
    lemma_mul_mod_noop_general((v * (2 * m)) * w, wi, p);
    assert(((v * (2 * m)) * w) * wi == (v * (2 * m)) * (w * wi)) by (nonlinear_arith);
    lemma_mul_mod_noop_general(v * (2 * m), w * wi, p);
}

/// Joining what the forward transform left gives back the block with every
/// element multiplied by the weight of its length, whenever the two twiddle
/// tables match.
pub proof fn lemma_join_ntt(a: Seq<int>, b: int, tw: Seq<int>, itw: Seq<int>)
    requires
        all_in_field(a),
        tables_match(tw, itw),
        table_covers(tw.len(), b, a.len()),
    ensures
        join(ntt(a, b, tw), b, itw) == scale(a, weight(a.len())),
    decreases a.len(),
{
    if a.len() < 2 || a.len() % 2 != 0 {
        assert(scale(a, 1) =~= a);
    } else {
        let h = a.len() as int / 2;
        let m = weight(h as nat);
        let x = fold_sum(a, tw[b]);
        let y = fold_diff(a, tw[b]);
        let fx = ntt(x, 2 * b, tw);
        let fy = ntt(y, 2 * b + 1, tw);
        let c = fx + fy;
        lemma_ntt_len(x, 2 * b, tw);
        lemma_ntt_len(y, 2 * b + 1, tw);
        assert(c.subrange(0, h) =~= fx);
        assert(c.subrange(h, 2 * h) =~= fy);
        assert((b + 1) * a.len() <= 2 * tw.len());
        assert(0 <= b < tw.len()) by (nonlinear_arith)
            requires
                (b + 1) * a.len() <= 2 * tw.len(),
                a.len() >= 2,
                b >= 0,
        ;
        assert(table_covers(tw.len(), 2 * b, h as nat) && table_covers(
            tw.len(),
            2 * b + 1,
            h as nat,
        )) by (nonlinear_arith)
            requires
                (b + 1) * a.len() <= 2 * tw.len(),
                a.len() == 2 * h,
                b >= 0,
                h >= 1,
        ;
        lemma_join_ntt(x, 2 * b, tw, itw);
        lemma_join_ntt(y, 2 * b + 1, tw, itw);
        assert(tw[b] * itw[b] % modulus() == 1);
        let back = unfold(scale(x, m), scale(y, m), itw[b]);
        let want = scale(a, 2 * m);
        assert forall|j: int| 0 <= j < a.len() implies back[j] == want[j] by {
            if j < h {
                lemma_unfold_pair(a[j], a[j + h], tw[b], itw[b], m);
            } else {
                lemma_unfold_pair(a[j - h], a[j], tw[b], itw[b], m);
            }
        }
        assert(back =~= want);
    }
}

/// The inverse transform undoes the forward transform on every block,
/// whenever the two twiddle tables match.
pub proof fn lemma_intt_ntt(a: Seq<int>, b: int, tw: Seq<int>, itw: Seq<int>)
    requires
        all_in_field(a),
        tables_match(tw, itw),
        table_covers(tw.len(), b, a.len()),
    ensures
        intt(ntt(a, b, tw), b, itw) == a,
{
    let p = modulus();
    let w = weight(a.len());
    let si = size_inverse(a.len());
    lemma_ntt_len(a, b, tw);
    lemma_join_ntt(a, b, tw, itw);
    lemma_size_inverse(a.len());
    let back = scale(scale(a, w), si);
    assert forall|i: int| 0 <= i < a.len() implies back[i] == a[i] by {
        lemma_mul_mod_noop_general(a[i] * w, si, p);
        assert(a[i] * w * si == a[i] * (w * si)) by (nonlinear_arith);
        lemma_mul_mod_noop_general(a[i], w * si, p);
    }
    assert(back =~= a);
}

/// The forward transform followed by the inverse transform, with matching
/// twiddle tables and a coset generator `c` whose inverse is `ci`, gives back
/// every buffer of field elements.
pub proof fn lemma_transform_round_trip(a: Seq<int>, c: int, ci: int, tw: Seq<int>, itw: Seq<int>)
    requires
        all_in_field(a),
        (c * ci) % modulus() == 1,
        tables_match(tw, itw),
        a.len() >= 2 ==> a.len() <= 2 * tw.len(),
    ensures
        coset_scale(intt(ntt(coset_scale(a, c), 0, tw), 0, itw), ci) == a,
{
    let p = modulus();
    let s = coset_scale(a, c);
    assert(table_covers(tw.len(), 0, s.len())) by (nonlinear_arith)
        requires
            s.len() >= 2 ==> s.len() <= 2 * tw.len(),
    ;
    lemma_intt_ntt(s, 0, tw, itw);
    let back = coset_scale(s, ci);
    assert forall|i: int| 0 <= i < a.len() implies back[i] == a[i] by {
        let e = i as nat;
        let pc = pow(c, e);
        let pi = pow(ci, e);
        assert(s[i] == (a[i] * pc) % p);
        assert(back[i] == (s[i] * pi) % p);
        lemma_mul_mod_noop_general(a[i] * pc, pi, p);
        assert(a[i] * pc * pi == a[i] * (pc * pi)) by (nonlinear_arith);
        lemma_pow_distributes(c, ci, e);
        assert(pow(c * ci, e) == pc * pi);
        lemma_mul_mod_noop_general(a[i], pc * pi, p);
        lemma_pow_mod_noop(c * ci, e, p);
        lemma1_pow(e);
        assert((pc * pi) % p == 1);
        assert(back[i] == (a[i] * 1) % p);
    }
    assert(back =~= a);
}

/// A block of fewer than two elements is its own transform.
proof fn lemma_ntt_leaf(a: Seq<int>, b: int, tw: Seq<int>)
    requires
        a.len() < 2,
    ensures
        ntt(a, b, tw) == a,
{
}

/// What one forward butterfly leaves, as field elements.
proof fn lemma_forward_pair(u: u64, v: u64, w: u64)
    ensures
        canonical(add_word(u, mul_word(v, w))) == (canonical(u) + canonical(v) * canonical(w))
            % modulus(),
        canonical(sub_word(u, mul_word(v, w))) == (canonical(u) - canonical(v) * canonical(w))
            % modulus(),
{
    let p = modulus();
    crate::reduce::lemma_mul_word(v, w);
    crate::reduce::lemma_add_word(u, mul_word(v, w));
    crate::reduce::lemma_sub_word(u, mul_word(v, w));
    lemma_add_mod_noop_right(canonical(u), canonical(v) * canonical(w), p);
    lemma_sub_mod_noop_right(canonical(u), canonical(v) * canonical(w), p);
}

/// What one inverse butterfly leaves, as field elements.
proof fn lemma_inverse_pair(x: u64, y: u64, wi: u64)
    ensures
        canonical(add_word(x, y)) == (canonical(x) + canonical(y)) % modulus(),
        canonical(mul_word(sub_word(x, y), wi)) == ((canonical(x) - canonical(y)) * canonical(wi))
            % modulus(),
{
    let p = modulus();
    crate::reduce::lemma_add_word(x, y);
    crate::reduce::lemma_sub_word(x, y);
    crate::reduce::lemma_mul_word(sub_word(x, y), wi);
    lemma_mul_mod_noop_general(canonical(x) - canonical(y), canonical(wi), p);
}

/// The field elements in the sixteen lanes of a batch.
spec fn lane_values(batch: MixedGL) -> Seq<int> {
    Seq::new(16, |i: int| canonical(batch.0[i].0))
}

/// Whether `after` holds, from `o` on, the sums and then the differences
/// under the twiddle `t` of the two halves of the block of `2 * s` elements
/// that `before` holds from `o` on.
#[verifier::opaque]
spec fn split_holds(before: Seq<int>, after: Seq<int>, o: int, s: int, t: int) -> bool {
    forall|j: int|
        0 <= j < s ==> (#[trigger] after[o + j]) == (before[o + j] + before[o + s + j] * t)
            % modulus() && after[o + s + j] == (before[o + j] - before[o + s + j] * t) % modulus()
}

/// One level up in the forward transform of a run: where a block was split
/// as `split_holds` says and its two halves went on to their transforms in
/// `done`, the block went on to its transform in `done`.
proof fn lemma_block_step(
    before: Seq<int>,
    after: Seq<int>,
    done: Seq<int>,
    o: int,
    s: int,
    b: int,
    tw: Seq<int>,
)
    requires
        before.len() == after.len(),
        after.len() == done.len(),
        0 <= o,
        1 <= s,
        o + 2 * s <= before.len(),
        split_holds(before, after, o, s, tw[b]),
        ntt(after.subrange(o, o + s), 2 * b, tw) == done.subrange(o, o + s),
        ntt(after.subrange(o + s, o + 2 * s), 2 * b + 1, tw) == done.subrange(o + s, o + 2 * s),
    ensures
        ntt(before.subrange(o, o + 2 * s), b, tw) == done.subrange(o, o + 2 * s),
{
    reveal(split_holds);
    let block = before.subrange(o, o + 2 * s);
    assert forall|j: int| 0 <= j < s implies fold_sum(block, tw[b])[j] == after.subrange(o, o + s)[j]
        && fold_diff(block, tw[b])[j] == after.subrange(o + s, o + 2 * s)[j] by {
        assert(after[o + j] == (before[o + j] + before[o + s + j] * tw[b]) % modulus());
    }
    assert(fold_sum(block, tw[b]) =~= after.subrange(o, o + s));
    assert(fold_diff(block, tw[b]) =~= after.subrange(o + s, o + 2 * s));
    assert(done.subrange(o, o + 2 * s) =~= done.subrange(o, o + s) + done.subrange(
        o + s,
        o + 2 * s,
    ));
}

/// The lowest level of the forward transform of a run: a block of two
/// elements that was split as `split_holds` says is transformed.
proof fn lemma_block_pair(before: Seq<int>, done: Seq<int>, o: int, b: int, tw: Seq<int>)
    requires
        before.len() == done.len(),
        0 <= o,
        o + 2 <= before.len(),
        split_holds(before, done, o, 1, tw[b]),
    ensures
        ntt(before.subrange(o, o + 2), b, tw) == done.subrange(o, o + 2),
{
    lemma_ntt_leaf(done.subrange(o, o + 1), 2 * b, tw);
    lemma_ntt_leaf(done.subrange(o + 1, o + 2), 2 * b + 1, tw);
    lemma_block_step(before, done, done, o, 1, b, tw);
}

/// Whether lane `i` lies in the upper half of its block of `2 * stride`
/// lanes, for the strides one, two, four and eight.
spec fn is_upper(i: int, stride: int) -> bool {
    if stride == 1 {
        i % 2 == 1
    } else if stride == 2 {
        (i / 2) % 2 == 1
    } else if stride == 4 {
        (i / 4) % 2 == 1
    } else {
        (i / 8) % 2 == 1
    }
}

/// The number, within its batch, of the block of `2 * stride` lanes that
/// lane `i` lies in, for the strides one, two, four and eight.
spec fn block_of(i: int, stride: int) -> int {
    if stride == 1 {
        i / 2
    } else if stride == 2 {
        i / 4
    } else if stride == 4 {
        i / 8
    } else {
        i / 16
    }
}

/// How many blocks of `2 * stride` lanes a batch holds.
spec fn blocks_in_batch(stride: int) -> int {
    if stride == 1 {
        8
    } else if stride == 2 {
        4
    } else if stride == 4 {
        2
    } else {
        1
    }
}

/// Tells whether lane `i` lies in the upper half of its block.
fn lane_is_upper(i: usize, stride: usize) -> (r: bool)
    requires
        stride == 1 || stride == 2 || stride == 4 || stride == 8,
    ensures
        r == is_upper(i as int, stride as int),
{
    if stride == 1 {
        i % 2 == 1
    } else if stride == 2 {
        (i / 2) % 2 == 1
    } else if stride == 4 {
        (i / 4) % 2 == 1
    } else {
        (i / 8) % 2 == 1
    }
}

/// The number of the block that lane `i` lies in.
fn lane_block(i: usize, stride: usize) -> (r: usize)
    requires
        stride == 1 || stride == 2 || stride == 4 || stride == 8,
    ensures
        r == block_of(i as int, stride as int),
{
    if stride == 1 {
        i / 2
    } else if stride == 2 {
        i / 4
    } else if stride == 4 {
        i / 8
    } else {
        i / 16
    }
}

/// Whether `after` is `before` with every block of `2 * stride` lanes split
/// under its twiddle factor, the blocks having the factors from `base` on.
#[verifier::opaque]
spec fn level_holds(
    before: MixedGL,
    after: MixedGL,
    stride: int,
    base: int,
    tw: Seq<GoldilocksField>,
) -> bool {
    forall|i: int|
        0 <= i < 16 ==> is_canonical(#[trigger] after.lane(i)) && canonical(after.lane(i)) == (if !is_upper(
            i,
            stride,
        ) {
            (canonical(before.lane(i)) + canonical(before.lane(i + stride)) * canonical(
                tw[base + block_of(i, stride)].0,
            )) % modulus()
        } else {
            (canonical(before.lane(i - stride)) - canonical(before.lane(i)) * canonical(
                tw[base + block_of(i, stride)].0,
            )) % modulus()
        })
}

/// A level that holds of a batch leaves every lane canonical.
proof fn lemma_level_canonical(
    before: MixedGL,
    after: MixedGL,
    stride: int,
    base: int,
    tw: Seq<GoldilocksField>,
)
    requires
        level_holds(before, after, stride, base, tw),
    ensures
        forall|i: int| 0 <= i < 16 ==> is_canonical(#[trigger] after.lane(i)),
{
    reveal(level_holds);
}

/// A level that holds of a batch holds of each of its blocks: block `k`,
/// which starts at lane `o`.
proof fn lemma_level_block(
    before: MixedGL,
    after: MixedGL,
    stride: int,
    base: int,
    tw: Seq<GoldilocksField>,
    k: int,
    o: int,
)
    requires
        level_holds(before, after, stride, base, tw),
        0 <= k,
        0 <= base,
        base + k < tw.len(),
        (stride == 1 && o == 2 * k) || (stride == 2 && o == 4 * k) || (stride == 4 && o == 8 * k) || (
        stride == 8 && o == 16 * k),
        o + 2 * stride <= 16,
    ensures
        split_holds(
            lane_values(before),
            lane_values(after),
            o,
            stride,
            values(tw)[base + k],
        ),
{
    reveal(level_holds);
    reveal(split_holds);
    let vb = lane_values(before);
    let va = lane_values(after);
    let t = values(tw)[base + k];
    assert forall|j: int| 0 <= j < stride implies (#[trigger] va[o + j]) == (vb[o + j] + vb[o
        + stride + j] * t) % modulus() && va[o + stride + j] == (vb[o + j] - vb[o + stride + j]
        * t) % modulus() by {
        let i = o + j;
        assert(!is_upper(i, stride));
        assert(block_of(i, stride) == k);
        assert(is_upper(i + stride, stride));
        assert(block_of(i + stride, stride) == k);
        assert(canonical(after.lane(i)) == (canonical(before.lane(i)) + canonical(
            before.lane(i + stride),
        ) * canonical(tw[base + k].0)) % modulus());
        assert(canonical(after.lane(i + stride)) == (canonical(before.lane(i)) - canonical(
            before.lane(i + stride),
        ) * canonical(tw[base + k].0)) % modulus());
    }
}

/// The batch of factors for one level: one in the lower half of every
/// block of `2 * stride` lanes, the block's twiddle factor in the upper
/// half. The blocks have the twiddle factors from `base` on.
fn level_factors(stride: usize, base: usize, tw: &Vec<GoldilocksField>) -> (factors: MixedGL)
    requires
        stride == 1 || stride == 2 || stride == 4 || stride == 8,
        base + blocks_in_batch(stride as int) <= tw@.len(),
    ensures
        forall|l: int|
            0 <= l < 16 ==> #[trigger] factors.0[l] == (if !is_upper(l, stride as int) {
                GoldilocksField(1)
            } else {
                tw@[base + block_of(l, stride as int)]
            }),
{
    let table: usize = tw.len();
    let mut factors: MixedGL = MixedGL::from_constant(GoldilocksField(1));
    let mut i: usize = 0;
    while i < 16
        invariant
            0 <= i <= 16,
            stride == 1 || stride == 2 || stride == 4 || stride == 8,
            base + blocks_in_batch(stride as int) <= table,
            table == tw@.len(),
            forall|l: int|
                0 <= l < i ==> #[trigger] factors.0[l] == (if !is_upper(l, stride as int) {
                    GoldilocksField(1)
                } else {
                    tw@[base + block_of(l, stride as int)]
                }),
            forall|l: int| i <= l < 16 ==> factors.0[l] == GoldilocksField(1),
        decreases 16 - i,
    {
        if lane_is_upper(i, stride) {
            factors.0[i] = tw[base + lane_block(i, stride)];
        }
        i += 1;
    }
    factors
}

/// The butterfly within a batch at the given stride.
fn butterfly_at(batch: &mut MixedGL, stride: usize)
    requires
        stride == 1 || stride == 2 || stride == 4 || stride == 8,
    ensures
        forall|i: int|
            0 <= i < 16 ==> #[trigger] final(batch).lane(i) == (if !is_upper(i, stride as int) {
                add_word(old(batch).lane(i), old(batch).lane(i + stride))
            } else {
                sub_word(old(batch).lane(i - stride), old(batch).lane(i))
            }),
{
    if stride == 1 {
        batch.butterfly_1x1_impl();
    } else if stride == 2 {
        batch.butterfly_2x2_impl();
    } else if stride == 4 {
        batch.butterfly_4x4_impl();
    } else {
        let mut low: [GoldilocksField; 8] = batch.take_half(0);
        let mut high: [GoldilocksField; 8] = batch.take_half(8);
        MixedGL::butterfly_8x8_impl(&mut low, &mut high);
        batch.put_half(0, &low);
        batch.put_half(8, &high);
    }
}

/// Splits every block of `2 * stride` lanes of a batch: the upper half of
/// each block is multiplied by the block's twiddle factor, then the
/// butterfly at that stride is taken. The blocks have the twiddle factors
/// from `base` on.
fn split_in_batch(batch: &mut MixedGL, stride: usize, base: usize, tw: &Vec<GoldilocksField>)
    requires
        stride == 1 || stride == 2 || stride == 4 || stride == 8,
        base + blocks_in_batch(stride as int) <= tw@.len(),
    ensures
        level_holds(*old(batch), *final(batch), stride as int, base as int, tw@),
{
    let mut ctx = ();
    let factors: MixedGL = level_factors(stride, base, tw);
    let ghost start = *batch;
    batch.mul_assign(&factors, &mut ctx);
    let ghost scaled = *batch;
    butterfly_at(batch, stride);
    reveal(level_holds);
    assert forall|i: int| 0 <= i < 16 implies is_canonical(#[trigger] batch.lane(i)) && canonical(
        batch.lane(i),
    ) == (if !is_upper(i, stride as int) {
        (canonical(start.lane(i)) + canonical(start.lane(i + stride)) * canonical(
            tw@[base + block_of(i, stride as int)].0,
        )) % modulus()
    } else {
        (canonical(start.lane(i - stride)) - canonical(start.lane(i)) * canonical(
            tw@[base + block_of(i, stride as int)].0,
        )) % modulus()
    }) by {
        let w = tw@[base + block_of(i, stride as int)].0;
        if !is_upper(i, stride as int) {
            let u = start.lane(i);
            let v = start.lane(i + stride);
            assert(factors.0[i] == GoldilocksField(1));
            assert(factors.0[i + stride] == tw@[base + block_of(i + stride, stride as int)]);
            assert(scaled.lane(i) == mul_word(u, 1));
            assert(scaled.lane(i + stride) == mul_word(v, w));
            assert(batch.lane(i) == add_word(scaled.lane(i), scaled.lane(i + stride)));
            crate::reduce::lemma_mul_word(u, 1);
            crate::reduce::lemma_add_word(mul_word(u, 1), mul_word(v, w));
            lemma_forward_pair(mul_word(u, 1), v, w);
        } else {
            let u = start.lane(i - stride);
            let v = start.lane(i);
            assert(factors.0[i - stride] == GoldilocksField(1));
            assert(factors.0[i] == tw@[base + block_of(i, stride as int)]);
            assert(scaled.lane(i - stride) == mul_word(u, 1));
            assert(scaled.lane(i) == mul_word(v, w));
            assert(batch.lane(i) == sub_word(scaled.lane(i - stride), scaled.lane(i)));
            crate::reduce::lemma_mul_word(u, 1);
            crate::reduce::lemma_sub_word(mul_word(u, 1), mul_word(v, w));
            lemma_forward_pair(mul_word(u, 1), v, w);
        }
    }
}

/// Whether `after` holds, from `o` on, the block of `2 * s` elements joined
/// from the two halves that `before` holds from `o` on: the sums, then the
/// differences times `t`.
#[verifier::opaque]
spec fn unfold_holds(before: Seq<int>, after: Seq<int>, o: int, s: int, t: int) -> bool {
    forall|j: int|
        0 <= j < s ==> (#[trigger] after[o + j]) == (before[o + j] + before[o + s + j]) % modulus()
            && after[o + s + j] == ((before[o + j] - before[o + s + j]) * t) % modulus()
}

/// Whether `after` is `before` with the halves of every block of
/// `2 * stride` lanes joined under the block's inverse twiddle factor, the
/// blocks having the factors from `base` on.
#[verifier::opaque]
spec fn join_level_holds(
    before: MixedGL,
    after: MixedGL,
    stride: int,
    base: int,
    itw: Seq<GoldilocksField>,
) -> bool {
    forall|i: int|
        0 <= i < 16 ==> canonical(#[trigger] after.lane(i)) == (if !is_upper(i, stride) {
            (canonical(before.lane(i)) + canonical(before.lane(i + stride))) % modulus()
        } else {
            ((canonical(before.lane(i - stride)) - canonical(before.lane(i))) * canonical(
                itw[base + block_of(i, stride)].0,
            )) % modulus()
        })
}

/// A joining level that holds of a batch holds of each of its blocks: block
/// `k`, which starts at lane `o`.
proof fn lemma_join_level_block(
    before: MixedGL,
    after: MixedGL,
    stride: int,
    base: int,
    itw: Seq<GoldilocksField>,
    k: int,
    o: int,
)
    requires
        join_level_holds(before, after, stride, base, itw),
        0 <= k,
        0 <= base,
        base + k < itw.len(),
        (stride == 1 && o == 2 * k) || (stride == 2 && o == 4 * k) || (stride == 4 && o == 8 * k) || (
        stride == 8 && o == 16 * k),
        o + 2 * stride <= 16,
    ensures
        unfold_holds(
            lane_values(before),
            lane_values(after),
            o,
            stride,
            values(itw)[base + k],
        ),
{
    reveal(join_level_holds);
    reveal(unfold_holds);
    let vb = lane_values(before);
    let va = lane_values(after);
    let t = values(itw)[base + k];
    assert forall|j: int| 0 <= j < stride implies (#[trigger] va[o + j]) == (vb[o + j] + vb[o
        + stride + j]) % modulus() && va[o + stride + j] == ((vb[o + j] - vb[o + stride + j]) * t)
        % modulus() by {
        let i = o + j;
        assert(!is_upper(i, stride));
        assert(is_upper(i + stride, stride));
        assert(block_of(i + stride, stride) == k);
        assert(canonical(after.lane(i)) == (canonical(before.lane(i)) + canonical(
            before.lane(i + stride),
        )) % modulus());
        assert(canonical(after.lane(i + stride)) == ((canonical(before.lane(i)) - canonical(
            before.lane(i + stride),
        )) * canonical(itw[base + k].0)) % modulus());
    }
}

/// One level up in joining a run: where the two halves of a block of
/// `start` were joined in `before` and the block was joined from them as
/// `unfold_holds` says, the block is joined in `after`.
proof fn lemma_join_step(
    start: Seq<int>,
    before: Seq<int>,
    after: Seq<int>,
    o: int,
    s: int,
    b: int,
    itw: Seq<int>,
)
    requires
        start.len() == before.len(),
        before.len() == after.len(),
        0 <= o,
        1 <= s,
        o + 2 * s <= start.len(),
        unfold_holds(before, after, o, s, itw[b]),
        join(start.subrange(o, o + s), 2 * b, itw) == before.subrange(o, o + s),
        join(start.subrange(o + s, o + 2 * s), 2 * b + 1, itw) == before.subrange(o + s, o + 2 * s),
    ensures
        join(start.subrange(o, o + 2 * s), b, itw) == after.subrange(o, o + 2 * s),
{
    reveal(unfold_holds);
    let c = start.subrange(o, o + 2 * s);
    assert(c.subrange(0, s) =~= start.subrange(o, o + s));
    assert(c.subrange(s, 2 * s) =~= start.subrange(o + s, o + 2 * s));
    let x = before.subrange(o, o + s);
    let y = before.subrange(o + s, o + 2 * s);
    let want = unfold(x, y, itw[b]);
    let got = after.subrange(o, o + 2 * s);
    assert forall|n: int| 0 <= n < 2 * s implies got[n] == want[n] by {
        if n < s {
            assert(after[o + n] == (before[o + n] + before[o + s + n]) % modulus());
        } else {
            let j = n - s;
            assert(after[o + j] == (before[o + j] + before[o + s + j]) % modulus());
        }
    }
    assert(got =~= want);
}

/// The lowest level of joining a run: a block of two elements of `start`
/// that was joined as `unfold_holds` says is joined in `after`.
proof fn lemma_join_pair(start: Seq<int>, after: Seq<int>, o: int, b: int, itw: Seq<int>)
    requires
        start.len() == after.len(),
        0 <= o,
        o + 2 <= start.len(),
        unfold_holds(start, after, o, 1, itw[b]),
    ensures
        join(start.subrange(o, o + 2), b, itw) == after.subrange(o, o + 2),
{
    lemma_join_step(start, start, after, o, 1, b, itw);
}

/// Joins the halves of every block of `2 * stride` lanes of a batch: the
/// butterfly at that stride is taken, then the upper half of each block is
/// multiplied by the block's inverse twiddle factor. The blocks have the
/// factors from `base` on.
fn join_in_batch(batch: &mut MixedGL, stride: usize, base: usize, itw: &Vec<GoldilocksField>)
    requires
        stride == 1 || stride == 2 || stride == 4 || stride == 8,
        base + blocks_in_batch(stride as int) <= itw@.len(),
    ensures
        join_level_holds(*old(batch), *final(batch), stride as int, base as int, itw@),
{
    let mut ctx = ();
    let factors: MixedGL = level_factors(stride, base, itw);
    let ghost start = *batch;
    butterfly_at(batch, stride);
    let ghost mixed = *batch;
    batch.mul_assign(&factors, &mut ctx);
    reveal(join_level_holds);
    assert forall|i: int| 0 <= i < 16 implies canonical(#[trigger] batch.lane(i)) == (if !is_upper(
        i,
        stride as int,
    ) {
        (canonical(start.lane(i)) + canonical(start.lane(i + stride))) % modulus()
    } else {
        ((canonical(start.lane(i - stride)) - canonical(start.lane(i))) * canonical(
            itw@[base + block_of(i, stride as int)].0,
        )) % modulus()
    }) by {
        let wi = itw@[base + block_of(i, stride as int)].0;
        if !is_upper(i, stride as int) {
            let x = start.lane(i);
            let y = start.lane(i + stride);
            assert(factors.0[i] == GoldilocksField(1));
            assert(mixed.lane(i) == add_word(x, y));
            assert(batch.lane(i) == mul_word(add_word(x, y), 1));
            crate::reduce::lemma_mul_word(add_word(x, y), 1);
            lemma_inverse_pair(x, y, wi);
            assert(canonical(batch.lane(i)) == canonical(add_word(x, y)));
            assert(canonical(batch.lane(i)) == (canonical(x) + canonical(y)) % modulus());
        } else {
            let x = start.lane(i - stride);
            let y = start.lane(i);
            assert(factors.0[i] == itw@[base + block_of(i, stride as int)]);
            assert(mixed.lane(i) == sub_word(x, y));
            assert(batch.lane(i) == mul_word(sub_word(x, y), wi));
            lemma_inverse_pair(x, y, wi);
            assert(canonical(batch.lane(i)) == ((canonical(x) - canonical(y)) * canonical(wi))
                % modulus());
        }
    }
}

/// Runs the forward transform on block `b`, which fills one batch: the
/// batch is split at the strides eight, four, two and one.
fn ntt_in_batch(batch: &mut MixedGL, b: usize, tw: &Vec<GoldilocksField>)
    requires
        8 * b + 8 <= tw@.len(),
    ensures
        lane_values(*final(batch)) == ntt(lane_values(*old(batch)), b as int, values(tw@)),
        forall|i: int| 0 <= i < 16 ==> is_canonical(#[trigger] final(batch).lane(i)),
{
    let table: usize = tw.len();
    let ghost t = values(tw@);
    let ghost s0 = *batch;
    split_in_batch(batch, 8, b, tw);
    let ghost s1 = *batch;
    split_in_batch(batch, 4, 2 * b, tw);
    let ghost s2 = *batch;
    split_in_batch(batch, 2, 4 * b, tw);
    let ghost s3 = *batch;
    split_in_batch(batch, 1, 8 * b, tw);
    let ghost s4 = *batch;
    proof {
        let v0 = lane_values(s0);
        let v1 = lane_values(s1);
        let v2 = lane_values(s2);
        let v3 = lane_values(s3);
        let v4 = lane_values(s4);
        lemma_level_block(s3, s4, 1, 8 * b, tw@, 0, 0);
        lemma_block_pair(v3, v4, 0, 8 * b + 0, t);
        lemma_level_block(s3, s4, 1, 8 * b, tw@, 1, 2);
        lemma_block_pair(v3, v4, 2, 8 * b + 1, t);
        lemma_level_block(s3, s4, 1, 8 * b, tw@, 2, 4);
        lemma_block_pair(v3, v4, 4, 8 * b + 2, t);
        lemma_level_block(s3, s4, 1, 8 * b, tw@, 3, 6);
        lemma_block_pair(v3, v4, 6, 8 * b + 3, t);
        lemma_level_block(s3, s4, 1, 8 * b, tw@, 4, 8);
        lemma_block_pair(v3, v4, 8, 8 * b + 4, t);
        lemma_level_block(s3, s4, 1, 8 * b, tw@, 5, 10);
        lemma_block_pair(v3, v4, 10, 8 * b + 5, t);
        lemma_level_block(s3, s4, 1, 8 * b, tw@, 6, 12);
        lemma_block_pair(v3, v4, 12, 8 * b + 6, t);
        lemma_level_block(s3, s4, 1, 8 * b, tw@, 7, 14);
        lemma_block_pair(v3, v4, 14, 8 * b + 7, t);
        lemma_level_block(s2, s3, 2, 4 * b, tw@, 0, 0);
        lemma_block_step(v2, v3, v4, 0, 2, 4 * b + 0, t);
        lemma_level_block(s2, s3, 2, 4 * b, tw@, 1, 4);
        lemma_block_step(v2, v3, v4, 4, 2, 4 * b + 1, t);
        lemma_level_block(s2, s3, 2, 4 * b, tw@, 2, 8);
        lemma_block_step(v2, v3, v4, 8, 2, 4 * b + 2, t);
        lemma_level_block(s2, s3, 2, 4 * b, tw@, 3, 12);
        lemma_block_step(v2, v3, v4, 12, 2, 4 * b + 3, t);
        lemma_level_block(s1, s2, 4, 2 * b, tw@, 0, 0);
        lemma_block_step(v1, v2, v4, 0, 4, 2 * b + 0, t);
        lemma_level_block(s1, s2, 4, 2 * b, tw@, 1, 8);
        lemma_block_step(v1, v2, v4, 8, 4, 2 * b + 1, t);
        lemma_level_block(s0, s1, 8, b as int, tw@, 0, 0);
        lemma_block_step(v0, v1, v4, 0, 8, b as int, t);
        lemma_level_canonical(s3, s4, 1, 8 * b, tw@);
        assert(v0.subrange(0, 16) =~= v0);
        assert(v4.subrange(0, 16) =~= v4);
    }
}

/// Joins the halves of block `b`, which fills one batch, all the way up:
/// the batch is joined at the strides one, two, four and eight.
fn join_whole_batch(batch: &mut MixedGL, b: usize, itw: &Vec<GoldilocksField>)
    requires
        8 * b + 8 <= itw@.len(),
    ensures
        lane_values(*final(batch)) == join(lane_values(*old(batch)), b as int, values(itw@)),
{
    let table: usize = itw.len();
    let ghost t = values(itw@);
    let ghost s0 = *batch;
    join_in_batch(batch, 1, 8 * b, itw);
    let ghost s1 = *batch;
    join_in_batch(batch, 2, 4 * b, itw);
    let ghost s2 = *batch;
    join_in_batch(batch, 4, 2 * b, itw);
    let ghost s3 = *batch;
    join_in_batch(batch, 8, b, itw);
    let ghost s4 = *batch;
    proof {
        let v0 = lane_values(s0);
        let v1 = lane_values(s1);
        let v2 = lane_values(s2);
        let v3 = lane_values(s3);
        let v4 = lane_values(s4);
        lemma_join_level_block(s0, s1, 1, 8 * b, itw@, 0, 0);
        lemma_join_pair(v0, v1, 0, 8 * b + 0, t);
        lemma_join_level_block(s0, s1, 1, 8 * b, itw@, 1, 2);
        lemma_join_pair(v0, v1, 2, 8 * b + 1, t);
        lemma_join_level_block(s0, s1, 1, 8 * b, itw@, 2, 4);
        lemma_join_pair(v0, v1, 4, 8 * b + 2, t);
        lemma_join_level_block(s0, s1, 1, 8 * b, itw@, 3, 6);
        lemma_join_pair(v0, v1, 6, 8 * b + 3, t);
        lemma_join_level_block(s0, s1, 1, 8 * b, itw@, 4, 8);
        lemma_join_pair(v0, v1, 8, 8 * b + 4, t);
        lemma_join_level_block(s0, s1, 1, 8 * b, itw@, 5, 10);
        lemma_join_pair(v0, v1, 10, 8 * b + 5, t);
        lemma_join_level_block(s0, s1, 1, 8 * b, itw@, 6, 12);
        lemma_join_pair(v0, v1, 12, 8 * b + 6, t);
        lemma_join_level_block(s0, s1, 1, 8 * b, itw@, 7, 14);
        lemma_join_pair(v0, v1, 14, 8 * b + 7, t);
        lemma_join_level_block(s1, s2, 2, 4 * b, itw@, 0, 0);
        lemma_join_step(v0, v1, v2, 0, 2, 4 * b + 0, t);
        lemma_join_level_block(s1, s2, 2, 4 * b, itw@, 1, 4);
        lemma_join_step(v0, v1, v2, 4, 2, 4 * b + 1, t);
        lemma_join_level_block(s1, s2, 2, 4 * b, itw@, 2, 8);
        lemma_join_step(v0, v1, v2, 8, 2, 4 * b + 2, t);
        lemma_join_level_block(s1, s2, 2, 4 * b, itw@, 3, 12);
        lemma_join_step(v0, v1, v2, 12, 2, 4 * b + 3, t);
        lemma_join_level_block(s2, s3, 4, 2 * b, itw@, 0, 0);
        lemma_join_step(v0, v2, v3, 0, 4, 2 * b + 0, t);
        lemma_join_level_block(s2, s3, 4, 2 * b, itw@, 1, 8);
        lemma_join_step(v0, v2, v3, 8, 4, 2 * b + 1, t);
        lemma_join_level_block(s3, s4, 8, b as int, itw@, 0, 0);
        lemma_join_step(v0, v3, v4, 0, 8, b as int, t);
        assert(v0.subrange(0, 16) =~= v0);
        assert(v4.subrange(0, 16) =~= v4);
    }
}

/// Runs the forward transform on block `b`, which lies in `input` from
/// batch `first` over `count` batches. Between batches the block is split
/// by multiplying the upper batch by the twiddle factor and taking the
/// butterfly of the two batches; a single batch is split lane by lane.
fn ntt_batches(
    input: &mut [MixedGL],
    first: usize,
    count: usize,
    b: usize,
    tw: &Vec<GoldilocksField>,
)
    requires
        is_pow2(count as nat),
        first + count <= old(input)@.len(),
        table_covers(tw@.len(), b as int, (16 * count) as nat),
    ensures
        final(input)@.len() == old(input)@.len(),
        values(flat(final(input)@.subrange(first as int, first + count))) == ntt(
            values(flat(old(input)@.subrange(first as int, first + count))),
            b as int,
            values(tw@),
        ),
        forall|k: int, i: int|
            first <= k < first + count && 0 <= i < 16 ==> is_canonical(
                (#[trigger] final(input)@[k].0[i]).0,
            ),
        forall|k: int|
            0 <= k < old(input)@.len() && !(first <= k < first + count) ==> final(input)@[k] == old(
                input,
            )@[k],
    decreases count,
{
    let total: usize = input.len();
    let ghost before = input@;
    let ghost block = values(flat(before.subrange(first as int, first + count)));
    if count == 1 {
        assert(8 * b + 8 <= tw@.len()) by (nonlinear_arith)
            requires
                (b + 1) * (16 * count) <= 2 * tw@.len(),
                count == 1,
        ;
        let mut batch: MixedGL = input[first];
        ntt_in_batch(&mut batch, b, tw);
        input[first] = batch;
        proof {
            assert(block =~= lane_values(before[first as int]));
            assert(values(flat(input@.subrange(first as int, first + count))) =~= lane_values(batch));
        }
    } else {
        let half: usize = count / 2;
        let table: usize = tw.len();
        assert(0 <= b < table && 2 * b + 2 <= table) by (nonlinear_arith)
            requires
                (b + 1) * (16 * count) <= 2 * table,
                count == 2 * half,
                half >= 1,
        ;
        let w: GoldilocksField = tw[b];
        let mut k: usize = 0;
        while k < half
            invariant
                0 <= k <= half,
                count == 2 * half,
                first + count <= total,
                input@.len() == total,
                before.len() == total,
                forall|j: int, i: int|
                    0 <= j < k && 0 <= i < 16 ==> (#[trigger] input@[first + j].0[i]).0 == add_word(
                        before[first + j].0[i].0,
                        mul_word(before[first + half + j].0[i].0, w.0),
                    ),
                forall|j: int, i: int|
                    0 <= j < k && 0 <= i < 16 ==> (#[trigger] input@[first + half + j].0[i]).0
                        == sub_word(
                        before[first + j].0[i].0,
                        mul_word(before[first + half + j].0[i].0, w.0),
                    ),
                forall|j: int| k <= j < half ==> #[trigger] input@[first + j] == before[first + j],
                forall|j: int|
                    k <= j < half ==> #[trigger] input@[first + half + j] == before[first + half + j],
                forall|j: int|
                    0 <= j < total && !(first <= j < first + count) ==> input@[j] == before[j],
            decreases half - k,
        {
            let mut u: MixedGL = input[first + k];
            let mut v: MixedGL = input[first + half + k];
            v.mul_constant_assign(&w);
            MixedGL::butterfly_16x16_impl(&mut u, &mut v);
            input[first + k] = u;
            input[first + half + k] = v;
            k += 1;
        }
        let ghost mid = input@;
        proof {
            let wv = values(tw@)[b as int];
            let low = values(flat(mid.subrange(first as int, first + half)));
            let high = values(flat(mid.subrange(first + half, first + count)));
            assert forall|n: int| 0 <= n < 16 * half implies low[n] == fold_sum(block, wv)[n]
                && high[n] == fold_diff(block, wv)[n] by {
                let j = n / 16;
                let i = n % 16;
                assert(mid[first + j].0[i].0 == add_word(
                    before[first + j].0[i].0,
                    mul_word(before[first + half + j].0[i].0, w.0),
                ));
                assert(mid[first + half + j].0[i].0 == sub_word(
                    before[first + j].0[i].0,
                    mul_word(before[first + half + j].0[i].0, w.0),
                ));
                lemma_forward_pair(before[first + j].0[i].0, before[first + half + j].0[i].0, w.0);
                assert((n + 16 * half) / 16 == j + half);
                assert((n + 16 * half) % 16 == i);
            }
            assert(low =~= fold_sum(block, wv));
            assert(high =~= fold_diff(block, wv));
        }
        assert(table_covers(tw@.len(), 2 * b, (16 * half) as nat) && table_covers(
            tw@.len(),
            2 * b + 1,
            (16 * half) as nat,
        )) by (nonlinear_arith)
            requires
                (b + 1) * (16 * count) <= 2 * tw@.len(),
                count == 2 * half,
                half >= 1,
        ;
        ntt_batches(input, first, half, 2 * b, tw);
        let ghost after_low = input@;
        assert(after_low.subrange(first + half, first + count) =~= mid.subrange(
            first + half,
            first + count,
        ));
        ntt_batches(input, first + half, half, 2 * b + 1, tw);
        assert(input@.subrange(first as int, first + half) =~= after_low.subrange(
            first as int,
            first + half,
        ));
        proof {
            let low = values(flat(input@.subrange(first as int, first + half)));
            let high = values(flat(input@.subrange(first + half, first + count)));
            let all = values(flat(input@.subrange(first as int, first + count)));
            assert forall|n: int| 0 <= n < 16 * count implies all[n] == (low + high)[n] by {
                if n >= 16 * half {
                    assert((n - 16 * half) / 16 == n / 16 - half);
                    assert((n - 16 * half) % 16 == n % 16);
                }
            }
            assert(all =~= low + high);
            assert(block.len() == 16 * count);
        }
    }
}

/// Joins the halves of block `b`, which lies in `input` from batch `first`
/// over `count` batches, all the way up. Between batches the halves are
/// joined by taking the butterfly of the two batches and multiplying the
/// upper batch by the inverse twiddle factor; a single batch is joined lane
/// by lane.
fn join_batches(
    input: &mut [MixedGL],
    first: usize,
    count: usize,
    b: usize,
    itw: &Vec<GoldilocksField>,
)
    requires
        is_pow2(count as nat),
        first + count <= old(input)@.len(),
        table_covers(itw@.len(), b as int, (16 * count) as nat),
    ensures
        final(input)@.len() == old(input)@.len(),
        values(flat(final(input)@.subrange(first as int, first + count))) == join(
            values(flat(old(input)@.subrange(first as int, first + count))),
            b as int,
            values(itw@),
        ),
        forall|k: int|
            0 <= k < old(input)@.len() && !(first <= k < first + count) ==> final(input)@[k] == old(
                input,
            )@[k],
    decreases count,
{
    let total: usize = input.len();
    let ghost before = input@;
    let ghost block = values(flat(before.subrange(first as int, first + count)));
    if count == 1 {
        assert(8 * b + 8 <= itw@.len()) by (nonlinear_arith)
            requires
                (b + 1) * (16 * count) <= 2 * itw@.len(),
                count == 1,
        ;
        let mut batch: MixedGL = input[first];
        join_whole_batch(&mut batch, b, itw);
        input[first] = batch;
        proof {
            assert(block =~= lane_values(before[first as int]));
            assert(values(flat(input@.subrange(first as int, first + count))) =~= lane_values(batch));
        }
    } else {
        let half: usize = count / 2;
        let table: usize = itw.len();
        assert(0 <= b < table && 2 * b + 2 <= table) by (nonlinear_arith)
            requires
                (b + 1) * (16 * count) <= 2 * table,
                count == 2 * half,
                half >= 1,
        ;
        let wi: GoldilocksField = itw[b];
        assert(table_covers(itw@.len(), 2 * b, (16 * half) as nat) && table_covers(
            itw@.len(),
            2 * b + 1,
            (16 * half) as nat,
        )) by (nonlinear_arith)
            requires
                (b + 1) * (16 * count) <= 2 * itw@.len(),
                count == 2 * half,
                half >= 1,
        ;
        join_batches(input, first, half, 2 * b, itw);
        let ghost after_low = input@;
        assert(after_low.subrange(first + half, first + count) =~= before.subrange(
            first + half,
            first + count,
        ));
        join_batches(input, first + half, half, 2 * b + 1, itw);
        assert(input@.subrange(first as int, first + half) =~= after_low.subrange(
            first as int,
            first + half,
        ));
        let ghost mid = input@;
        let ghost x = join(block.subrange(0, 16 * half), 2 * b, values(itw@));
        let ghost y = join(block.subrange(16 * half, 16 * count), 2 * b + 1, values(itw@));
        proof {
            let low = values(flat(before.subrange(first as int, first + half)));
            let high = values(flat(before.subrange(first + half, first + count)));
            assert forall|n: int| 0 <= n < 16 * half implies block.subrange(0, 16 * half)[n]
                == low[n] && block.subrange(16 * half, 16 * count)[n] == high[n] by {
                assert((n + 16 * half) / 16 == n / 16 + half);
                assert((n + 16 * half) % 16 == n % 16);
            }
            assert(block.subrange(0, 16 * half) =~= low);
            assert(block.subrange(16 * half, 16 * count) =~= high);
            assert(values(flat(mid.subrange(first as int, first + half))) == x);
            assert(values(flat(mid.subrange(first + half, first + count))) == y);
        }
        let mut k: usize = 0;
        while k < half
            invariant
                0 <= k <= half,
                count == 2 * half,
                first + count <= total,
                input@.len() == total,
                mid.len() == total,
                forall|j: int, i: int|
                    0 <= j < k && 0 <= i < 16 ==> (#[trigger] input@[first + j].0[i]).0 == add_word(
                        mid[first + j].0[i].0,
                        mid[first + half + j].0[i].0,
                    ),
                forall|j: int, i: int|
                    0 <= j < k && 0 <= i < 16 ==> (#[trigger] input@[first + half + j].0[i]).0
                        == mul_word(
                        sub_word(mid[first + j].0[i].0, mid[first + half + j].0[i].0),
                        wi.0,
                    ),
                forall|j: int| k <= j < half ==> #[trigger] input@[first + j] == mid[first + j],
                forall|j: int|
                    k <= j < half ==> #[trigger] input@[first + half + j] == mid[first + half + j],
                forall|j: int|
                    0 <= j < total && !(first <= j < first + count) ==> input@[j] == mid[j],
            decreases half - k,
        {
            let mut u: MixedGL = input[first + k];
            let mut v: MixedGL = input[first + half + k];
            MixedGL::butterfly_16x16_impl(&mut u, &mut v);
            v.mul_constant_assign(&wi);
            input[first + k] = u;
            input[first + half + k] = v;
            k += 1;
        }
        proof {
            let wv = values(itw@)[b as int];
            let got = values(flat(input@.subrange(first as int, first + count)));
            let want = unfold(x, y, wv);
            lemma_join_len(block.subrange(0, 16 * half), 2 * b, values(itw@));
            lemma_join_len(block.subrange(16 * half, 16 * count), 2 * b + 1, values(itw@));
            assert forall|n: int| 0 <= n < 16 * count implies got[n] == want[n] by {
                if n < 16 * half {
                    let j = n / 16;
                    let i = n % 16;
                    assert(input@[first + j].0[i].0 == add_word(
                        mid[first + j].0[i].0,
                        mid[first + half + j].0[i].0,
                    ));
                    lemma_inverse_pair(mid[first + j].0[i].0, mid[first + half + j].0[i].0, wi.0);
                    assert(x[n] == canonical(mid.subrange(first as int, first + half)[j].0[i].0));
                    assert(y[n] == canonical(mid.subrange(first + half, first + count)[j].0[i].0));
                } else {
                    let m = n - 16 * half;
                    let j = m / 16;
                    let i = m % 16;
                    assert(n / 16 == j + half);
                    assert(n % 16 == i);
                    assert(input@[first + half + j].0[i].0 == mul_word(
                        sub_word(mid[first + j].0[i].0, mid[first + half + j].0[i].0),
                        wi.0,
                    ));
                    lemma_inverse_pair(mid[first + j].0[i].0, mid[first + half + j].0[i].0, wi.0);
                    assert(x[m] == canonical(mid.subrange(first as int, first + half)[j].0[i].0));
                    assert(y[m] == canonical(mid.subrange(first + half, first + count)[j].0[i].0));
                }
            }
            assert(got =~= want);
            assert(block.len() == 16 * count);
        }
    }
}

/// Multiplies every lane of every batch by `m`.
fn scale_batches(input: &mut [MixedGL], m: u64)
    requires
        is_canonical(m),
    ensures
        final(input)@.len() == old(input)@.len(),
        values(flat(final(input)@)) == scale(values(flat(old(input)@)), m as int),
{
    let total: usize = input.len();
    let factor: GoldilocksField = GoldilocksField(m);
    let mut k: usize = 0;
    while k < total
        invariant
            0 <= k <= total,
            input@.len() == total,
            factor.0 == m,
            forall|j: int, i: int|
                0 <= j < k && 0 <= i < 16 ==> (#[trigger] input@[j].0[i]).0 == mul_word(
                    old(input)@[j].0[i].0,
                    m,
                ),
            forall|j: int| k <= j < total ==> input@[j] == old(input)@[j],
        decreases total - k,
    {
        let mut batch: MixedGL = input[k];
        batch.mul_constant_assign(&factor);
        input[k] = batch;
        k += 1;
    }
    proof {
        let got = values(flat(input@));
        let want = scale(values(flat(old(input)@)), m as int);
        assert forall|n: int| 0 <= n < 16 * total implies got[n] == want[n] by {
            let j = n / 16;
            let i = n % 16;
            assert(input@[j].0[i].0 == mul_word(old(input)@[j].0[i].0, m));
            crate::reduce::lemma_mul_word(old(input)@[j].0[i].0, m);
        }
        assert(got =~= want);
    }
}

/// Multiplies element `n` of the buffer, counted lane by lane through the
/// batches, by the `n`-th power of `c`.
fn scale_batches_by_powers(input: &mut [MixedGL], c: u64)
    ensures
        final(input)@.len() == old(input)@.len(),
        values(flat(final(input)@)) == coset_scale(values(flat(old(input)@)), canonical(c)),
        all_canonical(final(input)@),
{
    let total: usize = input.len();
    let mut cur: u64 = 1;
    let mut k: usize = 0;
    proof {
        lemma_pow0(canonical(c));
    }
    while k < total
        invariant
            0 <= k <= total,
            input@.len() == total,
            cur as int == pow(canonical(c), (16 * k) as nat) % modulus(),
            forall|j: int, i: int|
                0 <= j < k && 0 <= i < 16 ==> canonical((#[trigger] input@[j].0[i]).0) == (canonical(
                    old(input)@[j].0[i].0,
                ) * pow(canonical(c), (16 * j + i) as nat)) % modulus(),
            forall|j: int, i: int|
                0 <= j < k && 0 <= i < 16 ==> is_canonical((#[trigger] input@[j].0[i]).0),
            forall|j: int| k <= j < total ==> input@[j] == old(input)@[j],
        decreases total - k,
    {
        let mut batch: MixedGL = input[k];
        let ghost start = batch;
        let mut i: usize = 0;
        while i < 16
            invariant
                0 <= i <= 16,
                0 <= k < total,
                cur as int == pow(canonical(c), (16 * k + i) as nat) % modulus(),
                forall|l: int|
                    0 <= l < i ==> canonical((#[trigger] batch.0[l]).0) == (canonical(start.0[l].0)
                        * pow(canonical(c), (16 * k + l) as nat)) % modulus(),
                forall|l: int| 0 <= l < i ==> is_canonical((#[trigger] batch.0[l]).0),
                forall|l: int| i <= l < 16 ==> batch.0[l] == start.0[l],
            decreases 16 - i,
        {
            proof {
                let p = modulus();
                let cc = canonical(c);
                let pw = pow(cc, (16 * k + i) as nat);
                crate::reduce::lemma_mul_word(batch.0[i as int].0, cur);
                lemma_mul_mod_noop_general(canonical(batch.0[i as int].0), pw, p);
                crate::reduce::lemma_mul_word(cur, c);
                lemma_mul_mod_noop_general(pw, cc, p);
                lemma_pow_adds(cc, (16 * k + i) as nat, 1);
                lemma_pow1(cc);
            }
            batch.0[i] = GoldilocksField(mul_lane(batch.0[i].0, cur));
            cur = mul_lane(cur, c);
            i += 1;
        }
        input[k] = batch;
        k += 1;
    }
    proof {
        let got = values(flat(input@));
        let want = coset_scale(values(flat(old(input)@)), canonical(c));
        assert forall|n: int| 0 <= n < 16 * total implies got[n] == want[n] by {
            let j = n / 16;
            let i = n % 16;
            assert(canonical(input@[j].0[i].0) == (canonical(old(input)@[j].0[i].0) * pow(
                canonical(c),
                (16 * j + i) as nat,
            )) % modulus());
        }
        assert(got =~= want);
    }
}

/// A buffer of batches whose element count is a power of two holds a power
/// of two of batches.
proof fn lemma_batches_pow2(count: nat)
    requires
        is_pow2(16 * count),
    ensures
        is_pow2(count),
{
    assert(is_pow2(8 * count));
    assert(is_pow2(4 * count));
    assert(is_pow2(2 * count));
}

/// The inverse of the weight of `n`, one multiplication by a half for
/// every halving of `n`.
fn size_inverse_word(n: usize) -> (r: u64)
    ensures
        r as int == size_inverse(n as nat),
        is_canonical(r),
    decreases n,
{
    if n < 2 || n % 2 != 0 {
        1
    } else {
        let rest: u64 = size_inverse_word(n / 2);
        proof {
            crate::reduce::lemma_mul_word(HALF, rest);
        }
        mul_lane(HALF, rest)
    }
}

/// The inverse of the number of elements in `count` batches.
fn size_inverse_batches(count: usize) -> (r: u64)
    requires
        count >= 1,
    ensures
        r as int == size_inverse((16 * count) as nat),
        is_canonical(r),
{
    let per_batch: u64 = size_inverse_word(count);
    proof {
        crate::reduce::lemma_mul_word(HALF, per_batch);
    }
    let two: u64 = mul_lane(HALF, per_batch);
    proof {
        crate::reduce::lemma_mul_word(HALF, two);
    }
    let four: u64 = mul_lane(HALF, two);
    proof {
        crate::reduce::lemma_mul_word(HALF, four);
    }
    let eight: u64 = mul_lane(HALF, four);
    proof {
        crate::reduce::lemma_mul_word(HALF, eight);
    }
    let sixteen: u64 = mul_lane(HALF, eight);
    proof {
        assert(two as int == size_inverse((2 * count) as nat));
        assert(four as int == size_inverse((4 * count) as nat));
        assert(eight as int == size_inverse((8 * count) as nat));
    }
    sixteen
}

/// Whether each inverse twiddle factor is the field inverse of the forward
/// twiddle factor at the same place, which is what the round trip of the two
/// transforms rests on.
pub fn twiddles_match(twiddles: &Vec<GoldilocksField>, inverse_twiddles: &Vec<GoldilocksField>) -> (r:
    bool)
    ensures
        r == tables_match(values(twiddles@), values(inverse_twiddles@)),
{
    if twiddles.len() != inverse_twiddles.len() {
        return false;
    }
    let count: usize = twiddles.len();
    let mut k: usize = 0;
    while k < count
        invariant
            0 <= k <= count,
            count == twiddles@.len(),
            count == inverse_twiddles@.len(),
            forall|j: int|
                0 <= j < k ==> (#[trigger] values(twiddles@)[j] * values(inverse_twiddles@)[j])
                    % modulus() == 1,
        decreases count - k,
    {
        proof {
            crate::reduce::lemma_mul_word(twiddles@[k as int].0, inverse_twiddles@[k as int].0);
        }
        if mul_lane(twiddles[k].0, inverse_twiddles[k].0) != 1 {
            assert((values(twiddles@)[k as int] * values(inverse_twiddles@)[k as int]) % modulus() != 1);
            return false;
        }
        k += 1;
    }
    true
}

/// The place in the circle of roots of the twiddle factor of block `b`:
/// block zero has exponent zero, and the two halves of a block with exponent
/// `e` have exponents `e / 2` and `e / 2 + quarter`, where `quarter` is a
/// quarter of the transform size. These are the exponents `0, 1, 2, ..` in
/// bit-reversed order.
pub open spec fn twiddle_exponent(b: nat, quarter: nat) -> nat
    decreases b,
{
    if b == 0 {
        0
    } else {
        twiddle_exponent(b / 2, quarter) / 2 + (b % 2) * quarter
    }
}

/// The root of unity for transforms of `fft_size` elements: the generator
/// 7 of the multiplicative group raised to `(p - 1) / fft_size`.
pub open spec fn root_word(fft_size: u64) -> u64 {
    pow_word(7, (0xFFFF_FFFF_0000_0000u64 / fft_size) as u64)
}

/// The table of `fft_size / 2` powers of `omega`, block by block.
fn twiddle_table(fft_size: usize, omega: u64) -> (r: Vec<GoldilocksField>)
    requires
        fft_size <= 0x1_0000_0000,
    ensures
        r@.len() == fft_size / 2,
        forall|b: int|
            0 <= b < r@.len() ==> (#[trigger] r@[b]).0 == pow_word(
                omega,
                twiddle_exponent(b as nat, (fft_size / 4) as nat) as u64,
            ),
{
    let count: usize = fft_size / 2;
    let quarter: usize = fft_size / 4;
    let mut exponents: Vec<u64> = Vec::new();
    let mut table: Vec<GoldilocksField> = Vec::new();
    let mut b: usize = 0;
    while b < count
        invariant
            0 <= b <= count,
            count == fft_size / 2,
            quarter == fft_size / 4,
            fft_size <= 0x1_0000_0000,
            exponents@.len() == b,
            table@.len() == b,
            forall|j: int|
                0 <= j < b ==> (#[trigger] exponents@[j]) as nat == twiddle_exponent(
                    j as nat,
                    quarter as nat,
                ),
            forall|j: int| 0 <= j < b ==> (#[trigger] exponents@[j]) <= 2 * quarter,
            forall|j: int| 0 <= j < b ==> (#[trigger] table@[j]).0 == pow_word(omega, exponents@[j]),
        decreases count - b,
    {
        let e: u64 = if b == 0 {
            0
        } else {
            let parent: u64 = exponents[b / 2];
            if b % 2 == 1 {
                parent / 2 + (quarter as u64)
            } else {
                parent / 2
            }
        };
        assert(e as nat == twiddle_exponent(b as nat, quarter as nat)) by {
            if b != 0 {
                let bit: nat = (b % 2) as nat;
                let q: nat = quarter as nat;
                assert(exponents@[b as int / 2] as nat == twiddle_exponent(
                    (b / 2) as nat,
                    quarter as nat,
                ));
                assert(bit * q == if bit == 1 { q } else { 0 }) by (nonlinear_arith)
                    requires
                        bit == 0 || bit == 1,
                ;
            }
        }
        exponents.push(e);
        table.push(GoldilocksField(pow_lane(omega, e)));
        b += 1;
    }
    table
}

/// Whether `table` holds the twiddle factors of a transform of `fft_size`
/// elements for the root `root`: `fft_size / 2` powers of the root, block
/// by block.
pub open spec fn is_twiddle_table(table: Seq<GoldilocksField>, root: u64, fft_size: u64) -> bool {
    &&& table.len() == fft_size / 2
    &&& forall|b: int|
        0 <= b < table.len() ==> (#[trigger] table[b]).0 == pow_word(
            root,
            twiddle_exponent(b as nat, (fft_size / 4) as nat) as u64,
        )
}

/// A power of two divides every power of two that is not smaller.
proof fn lemma_pow2_divides(n: nat, t: nat)
    requires
        is_pow2(n),
        is_pow2(t),
        n <= t,
    ensures
        t % n == 0,
    decreases t,
{
    if n != 1 {
        lemma_pow2_divides(n / 2, t / 2);
        let q = (t / 2) as int / (n / 2) as int;
        lemma_fundamental_div_mod((t / 2) as int, (n / 2) as int);
        assert(t == q * n) by (nonlinear_arith)
            requires
                t == 2 * (t / 2),
                n == 2 * (n / 2),
                (t / 2) as int == (n / 2) * q,
        ;
        lemma_mod_multiples_basic(q, n as int);
    }
}

/// `2^32` is a power of two.
proof fn lemma_two_adic_bound_is_pow2()
    ensures
        is_pow2(0x1_0000_0000),
{
    assert(is_pow2(0x1));
    assert(is_pow2(0x2));
    assert(is_pow2(0x4));
    assert(is_pow2(0x8));
    assert(is_pow2(0x10));
    assert(is_pow2(0x20));
    assert(is_pow2(0x40));
    assert(is_pow2(0x80));
    assert(is_pow2(0x100));
    assert(is_pow2(0x200));
    assert(is_pow2(0x400));
    assert(is_pow2(0x800));
    assert(is_pow2(0x1000));
    assert(is_pow2(0x2000));
    assert(is_pow2(0x4000));
    assert(is_pow2(0x8000));
    assert(is_pow2(0x10000));
    assert(is_pow2(0x20000));
    assert(is_pow2(0x40000));
    assert(is_pow2(0x80000));
    assert(is_pow2(0x100000));
    assert(is_pow2(0x200000));
    assert(is_pow2(0x400000));
    assert(is_pow2(0x800000));
    assert(is_pow2(0x1000000));
    assert(is_pow2(0x2000000));
    assert(is_pow2(0x4000000));
    assert(is_pow2(0x8000000));
    assert(is_pow2(0x10000000));
    assert(is_pow2(0x20000000));
    assert(is_pow2(0x40000000));
    assert(is_pow2(0x80000000));
    assert(is_pow2(0x100000000));
}

/// Every admitted transform size divides `p - 1`.
proof fn lemma_size_divides_order(n: nat)
    requires
        is_pow2(n),
        n <= 0x1_0000_0000,
    ensures
        n >= 1,
        (0xFFFF_FFFF_0000_0000int / n as int) * n == 0xFFFF_FFFF_0000_0000,
{
    lemma_two_adic_bound_is_pow2();
    lemma_pow2_divides(n, 0x1_0000_0000);
    let q = 0x1_0000_0000int / n as int;
    lemma_fundamental_div_mod(0x1_0000_0000, n as int);
    let m = q * 0xFFFF_FFFF;
    assert(0xFFFF_FFFF_0000_0000 == m * n) by (nonlinear_arith)
        requires
            0x1_0000_0000 == n * q,
            m == q * 0xFFFF_FFFF,
    ;
    lemma_mod_multiples_basic(m, n as int);
    lemma_fundamental_div_mod(0xFFFF_FFFF_0000_0000, n as int);
    assert((0xFFFF_FFFF_0000_0000int / n as int) * n == n * (0xFFFF_FFFF_0000_0000int / n as int))
        by (nonlinear_arith);
}

/// A twiddle exponent stays below twice the quarter it is built from.
pub proof fn lemma_twiddle_exponent_bound(b: nat, quarter: nat)
    ensures
        twiddle_exponent(b, quarter) <= 2 * quarter,
    decreases b,
{
    if b != 0 {
        lemma_twiddle_exponent_bound(b / 2, quarter);
        let bit: nat = b % 2;
        assert(bit * quarter <= quarter) by (nonlinear_arith)
            requires
                bit <= 1,
        ;
    }
}

/// The twiddle exponent of block `b` is a multiple of the power of two
/// `step` as long as `b * step` stays below twice the quarter.
pub proof fn lemma_twiddle_exponent_multiple(b: nat, quarter: nat, step: nat)
    requires
        is_pow2(quarter),
        is_pow2(step),
        b * step < 2 * quarter,
    ensures
        twiddle_exponent(b, quarter) % step == 0,
    decreases b,
{
    assert(step >= 1 && quarter >= 1);
    if b != 0 {
        assert(step < 2 * quarter && (b / 2) * (2 * step) < 2 * quarter) by (nonlinear_arith)
            requires
                b * step < 2 * quarter,
                b >= 1,
                step >= 1,
                (b / 2) * 2 <= b,
        ;
        assert(step <= quarter) by {
            if step > quarter {
                // a power of two between quarter and twice quarter is neither
                lemma_pow2_divides(quarter, step);
                lemma_fundamental_div_mod(step as int, quarter as int);
                let q = step as int / quarter as int;
                assert(q >= 2) by (nonlinear_arith)
                    requires
                        step == quarter * q,
                        step > quarter,
                        quarter >= 1,
                ;
                assert(false) by (nonlinear_arith)
                    requires
                        step == quarter * q,
                        q >= 2,
                        step < 2 * quarter,
                        quarter >= 1,
                ;
            }
        }
        assert(is_pow2(2 * step));
        lemma_twiddle_exponent_multiple(b / 2, quarter, 2 * step);
        let parent = twiddle_exponent(b / 2, quarter);
        lemma_fundamental_div_mod(parent as int, (2 * step) as int);
        let u = parent as int / (2 * step) as int;
        assert(parent / 2 == step * u) by (nonlinear_arith)
            requires
                parent == (2 * step) * u,
        ;
        lemma_pow2_divides(step, quarter);
        lemma_fundamental_div_mod(quarter as int, step as int);
        let v = quarter as int / step as int;
        let bit = (b % 2) as int;
        assert(twiddle_exponent(b, quarter) == parent / 2 + (b % 2) * quarter);
        assert(twiddle_exponent(b, quarter) == (u + bit * v) * step) by (nonlinear_arith)
            requires
                twiddle_exponent(b, quarter) == parent / 2 + bit * quarter,
                parent / 2 == step * u,
                quarter == step * v,
        ;
        lemma_mod_multiples_basic(u + bit * v, step as int);
        assert(((u + bit * v) * step) % (step as int) == 0);
        assert(twiddle_exponent(b, quarter) as int % (step as int) == 0);
    } else {
        assert(twiddle_exponent(b, quarter) == 0);
    }
}

/// The root of unity of every admitted transform size has that size as an
/// exponent that leads to one, and its `(p - 2)`-th power is its inverse.
pub proof fn lemma_root_of_unity(fft_size: u64)
    requires
        is_pow2(fft_size as nat),
        fft_size <= 0x1_0000_0000,
    ensures
        pow_word(root_word(fft_size), fft_size) == 1,
        mul_word(root_word(fft_size), inv_word(root_word(fft_size))) == 1,
        fft_size >= 2 ==> pow_word(root_word(fft_size), fft_size / 2) == 0xFFFF_FFFF_0000_0000,
{
    let p = modulus();
    let n = fft_size as nat;
    lemma_size_divides_order(n);
    let k: nat = (0xFFFF_FFFF_0000_0000int / n as int) as nat;
    assert(k == (0xFFFF_FFFF_0000_0000u64 / fft_size) as nat);
    let g = pow(7, k);
    let w = root_word(fft_size) as int;
    assert(w == g % p);
    crate::generator::lemma_generator_order();
    // the root raised to the size
    lemma_pow_mod_noop(g, n, p);
    lemma_pow_multiplies(7, k, n);
    assert(pow(w, n) % p == 1);
    // the root raised to p - 1
    lemma_pow_multiplies(w, n, k);
    assert(n * k == k * n) by (nonlinear_arith);
    lemma_pow_mod_noop(pow(w, n), k, p);
    lemma1_pow(k);
    assert(pow(w, 0xFFFF_FFFF_0000_0000) % p == 1);
    // the root times its (p - 2)-th power
    lemma_pow_adds(w, 1, 0xFFFF_FFFE_FFFF_FFFF);
    lemma_pow1(w);
    lemma_mul_mod_noop_general(w, pow(w, 0xFFFF_FFFE_FFFF_FFFF), p);
    // the root raised to half the size
    if fft_size >= 2 {
        let half: nat = n / 2;
        assert(k * half == 0x7FFF_FFFF_8000_0000) by (nonlinear_arith)
            requires
                k * n == 0xFFFF_FFFF_0000_0000,
                n == 2 * half,
        ;
        crate::generator::lemma_generator_half_order();
        lemma_pow_mod_noop(g, half, p);
        lemma_pow_multiplies(7, k, half);
    }
}

/// The two tables that `precompute_forward_twiddles_for_fft` and
/// `precompute_inverse_twiddles_for_fft` give for one size match.
pub proof fn lemma_precomputed_tables_match(
    tw: Seq<GoldilocksField>,
    itw: Seq<GoldilocksField>,
    fft_size: u64,
)
    requires
        is_pow2(fft_size as nat),
        fft_size <= 0x1_0000_0000,
        is_twiddle_table(tw, root_word(fft_size), fft_size),
        is_twiddle_table(itw, inv_word(root_word(fft_size)), fft_size),
    ensures
        tables_match(values(tw), values(itw)),
{
    let root = root_word(fft_size);
    lemma_root_of_unity(fft_size);
    assert forall|k: int| 0 <= k < tw.len() implies (#[trigger] values(tw)[k] * values(itw)[k])
        % modulus() == 1 by {
        let e = twiddle_exponent(k as nat, (fft_size / 4) as nat) as u64;
        assert(tw[k].0 == pow_word(root, e));
        assert(itw[k].0 == pow_word(inv_word(root), e));
        crate::reduce::lemma_powers_match(root, inv_word(root), e);
        crate::reduce::lemma_mul_word(tw[k].0, itw[k].0);
    }
}

/// The forward transform followed by the inverse transform gives back every
/// buffer of field elements when the tables are those that
/// `precompute_forward_twiddles_for_fft` and
/// `precompute_inverse_twiddles_for_fft` give for the buffer's size, and the
/// `(p - 2)`-th power of the coset generator is its inverse.
pub proof fn lemma_round_trip_with_precomputed_tables(
    a: Seq<int>,
    coset: u64,
    tw: Seq<GoldilocksField>,
    itw: Seq<GoldilocksField>,
    fft_size: u64,
)
    requires
        all_in_field(a),
        a.len() == fft_size,
        is_pow2(fft_size as nat),
        fft_size <= 0x1_0000_0000,
        is_twiddle_table(tw, root_word(fft_size), fft_size),
        is_twiddle_table(itw, inv_word(root_word(fft_size)), fft_size),
        mul_word(coset, inv_word(coset)) == 1,
    ensures
        coset_scale(
            intt(ntt(coset_scale(a, canonical(coset)), 0, values(tw)), 0, values(itw)),
            canonical(inv_word(coset)),
        ) == a,
{
    lemma_precomputed_tables_match(tw, itw, fft_size);
    crate::reduce::lemma_mul_word(coset, inv_word(coset));
    lemma_transform_round_trip(
        a,
        canonical(coset),
        canonical(inv_word(coset)),
        values(tw),
        values(itw),
    );
}

impl MixedGL {
    /// The forward transform. The buffer holds `n` coefficients in natural
    /// order, `n` a power of two; coefficient `i` is first multiplied by the
    /// `i`-th power of `coset`, and the values come out in bit-reversed order.
    /// The table must hold at least `n / 2` twiddle factors.
    pub fn fft_natural_to_bitreversed(
        input: &mut [MixedGL],
        coset: GoldilocksField,
        twiddles: &Vec<GoldilocksField>,
        _ctx: &mut (),
    )
        requires
            is_pow2(16 * old(input)@.len()),
            16 * old(input)@.len() <= 2 * twiddles@.len(),
        ensures
            final(input)@.len() == old(input)@.len(),
            values(flat(final(input)@)) == ntt(
                coset_scale(values(flat(old(input)@)), canonical(coset.0)),
                0,
                values(twiddles@),
            ),
            all_canonical(final(input)@),
    {
        let count: usize = input.len();
        proof {
            lemma_batches_pow2(count as nat);
        }
        scale_batches_by_powers(input, coset.0);
        let ghost scaled = input@;
        ntt_batches(input, 0, count, 0, twiddles);
        assert(input@.subrange(0, count as int) =~= input@);
        assert(scaled.subrange(0, count as int) =~= scaled);
    }

    /// The inverse transform. The buffer holds `n` values in the order in which
    /// the forward transform leaves them, `n` a power of two; the coefficients
    /// come out in natural order. At the end every coefficient is divided by
    /// `n`, and coefficient `i` is multiplied by the `i`-th power of the inverse
    /// of `coset`, which must not stand for zero. The table must hold at least
    /// `n / 2` inverse twiddle factors.
    pub fn ifft_natural_to_natural(
        input: &mut [MixedGL],
        coset: GoldilocksField,
        twiddles: &Vec<GoldilocksField>,
        _ctx: &mut (),
    )
        requires
            is_pow2(16 * old(input)@.len()),
            16 * old(input)@.len() <= 2 * twiddles@.len(),
            canonical(coset.0) != 0,
        ensures
            final(input)@.len() == old(input)@.len(),
            values(flat(final(input)@)) == coset_scale(
                intt(values(flat(old(input)@)), 0, values(twiddles@)),
                canonical(inv_word(coset.0)),
            ),
            all_canonical(final(input)@),
    {
        let count: usize = input.len();
        proof {
            lemma_batches_pow2(count as nat);
        }
        let ghost start = input@;
        join_batches(input, 0, count, 0, twiddles);
        assert(input@.subrange(0, count as int) =~= input@);
        assert(start.subrange(0, count as int) =~= start);
        scale_batches(input, size_inverse_batches(count));
        let coset_inverse: u64 = pow_lane(coset.0, 0xFFFF_FFFE_FFFF_FFFF);
        scale_batches_by_powers(input, coset_inverse);
    }

    /// The twiddle factors of the forward transform of `fft_size` elements, a
    /// power of two no larger than `2^32`.
    pub fn precompute_forward_twiddles_for_fft(fft_size: usize, _ctx: &mut ()) -> (r: Vec<GoldilocksField>)
        requires
            is_pow2(fft_size as nat),
            fft_size <= 0x1_0000_0000,
        ensures
            r@.len() == fft_size / 2,
            fft_size >= 2 ==> 2 * r@.len() == fft_size,
            is_twiddle_table(r@, root_word(fft_size as u64), fft_size as u64),
    {
        let omega: u64 = pow_lane(7, 0xFFFF_FFFF_0000_0000u64 / (fft_size as u64));
        twiddle_table(fft_size, omega)
    }

    /// The twiddle factors of the inverse transform of `fft_size` elements, a
    /// power of two no larger than `2^32`: the powers of the inverse of the
    /// root of unity.
    pub fn precompute_inverse_twiddles_for_fft(fft_size: usize, _ctx: &mut ()) -> (r: Vec<GoldilocksField>)
        requires
            is_pow2(fft_size as nat),
            fft_size <= 0x1_0000_0000,
        ensures
            r@.len() == fft_size / 2,
            fft_size >= 2 ==> 2 * r@.len() == fft_size,
            is_twiddle_table(r@, inv_word(root_word(fft_size as u64)), fft_size as u64),
    {
        let omega: u64 = pow_lane(7, 0xFFFF_FFFF_0000_0000u64 / (fft_size as u64));
        let omega_inverse: u64 = pow_lane(omega, 0xFFFF_FFFE_FFFF_FFFF);
        twiddle_table(fft_size, omega_inverse)
    }
}

} // verus!
