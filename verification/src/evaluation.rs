//! What the forward transform computes: the values of the polynomial at
//! points that the twiddle table fixes.
//!
//! A block of `2h` coefficients with twiddle factor `w` is split into
//! `lo + w * hi` and `lo - w * hi`. At a point `z` whose `h`-th power is `w`
//! the polynomial has the value of the first, at a point whose `h`-th power
//! is `-w` the value of the second. So when the square of each twiddle
//! factor is, up to the sign, the factor of the block above, every output is
//! the value of the input at a point read off the table.

use vstd::prelude::*;
use vstd::arithmetic::div_mod::*;
use vstd::arithmetic::power::*;
use crate::fft::{
    all_in_field, fold_diff, fold_sum, is_pow2, is_twiddle_table, lemma_ntt_len,
    lemma_root_of_unity, lemma_twiddle_exponent_bound, lemma_twiddle_exponent_multiple, ntt,
    coset_scale, root_word, scale, table_covers, twiddle_exponent, values,
};
use crate::field::GoldilocksField;
use crate::reduce::modulus;

verus! {

/// The value at `z` of the polynomial with coefficients `a`, lowest first.
pub open spec fn eval(a: Seq<int>, z: int) -> int
    decreases a.len(),
{
    if a.len() == 0 {
        0
    } else {
        (a[0] + z * eval(a.drop_first(), z)) % modulus()
    }
}

/// The lane-wise combination `lo + hi * w`.
pub open spec fn combine(lo: Seq<int>, hi: Seq<int>, w: int) -> Seq<int> {
    Seq::new(lo.len(), |j: int| (lo[j] + hi[j] * w) % modulus())
}

/// Whether the square of each twiddle factor is the factor of the block
/// above it, for the lower half, and its negative, for the upper half.
pub open spec fn squares_up(tw: Seq<int>) -> bool {
    forall|b: int|
        0 <= b && 2 * b + 1 < tw.len() ==> (#[trigger] tw[2 * b] * tw[2 * b]) % modulus() == tw[b]
            % modulus() && (tw[2 * b + 1] * tw[2 * b + 1]) % modulus() == (-tw[b]) % modulus()
}

/// The point at which output `j` of block `b` of length `len` is the value
/// of the block.
pub open spec fn point(tw: Seq<int>, b: int, len: nat, j: int) -> int
    decreases len,
{
    if len <= 2 || len % 2 != 0 {
        if j == 0 {
            tw[b]
        } else {
            -tw[b]
        }
    } else if j < len / 2 {
        point(tw, 2 * b, len / 2, j)
    } else {
        point(tw, 2 * b + 1, len / 2, j - len / 2)
    }
}

/// A value is a field element.
proof fn lemma_eval_range(a: Seq<int>, z: int)
    ensures
        0 <= eval(a, z) < modulus(),
{
}

/// The value of a polynomial cut in two: the lower part plus the upper part
/// times the power of `z` at which it starts.
proof fn lemma_eval_concat(lo: Seq<int>, hi: Seq<int>, z: int)
    ensures
        eval(lo + hi, z) == (eval(lo, z) + pow(z, lo.len()) * eval(hi, z)) % modulus(),
    decreases lo.len(),
{
    let p = modulus();
    let e = eval(hi, z);
    lemma_eval_range(hi, z);
    if lo.len() == 0 {
        assert(lo + hi =~= hi);
        lemma_pow0(z);
    } else {
        let s = lo + hi;
        let rest = lo.drop_first();
        let k = (lo.len() - 1) as nat;
        assert(s.drop_first() =~= rest + hi);
        lemma_eval_concat(rest, hi, z);
        let y = eval(rest, z) + pow(z, k) * e;
        // eval(s) == (lo[0] + z * (y % p)) % p
        lemma_mul_mod_noop_general(z, y, p);
        lemma_add_mod_noop_right(lo[0], z * (y % p), p);
        lemma_add_mod_noop_right(lo[0], z * y, p);
        let a = lo[0] + z * eval(rest, z);
        let b = pow(z, lo.len()) * e;
        lemma_add_mod_noop_right(b, a, p);
        lemma_pow_adds(z, 1, k);
        lemma_pow1(z);
        assert(lo[0] + z * y == a + b) by (nonlinear_arith)
            requires
                y == eval(rest, z) + pow(z, k) * e,
                a == lo[0] + z * eval(rest, z),
                b == pow(z, lo.len()) * e,
                pow(z, lo.len()) == z * pow(z, k),
        ;
    }
}

/// The value of a combination is the combination of the values.
proof fn lemma_eval_combine(lo: Seq<int>, hi: Seq<int>, w: int, z: int)
    requires
        lo.len() == hi.len(),
    ensures
        eval(combine(lo, hi, w), z) == (eval(lo, z) + w * eval(hi, z)) % modulus(),
    decreases lo.len(),
{
    let p = modulus();
    if lo.len() == 0 {
        assert(combine(lo, hi, w).len() == 0);
        assert(eval(combine(lo, hi, w), z) == 0);
        assert(eval(lo, z) == 0);
        assert(eval(hi, z) == 0);
        assert(w * 0 == 0) by (nonlinear_arith);
    } else {
        let c = combine(lo, hi, w);
        let lo1 = lo.drop_first();
        let hi1 = hi.drop_first();
        assert(c.drop_first() =~= combine(lo1, hi1, w));
        lemma_eval_combine(lo1, hi1, w, z);
        let el = eval(lo1, z);
        let eh = eval(hi1, z);
        let y = el + w * eh;
        // left: ((lo0 + hi0 w) % p + z * (y % p)) % p
        let c0 = lo[0] + hi[0] * w;
        assert(eval(c, z) == ((c0 % p) + z * (y % p)) % p);
        lemma_mul_mod_noop_general(z, y, p);
        lemma_add_mod_noop_right(c0 % p, z * (y % p), p);
        lemma_add_mod_noop(c0, z * (y % p), p);
        lemma_add_mod_noop(c0, z * y, p);
        assert(eval(c, z) == (c0 + z * y) % p);
        // right: ((lo0 + z el) % p + w * ((hi0 + z eh) % p)) % p
        let a = lo[0] + z * el;
        let b = hi[0] + z * eh;
        assert(eval(lo, z) == a % p);
        assert(eval(hi, z) == b % p);
        lemma_mul_mod_noop_general(w, b, p);
        lemma_add_mod_noop_right(a % p, w * (b % p), p);
        lemma_add_mod_noop(a, w * (b % p), p);
        lemma_add_mod_noop(a, w * b, p);
        assert((eval(lo, z) + w * eval(hi, z)) % p == (a + w * b) % p);
        assert(c0 + z * y == a + w * b) by (nonlinear_arith)
            requires
                c0 == lo[0] + hi[0] * w,
                y == el + w * eh,
                a == lo[0] + z * el,
                b == hi[0] + z * eh,
        ;
    }
}

/// At a point whose `h`-th power is the twiddle factor, a block of `2h`
/// coefficients has the value of its sums; at a point whose `h`-th power is
/// the negative of the factor, the value of its differences.
proof fn lemma_eval_fold(a: Seq<int>, w: int, z: int)
    requires
        a.len() >= 2,
        a.len() % 2 == 0,
    ensures
        pow(z, a.len() / 2) % modulus() == w % modulus() ==> eval(a, z) == eval(fold_sum(a, w), z),
        pow(z, a.len() / 2) % modulus() == (-w) % modulus() ==> eval(a, z) == eval(
            fold_diff(a, w),
            z,
        ),
{
    let p = modulus();
    let h = a.len() / 2;
    let lo = a.subrange(0, h as int);
    let hi = a.subrange(h as int, a.len() as int);
    assert(a =~= lo + hi);
    lemma_eval_concat(lo, hi, z);
    let eh = eval(hi, z);
    let zh = pow(z, h);
    // (eval(lo) + zh * eh) % p depends on zh only through zh % p
    lemma_mul_mod_noop_general(zh, eh, p);
    lemma_add_mod_noop_right(eval(lo, z), zh * eh, p);
    if zh % p == w % p {
        assert(fold_sum(a, w) =~= combine(lo, hi, w));
        lemma_eval_combine(lo, hi, w, z);
        lemma_mul_mod_noop_general(w, eh, p);
        lemma_add_mod_noop_right(eval(lo, z), w * eh, p);
    }
    if zh % p == (-w) % p {
        assert forall|j: int| 0 <= j < h implies fold_diff(a, w)[j] == combine(lo, hi, -w)[j] by {
            assert(a[j + h] * (-w) == -(a[j + h] * w)) by (nonlinear_arith);
        }
        assert(fold_diff(a, w) =~= combine(lo, hi, -w));
        lemma_eval_combine(lo, hi, -w, z);
        lemma_mul_mod_noop_general(-w, eh, p);
        lemma_add_mod_noop_right(eval(lo, z), (-w) * eh, p);
    }
}

/// The power of an output's point that reaches its block: the twiddle
/// factor of the block for an output in the lower half, its negative for
/// one in the upper half.
proof fn lemma_point_power(tw: Seq<int>, b: int, len: nat, j: int)
    requires
        squares_up(tw),
        is_pow2(len),
        len >= 2,
        0 <= j < len,
        table_covers(tw.len(), b, len),
    ensures
        j < len / 2 ==> pow(point(tw, b, len, j), len / 2) % modulus() == tw[b] % modulus(),
        j >= len / 2 ==> pow(point(tw, b, len, j), len / 2) % modulus() == (-tw[b]) % modulus(),
    decreases len,
{
    let p = modulus();
    let z = point(tw, b, len, j);
    if len == 2 {
        lemma_pow1(z);
        assert(len / 2 == 1);
        assert(pow(z, 1) == z);
        assert(z == if j == 0 { tw[b] } else { -tw[b] });
    } else {
        let h: nat = len / 2;
        let q: nat = h / 2;
        assert(2 * b + 2 <= tw.len() && table_covers(tw.len(), 2 * b, h) && table_covers(
            tw.len(),
            2 * b + 1,
            h,
        )) by (nonlinear_arith)
            requires
                (b + 1) * len <= 2 * tw.len(),
                len == 2 * h,
                h >= 2,
                b >= 0,
        ;
        let c = if j < h { 2 * b } else { 2 * b + 1 };
        let i = if j < h { j } else { j - h };
        assert(z == point(tw, c, h, i));
        lemma_point_power(tw, c, h, i);
        let r = pow(z, q);
        lemma_pow_adds(z, q, q);
        lemma_mul_mod_noop_general(r, r, p);
        let t = if i < q { tw[c] } else { -tw[c] };
        assert(r % p == t % p);
        lemma_mul_mod_noop_general(t, t, p);
        assert(t * t == tw[c] * tw[c]) by (nonlinear_arith)
            requires
                t == tw[c] || t == -tw[c],
        ;
        assert((tw[2 * b] * tw[2 * b]) % p == tw[b] % p);
        assert((tw[2 * b + 1] * tw[2 * b + 1]) % p == (-tw[b]) % p);
        assert(h == q + q);
        assert(pow(z, h) == r * r);
        assert((r * r) % p == ((r % p) * (r % p)) % p);
        assert(((t % p) * (t % p)) % p == (t * t) % p);
        assert(pow(z, h) % p == (tw[c] * tw[c]) % p);
        if j < h {
            assert(pow(z, h) % p == tw[b] % p);
        } else {
            assert(pow(z, h) % p == (-tw[b]) % p);
        }
    }
}

/// Every output of the forward transform of a block is the value of the
/// block's polynomial at the point that the table fixes for that output,
/// whenever the squares of the twiddle factors lead up the table.
pub proof fn lemma_ntt_is_evaluation(a: Seq<int>, b: int, tw: Seq<int>, j: int)
    requires
        all_in_field(a),
        is_pow2(a.len()),
        a.len() >= 2,
        squares_up(tw),
        table_covers(tw.len(), b, a.len()),
        0 <= j < a.len(),
    ensures
        ntt(a, b, tw)[j] == eval(a, point(tw, b, a.len(), j)),
    decreases a.len(),
{
    let p = modulus();
    let len = a.len();
    let h: nat = len / 2;
    let w = tw[b];
    let z = point(tw, b, len, j);
    let x = fold_sum(a, w);
    let y = fold_diff(a, w);
    lemma_ntt_len(x, 2 * b, tw);
    lemma_ntt_len(y, 2 * b + 1, tw);
    lemma_point_power(tw, b, len, j);
    lemma_eval_fold(a, w, z);
    if h == 1 {
        assert(ntt(x, 2 * b, tw) == x);
        assert(ntt(y, 2 * b + 1, tw) == y);
        assert(eval(x.drop_first(), z) == 0);
        assert(eval(y.drop_first(), z) == 0);
        assert(eval(x, z) == x[0]);
        assert(eval(y, z) == y[0]);
    } else {
        assert(table_covers(tw.len(), 2 * b, h) && table_covers(tw.len(), 2 * b + 1, h))
            by (nonlinear_arith)
            requires
                (b + 1) * len <= 2 * tw.len(),
                len == 2 * h,
                h >= 2,
                b >= 0,
        ;
        if j < h {
            lemma_ntt_is_evaluation(x, 2 * b, tw, j);
        } else {
            lemma_ntt_is_evaluation(y, 2 * b + 1, tw, j - h);
        }
    }
}

/// In the table that `precompute_forward_twiddles_for_fft` gives, the
/// squares of the twiddle factors lead up the table.
pub proof fn lemma_precomputed_table_squares_up(tw: Seq<GoldilocksField>, fft_size: u64)
    requires
        is_pow2(fft_size as nat),
        fft_size <= 0x1_0000_0000,
        is_twiddle_table(tw, root_word(fft_size), fft_size),
    ensures
        squares_up(values(tw)),
{
    let p = modulus();
    let n = fft_size as nat;
    let q: nat = n / 4;
    let w = root_word(fft_size) as int;
    let v = values(tw);
    assert forall|b: int| 0 <= b && 2 * b + 1 < v.len() implies (#[trigger] v[2 * b] * v[2 * b]) % p
        == v[b] % p && (v[2 * b + 1] * v[2 * b + 1]) % p == (-v[b]) % p by {
        assert(is_pow2(n / 2));
        assert(is_pow2(q));
        assert(n == 4 * q);
        lemma_root_of_unity(fft_size);
        let tb = twiddle_exponent(b as nat, q);
        let t0 = twiddle_exponent((2 * b) as nat, q);
        let t1 = twiddle_exponent((2 * b + 1) as nat, q);
        lemma_twiddle_exponent_bound(b as nat, q);
        lemma_twiddle_exponent_bound((2 * b) as nat, q);
        lemma_twiddle_exponent_bound((2 * b + 1) as nat, q);
        assert(is_pow2(1));
        assert(is_pow2(2));
        lemma_twiddle_exponent_multiple(b as nat, q, 2);
        assert(tb % 2 == 0);
        if b != 0 {
            let even: nat = (2 * b) as nat;
            assert(even / 2 == b as nat);
            assert((even % 2) * q == 0) by (nonlinear_arith)
                requires
                    even % 2 == 0,
            ;
            assert(t0 == tb / 2);
        }
        let odd: nat = (2 * b + 1) as nat;
        assert(odd / 2 == b as nat);
        assert((odd % 2) * q == q) by (nonlinear_arith)
            requires
                odd % 2 == 1,
        ;
        assert(t1 == tb / 2 + q);
        assert(2 * t0 == tb);
        assert(2 * t1 == tb + 2 * q);
        let x = pow(w, tb);
        let x0 = pow(w, t0);
        let x1 = pow(w, t1);
        assert(v[b] == x % p);
        assert(v[2 * b] == x0 % p);
        assert(v[2 * b + 1] == x1 % p);
        // the lower half
        lemma_mul_mod_noop_general(x0, x0, p);
        lemma_pow_adds(w, t0, t0);
        // the upper half
        lemma_mul_mod_noop_general(x1, x1, p);
        lemma_pow_adds(w, t1, t1);
        lemma_pow_adds(w, tb, 2 * q);
        let m = pow(w, 2 * q);
        assert(m % p == p - 1);
        lemma_mul_mod_noop_general(x, m, p);
        assert(x * (p - 1) == p * x + (-x)) by (nonlinear_arith);
        lemma_mod_multiples_vanish(x, -x, p);
        lemma_sub_mod_noop_right(0, x, p);
    }
}

/// Every output of the forward transform with the table that
/// `precompute_forward_twiddles_for_fft` gives is the value of the input
/// polynomial at the point that the table fixes for that output.
pub proof fn lemma_transform_evaluates(
    a: Seq<int>,
    tw: Seq<GoldilocksField>,
    fft_size: u64,
    j: int,
)
    requires
        all_in_field(a),
        a.len() == fft_size,
        fft_size >= 2,
        is_pow2(fft_size as nat),
        fft_size <= 0x1_0000_0000,
        is_twiddle_table(tw, root_word(fft_size), fft_size),
        0 <= j < a.len(),
    ensures
        ntt(a, 0, values(tw))[j] == eval(a, point(values(tw), 0, a.len(), j)),
{
    lemma_precomputed_table_squares_up(tw, fft_size);
    assert(table_covers(values(tw).len(), 0, a.len())) by (nonlinear_arith)
        requires
            a.len() == 2 * values(tw).len(),
    ;
    lemma_ntt_is_evaluation(a, 0, values(tw), j);
}

/// The point of output `j` read off the bottom of the table: the twiddle
/// factor of the pair that the output lies in, or its negative. `base` is
/// the number of the first pair below block `b`.
proof fn lemma_point_at_bottom(tw: Seq<int>, b: int, len: nat, j: int, base: int)
    requires
        is_pow2(len),
        len >= 2,
        0 <= j < len,
        base * 2 == b * len,
    ensures
        point(tw, b, len, j) == (if j % 2 == 0 {
            tw[base + j / 2]
        } else {
            -tw[base + j / 2]
        }),
    decreases len,
{
    if len == 2 {
        assert(base == b) by (nonlinear_arith)
            requires
                base * 2 == b * len,
                len == 2,
        ;
    } else {
        let h: nat = len / 2;
        let q: nat = h / 2;
        if j < h {
            assert(base * 2 == (2 * b) * h) by (nonlinear_arith)
                requires
                    base * 2 == b * len,
                    len == 2 * h,
            ;
            lemma_point_at_bottom(tw, 2 * b, h, j, base);
        } else {
            assert((base + q) * 2 == (2 * b + 1) * h) by (nonlinear_arith)
                requires
                    base * 2 == b * len,
                    len == 2 * h,
                    h == 2 * q,
            ;
            lemma_point_at_bottom(tw, 2 * b + 1, h, j - h, base + q);
        }
    }
}

/// The value of a polynomial depends on the point only up to multiples of
/// `p`.
proof fn lemma_eval_congruent(a: Seq<int>, z1: int, z2: int)
    requires
        z1 % modulus() == z2 % modulus(),
    ensures
        eval(a, z1) == eval(a, z2),
    decreases a.len(),
{
    let p = modulus();
    if a.len() != 0 {
        lemma_eval_congruent(a.drop_first(), z1, z2);
        let e = eval(a.drop_first(), z1);
        lemma_mul_mod_noop_general(z1, e, p);
        lemma_mul_mod_noop_general(z2, e, p);
        lemma_add_mod_noop_right(a[0], z1 * e, p);
        lemma_add_mod_noop_right(a[0], z2 * e, p);
    }
}

/// The value of a polynomial with every coefficient multiplied by `c` is
/// `c` times the value.
proof fn lemma_eval_scaled(s: Seq<int>, c: int, z: int)
    ensures
        eval(scale(s, c), z) == (c * eval(s, z)) % modulus(),
    decreases s.len(),
{
    let p = modulus();
    if s.len() != 0 {
        let rest = s.drop_first();
        assert(scale(s, c).drop_first() =~= scale(rest, c));
        lemma_eval_scaled(rest, c, z);
        let e = eval(rest, z);
        // left: ((s0 c) % p + z * ((c e) % p)) % p
        lemma_mul_mod_noop_general(z, c * e, p);
        lemma_add_mod_noop(s[0] * c, z * ((c * e) % p), p);
        lemma_add_mod_noop(s[0] * c, z * (c * e), p);
        // right: (c * ((s0 + z e) % p)) % p
        lemma_mul_mod_noop_general(c, s[0] + z * e, p);
        assert(s[0] * c + z * (c * e) == c * (s[0] + z * e)) by (nonlinear_arith);
    }
}

/// The value at `z` of a polynomial whose coefficient `i` was multiplied by
/// the `i`-th power of `c` is the value of the polynomial at `c * z`.
pub proof fn lemma_eval_coset(a: Seq<int>, c: int, z: int)
    ensures
        eval(coset_scale(a, c), z) == eval(a, c * z),
    decreases a.len(),
{
    let p = modulus();
    if a.len() != 0 {
        let rest = a.drop_first();
        let cs = coset_scale(a, c);
        let inner = coset_scale(rest, c);
        assert forall|i: int| 0 <= i < rest.len() implies cs.drop_first()[i] == scale(inner, c)[i] by {
            let e = i as nat;
            lemma_pow_adds(c, e, 1);
            lemma_pow1(c);
            lemma_mul_mod_noop_general(rest[i] * pow(c, e), c, p);
            assert(rest[i] * pow(c, e) * c == rest[i] * pow(c, e + 1)) by (nonlinear_arith)
                requires
                    pow(c, e + 1) == pow(c, e) * c,
            ;
        }
        assert(cs.drop_first() =~= scale(inner, c));
        lemma_eval_scaled(inner, c, z);
        lemma_eval_coset(rest, c, z);
        let e = eval(rest, c * z);
        lemma_pow0(c);
        assert(cs[0] == a[0] % p);
        // left: (a0 % p + z * ((c e) % p)) % p
        lemma_mul_mod_noop_general(z, c * e, p);
        lemma_add_mod_noop(a[0], z * ((c * e) % p), p);
        lemma_add_mod_noop(a[0], z * (c * e), p);
        assert(z * (c * e) == (c * z) * e) by (nonlinear_arith);
    }
}

/// The exponent of the root of unity at which output `j` of a transform of
/// `fft_size` elements is taken: the bits of `j` in reverse order.
pub open spec fn point_exponent(j: nat, fft_size: nat) -> nat {
    twiddle_exponent(j / 2, fft_size / 4) + (j % 2) * (fft_size / 2)
}

/// Every output of the forward transform on a coset, with the table that
/// `precompute_forward_twiddles_for_fft` gives, is the value of the input
/// polynomial at the coset generator times a power of the root of unity,
/// the powers taken in bit-reversed order.
pub proof fn lemma_transform_evaluates_on_coset(
    a: Seq<int>,
    coset: int,
    tw: Seq<GoldilocksField>,
    fft_size: u64,
    j: int,
)
    requires
        all_in_field(a),
        a.len() == fft_size,
        fft_size >= 2,
        is_pow2(fft_size as nat),
        fft_size <= 0x1_0000_0000,
        is_twiddle_table(tw, root_word(fft_size), fft_size),
        0 <= j < a.len(),
    ensures
        ntt(coset_scale(a, coset), 0, values(tw))[j] == eval(
            a,
            coset * pow(root_word(fft_size) as int, point_exponent(j as nat, fft_size as nat)),
        ),
{
    let p = modulus();
    let n = fft_size as nat;
    let v = values(tw);
    let w = root_word(fft_size) as int;
    let s = coset_scale(a, coset);
    lemma_transform_evaluates(s, tw, fft_size, j);
    lemma_point_at_bottom(v, 0, n, j, 0);
    let z = point(v, 0, n, j);
    lemma_eval_coset(a, coset, z);
    // the point is the power of the root, up to multiples of p
    let t = twiddle_exponent((j / 2) as nat, n / 4);
    lemma_twiddle_exponent_bound((j / 2) as nat, n / 4);
    assert(v[j / 2] == pow(w, t) % p);
    let e = point_exponent(j as nat, n);
    let target = pow(w, e);
    if j % 2 == 0 {
        assert((j as nat % 2) * (n / 2) == 0) by (nonlinear_arith)
            requires
                j as nat % 2 == 0,
        ;
        assert(e == t);
        lemma_mod_twice(pow(w, t), p);
    } else {
        assert((j as nat % 2) * (n / 2) == n / 2) by (nonlinear_arith)
            requires
                j as nat % 2 == 1,
        ;
        assert(e == t + n / 2);
        lemma_root_of_unity(fft_size);
        lemma_pow_adds(w, t, n / 2);
        let x = pow(w, t);
        let m = pow(w, n / 2);
        assert(m % p == p - 1);
        lemma_mul_mod_noop_general(x, m, p);
        assert(x * (p - 1) == p * x + (-x)) by (nonlinear_arith);
        lemma_mod_multiples_vanish(x, -x, p);
        lemma_sub_mod_noop_right(0, x, p);
        assert(z % p == target % p);
    }
    assert(z % p == target % p);
    lemma_mul_mod_noop_general(coset, z, p);
    lemma_mul_mod_noop_general(coset, target, p);
    lemma_eval_congruent(a, coset * z, coset * target);
}

} // verus!
