use goldilocks_field::fft::{is_power_of_two, twiddles_match, HALF};
use goldilocks_field::field::GoldilocksField;
use goldilocks_field::mixedgl::MixedGL;
use goldilocks_field::reduce::{mul_lane, pow_lane};

const P: u64 = 0xFFFF_FFFF_0000_0001;

fn mulmod(a: u64, b: u64) -> u64 {
    ((a as u128 * b as u128) % (P as u128)) as u64
}

fn powmod(a: u64, mut e: u64) -> u64 {
    let mut acc: u64 = 1;
    let mut sq = a % P;
    while e > 0 {
        if e & 1 == 1 {
            acc = mulmod(acc, sq);
        }
        sq = mulmod(sq, sq);
        e >>= 1;
    }
    acc
}

fn bit_reverse(mut i: usize, bits: u32) -> usize {
    let mut r = 0;
    for _ in 0..bits {
        r = (r << 1) | (i & 1);
        i >>= 1;
    }
    r
}

fn sample(n: usize, seed: u64) -> Vec<GoldilocksField> {
    let mut state = seed;
    (0..n)
        .map(|_| {
            state = state.wrapping_mul(6364136223846793005).wrapping_add(1442695040888963407);
            GoldilocksField(state)
        })
        .collect()
}

#[test]
fn half_is_the_inverse_of_two() {
    assert_eq!(HALF, (P + 1) / 2);
    assert_eq!(mul_lane(HALF, 2), 1);
}

#[test]
fn forward_twiddles_exact() {
    let mut ctx = ();
    let tw = MixedGL::precompute_forward_twiddles_for_fft(32, &mut ctx);
    assert_eq!(tw.len(), 16);
    assert_eq!(tw[0].0, 1);
    assert_eq!(tw[1].0, 281474976710656);
    assert_eq!(tw[2].0, 18446744069397807105);
    assert_eq!(tw[3].0, 18446742969902956801);
    let omega = powmod(7, (P - 1) / 32);
    assert_eq!(omega, 70368744161280);
    let order = [0u64, 8, 4, 12, 2, 10, 6, 14, 1, 9, 5, 13, 3, 11, 7, 15];
    for b in 0..16 {
        assert_eq!(tw[b].0, powmod(omega, order[b]));
        assert_eq!(order[b] as usize, bit_reverse(b, 4));
    }
    assert_eq!(MixedGL::precompute_forward_twiddles_for_fft(1, &mut ctx).len(), 0);
    let two = MixedGL::precompute_forward_twiddles_for_fft(2, &mut ctx);
    assert_eq!(two.len(), 1);
    assert_eq!(two[0].0, 1);
}

#[test]
fn root_of_the_largest_transform() {
    assert_eq!(pow_lane(7, (P - 1) >> 32), 1753635133440165772);
    assert_eq!(pow_lane(1753635133440165772, 1 << 31), P - 1);
}

#[test]
fn twiddle_tables_match() {
    let mut ctx = ();
    for log in [1u32, 4, 5, 10] {
        let n = 1usize << log;
        let tw = MixedGL::precompute_forward_twiddles_for_fft(n, &mut ctx);
        let itw = MixedGL::precompute_inverse_twiddles_for_fft(n, &mut ctx);
        assert_eq!(tw.len(), n / 2);
        assert_eq!(itw.len(), n / 2);
        for b in 0..n / 2 {
            assert_eq!(mul_lane(tw[b].0, itw[b].0), 1);
        }
    }
}

#[test]
fn forward_transform_evaluates_at_the_roots() {
    let mut ctx = ();
    for log in [4u32, 5, 7] {
        let n = 1usize << log;
        let coeffs = sample(n, 11 + log as u64);
        let tw = MixedGL::precompute_forward_twiddles_for_fft(n, &mut ctx);
        let omega = powmod(7, (P - 1) / n as u64);
        for coset in [1u64, 7, P + 3] {
            let mut buf = MixedGL::vec_from_base_vec(coeffs.clone());
            MixedGL::fft_natural_to_bitreversed(&mut buf, GoldilocksField(coset), &tw, &mut ctx);
            let got = MixedGL::vec_into_base_vec(buf);
            for i in 0..n {
                let k = bit_reverse(i, log) as u64;
                let point = mulmod(coset % P, powmod(omega, k));
                let mut want: u64 = 0;
                for j in (0..n).rev() {
                    want = ((mulmod(want, point) as u128 + (coeffs[j].0 % P) as u128)
                        % (P as u128)) as u64;
                }
                assert_eq!(got[i].to_reduced_u64(), want);
            }
        }
    }
}

#[test]
fn forward_transform_exact_words() {
    let mut ctx = ();
    let coeffs: Vec<GoldilocksField> = (1..=16u64).map(GoldilocksField).collect();
    let tw = MixedGL::precompute_forward_twiddles_for_fft(16, &mut ctx);
    let mut buf = MixedGL::vec_from_base_vec(coeffs.clone());
    MixedGL::fft_natural_to_bitreversed(&mut buf, GoldilocksField(1), &tw, &mut ctx);
    assert_eq!(buf[0].0[0].0, 136);
    assert_eq!(buf[0].0[1].0, 18446744069414584313);
    assert_eq!(buf[0].0[2].0, 18444492269600899065);
    assert_eq!(buf[0].0[3].0, 2251799813685240);
    let mut shifted = MixedGL::vec_from_base_vec(coeffs);
    MixedGL::fft_natural_to_bitreversed(&mut shifted, GoldilocksField(7), &tw, &mut ctx);
    assert_eq!(shifted[0].0[0].0, 87698011225336);
    assert_eq!(shifted[0].0[1].0, 18446677084288904969);
    assert_eq!(shifted[0].0[2].0, 3740326673134451798);
}

#[test]
fn inverse_transform_undoes_forward_transform() {
    let mut ctx = ();
    for log in [4u32, 5, 6, 10] {
        let n = 1usize << log;
        let tw = MixedGL::precompute_forward_twiddles_for_fft(n, &mut ctx);
        let itw = MixedGL::precompute_inverse_twiddles_for_fft(n, &mut ctx);
        for coset in [1u64, 7, 0x1234_5678_9ABC_DEF0, u64::MAX] {
            let coeffs = sample(n, log as u64 + coset);
            let mut buf = MixedGL::vec_from_base_vec(coeffs.clone());
            MixedGL::fft_natural_to_bitreversed(&mut buf, GoldilocksField(coset), &tw, &mut ctx);
            MixedGL::ifft_natural_to_natural(&mut buf, GoldilocksField(coset), &itw, &mut ctx);
            let back = MixedGL::vec_into_base_vec(buf);
            assert_eq!(back, coeffs);
            for i in 0..n {
                assert_eq!(back[i].0, coeffs[i].0 % P);
            }
        }
    }
}

#[test]
fn larger_table_serves_smaller_transform() {
    let mut ctx = ();
    let tw = MixedGL::precompute_forward_twiddles_for_fft(64, &mut ctx);
    let itw = MixedGL::precompute_inverse_twiddles_for_fft(64, &mut ctx);
    let coeffs = sample(16, 99);
    let mut buf = MixedGL::vec_from_base_vec(coeffs.clone());
    MixedGL::fft_natural_to_bitreversed(&mut buf, GoldilocksField(3), &tw, &mut ctx);
    MixedGL::ifft_natural_to_natural(&mut buf, GoldilocksField(3), &itw, &mut ctx);
    assert_eq!(MixedGL::vec_into_base_vec(buf), coeffs);
}

#[test]
fn powers_of_two_are_told_apart() {
    assert!(is_power_of_two(1));
    assert!(is_power_of_two(2));
    assert!(is_power_of_two(16));
    assert!(is_power_of_two(1 << 20));
    assert!(!is_power_of_two(0));
    assert!(!is_power_of_two(3));
    assert!(!is_power_of_two(48));
    assert!(!is_power_of_two((1 << 20) + 2));
}

#[test]
fn matching_tables_are_recognised() {
    let mut ctx = ();
    let tw = MixedGL::precompute_forward_twiddles_for_fft(64, &mut ctx);
    let itw = MixedGL::precompute_inverse_twiddles_for_fft(64, &mut ctx);
    assert!(twiddles_match(&tw, &itw));
    assert!(!twiddles_match(&tw, &tw));
    let shorter = MixedGL::precompute_inverse_twiddles_for_fft(32, &mut ctx);
    assert!(!twiddles_match(&tw, &shorter));
    let mut wrong = itw.clone();
    wrong[5] = GoldilocksField(wrong[5].0 ^ 1);
    assert!(!twiddles_match(&tw, &wrong));
}

#[test]
fn inverse_transform_exact_words() {
    let mut ctx = ();
    let itw = MixedGL::precompute_inverse_twiddles_for_fft(16, &mut ctx);
    // the transform of the constant polynomial 5 holds 5 everywhere
    let mut flat = MixedGL::vec_from_base_vec(vec![GoldilocksField(5); 16]);
    MixedGL::ifft_natural_to_natural(&mut flat, GoldilocksField(1), &itw, &mut ctx);
    let got = MixedGL::vec_into_base_vec(flat);
    assert_eq!(got[0].0, 5);
    for i in 1..16 {
        assert_eq!(got[i].0, 0);
    }
    // the transform of x holds the sixteen roots; on the coset of 7 they are 7 times the roots
    let omega = powmod(7, (P - 1) / 16);
    let points: Vec<GoldilocksField> = (0..16)
        .map(|i| GoldilocksField(mulmod(7, powmod(omega, bit_reverse(i, 4) as u64))))
        .collect();
    let mut buf = MixedGL::vec_from_base_vec(points);
    MixedGL::ifft_natural_to_natural(&mut buf, GoldilocksField(7), &itw, &mut ctx);
    let got = MixedGL::vec_into_base_vec(buf);
    for i in 0..16 {
        assert_eq!(got[i].0, if i == 1 { 1 } else { 0 });
    }
}

#[test]
fn roots_of_unity_have_their_order() {
    assert_eq!(pow_lane(7, (P - 1) / 2), P - 1);
    assert_eq!(pow_lane(7, P - 1), 1);
    for log in 1..=32u32 {
        let n: u64 = 1 << log;
        let root = pow_lane(7, (P - 1) / n);
        assert_eq!(pow_lane(root, n), 1);
        assert_eq!(pow_lane(root, n / 2), P - 1);
        assert_eq!(mul_lane(root, pow_lane(root, P - 2)), 1);
    }
    assert_eq!(mul_lane(7, pow_lane(7, P - 2)), 1);
    assert_eq!(pow_lane(1, P - 2), 1);
}

#[test]
fn twiddle_squares_lead_up_the_table() {
    let mut ctx = ();
    let tw = MixedGL::precompute_forward_twiddles_for_fft(256, &mut ctx);
    for b in 0..64 {
        assert_eq!(mul_lane(tw[2 * b].0, tw[2 * b].0), tw[b].0);
        assert_eq!(mul_lane(tw[2 * b + 1].0, tw[2 * b + 1].0), (P - tw[b].0) % P);
    }
}
