use goldilocks_field::field::GoldilocksField;
use goldilocks_field::mixedgl::MixedGL;
use goldilocks_field::traits::PrimeFieldLike;
use rand::Rng;

const P: u64 = 0xFFFF_FFFF_0000_0001;

fn rand_from_rng<R: Rng>(rng: &mut R) -> GoldilocksField {
    GoldilocksField(rng.gen_range(0..P))
}

// Words from ORDER up to, not including, u64::MAX, drawn by a shift
// generator that starts from a random seed.
fn draw_above_order(seed: u64, n: usize) -> Vec<GoldilocksField> {
    let span = u64::MAX - GoldilocksField::ORDER;
    let mut state = seed;
    let mut out = Vec::with_capacity(n);
    while out.len() < n {
        state ^= state << 13;
        state ^= state >> 7;
        state ^= state << 17;
        out.push(GoldilocksField(GoldilocksField::ORDER + state % span));
    }
    out
}

fn raw(batch: &MixedGL) -> Vec<u64> {
    batch.0.iter().map(|x| x.0).collect()
}

fn reference(a: u64, b: u64, op: u8) -> u64 {
    let p = P as u128;
    let x = (a as u128) % p;
    let y = (b as u128) % p;
    let r = match op {
        0 => (x + y) % p,
        1 => (x + p - y) % p,
        _ => (x * y) % p,
    };
    r as u64
}

#[test]
fn test_mixedgl_negate() {
    let mut ctx = ();
    const POLY_SIZE: usize = 1 << 20;
    let mut rng = rand::thread_rng();

    let a: Vec<GoldilocksField> = (0..POLY_SIZE).map(|_| rand_from_rng(&mut rng)).collect();

    let mut ag = a.clone();

    for aa in ag.iter_mut() {
        aa.negate();
    }

    let mut av: Vec<MixedGL> = MixedGL::vec_from_base_vec(a.clone());

    for aa in av.iter_mut() {
        aa.negate(&mut ctx);
    }

    assert_eq!(MixedGL::vec_into_base_vec(av), ag);
}

#[test]
fn test_mixedgl_add_assign() {
    let mut ctx = ();
    const POLY_SIZE: usize = 1 << 24;
    let mut rng = rand::thread_rng();

    let b: Vec<GoldilocksField> = draw_above_order(rng.gen_range(1..u64::MAX), POLY_SIZE);
    let a: Vec<GoldilocksField> = draw_above_order(rng.gen_range(1..u64::MAX), POLY_SIZE);

    let mut ag = a.clone();
    let bg = b.clone();

    for (aa, bb) in ag.iter_mut().zip(bg.iter()) {
        aa.add_assign(bb);
    }

    let mut av: Vec<MixedGL> = MixedGL::vec_from_base_vec(a.clone());
    let bv: Vec<MixedGL> = MixedGL::vec_from_base_vec(b.clone());

    for (aa, bb) in av.iter_mut().zip(bv.iter()) {
        aa.add_assign(bb, &mut ctx);
    }

    let avv = MixedGL::vec_into_base_vec(av);

    assert_eq!(avv, ag);
}

#[test]
fn test_mixedgl_sub_assign() {
    let mut ctx = ();
    const POLY_SIZE: usize = 1 << 20;

    let a: Vec<GoldilocksField> = (0..POLY_SIZE)
        .map(|_| GoldilocksField(0x0000000000000001))
        .collect();
    let b: Vec<GoldilocksField> = (0..POLY_SIZE)
        .map(|_| GoldilocksField(0x0000000001000000))
        .collect();

    let mut ag = a.clone();
    let bg = b.clone();

    for (aa, bb) in ag.iter_mut().zip(bg.iter()) {
        aa.sub_assign(bb);
    }

    let mut av: Vec<MixedGL> = MixedGL::vec_from_base_vec(a.clone());
    let bv: Vec<MixedGL> = MixedGL::vec_from_base_vec(b.clone());

    for (aa, bb) in av.iter_mut().zip(bv.iter()) {
        aa.sub_assign(bb, &mut ctx);
    }

    assert_eq!(ag, MixedGL::vec_into_base_vec(av));
}

#[test]
fn test_mixedgl_mul_assign() {
    let mut ctx = ();
    const POLY_SIZE: usize = 1 << 20;
    let mut rng = rand::thread_rng();

    let a: Vec<GoldilocksField> = (0..POLY_SIZE).map(|_| rand_from_rng(&mut rng)).collect();
    let b: Vec<GoldilocksField> = (0..POLY_SIZE).map(|_| rand_from_rng(&mut rng)).collect();

    let mut ag = a.clone();
    let bg = b.clone();

    for (aa, bb) in ag.iter_mut().zip(bg.iter()) {
        aa.mul_assign(bb);
    }

    let mut av: Vec<MixedGL> = MixedGL::vec_from_base_vec(a.clone());
    let bv: Vec<MixedGL> = MixedGL::vec_from_base_vec(b.clone());

    for (aa, bb) in av.iter_mut().zip(bv.iter()) {
        aa.mul_assign(bb, &mut ctx);
    }

    assert_eq!(ag, MixedGL::vec_into_base_vec(av));
}

#[test]
fn test_mixedgl_butterfly16x16() {
    let am: [u64; 32] = [
        0x0001000000000000,
        0x0000000000000001,
        0x0001000000000000,
        0x0000000000000001,
        0x0000000000000000,
        0xffffffff00000000,
        0x0000000000000001,
        0x0000ffffffffffff,
        0x0000000000000000,
        0x0001000000000000,
        0xffffffff00000000,
        0xffffffff00000000,
        0xffffffff00000000,
        0xfffeffff00000001,
        0xfffeffff00000002,
        0xfffeffff00000002,
        0x0000000000000000,
        0xffffffff01000001,
        0x0000000000000000,
        0x0000010000ffff00,
        0xfffffeff00000101,
        0xfffffffeff000001,
        0x000000ffffffff00,
        0xfffffeff01000101,
        0x0000000000000000,
        0xfffffeff00000101,
        0xfffffffeff000001,
        0xffffffff01000001,
        0x000000fffeffff00,
        0x0000000000000000,
        0xffffffff01000001,
        0x000000ffffffff00,
    ];

    let a: Vec<GoldilocksField> = am.into_iter().map(GoldilocksField).collect();

    let mut ag = a.clone();
    let distance_in_cache = 16;

    let mut j = 0;
    while j < 16 {
        let mut u = ag[j];
        let v = ag[j + distance_in_cache];
        u.sub_assign(&v);
        ag[j + distance_in_cache] = u;
        ag[j].add_assign(&v);

        j += 1;
    }

    let mut av: Vec<MixedGL> = MixedGL::vec_from_base_vec(a.clone());

    {
        let (low, high) = av.split_at_mut(1);
        MixedGL::butterfly_16x16_impl(&mut low[0], &mut high[0]);
    }

    let ag = MixedGL::vec_from_base_vec(ag);

    assert_eq!(ag, av);
}

#[test]
fn butterfly16x16_exact_words() {
    let mut u = MixedGL::from_constant(GoldilocksField(5));
    let mut v = MixedGL::from_constant(GoldilocksField(7));
    u.0[3] = GoldilocksField(u64::MAX);
    v.0[3] = GoldilocksField(P + 2);
    MixedGL::butterfly_16x16_impl(&mut u, &mut v);
    for i in 0..16 {
        if i == 3 {
            // (2^64 - 1) + 2 leaves the left operand's surplus in place
            assert_eq!(u.0[i].0, 0xFFFF_FFFFu64 + 1);
            assert_eq!(v.0[i].0, u64::MAX - 2);
        } else {
            assert_eq!(u.0[i].0, 12);
            assert_eq!(v.0[i].0, P - 2);
        }
    }
}

#[test]
fn batch_arithmetic_on_arbitrary_words() {
    let mut ctx = ();
    let samples: [u64; 10] = [
        0,
        1,
        0xFFFF_FFFF,
        0x1_0000_0000,
        P - 1,
        P,
        P + 1,
        u64::MAX - 1,
        u64::MAX,
        0x1234_5678_9ABC_DEF0,
    ];
    for &a in samples.iter() {
        for &b in samples.iter() {
            let x = MixedGL::from_constant(GoldilocksField(a));
            let y = MixedGL::from_constant(GoldilocksField(b));

            let mut s = x;
            s.add_assign(&y, &mut ctx);
            let mut d = x;
            d.sub_assign(&y, &mut ctx);
            let mut m = x;
            m.mul_assign(&y, &mut ctx);
            for i in 0..16 {
                assert_eq!(s.0[i].to_reduced_u64(), reference(a, b, 0));
                assert_eq!(d.0[i].to_reduced_u64(), reference(a, b, 1));
                assert_eq!(m.0[i].0, reference(a, b, 2));
            }
        }
    }
}

#[test]
fn to_reduced_makes_lanes_canonical() {
    let mut x = MixedGL::new();
    x.0[0] = GoldilocksField(P);
    x.0[1] = GoldilocksField(P + 5);
    x.0[2] = GoldilocksField(u64::MAX);
    x.0[3] = GoldilocksField(P - 1);
    x.0[4] = GoldilocksField(17);
    x.to_reduced();
    let got = raw(&x);
    assert_eq!(&got[..6], &[0, 5, 0xFFFF_FFFE, P - 1, 17, 0]);
}

#[test]
fn negate_twice_gives_the_same_element() {
    let mut ctx = ();
    let words: [u64; 16] = [
        0,
        1,
        2,
        P - 1,
        P,
        P + 1,
        u64::MAX,
        0xFFFF_FFFF,
        0x1_0000_0000,
        77,
        P - 77,
        0x8000_0000_0000_0000,
        3,
        P + 3,
        u64::MAX - 1,
        12345,
    ];
    let start = MixedGL::from_array(words.map(GoldilocksField));
    let mut x = start;
    x.negate(&mut ctx);
    assert_eq!(x.0[0].0, 0);
    assert_eq!(x.0[1].0, P - 1);
    assert_eq!(x.0[3].0, 1);
    assert_eq!(x.0[4].0, 0);
    assert_eq!(x.0[5].0, P - 1);
    assert_eq!(x.0[6].0, P - 0xFFFF_FFFE);
    assert_eq!(x.0[13].0, P - 3);
    for i in 0..16 {
        let sum = (x.0[i].0 as u128 + (words[i] % P) as u128) % (P as u128);
        assert_eq!(sum, 0);
    }
    x.negate(&mut ctx);
    assert!(x.equals(&start));
    let mut canonical = start;
    canonical.to_reduced();
    assert_eq!(raw(&x), raw(&canonical));
    for i in 0..16 {
        assert_eq!(x.0[i].0, words[i] % P);
    }
}

#[test]
fn negate_takes_the_element_not_the_word() {
    let mut ctx = ();
    let mut x = MixedGL::from_constant(GoldilocksField(0xffffffff00000002));
    x.negate(&mut ctx);
    assert_eq!(raw(&x), vec![0xffffffff00000000u64; 16]);
    let mut y = MixedGL::from_constant(GoldilocksField(P + 4));
    y.negate(&mut ctx);
    let mut s = GoldilocksField(P + 4);
    s.negate();
    assert_eq!(raw(&y), vec![s.0; 16]);
    assert_eq!(s.0, P - 4);
    let mut one_lane = GoldilocksField(P + 4);
    PrimeFieldLike::negate(&mut one_lane, &mut ctx);
    assert_eq!(one_lane.0, P - 4);
}

#[test]
fn negate_zero_is_zero() {
    let mut ctx = ();
    let mut z = MixedGL::zero(&mut ctx);
    z.negate(&mut ctx);
    assert_eq!(raw(&z), vec![0u64; 16]);
    assert!(z.is_zero());
    let mut s = GoldilocksField(0);
    s.negate();
    assert_eq!(s.0, 0);
}

#[test]
fn butterflies_within_a_batch() {
    let words: [u64; 16] = [
        3,
        P - 1,
        u64::MAX,
        P,
        0,
        1,
        0xFFFF_FFFF_0000_0000,
        0x1_0000_0000,
        9,
        8,
        7,
        6,
        P + 9,
        5,
        4,
        P - 2,
    ];
    let start = MixedGL::from_array(words.map(GoldilocksField));
    for stride in [1usize, 2, 4] {
        let mut x = start;
        match stride {
            1 => {
                x.butterfly_1x1_impl();
            }
            2 => {
                x.butterfly_2x2_impl();
            }
            _ => {
                x.butterfly_4x4_impl();
            }
        }
        for i in 0..16 {
            if (i / stride) % 2 == 0 {
                let mut u = start.0[i];
                u.add_assign(&start.0[i + stride]);
                assert_eq!(x.0[i].0, u.0);
                assert_eq!(x.0[i].to_reduced_u64(), reference(words[i], words[i + stride], 0));
            } else {
                let mut u = start.0[i - stride];
                u.sub_assign(&start.0[i]);
                assert_eq!(x.0[i].0, u.0);
                assert_eq!(x.0[i].to_reduced_u64(), reference(words[i - stride], words[i], 1));
            }
        }
    }
}

#[test]
fn butterfly_1x1_exact_words() {
    let mut x = MixedGL::from_constant(GoldilocksField(10));
    x.0[1] = GoldilocksField(4);
    x.0[2] = GoldilocksField(1);
    x.0[3] = GoldilocksField(2);
    x.butterfly_1x1_impl();
    assert_eq!(x.0[0].0, 14);
    assert_eq!(x.0[1].0, 6);
    assert_eq!(x.0[2].0, 3);
    assert_eq!(x.0[3].0, P - 1);
    assert_eq!(x.0[4].0, 20);
    assert_eq!(x.0[5].0, 0);
}

#[test]
fn butterfly_8x8_on_two_runs() {
    let mut u = [1u64, 2, 3, 4, P - 1, P, u64::MAX, 0].map(GoldilocksField);
    let mut v = [5u64, 1, 3, P + 1, 1, 1, 1, 0].map(GoldilocksField);
    let u0 = u;
    let v0 = v;
    MixedGL::butterfly_8x8_impl(&mut u, &mut v);
    for i in 0..8 {
        assert_eq!(u[i].to_reduced_u64(), reference(u0[i].0, v0[i].0, 0));
        assert_eq!(v[i].to_reduced_u64(), reference(u0[i].0, v0[i].0, 1));
    }
    assert_eq!(u[0].0, 6);
    assert_eq!(v[0].0, P - 4);
    assert_eq!(u[4].0, 0);
    assert_eq!(v[4].0, P - 2);
}

#[test]
fn pack_then_unpack_is_identity() {
    let base: Vec<GoldilocksField> = (0..48u64).map(|i| GoldilocksField(i * 1000 + 1)).collect();
    let batches = MixedGL::vec_from_base_vec(base.clone());
    assert_eq!(batches.len(), 3);
    assert_eq!(batches[1].0[2].0, 18 * 1000 + 1);
    let back = MixedGL::vec_into_base_vec(batches.clone());
    assert_eq!(back.len(), 48);
    for i in 0..48 {
        assert_eq!(back[i].0, base[i].0);
    }
    let again = MixedGL::slice_from_base_slice(&back);
    assert_eq!(again, batches);
    let flat = MixedGL::slice_into_base_slice(&again);
    assert_eq!(flat, base);
}

#[test]
fn short_or_ragged_run_is_refused() {
    let short: Vec<GoldilocksField> = (0..15u64).map(GoldilocksField).collect();
    assert!(MixedGL::checked_slice_from_base_slice(&short).is_none());
    let empty: Vec<GoldilocksField> = Vec::new();
    assert!(MixedGL::checked_slice_from_base_slice(&empty).is_none());
    let ragged: Vec<GoldilocksField> = (0..17u64).map(GoldilocksField).collect();
    assert!(MixedGL::checked_slice_from_base_slice(&ragged).is_none());
    let exact: Vec<GoldilocksField> = (0..16u64).map(GoldilocksField).collect();
    let got = MixedGL::checked_slice_from_base_slice(&exact);
    assert!(got.is_some());
    assert_eq!(raw(&got.unwrap()[0]), (0..16u64).collect::<Vec<u64>>());
}

#[test]
fn constructors_fill_every_lane() {
    let mut ctx = ();
    assert_eq!(raw(&MixedGL::new()), vec![0u64; 16]);
    assert_eq!(raw(&MixedGL::default()), vec![0u64; 16]);
    assert_eq!(raw(&MixedGL::from_constant(GoldilocksField(9))), vec![9u64; 16]);
    assert_eq!(raw(&MixedGL::zero(&mut ctx)), vec![0u64; 16]);
    assert_eq!(raw(&MixedGL::one(&mut ctx)), vec![1u64; 16]);
    assert_eq!(raw(&MixedGL::minus_one(&mut ctx)), vec![P - 1; 16]);
    assert_eq!(raw(&MixedGL::constant(GoldilocksField(4), &mut ctx)), vec![4u64; 16]);
    let arr: [GoldilocksField; 16] = core::array::from_fn(|i| GoldilocksField(i as u64));
    assert_eq!(raw(&MixedGL::from_array(arr)), (0..16u64).collect::<Vec<u64>>());
    assert_eq!(raw(&MixedGL::from_field_array(arr)), (0..16u64).collect::<Vec<u64>>());
    assert_eq!(MixedGL::ORDER, P);
    assert_eq!(MixedGL::EPSILON, 0xFFFF_FFFF);
    assert_eq!(MixedGL::T, (P - 1) >> 32);
    assert_eq!(MixedGL::BARRETT, 18446744078004518912u128);
    assert_eq!(MixedGL::SIZE_FACTOR, 16);
}

#[test]
fn vec_operations_stop_at_the_shorter_run() {
    let mut a = vec![MixedGL::from_constant(GoldilocksField(3)); 3];
    let b = vec![MixedGL::from_constant(GoldilocksField(P - 1)); 2];
    MixedGL::vec_add_assign(&mut a, &b);
    assert_eq!(raw(&a[0]), vec![2u64; 16]);
    assert_eq!(raw(&a[1]), vec![2u64; 16]);
    assert_eq!(raw(&a[2]), vec![3u64; 16]);
    MixedGL::vec_mul_assign(&mut a, &b);
    assert_eq!(raw(&a[0]), vec![P - 2; 16]);
    assert_eq!(raw(&a[1]), vec![P - 2; 16]);
    assert_eq!(raw(&a[2]), vec![3u64; 16]);
}

#[test]
fn batch_multiplication_by_one_element() {
    let mut ctx = ();
    let arr: [GoldilocksField; 16] = core::array::from_fn(|i| GoldilocksField(i as u64 + P));
    let mut x = MixedGL::from_array(arr);
    x.mul_constant_assign(&GoldilocksField(1 << 32));
    for i in 0..16u64 {
        assert_eq!(x.0[i as usize].0, reference(i, 1 << 32, 2));
    }
    let mut y = MixedGL::from_constant(GoldilocksField(1 << 32));
    y.mul_all_by_base(&GoldilocksField(1 << 32), &mut ctx);
    assert_eq!(raw(&y), vec![0xFFFF_FFFFu64; 16]);
}

#[test]
fn batch_square_double_inverse() {
    let mut ctx = ();
    let arr: [GoldilocksField; 16] = core::array::from_fn(|i| GoldilocksField(i as u64 * 7919 + 2));
    let x = MixedGL::from_array(arr);
    let mut sq = x;
    sq.square(&mut ctx);
    let mut dbl = x;
    dbl.double(&mut ctx);
    let inv = x.inverse(&mut ctx);
    let mut prod = inv;
    prod.mul_assign(&x, &mut ctx);
    for i in 0..16 {
        assert_eq!(sq.0[i].0, reference(arr[i].0, arr[i].0, 2));
        assert_eq!(dbl.0[i].0, reference(arr[i].0, arr[i].0, 0));
        assert_eq!(prod.0[i].0, 1);
    }
}

#[test]
fn zero_test_and_equality_go_by_the_element() {
    let mut z = MixedGL::new();
    z.0[5] = GoldilocksField(P);
    assert!(z.is_zero());
    assert!(z.equals(&MixedGL::new()));
    z.0[6] = GoldilocksField(P + 1);
    assert!(!z.is_zero());
    assert!(!z.equals(&MixedGL::new()));
    let mut one_at_six = MixedGL::new();
    one_at_six.0[6] = GoldilocksField(1);
    assert!(z.equals(&one_at_six));
}
