use goldilocks_field::field::GoldilocksField;
use goldilocks_field::poseidon2::{AbsorptionMode, Poseidon2Goldilocks};

const P: u64 = 0xFFFF_FFFF_0000_0001;

#[test]
fn initial_state_is_zero() {
    let state = Poseidon2Goldilocks.initial_state();
    for i in 0..12 {
        assert_eq!(state[i].0, 0);
    }
    assert_eq!(Poseidon2Goldilocks, Poseidon2Goldilocks::default());
}

#[test]
fn length_goes_to_the_last_element() {
    let mut state = Poseidon2Goldilocks.initial_state();
    state[3] = GoldilocksField(5);
    Poseidon2Goldilocks.specialize_for_len(77, &mut state);
    assert_eq!(state[11].0, 77);
    assert_eq!(state[3].0, 5);
    assert_eq!(state[10].0, 0);
}

#[test]
fn absorb_by_overwrite_and_by_addition() {
    let sponge = Poseidon2Goldilocks;
    let mut state: [GoldilocksField; 12] = core::array::from_fn(|i| GoldilocksField(100 + i as u64));
    let input: [GoldilocksField; 8] = core::array::from_fn(|i| GoldilocksField(P - 1 - i as u64));
    sponge.absorb_into_state(&mut state, &input, AbsorptionMode::Addition);
    for i in 0..8u64 {
        assert_eq!(state[i as usize].0, 100 + i - 1 - i);
    }
    for i in 8..12u64 {
        assert_eq!(state[i as usize].0, 100 + i);
    }
    sponge.absorb_into_state(&mut state, &input, AbsorptionMode::Overwrite);
    for i in 0..8u64 {
        assert_eq!(state[i as usize].0, P - 1 - i);
    }
    for i in 8..12u64 {
        assert_eq!(state[i as usize].0, 100 + i);
    }
}

#[test]
fn commitment_is_the_head_of_the_state() {
    let sponge = Poseidon2Goldilocks;
    let state: [GoldilocksField; 12] = core::array::from_fn(|i| GoldilocksField(7 * i as u64 + 1));
    let four = sponge.state_get_commitment(&state);
    assert_eq!(four.map(|x| x.0), [1, 8, 15, 22]);
    let six: [GoldilocksField; 6] = sponge.state_into_commitment_fixed::<6>(&state);
    assert_eq!(six.map(|x| x.0), [1, 8, 15, 22, 29, 36]);
    let eight: [GoldilocksField; 8] = Poseidon2Goldilocks::state_into_commitment::<8>(&state);
    assert_eq!(eight.map(|x| x.0), [1, 8, 15, 22, 29, 36, 43, 50]);
    let none: [GoldilocksField; 0] = Poseidon2Goldilocks::state_into_commitment::<0>(&state);
    assert_eq!(none.len(), 0);
}
