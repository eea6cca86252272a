//! The sponge state of the Poseidon2 hash over the Goldilocks field: how
//! input is absorbed into the twelve-element state and how a commitment is
//! read from it. The permutation itself is not part of this crate.

use vstd::prelude::*;
use crate::field::GoldilocksField;
use crate::reduce::{add_lane, add_word};

verus! {

/// How absorbed elements meet the state.
#[derive(Clone, Copy, Debug, PartialEq, Eq)]
pub enum AbsorptionMode {
    /// The absorbed element replaces the state element.
    Overwrite,
    /// The absorbed element is added to the state element.
    Addition,
}

/// The parameter-free Poseidon2 sponge: rate 8, width 12, commitment 4.
#[derive(Clone, Copy, Debug, PartialEq, Eq, Hash, Default)]
pub struct Poseidon2Goldilocks;

impl Poseidon2Goldilocks {
    /// The all-zero state.
    pub fn initial_state(&self) -> (state: [GoldilocksField; 12])
        ensures
            forall|i: int| 0 <= i < 12 ==> state[i].0 == 0,
    {
        [GoldilocksField(0);12]
    }

    /// Records the input length in the last element of the state.
    pub fn specialize_for_len(&self, len: u32, state: &mut [GoldilocksField; 12])
        ensures
            final(state)[11].0 == len,
            forall|i: int| 0 <= i < 11 ==> final(state)[i] == old(state)[i],
    {
        state[11] = GoldilocksField::from_nonreduced_u64(len as u64);
    }

    /// Takes eight elements into the first eight of the state, by
    /// replacement or by field addition; the last four stay.
    pub fn absorb_into_state(
        &self,
        state: &mut [GoldilocksField; 12],
        to_absorb: &[GoldilocksField; 8],
        mode: AbsorptionMode,
    )
        ensures
            mode == AbsorptionMode::Overwrite ==> forall|i: int|
                0 <= i < 8 ==> final(state)[i] == to_absorb[i],
            mode == AbsorptionMode::Addition ==> forall|i: int|
                0 <= i < 8 ==> final(state)[i].0 == add_word(old(state)[i].0, to_absorb[i].0),
            forall|i: int| 8 <= i < 12 ==> final(state)[i] == old(state)[i],
    {
        match mode {
            AbsorptionMode::Overwrite => {
                let mut i: usize = 0;
                while i < 8
                    invariant
                        0 <= i <= 8,
                        forall|j: int| 0 <= j < i ==> state[j] == to_absorb[j],
                        forall|j: int| 8 <= j < 12 ==> state[j] == old(state)[j],
                    decreases 8 - i,
                {
                    state[i] = to_absorb[i];
                    i += 1;
                }
            },
            AbsorptionMode::Addition => {
                let mut i: usize = 0;
                while i < 8
                    invariant
                        0 <= i <= 8,
                        forall|j: int|
                            0 <= j < i ==> state[j].0 == add_word(old(state)[j].0, to_absorb[j].0),
                        forall|j: int| i <= j < 12 ==> state[j] == old(state)[j],
                    decreases 8 - i,
                {
                    state[i] = GoldilocksField(add_lane(state[i].0, to_absorb[i].0));
                    i += 1;
                }
            },
        }
    }

    /// The commitment held by a state: its first four elements.
    pub fn state_get_commitment(&self, state: &[GoldilocksField; 12]) -> (r: [GoldilocksField; 4])
        ensures
            forall|i: int| 0 <= i < 4 ==> r[i] == state[i],
    {
        [state[0], state[1], state[2], state[3]]
    }

    /// The first `N` elements of a state, for `N` up to the rate.
    pub fn state_into_commitment_fixed<const N: usize>(&self, state: &[GoldilocksField; 12]) -> (r:
        [GoldilocksField; N])
        requires
            N <= 8,
        ensures
            forall|i: int| 0 <= i < N ==> r[i] == state[i],
    {
        let mut result: [GoldilocksField; N] = [GoldilocksField(0);N];
        let mut i: usize = 0;
        while i < N
            invariant
                0 <= i <= N,
                N <= 8,
                forall|j: int| 0 <= j < i ==> result[j] == state[j],
            decreases N - i,
        {
            result[i] = state[i];
            i += 1;
        }
        result
    }

    /// The first `N` elements of a state, for `N` up to the rate.
    pub fn state_into_commitment<const N: usize>(state: &[GoldilocksField; 12]) -> (r: [GoldilocksField; N])
        requires
            N <= 8,
        ensures
            forall|i: int| 0 <= i < N ==> r[i] == state[i],
    {
        Poseidon2Goldilocks.state_into_commitment_fixed::<N>(state)
    }
}

} // verus!
