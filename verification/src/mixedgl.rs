//! A batch of sixteen field elements that are worked on together.
//!
//! Every operation acts on each lane as the routine of the same name in
//! `reduce` acts on one word, so a batch operation is specified lane by lane
//! through the word functions of that module.

use vstd::prelude::*;
use crate::field::GoldilocksField;
use crate::reduce::{
    add_lane, add_word, canonical, inv_word, modulus, mul_lane, mul_word, neg_lane, neg_word,
    pow_lane, reduce_lane, reduce_word, sub_lane, sub_word,
};
use crate::traits::{
    add_words, fill_words, inv_words, mul_words, neg_words, sub_words, PrimeFieldLike,
};

verus! {

/// Sixteen field elements, lane 0 first.
#[derive(Clone, Copy, Debug, PartialEq, Eq)]
pub struct MixedGL(pub [GoldilocksField; 16]);

impl Default for MixedGL {
    fn default() -> (r: Self)
        ensures
            forall|i: int| 0 <= i < 16 ==> r.lane(i) == 0,
    {
        MixedGL([GoldilocksField(0);16])
    }
}

impl MixedGL {
    /// Number of bits of `p`.
    pub const ORDER_BITS: usize = 64;

    /// The prime `p`.
    pub const ORDER: u64 = 0xFFFF_FFFF_0000_0001;

    /// The largest `k` such that `2^k` divides `p - 1`.
    pub const TWO_ADICITY: usize = 32;

    /// The odd part of `p - 1`.
    pub const T: u64 = 0xFFFF_FFFF;

    /// The constant `2^64 + 2^32` of Barrett reduction.
    pub const BARRETT: u128 = 0x1_0000_0001_0000_0000;

    /// `2^64 mod p`.
    pub const EPSILON: u64 = 0xFFFF_FFFF;

    /// Number of lanes in a batch.
    pub const SIZE_FACTOR: usize = 16;

    /// The word held in lane `i`.
    #[verifier::inline]
    pub open spec fn lane(&self, i: int) -> u64 {
        self.0[i].0
    }

    /// The sixteen words of the batch in lane order.
    pub open spec fn lanes(&self) -> Seq<u64> {
        Seq::new(16, |i: int| self.lane(i))
    }

    /// A batch of zeros.
    pub fn new() -> (r: Self)
        ensures
            forall|i: int| 0 <= i < 16 ==> r.lane(i) == 0,
    {
        MixedGL([GoldilocksField(0);16])
    }

    /// A batch with `value` in every lane.
    pub fn from_constant(value: GoldilocksField) -> (r: Self)
        ensures
            forall|i: int| 0 <= i < 16 ==> r.0[i] == value,
    {
        MixedGL([value;16])
    }

    /// The batch whose lanes are the elements of `value`, in order.
    pub fn from_array(value: [GoldilocksField; 16]) -> (r: Self)
        ensures
            r.0 == value,
    {
        MixedGL(value)
    }

    /// The batch whose lanes are the elements of `input`, in order.
    pub fn from_field_array(input: [GoldilocksField; 16]) -> (r: Self)
        ensures
            r.0 == input,
    {
        MixedGL(input)
    }

    /// Makes every lane canonical.
    pub fn to_reduced(&mut self) -> (r: &mut Self)
        ensures
            forall|i: int| 0 <= i < 16 ==> r.lane(i) == reduce_word(old(self).lane(i)),
            *final(self) == *final(r),
    {
        let mut i: usize = 0;
        while i < 16
            invariant
                0 <= i <= 16,
                forall|j: int| 0 <= j < i ==> self.lane(j) == reduce_word(old(self).lane(j)),
                forall|j: int| i <= j < 16 ==> self.lane(j) == old(self).lane(j),
            decreases 16 - i,
        {
            self.0[i] = GoldilocksField(reduce_lane(self.0[i].0));
            i += 1;
        }
        self
    }

    /// Multiplies every lane by the one element `other`.
    pub fn mul_constant_assign(&mut self, other: &GoldilocksField) -> (r: &mut Self)
        ensures
            forall|i: int| 0 <= i < 16 ==> r.lane(i) == mul_word(old(self).lane(i), other.0),
            *final(self) == *final(r),
    {
        let mut i: usize = 0;
        while i < 16
            invariant
                0 <= i <= 16,
                forall|j: int| 0 <= j < i ==> self.lane(j) == mul_word(old(self).lane(j), other.0),
                forall|j: int| i <= j < 16 ==> self.lane(j) == old(self).lane(j),
            decreases 16 - i,
        {
            self.0[i] = GoldilocksField(mul_lane(self.0[i].0, other.0));
            i += 1;
        }
        self
    }

    /// Multiplies lane by lane; every lane comes out canonical.
    fn mul_assign_impl(&mut self, other: &Self) -> (r: &mut Self)
        ensures
            forall|i: int| 0 <= i < 16 ==> r.lane(i) == mul_word(old(self).lane(i), other.lane(i)),
            *final(self) == *final(r),
    {
        let mut i: usize = 0;
        while i < 16
            invariant
                0 <= i <= 16,
                forall|j: int| 0 <= j < i ==> self.lane(j) == mul_word(old(self).lane(j), other.lane(j)),
                forall|j: int| i <= j < 16 ==> self.lane(j) == old(self).lane(j),
            decreases 16 - i,
        {
            self.0[i] = GoldilocksField(mul_lane(self.0[i].0, other.0[i].0));
            i += 1;
        }
        self
    }

    /// Adds lane by lane with the two-stage reduction of `add_lane`.
    fn add_assign_impl(&mut self, other: &Self) -> (r: &mut Self)
        ensures
            forall|i: int| 0 <= i < 16 ==> r.lane(i) == add_word(old(self).lane(i), other.lane(i)),
            *final(self) == *final(r),
    {
        let mut i: usize = 0;
        while i < 16
            invariant
                0 <= i <= 16,
                forall|j: int| 0 <= j < i ==> self.lane(j) == add_word(old(self).lane(j), other.lane(j)),
                forall|j: int| i <= j < 16 ==> self.lane(j) == old(self).lane(j),
            decreases 16 - i,
        {
            self.0[i] = GoldilocksField(add_lane(self.0[i].0, other.0[i].0));
            i += 1;
        }
        self
    }

    /// Subtracts lane by lane with the reduction of `sub_lane`.
    fn sub_assign_impl(&mut self, other: &Self) -> (r: &mut Self)
        ensures
            forall|i: int| 0 <= i < 16 ==> r.lane(i) == sub_word(old(self).lane(i), other.lane(i)),
            *final(self) == *final(r),
    {
        let mut i: usize = 0;
        while i < 16
            invariant
                0 <= i <= 16,
                forall|j: int| 0 <= j < i ==> self.lane(j) == sub_word(old(self).lane(j), other.lane(j)),
                forall|j: int| i <= j < 16 ==> self.lane(j) == old(self).lane(j),
            decreases 16 - i,
        {
            self.0[i] = GoldilocksField(sub_lane(self.0[i].0, other.0[i].0));
            i += 1;
        }
        self
    }
}

/// The word that a butterfly at distance `stride` leaves in lane `i` of a
/// run of lanes: lanes are taken in blocks of `2 * stride`; the first half of
/// a block receives the sums of the two halves and the second half their
/// differences, first half minus second.
#[verifier::inline]
pub open spec fn butterfly_word(lanes: Seq<u64>, stride: int, i: int) -> u64 {
    if (i / stride) % 2 == 0 {
        add_word(lanes[i], lanes[i + stride])
    } else {
        sub_word(lanes[i - stride], lanes[i])
    }
}

/// The words of a run of field elements.
pub open spec fn words_of(run: Seq<GoldilocksField>) -> Seq<u64> {
    Seq::new(run.len(), |i: int| run[i].0)
}

/// Whether the batches hold exactly the elements of `base`, sixteen to a
/// batch, in order.
pub open spec fn packs(base: Seq<GoldilocksField>, batches: Seq<MixedGL>) -> bool {
    &&& base.len() == 16 * batches.len()
    &&& forall|k: int, i: int|
        0 <= k < batches.len() && 0 <= i < 16 ==> (#[trigger] batches[k].0[i]) == base[16 * k + i]
}

/// The lanes of the batches laid out as one run, batch after batch.
pub open spec fn flat(batches: Seq<MixedGL>) -> Seq<GoldilocksField> {
    Seq::new(16 * batches.len(), |n: int| batches[n / 16].0[n % 16])
}

impl MixedGL {
    /// The butterfly within the batch at distance `stride`.
    fn butterfly_within(&mut self, stride: usize) -> (r: &mut Self)
        requires
            stride == 1 || stride == 2 || stride == 4,
        ensures
            forall|i: int|
                0 <= i < 16 ==> r.lane(i) == butterfly_word(old(self).lanes(), stride as int, i),
            *final(self) == *final(r),
    {
        let src = *self;
        let mut i: usize = 0;
        while i < 16
            invariant
                0 <= i <= 16,
                stride == 1 || stride == 2 || stride == 4,
                src == *old(self),
                forall|j: int|
                    0 <= j < i ==> self.lane(j) == butterfly_word(src.lanes(), stride as int, j),
            decreases 16 - i,
        {
            if (i / stride) % 2 == 0 {
                self.0[i] = GoldilocksField(add_lane(src.0[i].0, src.0[i + stride].0));
            } else {
                self.0[i] = GoldilocksField(sub_lane(src.0[i - stride].0, src.0[i].0));
            }
            i += 1;
        }
        self
    }

    /// Butterfly between neighbouring lanes: lanes `2k` and `2k + 1` become
    /// their sum and their difference.
    pub fn butterfly_1x1_impl(&mut self) -> (r: &mut Self)
        ensures
            forall|i: int| 0 <= i < 16 ==> r.lane(i) == butterfly_word(old(self).lanes(), 1, i),
            *final(self) == *final(r),
    {
        self.butterfly_within(1)
    }

    /// Butterfly between neighbouring pairs of lanes.
    pub fn butterfly_2x2_impl(&mut self) -> (r: &mut Self)
        ensures
            forall|i: int| 0 <= i < 16 ==> r.lane(i) == butterfly_word(old(self).lanes(), 2, i),
            *final(self) == *final(r),
    {
        self.butterfly_within(2)
    }

    /// Butterfly between neighbouring runs of four lanes.
    pub fn butterfly_4x4_impl(&mut self) -> (r: &mut Self)
        ensures
            forall|i: int| 0 <= i < 16 ==> r.lane(i) == butterfly_word(old(self).lanes(), 4, i),
            *final(self) == *final(r),
    {
        self.butterfly_within(4)
    }

    /// Butterfly between two separate runs of eight lanes: `this` becomes the
    /// lane-wise sum and `other` the lane-wise difference, `this` minus
    /// `other`. The two exclusive borrows keep the runs apart.
    pub fn butterfly_8x8_impl(this: &mut [GoldilocksField; 8], other: &mut [GoldilocksField; 8])
        ensures
            forall|i: int| 0 <= i < 8 ==> final(this)[i].0 == add_word(old(this)[i].0, old(other)[i].0),
            forall|i: int| 0 <= i < 8 ==> final(other)[i].0 == sub_word(old(this)[i].0, old(other)[i].0),
            forall|i: int|
                0 <= i < 8 ==> canonical(final(this)[i].0) == (canonical(old(this)[i].0) + canonical(
                    old(other)[i].0,
                )) % modulus(),
            forall|i: int|
                0 <= i < 8 ==> canonical(final(other)[i].0) == (canonical(old(this)[i].0) - canonical(
                    old(other)[i].0,
                )) % modulus(),
    {
        let mut i: usize = 0;
        while i < 8
            invariant
                0 <= i <= 8,
                forall|j: int| 0 <= j < i ==> this[j].0 == add_word(old(this)[j].0, old(other)[j].0),
                forall|j: int| 0 <= j < i ==> other[j].0 == sub_word(old(this)[j].0, old(other)[j].0),
                forall|j: int| i <= j < 8 ==> this[j] == old(this)[j],
                forall|j: int| i <= j < 8 ==> other[j] == old(other)[j],
            decreases 8 - i,
        {
            let u: u64 = this[i].0;
            let v: u64 = other[i].0;
            this[i] = GoldilocksField(add_lane(u, v));
            other[i] = GoldilocksField(sub_lane(u, v));
            i += 1;
        }
        assert forall|i: int| 0 <= i < 8 implies canonical(this[i].0) == (canonical(old(this)[i].0)
            + canonical(old(other)[i].0)) % modulus() && canonical(other[i].0) == (canonical(
            old(this)[i].0,
        ) - canonical(old(other)[i].0)) % modulus() by {
            crate::reduce::lemma_add_word(old(this)[i].0, old(other)[i].0);
            crate::reduce::lemma_sub_word(old(this)[i].0, old(other)[i].0);
        }
    }

    /// The eight lanes from `start` on, as a run of their own.
    pub(crate) fn take_half(&self, start: usize) -> (half: [GoldilocksField; 8])
        requires
            start == 0 || start == 8,
        ensures
            forall|i: int| 0 <= i < 8 ==> half[i] == self.0[start + i],
    {
        let mut half: [GoldilocksField; 8] = [GoldilocksField(0);8];
        let mut i: usize = 0;
        while i < 8
            invariant
                0 <= i <= 8,
                start == 0 || start == 8,
                forall|j: int| 0 <= j < i ==> half[j] == self.0[start + j],
            decreases 8 - i,
        {
            half[i] = self.0[start + i];
            i += 1;
        }
        half
    }

    /// Writes a run of eight lanes back from `start` on.
    pub(crate) fn put_half(&mut self, start: usize, half: &[GoldilocksField; 8])
        requires
            start == 0 || start == 8,
        ensures
            forall|i: int| start <= i < start + 8 ==> final(self).0[i] == half[i - start],
            forall|i: int| 0 <= i < 16 && !(start <= i < start + 8) ==> final(self).0[i] == old(self).0[i],
    {
        let mut i: usize = 0;
        while i < 8
            invariant
                0 <= i <= 8,
                start == 0 || start == 8,
                forall|j: int| start <= j < start + i ==> self.0[j] == half[j - start],
                forall|j: int| 0 <= j < 16 && !(start <= j < start + 8) ==> self.0[j] == old(self).0[j],
            decreases 8 - i,
        {
            self.0[start + i] = half[i];
            i += 1;
        }
    }

    /// Butterfly between two separate batches, done as two butterflies of
    /// eight lanes: `this` becomes the lane-wise sum and `other` the
    /// lane-wise difference, `this` minus `other`.
    pub fn butterfly_16x16_impl(this: &mut MixedGL, other: &mut MixedGL)
        ensures
            forall|i: int|
                0 <= i < 16 ==> final(this).lane(i) == add_word(old(this).lane(i), old(other).lane(i)),
            forall|i: int|
                0 <= i < 16 ==> final(other).lane(i) == sub_word(old(this).lane(i), old(other).lane(i)),
            forall|i: int|
                0 <= i < 16 ==> canonical(final(this).lane(i)) == (canonical(old(this).lane(i))
                    + canonical(old(other).lane(i))) % modulus(),
            forall|i: int|
                0 <= i < 16 ==> canonical(final(other).lane(i)) == (canonical(old(this).lane(i))
                    - canonical(old(other).lane(i))) % modulus(),
    {
        let mut u: [GoldilocksField; 8] = this.take_half(0);
        let mut v: [GoldilocksField; 8] = other.take_half(0);
        Self::butterfly_8x8_impl(&mut u, &mut v);
        this.put_half(0, &u);
        other.put_half(0, &v);
        let ghost u_low = u;
        let ghost v_low = v;
        let mut u: [GoldilocksField; 8] = this.take_half(8);
        let mut v: [GoldilocksField; 8] = other.take_half(8);
        Self::butterfly_8x8_impl(&mut u, &mut v);
        this.put_half(8, &u);
        other.put_half(8, &v);
        assert forall|i: int| 0 <= i < 16 implies this.lane(i) == add_word(
            old(this).lane(i),
            old(other).lane(i),
        ) && other.lane(i) == sub_word(old(this).lane(i), old(other).lane(i)) by {
            if i < 8 {
                assert(this.0[i] == u_low[i]);
                assert(other.0[i] == v_low[i]);
            } else {
                assert(this.0[i] == u[i - 8]);
                assert(other.0[i] == v[i - 8]);
            }
        }
        assert forall|i: int| 0 <= i < 16 implies canonical(this.lane(i)) == (canonical(
            old(this).lane(i),
        ) + canonical(old(other).lane(i))) % modulus() && canonical(other.lane(i)) == (canonical(
            old(this).lane(i),
        ) - canonical(old(other).lane(i))) % modulus() by {
            crate::reduce::lemma_add_word(old(this).lane(i), old(other).lane(i));
            crate::reduce::lemma_sub_word(old(this).lane(i), old(other).lane(i));
        }
    }

    /// Adds `b` to `a` batch by batch, over as many batches as both hold;
    /// the rest of `a` stays.
    pub fn vec_add_assign(a: &mut [Self], b: &[Self])
        ensures
            final(a)@.len() == old(a)@.len(),
            forall|k: int, i: int|
                0 <= k < old(a)@.len() && k < b@.len() && 0 <= i < 16 ==> (#[trigger] final(a)@[k].0[i]).0
                    == add_word(old(a)@[k].lane(i), b@[k].lane(i)),
            forall|k: int| b@.len() <= k < old(a)@.len() ==> final(a)@[k] == old(a)@[k],
    {
        let n: usize = if a.len() < b.len() { a.len() } else { b.len() };
        let mut k: usize = 0;
        while k < n
            invariant
                0 <= k <= n,
                n <= b@.len(),
                n <= a@.len(),
                n == b@.len() || n == a@.len(),
                a@.len() == old(a)@.len(),
                forall|j: int, i: int|
                    0 <= j < k && 0 <= i < 16 ==> (#[trigger] a@[j].0[i]).0 == add_word(
                        old(a)@[j].lane(i),
                        b@[j].lane(i),
                    ),
                forall|j: int| k <= j < a@.len() ==> a@[j] == old(a)@[j],
            decreases n - k,
        {
            let mut t: MixedGL = a[k];
            t.add_assign_impl(&b[k]);
            a[k] = t;
            k += 1;
        }
    }

    /// Multiplies `a` by `b` batch by batch, over as many batches as both
    /// hold; the rest of `a` stays.
    pub fn vec_mul_assign(a: &mut [Self], b: &[Self])
        ensures
            final(a)@.len() == old(a)@.len(),
            forall|k: int, i: int|
                0 <= k < old(a)@.len() && k < b@.len() && 0 <= i < 16 ==> (#[trigger] final(a)@[k].0[i]).0
                    == mul_word(old(a)@[k].lane(i), b@[k].lane(i)),
            forall|k: int| b@.len() <= k < old(a)@.len() ==> final(a)@[k] == old(a)@[k],
    {
        let n: usize = if a.len() < b.len() { a.len() } else { b.len() };
        let mut k: usize = 0;
        while k < n
            invariant
                0 <= k <= n,
                n <= b@.len(),
                n <= a@.len(),
                n == b@.len() || n == a@.len(),
                a@.len() == old(a)@.len(),
                forall|j: int, i: int|
                    0 <= j < k && 0 <= i < 16 ==> (#[trigger] a@[j].0[i]).0 == mul_word(
                        old(a)@[j].lane(i),
                        b@[j].lane(i),
                    ),
                forall|j: int| k <= j < a@.len() ==> a@[j] == old(a)@[j],
            decreases n - k,
        {
            let mut t: MixedGL = a[k];
            t.mul_assign_impl(&b[k]);
            a[k] = t;
            k += 1;
        }
    }

    /// Whether every lane stands for the additive identity.
    pub fn is_zero(&self) -> (r: bool)
        ensures
            r == (forall|i: int| 0 <= i < 16 ==> canonical(self.lane(i)) == 0),
    {
        let mut i: usize = 0;
        while i < 16
            invariant
                0 <= i <= 16,
                forall|j: int| 0 <= j < i ==> canonical(self.lane(j)) == 0,
            decreases 16 - i,
        {
            if reduce_lane(self.0[i].0) != 0 {
                return false;
            }
            i += 1;
        }
        true
    }

    /// Whether the two batches stand for the same field element in every lane.
    pub fn equals(&self, other: &Self) -> (r: bool)
        ensures
            r == (forall|i: int| 0 <= i < 16 ==> canonical(self.lane(i)) == canonical(other.lane(i))),
    {
        let mut i: usize = 0;
        while i < 16
            invariant
                0 <= i <= 16,
                forall|j: int| 0 <= j < i ==> canonical(self.lane(j)) == canonical(other.lane(j)),
            decreases 16 - i,
        {
            if reduce_lane(self.0[i].0) != reduce_lane(other.0[i].0) {
                return false;
            }
            i += 1;
        }
        true
    }

    /// Multiplies every lane by the one element `other`.
    pub fn mul_all_by_base(&mut self, other: &GoldilocksField, _ctx: &mut ()) -> (r: &mut Self)
        ensures
            forall|i: int| 0 <= i < 16 ==> r.lane(i) == mul_word(old(self).lane(i), other.0),
            *final(self) == *final(r),
    {
        self.mul_constant_assign(other)
    }
}

impl MixedGL {
    /// Gathers a run of field elements into batches, sixteen to a batch, in
    /// order. The run must hold at least one batch and no partial one.
    pub fn slice_from_base_slice(input: &[GoldilocksField]) -> (r: Vec<MixedGL>)
        requires
            input@.len() >= 16,
            input@.len() % 16 == 0,
        ensures
            packs(input@, r@),
    {
        let n: usize = input.len() / 16;
        let mut out: Vec<MixedGL> = Vec::new();
        let mut k: usize = 0;
        while k < n
            invariant
                0 <= k <= n,
                n * 16 == input@.len(),
                n * 16 <= usize::MAX,
                out@.len() == k,
                forall|j: int, i: int|
                    0 <= j < k && 0 <= i < 16 ==> (#[trigger] out@[j].0[i]) == input@[16 * j + i],
            decreases n - k,
        {
            let mut batch: MixedGL = MixedGL::new();
            let mut i: usize = 0;
            while i < 16
                invariant
                    0 <= i <= 16,
                    0 <= k < n,
                    n * 16 == input@.len(),
                n * 16 <= usize::MAX,
                    forall|l: int| 0 <= l < i ==> batch.0[l] == input@[16 * k + l],
                decreases 16 - i,
            {
                batch.0[i] = input[16 * k + i];
                i += 1;
            }
            out.push(batch);
            k += 1;
        }
        out
    }

    /// As `slice_from_base_slice`, but tells a run that is too short or
    /// holds a partial batch by returning nothing.
    pub fn checked_slice_from_base_slice(input: &[GoldilocksField]) -> (r: Option<Vec<MixedGL>>)
        ensures
            r.is_some() <==> input@.len() >= 16 && input@.len() % 16 == 0,
            r.is_some() ==> packs(input@, r.unwrap()@),
    {
        if input.len() < 16 || input.len() % 16 != 0 {
            None
        } else {
            Some(Self::slice_from_base_slice(input))
        }
    }

    /// Lays the lanes of the batches out as one run of field elements, in
    /// order.
    pub fn slice_into_base_slice(input: &[MixedGL]) -> (r: Vec<GoldilocksField>)
        ensures
            packs(r@, input@),
    {
        let mut out: Vec<GoldilocksField> = Vec::new();
        let mut k: usize = 0;
        while k < input.len()
            invariant
                0 <= k <= input@.len(),
                out@.len() == 16 * k,
                forall|j: int, i: int|
                    0 <= j < k && 0 <= i < 16 ==> (#[trigger] input@[j].0[i]) == out@[16 * j + i],
            decreases input@.len() - k,
        {
            let mut i: usize = 0;
            while i < 16
                invariant
                    0 <= i <= 16,
                    0 <= k < input@.len(),
                    out@.len() == 16 * k + i,
                    forall|j: int, l: int|
                        0 <= j < k && 0 <= l < 16 ==> (#[trigger] input@[j].0[l]) == out@[16 * j + l],
                    forall|l: int| 0 <= l < i ==> input@[k as int].0[l] == out@[16 * k + l],
                decreases 16 - i,
            {
                out.push(input[k].0[i]);
                i += 1;
            }
            k += 1;
        }
        out
    }

    /// Gathers an owned run of field elements into batches. The run must
    /// hold at least one batch and no partial one.
    pub fn vec_from_base_vec(input: Vec<GoldilocksField>) -> (r: Vec<MixedGL>)
        requires
            input@.len() >= 16,
            input@.len() % 16 == 0,
        ensures
            packs(input@, r@),
    {
        Self::slice_from_base_slice(input.as_slice())
    }

    /// Lays the lanes of owned batches out as one run of field elements.
    pub fn vec_into_base_vec(input: Vec<MixedGL>) -> (r: Vec<GoldilocksField>)
        ensures
            packs(r@, input@),
    {
        Self::slice_into_base_slice(input.as_slice())
    }
}

/// The run that some batches pack is their lanes laid out in order.
pub proof fn lemma_packs_flat(base: Seq<GoldilocksField>, batches: Seq<MixedGL>)
    requires
        packs(base, batches),
    ensures
        base == flat(batches),
{
    assert forall|n: int| 0 <= n < base.len() implies base[n] == flat(batches)[n] by {
        let k = n / 16;
        let i = n % 16;
        assert(batches[k].0[i] == base[16 * k + i]);
    }
    assert(base =~= flat(batches));
}

/// Packing a run into batches and unpacking the batches gives back the run.
pub proof fn lemma_pack_unpack(base: Seq<GoldilocksField>, batches: Seq<MixedGL>, back: Seq<GoldilocksField>)
    requires
        packs(base, batches),
        packs(back, batches),
    ensures
        back == base,
{
    assert forall|n: int| 0 <= n < base.len() implies back[n] == base[n] by {
        let k = n / 16;
        let i = n % 16;
        assert(batches[k].0[i] == base[16 * k + i]);
        assert(batches[k].0[i] == back[16 * k + i]);
    }
    assert(back =~= base);
}

/// Unpacking batches into a run and packing the run gives back the batches.
pub proof fn lemma_unpack_pack(batches: Seq<MixedGL>, base: Seq<GoldilocksField>, back: Seq<MixedGL>)
    requires
        packs(base, batches),
        packs(base, back),
    ensures
        back == batches,
{
    assert forall|k: int| 0 <= k < batches.len() implies back[k] == batches[k] by {
        assert forall|i: int| 0 <= i < 16 implies back[k].0[i] == batches[k].0[i] by {
            assert(batches[k].0[i] == base[16 * k + i]);
            assert(back[k].0[i] == base[16 * k + i]);
        }
        assert(back[k].0 =~= batches[k].0);
    }
    assert(back =~= batches);
}

/// Each lane that a butterfly leaves stands for the field sum, or the field
/// difference, of the two lanes it was taken from.
pub proof fn lemma_butterfly_word(lanes: Seq<u64>, stride: int, i: int)
    requires
        stride > 0,
    ensures
        (i / stride) % 2 == 0 ==> canonical(butterfly_word(lanes, stride, i)) == (canonical(lanes[i])
            + canonical(lanes[i + stride])) % modulus(),
        (i / stride) % 2 != 0 ==> canonical(butterfly_word(lanes, stride, i)) == (canonical(
            lanes[i - stride],
        ) - canonical(lanes[i])) % modulus(),
{
    crate::reduce::lemma_add_word(lanes[i], lanes[i + stride]);
    crate::reduce::lemma_sub_word(lanes[i - stride], lanes[i]);
}

impl PrimeFieldLike for MixedGL {
    type Base = GoldilocksField;

    type Context = ();

    open spec fn width() -> nat {
        16
    }

    open spec fn words(&self) -> Seq<u64> {
        self.lanes()
    }

    open spec fn base_word(base: GoldilocksField) -> u64 {
        base.0
    }

    fn zero(_ctx: &mut ()) -> (r: Self) {
        let r = MixedGL([GoldilocksField(0);16]);
        assert(r.words() =~= fill_words(16, 0));
        r
    }

    fn one(_ctx: &mut ()) -> (r: Self) {
        let r = MixedGL([GoldilocksField(1);16]);
        assert(r.words() =~= fill_words(16, 1));
        r
    }

    fn minus_one(_ctx: &mut ()) -> (r: Self) {
        let r = MixedGL([GoldilocksField(0xFFFF_FFFF_0000_0000);16]);
        assert(r.words() =~= fill_words(16, 0xFFFF_FFFF_0000_0000));
        r
    }

    fn constant(value: GoldilocksField, _ctx: &mut ()) -> (r: Self) {
        let r = MixedGL([value;16]);
        assert(r.words() =~= fill_words(16, value.0));
        r
    }

    fn add_assign(&mut self, other: &Self, _ctx: &mut ()) -> (r: &mut Self)
        ensures
            forall|i: int| 0 <= i < 16 ==> r.lane(i) == add_word(old(self).lane(i), other.lane(i)),
            forall|i: int|
                0 <= i < 16 ==> canonical(r.lane(i)) == (canonical(old(self).lane(i)) + canonical(
                    other.lane(i),
                )) % modulus(),
    {
        let r = self.add_assign_impl(other);
        assert forall|i: int| 0 <= i < 16 implies canonical(r.lane(i)) == (canonical(
            old(self).lane(i),
        ) + canonical(other.lane(i))) % modulus() by {
            crate::reduce::lemma_add_word(old(self).lane(i), other.lane(i));
        }
        assert(r.words() =~= add_words(old(self).words(), other.words()));
        r
    }

    fn sub_assign(&mut self, other: &Self, _ctx: &mut ()) -> (r: &mut Self)
        ensures
            forall|i: int| 0 <= i < 16 ==> r.lane(i) == sub_word(old(self).lane(i), other.lane(i)),
            forall|i: int|
                0 <= i < 16 ==> canonical(r.lane(i)) == (canonical(old(self).lane(i)) - canonical(
                    other.lane(i),
                )) % modulus(),
    {
        let r = self.sub_assign_impl(other);
        assert forall|i: int| 0 <= i < 16 implies canonical(r.lane(i)) == (canonical(
            old(self).lane(i),
        ) - canonical(other.lane(i))) % modulus() by {
            crate::reduce::lemma_sub_word(old(self).lane(i), other.lane(i));
        }
        assert(r.words() =~= sub_words(old(self).words(), other.words()));
        r
    }

    fn mul_assign(&mut self, other: &Self, _ctx: &mut ()) -> (r: &mut Self)
        ensures
            forall|i: int| 0 <= i < 16 ==> r.lane(i) == mul_word(old(self).lane(i), other.lane(i)),
            forall|i: int|
                0 <= i < 16 ==> canonical(r.lane(i)) == (canonical(old(self).lane(i)) * canonical(
                    other.lane(i),
                )) % modulus(),
    {
        let r = self.mul_assign_impl(other);
        assert forall|i: int| 0 <= i < 16 implies canonical(r.lane(i)) == (canonical(
            old(self).lane(i),
        ) * canonical(other.lane(i))) % modulus() by {
            crate::reduce::lemma_mul_word(old(self).lane(i), other.lane(i));
        }
        assert(r.words() =~= mul_words(old(self).words(), other.words()));
        r
    }

    fn square(&mut self, _ctx: &mut ()) -> (r: &mut Self)
        ensures
            forall|i: int| 0 <= i < 16 ==> r.lane(i) == mul_word(old(self).lane(i), old(self).lane(i)),
    {
        let t = *self;
        let r = self.mul_assign_impl(&t);
        assert(r.words() =~= mul_words(old(self).words(), old(self).words()));
        r
    }

    fn negate(&mut self, _ctx: &mut ()) -> (r: &mut Self)
        ensures
            forall|i: int| 0 <= i < 16 ==> r.lane(i) == neg_word(old(self).lane(i)),
            forall|i: int|
                0 <= i < 16 ==> r.lane(i) as int == (modulus() - canonical(old(self).lane(i)))
                    % modulus(),
            forall|i: int|
                0 <= i < 16 ==> (canonical(old(self).lane(i)) + canonical(r.lane(i))) % modulus()
                    == 0,
    {
        let mut i: usize = 0;
        while i < 16
            invariant
                0 <= i <= 16,
                forall|j: int| 0 <= j < i ==> self.lane(j) == neg_word(old(self).lane(j)),
                forall|j: int| i <= j < 16 ==> self.lane(j) == old(self).lane(j),
            decreases 16 - i,
        {
            self.0[i] = GoldilocksField(neg_lane(self.0[i].0));
            i += 1;
        }
        assert(self.words() =~= neg_words(old(self).words()));
        assert forall|i: int| 0 <= i < 16 implies self.lane(i) as int == (modulus() - canonical(
            old(self).lane(i),
        )) % modulus() && (canonical(old(self).lane(i)) + canonical(self.lane(i))) % modulus()
            == 0 by {
            crate::reduce::lemma_neg_word(old(self).lane(i));
        }
        self
    }

    fn double(&mut self, _ctx: &mut ()) -> (r: &mut Self)
        ensures
            forall|i: int| 0 <= i < 16 ==> r.lane(i) == add_word(old(self).lane(i), old(self).lane(i)),
    {
        let t = *self;
        let r = self.add_assign_impl(&t);
        assert(r.words() =~= add_words(old(self).words(), old(self).words()));
        r
    }

    fn inverse(&self, _ctx: &mut ()) -> (r: Self)
        ensures
            forall|i: int| 0 <= i < 16 ==> r.lane(i) == inv_word(self.lane(i)),
    {
        let mut result = *self;
        let mut i: usize = 0;
        while i < 16
            invariant
                0 <= i <= 16,
                forall|j: int| 0 <= j < i ==> result.lane(j) == inv_word(self.lane(j)),
                forall|j: int| i <= j < 16 ==> result.lane(j) == self.lane(j),
            decreases 16 - i,
        {
            result.0[i] = GoldilocksField(pow_lane(result.0[i].0, 0xFFFF_FFFE_FFFF_FFFF));
            i += 1;
        }
        assert(result.words() =~= inv_words(self.words()));
        result
    }
}

} // verus!
