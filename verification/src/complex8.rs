//! Eight complex values held as two rows of lanes.

use vstd::prelude::*;
use crate::scalar::{
    is_difference, is_norm_sqr, is_product, is_quotient, is_scaled, is_sum, is_unscaled,
    tells_less, tells_within, Scalar,
};

verus! {

/// Eight pairs of a real and an imaginary part, stored as the eight real
/// parts followed by the eight imaginary parts. Lane `i` of `re` and lane
/// `i` of `im` belong together.
#[derive(Clone, Copy, Debug)]
pub struct Complex8<T> {
    pub re: [T; 8],
    pub im: [T; 8],
}

impl<T> View for Complex8<T> {
    type V = Seq<(T, T)>;

    /// The eight values in lane order.
    open spec fn view(&self) -> Seq<(T, T)> {
        Seq::new(8, |i: int| (self.re[i], self.im[i]))
    }
}

/// The batch made of eight values: value `i` goes to lane `i`.
pub open spec fn packed<T>(arr: [(T, T); 8]) -> Complex8<T> {
    Complex8 {
        re: [arr[0].0, arr[1].0, arr[2].0, arr[3].0, arr[4].0, arr[5].0, arr[6].0, arr[7].0],
        im: [arr[0].1, arr[1].1, arr[2].1, arr[3].1, arr[4].1, arr[5].1, arr[6].1, arr[7].1],
    }
}

/// The eight values of a batch: lane `i` becomes value `i`.
pub open spec fn unpacked<T>(batch: Complex8<T>) -> [(T, T); 8] {
    [
        (batch.re[0], batch.im[0]),
        (batch.re[1], batch.im[1]),
        (batch.re[2], batch.im[2]),
        (batch.re[3], batch.im[3]),
        (batch.re[4], batch.im[4]),
        (batch.re[5], batch.im[5]),
        (batch.re[6], batch.im[6]),
        (batch.re[7], batch.im[7]),
    ]
}

impl<T: Copy> Complex8<T> {
    /// The batch that holds `c` in every lane.
    pub fn from_complex(c: (T, T)) -> (batch: Self)
        ensures
            forall|i: int| 0 <= i < 8 ==> #[trigger] batch.re[i] == c.0,
            forall|i: int| 0 <= i < 8 ==> #[trigger] batch.im[i] == c.1,
    {
        Complex8 { re: [c.0;8], im: [c.1;8] }
    }

    /// Applies `op` to each lane by itself: lane `i` of the result is what
    /// `op` gives for lane `i` of the batch. No lane is treated otherwise
    /// than the others.
    pub fn map<F: Fn((T, T)) -> (T, T)>(self, op: F) -> (out: Complex8<T>)
        requires
            forall|lane: int| 0 <= lane < 8 ==> call_requires(op, (#[trigger] self@[lane],)),
        ensures
            forall|lane: int|
                0 <= lane < 8 ==> call_ensures(op, (self@[lane],), #[trigger] out@[lane]),
    {
        let mut re = self.re;
        let mut im = self.im;
        let mut lane: usize = 0;
        while lane < 8
            invariant
                lane <= 8,
                forall|k: int| 0 <= k < 8 ==> call_requires(op, (#[trigger] self@[k],)),
                forall|k: int|
                    0 <= k < lane ==> call_ensures(op, (self@[k],), (#[trigger] re[k], im[k])),
            decreases 8 - lane,
        {
            assert(self@[lane as int] == (self.re[lane as int], self.im[lane as int]));
            let value = op((self.re[lane], self.im[lane]));
            re[lane] = value.0;
            im[lane] = value.1;
            lane += 1;
        }
        let out = Complex8 { re, im };
        assert forall|k: int| 0 <= k < 8 implies call_ensures(
            op,
            (self@[k],),
            #[trigger] out@[k],
        ) by {
            assert(out@[k] == (re[k], im[k]));
        }
        out
    }

    /// Applies `op` to each pair of lanes by itself: lane `i` of the result
    /// is what `op` gives for lane `i` of the batch and lane `i` of `other`.
    pub fn zip_with<F: Fn((T, T), (T, T)) -> (T, T)>(self, other: Complex8<T>, op: F) -> (out:
        Complex8<T>)
        requires
            forall|lane: int|
                0 <= lane < 8 ==> call_requires(op, (#[trigger] self@[lane], other@[lane])),
        ensures
            forall|lane: int|
                0 <= lane < 8 ==> call_ensures(
                    op,
                    (self@[lane], other@[lane]),
                    #[trigger] out@[lane],
                ),
    {
        let mut re = self.re;
        let mut im = self.im;
        let mut lane: usize = 0;
        while lane < 8
            invariant
                lane <= 8,
                forall|k: int|
                    0 <= k < 8 ==> call_requires(op, (#[trigger] self@[k], other@[k])),
                forall|k: int|
                    0 <= k < lane ==> call_ensures(
                        op,
                        (self@[k], other@[k]),
                        (#[trigger] re[k], im[k]),
                    ),
            decreases 8 - lane,
        {
            assert(self@[lane as int] == (self.re[lane as int], self.im[lane as int]));
            assert(other@[lane as int] == (other.re[lane as int], other.im[lane as int]));
            let value = op((self.re[lane], self.im[lane]), (other.re[lane], other.im[lane]));
            re[lane] = value.0;
            im[lane] = value.1;
            lane += 1;
        }
        let out = Complex8 { re, im };
        assert forall|k: int| 0 <= k < 8 implies call_ensures(
            op,
            (self@[k], other@[k]),
            #[trigger] out@[k],
        ) by {
            assert(out@[k] == (re[k], im[k]));
        }
        out
    }
}

impl<T: Scalar> Complex8<T> {
    /// Adds two batches lane by lane.
    pub fn plus(self, other: Complex8<T>) -> (out: Complex8<T>)
        ensures
            forall|lane: int|
                0 <= lane < 8 ==> is_sum(self@[lane], other@[lane], #[trigger] out@[lane]),
    {
        self.zip_with(other, T::plus)
    }

    /// Subtracts `other` from the batch lane by lane.
    pub fn minus(self, other: Complex8<T>) -> (out: Complex8<T>)
        ensures
            forall|lane: int|
                0 <= lane < 8 ==> is_difference(self@[lane], other@[lane], #[trigger] out@[lane]),
    {
        self.zip_with(other, T::minus)
    }

    /// Multiplies two batches lane by lane.
    pub fn times(self, other: Complex8<T>) -> (out: Complex8<T>)
        ensures
            forall|lane: int|
                0 <= lane < 8 ==> is_product(self@[lane], other@[lane], #[trigger] out@[lane]),
    {
        self.zip_with(other, T::times)
    }

    /// Divides the batch by `other` lane by lane. A lane whose divisor is
    /// zero is treated like every other lane.
    pub fn over(self, other: Complex8<T>) -> (out: Complex8<T>)
        ensures
            forall|lane: int|
                0 <= lane < 8 ==> is_quotient(self@[lane], other@[lane], #[trigger] out@[lane]),
    {
        self.zip_with(other, T::over)
    }

    /// Multiplies every lane by the real number `by`.
    pub fn scale(self, by: T) -> (out: Complex8<T>)
        ensures
            forall|lane: int| 0 <= lane < 8 ==> is_scaled(self@[lane], by, #[trigger] out@[lane]),
    {
        self.map(|z: (T, T)| -> (r: (T, T))
            ensures
                is_scaled(z, by, r),
            { T::scale(z, by) })
    }

    /// Divides every lane by the real number `by`.
    pub fn unscale(self, by: T) -> (out: Complex8<T>)
        ensures
            forall|lane: int|
                0 <= lane < 8 ==> is_unscaled(self@[lane], by, #[trigger] out@[lane]),
    {
        self.map(|z: (T, T)| -> (r: (T, T))
            ensures
                is_unscaled(z, by, r),
            { T::unscale(z, by) })
    }

    /// The squared magnitude of every lane.
    pub fn norm(&self) -> (out: [T; 8])
        ensures
            forall|lane: int| 0 <= lane < 8 ==> is_norm_sqr(self@[lane], #[trigger] out[lane]),
    {
        let mut out = self.re;
        let mut lane: usize = 0;
        while lane < 8
            invariant
                lane <= 8,
                forall|k: int| 0 <= k < lane ==> is_norm_sqr(self@[k], #[trigger] out[k]),
            decreases 8 - lane,
        {
            assert(self@[lane as int] == (self.re[lane as int], self.im[lane as int]));
            out[lane] = T::norm_sqr((self.re[lane], self.im[lane]));
            lane += 1;
        }
        out
    }

    /// For every lane, whether its squared magnitude is less than `bound`.
    pub fn norm_lt(&self, bound: T) -> (out: [bool; 8])
        ensures
            forall|lane: int|
                0 <= lane < 8 ==> tells_within(self@[lane], bound, #[trigger] out[lane]),
    {
        let norm = self.norm();
        let mut out = [false;8];
        let mut lane: usize = 0;
        while lane < 8
            invariant
                lane <= 8,
                forall|k: int| 0 <= k < 8 ==> is_norm_sqr(self@[k], #[trigger] norm[k]),
                forall|k: int| 0 <= k < lane ==> tells_less(norm[k], bound, #[trigger] out[k]),
            decreases 8 - lane,
        {
            out[lane] = norm[lane].less(bound);
            lane += 1;
        }
        assert forall|k: int| 0 <= k < 8 implies tells_within(
            self@[k],
            bound,
            #[trigger] out[k],
        ) by {
            assert(is_norm_sqr(self@[k], norm[k]));
        }
        out
    }
}

impl<T: Copy> From<[(T, T); 8]> for Complex8<T> {
    /// Splits eight values into their real and imaginary lanes, keeping
    /// their order.
    fn from(arr: [(T, T); 8]) -> (batch: Self) {
        Complex8 {
            re: [arr[0].0, arr[1].0, arr[2].0, arr[3].0, arr[4].0, arr[5].0, arr[6].0, arr[7].0],
            im: [arr[0].1, arr[1].1, arr[2].1, arr[3].1, arr[4].1, arr[5].1, arr[6].1, arr[7].1],
        }
    }
}

impl<T: Copy> vstd::std_specs::convert::FromSpecImpl<[(T, T); 8]> for Complex8<T> {
    open spec fn obeys_from_spec() -> bool {
        true
    }

    open spec fn from_spec(arr: [(T, T); 8]) -> Self {
        packed(arr)
    }
}

impl<T: Copy> From<Complex8<T>> for [(T, T); 8] {
    /// Joins the lanes into eight values again, lane `i` as value `i`.
    fn from(batch: Complex8<T>) -> (arr: Self) {
        [
            (batch.re[0], batch.im[0]),
            (batch.re[1], batch.im[1]),
            (batch.re[2], batch.im[2]),
            (batch.re[3], batch.im[3]),
            (batch.re[4], batch.im[4]),
            (batch.re[5], batch.im[5]),
            (batch.re[6], batch.im[6]),
            (batch.re[7], batch.im[7]),
        ]
    }
}

impl<T: Copy> vstd::std_specs::convert::FromSpecImpl<Complex8<T>> for [(T, T); 8] {
    open spec fn obeys_from_spec() -> bool {
        true
    }

    open spec fn from_spec(batch: Complex8<T>) -> Self {
        unpacked(batch)
    }
}

/// Packing keeps the order: lane `i` of the batch is value `i` of the array.
pub proof fn lemma_pack_keeps_order<T>(arr: [(T, T); 8])
    ensures
        packed(arr)@ == arr@,
{
    assert(packed(arr)@ =~= arr@);
}

/// Unpacking keeps the order: value `i` of the array is lane `i` of the batch.
pub proof fn lemma_unpack_keeps_order<T>(batch: Complex8<T>)
    ensures
        unpacked(batch)@ == batch@,
{
    assert(unpacked(batch)@ =~= batch@);
}

/// Packing eight values and unpacking them gives the same eight values in
/// the same order.
pub proof fn lemma_pack_unpack<T>(arr: [(T, T); 8])
    ensures
        unpacked(packed(arr)) == arr,
{
    lemma_pack_keeps_order(arr);
    lemma_unpack_keeps_order(packed(arr));
    assert(unpacked(packed(arr)) =~= arr);
}

} // verus!
