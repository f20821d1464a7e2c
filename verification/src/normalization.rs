//! Min/max scaling factors and the forward and inverse transforms.
//!
//! Factors are the per-axis minima and maxima of the dataset they were
//! computed from.  A normalized coordinate is stored exactly, as the
//! micro-unit offset from the axis minimum; its value in `[0, 1]` is that
//! offset divided by the axis range.  Because the offset is exact, the
//! inverse transform recovers every sample bit for bit — no rounding
//! tolerance is needed for the round trip.

use vstd::prelude::*;
use crate::fixed::{Fx, SCALE, VAL_LIMIT};
use crate::dataset::{dataset_valid, Sample};

verus! {

/// A normalized mileage: the micro-unit offset from `x_min`; the scaled
/// value in `[0, 1]` is `dx` divided by the x range.
#[derive(Clone, Copy, Debug, PartialEq, Eq, Structural)]
pub struct NormX {
    pub dx: i64,
}

/// A normalized price: the micro-unit offset from `y_min`.
#[derive(Clone, Copy, Debug, PartialEq, Eq, Structural)]
pub struct NormY {
    pub dy: i64,
}

/// One sample after normalization.
#[derive(Clone, Copy, Debug, PartialEq, Eq, Structural)]
pub struct NormSample {
    pub dx: i64,
    pub dy: i64,
}

/// Per-axis minima and maxima of the dataset, fixed when a model is built.
#[derive(Clone, Copy, Debug, PartialEq, Eq, Structural)]
pub struct NormalizationFactors {
    pub x_min: Fx,
    pub x_max: Fx,
    pub y_min: Fx,
    pub y_max: Fx,
}

/// What normalization does to a mileage value.
pub open spec fn norm_x_spec(f: NormalizationFactors, x: int) -> int {
    x - f.x_min@
}

/// What normalization does to a price value.
pub open spec fn norm_y_spec(f: NormalizationFactors, y: int) -> int {
    y - f.y_min@
}

/// What denormalization does to a normalized mileage.
pub open spec fn denorm_x_spec(f: NormalizationFactors, dx: int) -> int {
    dx + f.x_min@
}

/// What denormalization does to a normalized price.
pub open spec fn denorm_y_spec(f: NormalizationFactors, dy: int) -> int {
    dy + f.y_min@
}

/// Denormalizing inverts normalizing exactly, on both axes: the round trip
/// returns the value it started from, for every value whatsoever.
pub proof fn lemma_denormalize_inverts_normalize(f: NormalizationFactors, x: int, y: int)
    ensures
        denorm_x_spec(f, norm_x_spec(f, x)) == x,
        denorm_y_spec(f, norm_y_spec(f, y)) == y,
{
}

impl NormalizationFactors {
    /// Ranges are ordered and all four bounds are in the supported range.
    pub open spec fn wf(self) -> bool {
        &&& self.x_min.valid()
        &&& self.x_max.valid()
        &&& self.y_min.valid()
        &&& self.y_max.valid()
        &&& self.x_min@ <= self.x_max@
        &&& self.y_min@ <= self.y_max@
    }

    /// Width of the mileage axis, in micro-units.
    pub open spec fn x_range(self) -> int {
        self.x_max@ - self.x_min@
    }

    /// Width of the price axis, in micro-units.
    pub open spec fn y_range(self) -> int {
        self.y_max@ - self.y_min@
    }

    /// The factors used for an empty dataset: the unit square.
    pub open spec fn default_spec() -> NormalizationFactors {
        NormalizationFactors {
            x_min: Fx { units: 0 },
            x_max: Fx { units: SCALE },
            y_min: Fx { units: 0 },
            y_max: Fx { units: SCALE },
        }
    }

    /// These factors are exactly the per-axis minima and maxima of `data`.
    pub open spec fn is_min_max_of(self, data: Seq<Sample>) -> bool {
        &&& forall|i: int|
            0 <= i < data.len() ==> self.x_min@ <= #[trigger] data[i].x@ <= self.x_max@
        &&& forall|i: int|
            0 <= i < data.len() ==> self.y_min@ <= #[trigger] data[i].y@ <= self.y_max@
        &&& exists|i: int| 0 <= i < data.len() && self.x_min == #[trigger] data[i].x
        &&& exists|i: int| 0 <= i < data.len() && self.x_max == #[trigger] data[i].x
        &&& exists|i: int| 0 <= i < data.len() && self.y_min == #[trigger] data[i].y
        &&& exists|i: int| 0 <= i < data.len() && self.y_max == #[trigger] data[i].y
    }

    /// Computes normalization factors from the dataset: the exact per-axis
    /// minima and maxima, or the unit square when the dataset is empty.
    pub fn from_data(data: &Vec<Sample>) -> (r: NormalizationFactors)
        requires
            dataset_valid(data@),
        ensures
            r.wf(),
            data@.len() == 0 ==> r == NormalizationFactors::default_spec(),
            data@.len() > 0 ==> r.is_min_max_of(data@),
    {
        if data.len() == 0 {
            return NormalizationFactors {
                x_min: Fx { units: 0 },
                x_max: Fx { units: SCALE },
                y_min: Fx { units: 0 },
                y_max: Fx { units: SCALE },
            };
        }
        let first = data[0];
        let mut x_min = first.x;
        let mut x_max = first.x;
        let mut y_min = first.y;
        let mut y_max = first.y;
        let mut k: usize = 1;
        while k < data.len()
            invariant
                1 <= k <= data@.len(),
                dataset_valid(data@),
                forall|i: int| 0 <= i < k ==> x_min@ <= #[trigger] data@[i].x@ <= x_max@,
                forall|i: int| 0 <= i < k ==> y_min@ <= #[trigger] data@[i].y@ <= y_max@,
                exists|i: int| 0 <= i < k && x_min == #[trigger] data@[i].x,
                exists|i: int| 0 <= i < k && x_max == #[trigger] data@[i].x,
                exists|i: int| 0 <= i < k && y_min == #[trigger] data@[i].y,
                exists|i: int| 0 <= i < k && y_max == #[trigger] data@[i].y,
            decreases data@.len() - k,
        {
            let s = data[k];
            if s.x.units < x_min.units {
                x_min = s.x;
            }
            if s.x.units > x_max.units {
                x_max = s.x;
            }
            if s.y.units < y_min.units {
                y_min = s.y;
            }
            if s.y.units > y_max.units {
                y_max = s.y;
            }
            k = k + 1;
        }
        let r = NormalizationFactors { x_min, x_max, y_min, y_max };
        proof {
            let i1 = choose|i: int| 0 <= i < k && x_min == #[trigger] data@[i].x;
            let i2 = choose|i: int| 0 <= i < k && x_max == #[trigger] data@[i].x;
            let i3 = choose|i: int| 0 <= i < k && y_min == #[trigger] data@[i].y;
            let i4 = choose|i: int| 0 <= i < k && y_max == #[trigger] data@[i].y;
            assert(data@[i1].valid() && data@[i2].valid() && data@[i3].valid()
                && data@[i4].valid());
            assert(x_min@ <= data@[0].x@ <= x_max@);
            assert(y_min@ <= data@[0].y@ <= y_max@);
        }
        r
    }

    /// Maps a mileage into normalized space.
    pub fn normalize_x(&self, x: Fx) -> (r: NormX)
        requires
            self.wf(),
            x.valid(),
        ensures
            r.dx == norm_x_spec(*self, x@),
    {
        NormX { dx: x.units - self.x_min.units }
    }

    /// Maps a price into normalized space.
    pub fn normalize_y(&self, y: Fx) -> (r: NormY)
        requires
            self.wf(),
            y.valid(),
        ensures
            r.dy == norm_y_spec(*self, y@),
    {
        NormY { dy: y.units - self.y_min.units }
    }

    /// Maps a normalized mileage back to raw units; the exact inverse of
    /// `normalize_x`.
    pub fn denormalize_x(&self, v: NormX) -> (r: Fx)
        requires
            self.wf(),
            -2 * VAL_LIMIT <= v.dx <= 2 * VAL_LIMIT,
        ensures
            r@ == denorm_x_spec(*self, v.dx as int),
    {
        Fx { units: v.dx + self.x_min.units }
    }

    /// Maps a normalized price back to raw units; the exact inverse of
    /// `normalize_y`.
    pub fn denormalize_y(&self, v: NormY) -> (r: Fx)
        requires
            self.wf(),
            -2 * VAL_LIMIT <= v.dy <= 2 * VAL_LIMIT,
        ensures
            r@ == denorm_y_spec(*self, v.dy as int),
    {
        Fx { units: v.dy + self.y_min.units }
    }
}

impl Default for NormalizationFactors {
    /// The unit square, as for an empty dataset.
    fn default() -> (r: NormalizationFactors)
        ensures
            r == NormalizationFactors::default_spec(),
    {
        NormalizationFactors {
            x_min: Fx { units: 0 },
            x_max: Fx { units: SCALE },
            y_min: Fx { units: 0 },
            y_max: Fx { units: SCALE },
        }
    }
}

/// The sequence `r` is `data` normalized against `f`, element by element.
pub open spec fn normalized_spec(f: NormalizationFactors, data: Seq<Sample>, r: Seq<NormSample>) -> bool {
    &&& r.len() == data.len()
    &&& forall|i: int|
        0 <= i < data.len() ==> #[trigger] r[i].dx == norm_x_spec(f, data[i].x@)
    &&& forall|i: int|
        0 <= i < data.len() ==> #[trigger] r[i].dy == norm_y_spec(f, data[i].y@)
}

/// Normalizes both coordinates of every sample.
pub fn normalize_dataset(data: &Vec<Sample>, f: &NormalizationFactors) -> (r: Vec<NormSample>)
    requires
        f.wf(),
        dataset_valid(data@),
    ensures
        normalized_spec(*f, data@, r@),
{
    let mut r: Vec<NormSample> = Vec::new();
    let mut k: usize = 0;
    while k < data.len()
        invariant
            0 <= k <= data@.len(),
            f.wf(),
            dataset_valid(data@),
            r@.len() == k,
            forall|i: int|
                0 <= i < k ==> #[trigger] r@[i].dx == norm_x_spec(*f, data@[i].x@),
            forall|i: int|
                0 <= i < k ==> #[trigger] r@[i].dy == norm_y_spec(*f, data@[i].y@),
        decreases data@.len() - k,
    {
        let s = data[k];
        proof {
            assert(data@[k as int].valid());
        }
        r.push(NormSample { dx: s.x.units - f.x_min.units, dy: s.y.units - f.y_min.units });
        k = k + 1;
    }
    r
}

} // verus!
