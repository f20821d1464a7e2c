//! The regression engine: parameters, training, cost, prediction, metrics.
//!
//! The engine owns the model parameters (theta0, theta1), the learning
//! rate, the normalized dataset and the cost history.  Everything it
//! computes is specified exactly, over a ghost [`Model`] of unbounded
//! integers: divisions truncate toward zero ([`tdiv`]), and in place of
//! floating-point overflow to infinity the engine stops training as soon
//! as a parameter would leave the supported range.

use vstd::prelude::*;
use vstd::arithmetic::div_mod::{lemma_div_pos_is_pos, lemma_hoist_over_denominator};
use vstd::arithmetic::mul::lemma_mul_inequality;
use crate::fixed::{div_trunc, isqrt, lemma_tdiv_bound, tdiv, Fx, MAX_SAMPLES, SCALE, THETA_LIMIT,
    VAL_LIMIT};
use crate::dataset::{dataset_valid, Sample};
use crate::normalization::{normalize_dataset, normalized_spec, NormSample, NormalizationFactors};

verus! {

/// Learning rate used when none is given: 0.001, in micro-units.
pub const DEFAULT_LEARNING_RATE: i64 = 1000;

/// Magnitude bound on a single normalized prediction error, in micro-units:
/// two parameters of at most [`THETA_LIMIT`] plus one normalized price of at
/// most [`SCALE`].
pub const ERR_LIMIT: i64 = 2_001_000_000;

/// Magnitude bound on the cost: `ERR_LIMIT * ERR_LIMIT == 2 * COST_LIMIT * SCALE`.
pub const COST_LIMIT: i64 = 2_002_000_500_000;

/// The mathematical state of an engine: parameters and learning rate in
/// micro-units, the axis bounds of the normalization factors, the
/// normalized dataset as per-axis offsets from the minima, and the cost
/// history.
pub ghost struct Model {
    pub theta0: int,
    pub theta1: int,
    pub learning_rate: int,
    pub x_min: int,
    pub x_max: int,
    pub y_min: int,
    pub y_max: int,
    pub data: Seq<(int, int)>,
    pub costs: Seq<int>,
}

impl Model {
    /// Width of the mileage axis.
    pub open spec fn xr(self) -> int {
        self.x_max - self.x_min
    }

    /// Width of the price axis.
    pub open spec fn yr(self) -> int {
        self.y_max - self.y_min
    }

    /// Invariant of every engine: parameters, learning rate and axis
    /// bounds in range, and each normalized sample inside its axis range.
    pub open spec fn wf(self) -> bool {
        &&& -THETA_LIMIT <= self.theta0 <= THETA_LIMIT
        &&& -THETA_LIMIT <= self.theta1 <= THETA_LIMIT
        &&& 0 < self.learning_rate <= VAL_LIMIT
        &&& -VAL_LIMIT <= self.x_min <= self.x_max <= VAL_LIMIT
        &&& -VAL_LIMIT <= self.y_min <= self.y_max <= VAL_LIMIT
        &&& self.data.len() <= MAX_SAMPLES
        &&& forall|i: int|
            0 <= i < self.data.len() ==> 0 <= (#[trigger] self.data[i]).0 <= self.xr()
        &&& forall|i: int|
            0 <= i < self.data.len() ==> 0 <= (#[trigger] self.data[i]).1 <= self.yr()
    }
}

/// The slope's contribution to a normalized prediction: `t1` times the
/// normalized mileage `dx / xr`, or zero on a degenerate axis.
pub open spec fn slope_part(t1: int, dx: int, xr: int) -> int {
    if xr == 0 {
        0
    } else {
        tdiv(t1 * dx, xr)
    }
}

/// A price offset `dy` scaled into `[0, SCALE]` by its axis range `yr`,
/// or zero on a degenerate axis.
pub open spec fn scaled_y(dy: int, yr: int) -> int {
    if yr == 0 {
        0
    } else {
        tdiv(dy * SCALE, yr)
    }
}

/// The prediction error of sample `i` in normalized space, in micro-units.
pub open spec fn err_at(m: Model, i: int) -> int {
    m.theta0 + slope_part(m.theta1, m.data[i].0, m.xr()) - scaled_y(m.data[i].1, m.yr())
}

/// Sum of squared normalized errors over the first `n` samples.
pub open spec fn sum_sq_err(m: Model, n: int) -> int
    decreases n,
{
    if n <= 0 {
        0
    } else {
        sum_sq_err(m, n - 1) + err_at(m, n - 1) * err_at(m, n - 1)
    }
}

/// The mean-squared-error cost `J`, in micro-units, over a non-empty
/// dataset: the squared-error sum divided by twice the sample count, with
/// one `SCALE` cancelling the squaring of micro-units.
pub open spec fn cost_of(m: Model) -> int {
    tdiv(sum_sq_err(m, m.data.len() as int), 2 * m.data.len() * SCALE)
}

/// A sample's error is bounded by `ERR_LIMIT` in a well-formed model.
pub proof fn lemma_err_bound(m: Model, i: int)
    requires
        m.wf(),
        0 <= i < m.data.len(),
    ensures
        -ERR_LIMIT <= err_at(m, i) <= ERR_LIMIT,
{
    let dx = m.data[i].0;
    let dy = m.data[i].1;
    if m.xr() != 0 {
        lemma_mul_inequality(m.theta1, THETA_LIMIT as int, dx);
        lemma_mul_inequality(-(THETA_LIMIT as int), m.theta1, dx);
        lemma_mul_inequality(dx, m.xr(), THETA_LIMIT as int);
        lemma_tdiv_bound(m.theta1 * dx, m.xr(), THETA_LIMIT as int);
    }
    if m.yr() != 0 {
        lemma_mul_inequality(dy, m.yr(), SCALE as int);
        lemma_tdiv_bound(dy * SCALE, m.yr(), SCALE as int);
        lemma_div_pos_is_pos(dy * SCALE, m.yr());
        vstd::arithmetic::mul::lemma_mul_nonnegative(dy, SCALE as int);
    }
}

/// The squared-error sum over `n` samples is at most `n` squared limits.
pub proof fn lemma_sum_sq_err_bound(m: Model, n: int)
    requires
        m.wf(),
        0 <= n <= m.data.len(),
    ensures
        0 <= sum_sq_err(m, n) <= n * (ERR_LIMIT * ERR_LIMIT),
    decreases n,
{
    if n > 0 {
        lemma_sum_sq_err_bound(m, n - 1);
        lemma_err_bound(m, n - 1);
        let e = err_at(m, n - 1);
        assert(0 <= e * e <= ERR_LIMIT * ERR_LIMIT) by (nonlinear_arith)
            requires
                -ERR_LIMIT <= e <= ERR_LIMIT,
        ;
        assert((n - 1) * (ERR_LIMIT * ERR_LIMIT) + ERR_LIMIT * ERR_LIMIT == n * (ERR_LIMIT
            * ERR_LIMIT)) by (nonlinear_arith);
    }
}

/// The cost of a well-formed, non-empty model is non-negative and at most
/// `COST_LIMIT`.
pub proof fn lemma_cost_bound(m: Model)
    requires
        m.wf(),
        m.data.len() > 0,
    ensures
        0 <= cost_of(m) <= COST_LIMIT,
{
    let n = m.data.len() as int;
    lemma_sum_sq_err_bound(m, n);
    assert(n * (ERR_LIMIT * ERR_LIMIT) == COST_LIMIT * (2 * n * SCALE)) by (nonlinear_arith);
    lemma_tdiv_bound(sum_sq_err(m, n), 2 * n * SCALE, COST_LIMIT as int);
    lemma_div_pos_is_pos(sum_sq_err(m, n), 2 * n * SCALE);
}

/// The model's factors are the per-axis minima and maxima of `data` (the
/// unit square when `data` is empty), and its normalized dataset is
/// exactly `data` shifted by those minima.
pub open spec fn models_dataset(m: Model, data: Seq<Sample>) -> bool {
    &&& m.data.len() == data.len()
    &&& forall|i: int|
        0 <= i < data.len() ==> (#[trigger] m.data[i]).0 == data[i].x@ - m.x_min
    &&& forall|i: int|
        0 <= i < data.len() ==> (#[trigger] m.data[i]).1 == data[i].y@ - m.y_min
    &&& data.len() == 0 ==> m.x_min == 0 && m.x_max == SCALE && m.y_min == 0 && m.y_max == SCALE
    &&& data.len() > 0 ==> {
        &&& forall|i: int| 0 <= i < data.len() ==> m.x_min <= (#[trigger] data[i]).x@ <= m.x_max
        &&& forall|i: int| 0 <= i < data.len() ==> m.y_min <= (#[trigger] data[i]).y@ <= m.y_max
        &&& exists|i: int| 0 <= i < data.len() && m.x_min == (#[trigger] data[i]).x@
        &&& exists|i: int| 0 <= i < data.len() && m.x_max == (#[trigger] data[i]).x@
        &&& exists|i: int| 0 <= i < data.len() && m.y_min == (#[trigger] data[i]).y@
        &&& exists|i: int| 0 <= i < data.len() && m.y_max == (#[trigger] data[i]).y@
    }
}

/// Denormalizing the stored dataset recovers the dataset the model was
/// built from exactly, sample for sample.
pub proof fn lemma_stored_dataset_exact(m: Model, data: Seq<Sample>)
    requires
        models_dataset(m, data),
    ensures
        forall|i: int|
            0 <= i < data.len() ==> (#[trigger] m.data[i]).0 + m.x_min == data[i].x@,
        forall|i: int|
            0 <= i < data.len() ==> (#[trigger] m.data[i]).1 + m.y_min == data[i].y@,
{
}

/// The value predicted for a raw mileage `x`: zero while the model is
/// untrained, otherwise the normalized prediction mapped back to price
/// units.
pub open spec fn predict_val(m: Model, x: int) -> int {
    if m.theta0 == 0 && m.theta1 == 0 {
        0
    } else {
        let p = m.theta0 + slope_part(m.theta1, x - m.x_min, m.xr());
        tdiv(p * m.yr(), SCALE as int) + m.y_min
    }
}

/// Magnitude bound on a prediction for a stored sample, in micro-units.
pub const PRED_LIMIT: i64 = 4_001_000_000_000_000;

/// Magnitude bound on a denormalized prediction error, in micro-units.
pub const PERR_LIMIT: i64 = 4_002_000_000_000_000;

/// The mileage of stored sample `i`, in original units.
pub open spec fn denorm_x_at(m: Model, i: int) -> int {
    m.data[i].0 + m.x_min
}

/// The price of stored sample `i`, in original units.
pub open spec fn denorm_y_at(m: Model, i: int) -> int {
    m.data[i].1 + m.y_min
}

/// The residual of stored sample `i`: its price minus the price the model
/// predicts for its mileage, in original units.
pub open spec fn pred_err_at(m: Model, i: int) -> int {
    denorm_y_at(m, i) - predict_val(m, denorm_x_at(m, i))
}

/// Sum of absolute residuals over the first `n` samples.
pub open spec fn sum_abs_err(m: Model, n: int) -> int
    decreases n,
{
    if n <= 0 {
        0
    } else {
        let e = pred_err_at(m, n - 1);
        sum_abs_err(m, n - 1) + if e >= 0 {
            e
        } else {
            -e
        }
    }
}

/// Sum of squared residuals over the first `n` samples.
pub open spec fn sum_sq_pred_err(m: Model, n: int) -> int
    decreases n,
{
    if n <= 0 {
        0
    } else {
        sum_sq_pred_err(m, n - 1) + pred_err_at(m, n - 1) * pred_err_at(m, n - 1)
    }
}

/// Sum of the prices of the first `n` samples, in original units.
pub open spec fn sum_y(m: Model, n: int) -> int
    decreases n,
{
    if n <= 0 {
        0
    } else {
        sum_y(m, n - 1) + denorm_y_at(m, n - 1)
    }
}

/// The mean price of the stored dataset, in original units.
pub open spec fn mean_y(m: Model) -> int {
    tdiv(sum_y(m, m.data.len() as int), m.data.len() as int)
}

/// Sum over the first `n` samples of the squared deviation of the price
/// from `mu`.
pub open spec fn sum_var(m: Model, n: int, mu: int) -> int
    decreases n,
{
    if n <= 0 {
        0
    } else {
        let d = denorm_y_at(m, n - 1) - mu;
        sum_var(m, n - 1, mu) + d * d
    }
}

/// Mean absolute error over the denormalized dataset, in micro-units.
pub open spec fn mae_of(m: Model) -> int {
    tdiv(sum_abs_err(m, m.data.len() as int), m.data.len() as int)
}

/// Mean squared error over the denormalized dataset, in micro-units (one
/// `SCALE` cancels the squaring of micro-units).
pub open spec fn mse_of(m: Model) -> int {
    tdiv(sum_sq_pred_err(m, m.data.len() as int), m.data.len() * SCALE)
}

/// Total variance of the prices around their mean.
pub open spec fn sst_of(m: Model) -> int {
    sum_var(m, m.data.len() as int, mean_y(m))
}

/// The coefficient of determination `1 - SSE/SST`, in micro-units;
/// meaningful only when the total variance is non-zero.
pub open spec fn r2_of(m: Model) -> int {
    SCALE - tdiv(sum_sq_pred_err(m, m.data.len() as int) * SCALE, sst_of(m))
}

/// Predictions for stored samples stay within `PRED_LIMIT`.
pub proof fn lemma_pred_stored_bound(m: Model, i: int)
    requires
        m.wf(),
        0 <= i < m.data.len(),
    ensures
        -PRED_LIMIT <= predict_val(m, denorm_x_at(m, i)) <= PRED_LIMIT,
        -PERR_LIMIT <= pred_err_at(m, i) <= PERR_LIMIT,
{
    let dx = m.data[i].0;
    if m.theta0 == 0 && m.theta1 == 0 {
    } else {
        assert(denorm_x_at(m, i) - m.x_min == dx);
        if m.xr() != 0 {
            lemma_mul_inequality(m.theta1, THETA_LIMIT as int, dx);
            lemma_mul_inequality(-(THETA_LIMIT as int), m.theta1, dx);
            lemma_mul_inequality(dx, m.xr(), THETA_LIMIT as int);
            lemma_tdiv_bound(m.theta1 * dx, m.xr(), THETA_LIMIT as int);
        }
        let p = m.theta0 + slope_part(m.theta1, dx, m.xr());
        assert(-(4_000_000_000_000_000 * SCALE) <= p * m.yr() <= 4_000_000_000_000_000
            * SCALE) by (nonlinear_arith)
            requires
                -2 * THETA_LIMIT <= p <= 2 * THETA_LIMIT,
                0 <= m.yr() <= 2 * VAL_LIMIT,
        ;
        lemma_tdiv_bound(p * m.yr(), SCALE as int, 4_000_000_000_000_000);
    }
}

/// Sum of normalized errors over the first `n` samples.
pub open spec fn sum_err(m: Model, n: int) -> int
    decreases n,
{
    if n <= 0 {
        0
    } else {
        sum_err(m, n - 1) + err_at(m, n - 1)
    }
}

/// Sum of normalized errors weighted by the mileage offsets, over the
/// first `n` samples.
pub open spec fn sum_err_dx(m: Model, n: int) -> int
    decreases n,
{
    if n <= 0 {
        0
    } else {
        sum_err_dx(m, n - 1) + err_at(m, n - 1) * m.data[n - 1].0
    }
}

/// The intercept's batch gradient: the mean error.
pub open spec fn grad0_of(m: Model) -> int {
    tdiv(sum_err(m, m.data.len() as int), m.data.len() as int)
}

/// The slope's batch gradient: the mean of error times normalized
/// mileage, the single division folding both the mean and the axis range.
pub open spec fn grad1_of(m: Model) -> int {
    if m.xr() == 0 {
        0
    } else {
        tdiv(sum_err_dx(m, m.data.len() as int), m.data.len() * m.xr())
    }
}

/// The intercept after one descent step.
pub open spec fn step_theta0(m: Model) -> int {
    m.theta0 - tdiv(m.learning_rate * grad0_of(m), SCALE as int)
}

/// The slope after one descent step.
pub open spec fn step_theta1(m: Model) -> int {
    m.theta1 - tdiv(m.learning_rate * grad1_of(m), SCALE as int)
}

/// Training has converged: the current cost equals the last recorded one
/// (a change below one micro-unit is no change at all in micro-units).
pub open spec fn converged(m: Model) -> bool {
    m.costs.len() > 0 && m.costs.last() == cost_of(m)
}

/// The next step would push a parameter out of the supported range: the
/// fixed-word analogue of a cost running off to infinity, and like it a
/// reason to stop rather than continue.
pub open spec fn step_leaves_range(m: Model) -> bool {
    ||| step_theta0(m) < -THETA_LIMIT
    ||| step_theta0(m) > THETA_LIMIT
    ||| step_theta1(m) < -THETA_LIMIT
    ||| step_theta1(m) > THETA_LIMIT
}

/// The model after one completed training step: both parameters updated
/// simultaneously from the pre-update gradients, and the pre-update cost
/// appended to the history.
pub open spec fn stepped(m: Model) -> Model {
    Model {
        theta0: step_theta0(m),
        theta1: step_theta1(m),
        costs: m.costs.push(cost_of(m)),
        ..m
    }
}

/// The model after `train(k)`: up to `k` completed steps, stopping early
/// on an empty dataset, on convergence, or when a step would leave the
/// supported parameter range.
pub open spec fn train_spec(m: Model, k: nat) -> Model
    decreases k,
{
    if k == 0 || m.data.len() == 0 {
        m
    } else if converged(m) || step_leaves_range(m) {
        m
    } else {
        train_spec(stepped(m), (k - 1) as nat)
    }
}

/// A completed step preserves well-formedness.
pub proof fn lemma_step_wf(m: Model)
    requires
        m.wf(),
        m.data.len() > 0,
        !step_leaves_range(m),
    ensures
        stepped(m).wf(),
{
}

/// When any stop condition holds, training of any length changes nothing.
pub proof fn lemma_train_stationary(m: Model, k: nat)
    requires
        m.data.len() == 0 || converged(m) || step_leaves_range(m),
    ensures
        train_spec(m, k) == m,
{
}

/// Training only moves the parameters and appends to the cost history:
/// the dataset, the factors and the learning rate come through unchanged,
/// well-formedness is preserved, and the old history is a prefix of the
/// new one.
pub proof fn lemma_train_frame(m: Model, k: nat)
    requires
        m.wf(),
    ensures
        train_spec(m, k).wf(),
        train_spec(m, k).learning_rate == m.learning_rate,
        train_spec(m, k).x_min == m.x_min,
        train_spec(m, k).x_max == m.x_max,
        train_spec(m, k).y_min == m.y_min,
        train_spec(m, k).y_max == m.y_max,
        train_spec(m, k).data == m.data,
        train_spec(m, k).costs.len() >= m.costs.len(),
        forall|i: int|
            0 <= i < m.costs.len() ==> #[trigger] train_spec(m, k).costs[i] == m.costs[i],
    decreases k,
{
    if k == 0 || m.data.len() == 0 {
    } else if converged(m) || step_leaves_range(m) {
    } else {
        lemma_step_wf(m);
        lemma_train_frame(stepped(m), (k - 1) as nat);
    }
}

/// For every positive learning rate in the supported range and every
/// iteration count, training keeps both parameters inside the supported
/// range — the fixed-word counterpart of never producing a non-finite
/// parameter: a step that would leave the range stops training instead.
pub proof fn lemma_train_keeps_parameters_in_range(m: Model, k: nat)
    requires
        m.wf(),
    ensures
        -THETA_LIMIT <= train_spec(m, k).theta0 <= THETA_LIMIT,
        -THETA_LIMIT <= train_spec(m, k).theta1 <= THETA_LIMIT,
{
    lemma_train_frame(m, k);
}

/// The four fit-quality metrics, computed on denormalized values.
///
/// `mae` and `rmse` always fit the supported word size; `mse` (a squared
/// quantity) and `r2` (unbounded below for a catastrophic fit, and
/// undefined when all prices are identical) are absent when their exact
/// value has no `i64` micro-unit representation.
#[derive(Clone, Copy, Debug, PartialEq, Eq, Structural)]
pub struct Precision {
    pub mae: Fx,
    pub mse: Option<Fx>,
    pub rmse: Fx,
    pub r2: Option<Fx>,
}

/// A single-feature linear model fitted by batch gradient descent.
///
/// Created over a dataset whose normalization factors it computes once;
/// trained zero or more times; queried for predictions, cost and accuracy
/// metrics at any time.
pub struct LinearRegression {
    theta0: Fx,
    theta1: Fx,
    learning_rate: Fx,
    data: Vec<NormSample>,
    costs: Vec<i64>,
    normalization: NormalizationFactors,
}

impl View for LinearRegression {
    type V = Model;

    closed spec fn view(&self) -> Model {
        Model {
            theta0: self.theta0@,
            theta1: self.theta1@,
            learning_rate: self.learning_rate@,
            x_min: self.normalization.x_min@,
            x_max: self.normalization.x_max@,
            y_min: self.normalization.y_min@,
            y_max: self.normalization.y_max@,
            data: self.data@.map(|i: int, s: NormSample| (s.dx as int, s.dy as int)),
            costs: self.costs@.map(|i: int, c: i64| c as int),
        }
    }
}

impl LinearRegression {
    /// Builds an engine over `data`: computes the normalization factors,
    /// stores the normalized dataset, and starts untrained with
    /// `theta = (0, 0)`, an empty cost history, and the given learning
    /// rate (0.001 when none is given).
    pub fn new(data: Vec<Sample>, learning_rate: Option<Fx>) -> (r: LinearRegression)
        requires
            dataset_valid(data@),
            data@.len() <= MAX_SAMPLES,
            learning_rate matches Some(lr) ==> 0 < lr@ <= VAL_LIMIT,
        ensures
            r@.wf(),
            r@.theta0 == 0,
            r@.theta1 == 0,
            r@.costs =~= Seq::<int>::empty(),
            r@.learning_rate == match learning_rate {
                Some(lr) => lr@,
                None => DEFAULT_LEARNING_RATE as int,
            },
            models_dataset(r@, data@),
    {
        let factors = NormalizationFactors::from_data(&data);
        let normalized = normalize_dataset(&data, &factors);
        let lr = match learning_rate {
            Some(lr) => lr,
            None => Fx { units: DEFAULT_LEARNING_RATE },
        };
        let r = LinearRegression {
            theta0: Fx { units: 0 },
            theta1: Fx { units: 0 },
            learning_rate: lr,
            data: normalized,
            costs: Vec::new(),
            normalization: factors,
        };
        r
    }

    /// The model's parameters `(theta0, theta1)`.
    pub fn get_params(&self) -> (r: (Fx, Fx))
        ensures
            r.0@ == self@.theta0,
            r.1@ == self@.theta1,
    {
        (self.theta0, self.theta1)
    }

    /// Overwrites the parameters directly, bypassing training; everything
    /// else, the cost history included, stays as it was.
    pub fn set_params(&mut self, theta0: Fx, theta1: Fx)
        requires
            old(self)@.wf(),
            -THETA_LIMIT <= theta0@ <= THETA_LIMIT,
            -THETA_LIMIT <= theta1@ <= THETA_LIMIT,
        ensures
            final(self)@ == (Model { theta0: theta0@, theta1: theta1@, ..old(self)@ }),
            final(self)@.wf(),
    {
        self.theta0 = theta0;
        self.theta1 = theta1;
    }

    /// The stored normalized dataset, as per-axis offsets from the minima.
    pub fn get_normalized_dataset(&self) -> (r: &Vec<NormSample>)
        ensures
            r@.len() == self@.data.len(),
            forall|i: int|
                0 <= i < r@.len() ==> ((#[trigger] r@[i]).dx == self@.data[i].0
                    && r@[i].dy == self@.data[i].1),
    {
        &self.data
    }

    /// The dataset in original units, reconstructed exactly from the
    /// stored normalized data and the factors.
    pub fn get_dataset(&self) -> (r: Vec<Sample>)
        requires
            self@.wf(),
        ensures
            r@.len() == self@.data.len(),
            forall|i: int|
                0 <= i < r@.len() ==> (#[trigger] r@[i]).x@ == self@.data[i].0 + self@.x_min,
            forall|i: int|
                0 <= i < r@.len() ==> (#[trigger] r@[i]).y@ == self@.data[i].1 + self@.y_min,
            dataset_valid(r@),
    {
        let mut r: Vec<Sample> = Vec::new();
        let mut k: usize = 0;
        while k < self.data.len()
            invariant
                0 <= k <= self.data.len(),
                self@.wf(),
                self@.data.len() == self.data@.len(),
                forall|i: int|
                    0 <= i < self.data@.len() ==> self@.data[i] == ((#[trigger] self.data@[i]).dx
                        as int, self.data@[i].dy as int),
                r@.len() == k,
                forall|i: int|
                    0 <= i < k ==> (#[trigger] r@[i]).x@ == self@.data[i].0 + self@.x_min,
                forall|i: int|
                    0 <= i < k ==> (#[trigger] r@[i]).y@ == self@.data[i].1 + self@.y_min,
                dataset_valid(r@),
            decreases self.data@.len() - k,
        {
            let s = self.data[k];
            proof {
                assert(0 <= self@.data[k as int].0 <= self@.xr());
                assert(0 <= self@.data[k as int].1 <= self@.yr());
            }
            r.push(
                Sample {
                    x: Fx { units: s.dx + self.normalization.x_min.units },
                    y: Fx { units: s.dy + self.normalization.y_min.units },
                },
            );
            k = k + 1;
        }
        r
    }

    /// The error of stored sample `k` under the current parameters.
    fn sample_err(&self, k: usize) -> (e: i64)
        requires
            self@.wf(),
            k < self@.data.len(),
        ensures
            e == err_at(self@, k as int),
            -ERR_LIMIT <= e <= ERR_LIMIT,
    {
        let s = self.data[k];
        let xr = self.normalization.x_max.units - self.normalization.x_min.units;
        let yr = self.normalization.y_max.units - self.normalization.y_min.units;
        proof {
            assert(0 <= self@.data[k as int].0 <= self@.xr());
            assert(0 <= self@.data[k as int].1 <= self@.yr());
            lemma_err_bound(self@, k as int);
        }
        let xpart: i64 = if xr == 0 {
            0
        } else {
            proof {
                lemma_mul_inequality(self@.theta1, THETA_LIMIT as int, s.dx as int);
                lemma_mul_inequality(-(THETA_LIMIT as int), self@.theta1, s.dx as int);
                lemma_mul_inequality(s.dx as int, self@.xr(), THETA_LIMIT as int);
                lemma_tdiv_bound(self@.theta1 * s.dx, self@.xr(), THETA_LIMIT as int);
            }
            div_trunc(self.theta1.units as i128 * s.dx as i128, xr as i128) as i64
        };
        let ypart: i64 = if yr == 0 {
            0
        } else {
            proof {
                lemma_mul_inequality(s.dy as int, self@.yr(), SCALE as int);
                lemma_tdiv_bound(s.dy * SCALE, self@.yr(), SCALE as int);
                lemma_div_pos_is_pos(s.dy * SCALE, self@.yr());
                vstd::arithmetic::mul::lemma_mul_nonnegative(s.dy as int, SCALE as int);
            }
            div_trunc(s.dy as i128 * SCALE as i128, yr as i128) as i64
        };
        self.theta0.units + xpart - ypart
    }

    /// The cost over the stored dataset, which must be non-empty.
    fn cost_units(&self) -> (j: i64)
        requires
            self@.wf(),
            self@.data.len() > 0,
        ensures
            j == cost_of(self@),
            0 <= j <= COST_LIMIT,
    {
        let n = self.data.len();
        let mut sum: i128 = 0;
        let mut k: usize = 0;
        while k < n
            invariant
                0 <= k <= n,
                n == self@.data.len(),
                self@.wf(),
                sum == sum_sq_err(self@, k as int),
                0 <= sum <= k as int * (ERR_LIMIT * ERR_LIMIT),
            decreases n - k,
        {
            let e = self.sample_err(k);
            proof {
                let ee = e as int;
                assert(0 <= ee * ee <= ERR_LIMIT * ERR_LIMIT) by (nonlinear_arith)
                    requires
                        -ERR_LIMIT <= ee <= ERR_LIMIT,
                ;
                assert(k as int * (ERR_LIMIT * ERR_LIMIT) + ERR_LIMIT * ERR_LIMIT == (k + 1)
                    * (ERR_LIMIT * ERR_LIMIT)) by (nonlinear_arith);
                assert(k as int * (ERR_LIMIT * ERR_LIMIT) <= MAX_SAMPLES * (ERR_LIMIT
                    * ERR_LIMIT)) by (nonlinear_arith)
                    requires
                        0 <= k as int <= MAX_SAMPLES,
                ;
            }
            sum = sum + e as i128 * e as i128;
            k = k + 1;
        }
        proof {
            lemma_cost_bound(self@);
            assert(COST_LIMIT as int * (2 * n as int * SCALE) == n as int * (ERR_LIMIT
                * ERR_LIMIT)) by (nonlinear_arith)
                requires
                    n as int > 0,
            ;
            lemma_tdiv_bound(sum as int, 2 * n as int * SCALE, COST_LIMIT as int);
        }
        let j = div_trunc(sum, 2 * n as i128 * SCALE as i128);
        j as i64
    }

    /// The mean-squared-error cost `J` over the stored normalized dataset
    /// and current parameters; absent exactly when the dataset is empty.
    /// The result depends on nothing but the engine's state, so repeated
    /// calls return identical values.
    pub fn compute_cost(&self) -> (r: Option<Fx>)
        requires
            self@.wf(),
        ensures
            (r is Some) <==> self@.data.len() > 0,
            r matches Some(v) ==> v@ == cost_of(self@),
    {
        if self.data.len() == 0 {
            None
        } else {
            Some(Fx { units: self.cost_units() })
        }
    }

    /// Predicts the price for mileage `x`: exactly zero while the model is
    /// untrained, otherwise `x` is normalized, run through the line, and
    /// the result denormalized.  The value is returned whenever it lies in
    /// the supported range, and is absent otherwise.
    pub fn predict(&self, x: Fx) -> (r: Option<Fx>)
        requires
            self@.wf(),
            x.valid(),
        ensures
            (r is Some) <==> -VAL_LIMIT <= predict_val(self@, x@) <= VAL_LIMIT,
            r matches Some(v) ==> v@ == predict_val(self@, x@),
            self@.theta0 == 0 && self@.theta1 == 0 ==> r == Some(Fx { units: 0i64 }),
    {
        if self.theta0.units == 0 && self.theta1.units == 0 {
            return Some(Fx { units: 0 });
        }
        let dx = x.units - self.normalization.x_min.units;
        let xr = self.normalization.x_max.units - self.normalization.x_min.units;
        let yr = self.normalization.y_max.units - self.normalization.y_min.units;
        let xpart: i128 = if xr == 0 {
            0
        } else {
            proof {
                let n = self@.theta1 * dx;
                assert(-(2 * THETA_LIMIT as int * VAL_LIMIT) <= n <= 2 * THETA_LIMIT as int
                    * VAL_LIMIT) by (nonlinear_arith)
                    requires
                        -THETA_LIMIT <= self@.theta1 <= THETA_LIMIT,
                        -2 * VAL_LIMIT <= dx as int <= 2 * VAL_LIMIT,
                        n == self@.theta1 * dx,
                ;
                let b = if n >= 0 { n } else { -n };
                assert(-(b * self@.xr()) <= n <= b * self@.xr()) by (nonlinear_arith)
                    requires
                        self@.xr() >= 1,
                        b == if n >= 0 { n } else { -n },
                ;
                lemma_tdiv_bound(n, self@.xr(), b);
            }
            div_trunc(self.theta1.units as i128 * dx as i128, xr as i128)
        };
        proof {
            assert(-(2 * THETA_LIMIT as int * VAL_LIMIT) <= xpart as int <= 2 * THETA_LIMIT
                as int * VAL_LIMIT);
        }
        let p: i128 = self.theta0.units as i128 + xpart;
        proof {
            let bp = 2 * THETA_LIMIT as int * VAL_LIMIT + THETA_LIMIT;
            assert(-bp <= p as int <= bp);
            assert(-(bp * (2 * VAL_LIMIT)) <= p as int * (yr as int) <= bp * (2 * VAL_LIMIT))
                by (nonlinear_arith)
                requires
                    -bp <= p as int <= bp,
                    0 <= yr as int <= 2 * VAL_LIMIT,
                    bp == 2 * THETA_LIMIT as int * VAL_LIMIT + THETA_LIMIT,
            ;
        }
        let scaled = div_trunc(p * yr as i128, SCALE as i128);
        let v = scaled + self.normalization.y_min.units as i128;
        if -(VAL_LIMIT as i128) <= v && v <= VAL_LIMIT as i128 {
            Some(Fx { units: v as i64 })
        } else {
            None
        }
    }

    /// Runs up to `iterations` steps of batch gradient descent on the
    /// normalized dataset.  Each step computes the cost, stops early on
    /// convergence (or if the step would leave the supported parameter
    /// range), otherwise updates both parameters from the batch gradient
    /// and appends the pre-update cost to the history.  On an empty
    /// dataset this is a no-op.
    pub fn train(&mut self, iterations: usize)
        requires
            old(self)@.wf(),
        ensures
            final(self)@ == train_spec(old(self)@, iterations as nat),
            final(self)@.wf(),
            final(self)@.data == old(self)@.data,
            final(self)@.learning_rate == old(self)@.learning_rate,
            final(self)@.x_min == old(self)@.x_min,
            final(self)@.x_max == old(self)@.x_max,
            final(self)@.y_min == old(self)@.y_min,
            final(self)@.y_max == old(self)@.y_max,
            final(self)@.costs.len() >= old(self)@.costs.len(),
            forall|i: int|
                0 <= i < old(self)@.costs.len() ==> #[trigger] final(self)@.costs[i] == old(
                    self,
                )@.costs[i],
            old(self)@.data.len() == 0 ==> final(self)@ == old(self)@,
    {
        let ghost m0 = self@;
        let n = self.data.len();
        let xr = self.normalization.x_max.units - self.normalization.x_min.units;
        if n == 0 {
            proof {
                lemma_train_stationary(m0, iterations as nat);
                lemma_train_frame(m0, iterations as nat);
            }
            return ;
        }
        let mut i: usize = 0;
        while i < iterations
            invariant
                0 <= i <= iterations,
                self@.wf(),
                n == self@.data.len(),
                n > 0,
                m0.wf(),
                m0 == old(self)@,
                m0.data.len() == n,
                xr == self@.xr(),
                train_spec(m0, iterations as nat) == train_spec(
                    self@,
                    (iterations - i) as nat,
                ),
            decreases iterations - i,
        {
            let j = self.cost_units();
            let clen = self.costs.len();
            if clen > 0 && self.costs[clen - 1] == j {
                proof {
                    assert(self@.costs.len() == clen);
                    assert(self@.costs.last() == self.costs@[clen - 1] as int);
                    assert(converged(self@));
                    lemma_train_stationary(self@, (iterations - i) as nat);
                    lemma_train_frame(m0, iterations as nat);
                }
                return ;
            }
            let mut s0: i128 = 0;
            let mut s1: i128 = 0;
            let mut k: usize = 0;
            while k < n
                invariant
                    0 <= k <= n,
                    self@.wf(),
                    n == self@.data.len(),
                    xr == self@.xr(),
                    s0 == sum_err(self@, k as int),
                    -(k as int * ERR_LIMIT) <= s0 <= k as int * ERR_LIMIT,
                    s1 == sum_err_dx(self@, k as int),
                    -(k as int * (ERR_LIMIT * xr)) <= s1 <= k as int * (ERR_LIMIT * xr),
                decreases n - k,
            {
                let e = self.sample_err(k);
                let dx = self.data[k].dx;
                proof {
                    assert(0 <= self@.data[k as int].0 <= self@.xr());
                    assert(-(ERR_LIMIT * xr) <= e * dx <= ERR_LIMIT * xr) by (nonlinear_arith)
                        requires
                            -ERR_LIMIT <= e <= ERR_LIMIT,
                            0 <= dx <= xr,
                    ;
                    assert((k as int + 1) * ERR_LIMIT == k as int * ERR_LIMIT + ERR_LIMIT);
                    assert((k as int + 1) * (ERR_LIMIT * xr) == k as int * (ERR_LIMIT * xr)
                        + ERR_LIMIT * xr) by (nonlinear_arith);
                    assert(k as int * ERR_LIMIT <= MAX_SAMPLES * ERR_LIMIT) by (nonlinear_arith)
                        requires
                            0 <= k as int <= MAX_SAMPLES,
                    ;
                    assert(k as int * (ERR_LIMIT * xr) <= MAX_SAMPLES as int * (ERR_LIMIT
                        * (2 * VAL_LIMIT))) by (nonlinear_arith)
                        requires
                            0 <= k as int <= MAX_SAMPLES,
                            0 <= xr <= 2 * VAL_LIMIT,
                    ;
                }
                s0 = s0 + e as i128;
                s1 = s1 + e as i128 * dx as i128;
                k = k + 1;
            }
            proof {
                assert(ERR_LIMIT as int * (n as int) == n as int * ERR_LIMIT);
                lemma_tdiv_bound(s0 as int, n as int, ERR_LIMIT as int);
            }
            let g0 = div_trunc(s0, n as i128);
            let g1: i128 = if xr == 0 {
                0
            } else {
                proof {
                    assert(n as int * (ERR_LIMIT * xr) == ERR_LIMIT as int * (n as int * xr))
                        by (nonlinear_arith);
                    assert(0 < n as int * xr <= MAX_SAMPLES as int * (2 * VAL_LIMIT))
                        by (nonlinear_arith)
                        requires
                            0 < n as int <= MAX_SAMPLES,
                            0 < xr <= 2 * VAL_LIMIT,
                    ;
                    lemma_tdiv_bound(s1 as int, n as int * xr, ERR_LIMIT as int);
                }
                div_trunc(s1, n as i128 * xr as i128)
            };
            proof {
                assert(g0 == grad0_of(self@));
                assert(g1 == grad1_of(self@));
                let lr = self@.learning_rate;
                assert(-(VAL_LIMIT as int * ERR_LIMIT) <= lr * g0 <= VAL_LIMIT as int
                    * ERR_LIMIT) by (nonlinear_arith)
                    requires
                        0 < lr <= VAL_LIMIT,
                        -ERR_LIMIT <= g0 as int <= ERR_LIMIT,
                ;
                assert(-(VAL_LIMIT as int * ERR_LIMIT) <= lr * g1 <= VAL_LIMIT as int
                    * ERR_LIMIT) by (nonlinear_arith)
                    requires
                        0 < lr <= VAL_LIMIT,
                        -ERR_LIMIT <= g1 as int <= ERR_LIMIT,
                ;
                lemma_tdiv_bound(lr * g0, SCALE as int, VAL_LIMIT as int * ERR_LIMIT);
                lemma_tdiv_bound(lr * g1, SCALE as int, VAL_LIMIT as int * ERR_LIMIT);
            }
            let d0 = div_trunc(self.learning_rate.units as i128 * g0, SCALE as i128);
            let d1 = div_trunc(self.learning_rate.units as i128 * g1, SCALE as i128);
            let nt0 = self.theta0.units as i128 - d0;
            let nt1 = self.theta1.units as i128 - d1;
            proof {
                assert(nt0 == step_theta0(self@));
                assert(nt1 == step_theta1(self@));
                assert(!converged(self@));
            }
            if nt0 < -(THETA_LIMIT as i128) || nt0 > THETA_LIMIT as i128 || nt1 < -(THETA_LIMIT
                as i128) || nt1 > THETA_LIMIT as i128 {
                proof {
                    assert(step_leaves_range(self@));
                    lemma_train_stationary(self@, (iterations - i) as nat);
                    lemma_train_frame(m0, iterations as nat);
                }
                return ;
            }
            let ghost prev = self@;
            self.theta0 = Fx { units: nt0 as i64 };
            self.theta1 = Fx { units: nt1 as i64 };
            self.costs.push(j);
            proof {
                assert(self@.costs =~= prev.costs.push(cost_of(prev)));
                assert(self@.data =~= prev.data);
                assert(self@ == stepped(prev));
                assert(train_spec(prev, (iterations - i) as nat) == train_spec(
                    stepped(prev),
                    (iterations - i - 1) as nat,
                ));
                lemma_step_wf(prev);
            }
            i = i + 1;
        }
        proof {
            lemma_train_frame(m0, iterations as nat);
        }
    }

    /// The model's prediction for the mileage of stored sample `k`.
    fn predict_stored(&self, k: usize) -> (pv: i64)
        requires
            self@.wf(),
            k < self@.data.len(),
        ensures
            pv == predict_val(self@, denorm_x_at(self@, k as int)),
            -PRED_LIMIT <= pv <= PRED_LIMIT,
    {
        proof {
            lemma_pred_stored_bound(self@, k as int);
        }
        if self.theta0.units == 0 && self.theta1.units == 0 {
            return 0;
        }
        let s = self.data[k];
        let xr = self.normalization.x_max.units - self.normalization.x_min.units;
        let yr = self.normalization.y_max.units - self.normalization.y_min.units;
        proof {
            assert(0 <= self@.data[k as int].0 <= self@.xr());
            assert(denorm_x_at(self@, k as int) - self@.x_min == s.dx as int);
        }
        let xpart: i64 = if xr == 0 {
            0
        } else {
            proof {
                lemma_mul_inequality(self@.theta1, THETA_LIMIT as int, s.dx as int);
                lemma_mul_inequality(-(THETA_LIMIT as int), self@.theta1, s.dx as int);
                lemma_mul_inequality(s.dx as int, self@.xr(), THETA_LIMIT as int);
                lemma_tdiv_bound(self@.theta1 * s.dx, self@.xr(), THETA_LIMIT as int);
            }
            div_trunc(self.theta1.units as i128 * s.dx as i128, xr as i128) as i64
        };
        let p: i64 = self.theta0.units + xpart;
        proof {
            assert(-(4_000_000_000_000_000 * SCALE) <= p as int * (yr as int)
                <= 4_000_000_000_000_000 * SCALE) by (nonlinear_arith)
                requires
                    -2 * THETA_LIMIT <= p as int <= 2 * THETA_LIMIT,
                    0 <= yr as int <= 2 * VAL_LIMIT,
            ;
            lemma_tdiv_bound(p as int * (yr as int), SCALE as int, 4_000_000_000_000_000);
        }
        let scaled = div_trunc(p as i128 * yr as i128, SCALE as i128);
        (scaled as i64) + self.normalization.y_min.units
    }

    /// Mean absolute error, mean squared error, its root, and the
    /// coefficient of determination, all over the denormalized dataset
    /// and denormalized predictions; absent exactly when the dataset is
    /// empty.
    pub fn compute_precision(&self) -> (r: Option<Precision>)
        requires
            self@.wf(),
        ensures
            (r is Some) <==> self@.data.len() > 0,
            r matches Some(p) ==> p.mae@ == mae_of(self@),
            r matches Some(p) ==> ((p.mse is Some) <==> mse_of(self@) <= i64::MAX),
            r matches Some(p) ==> (p.mse matches Some(v) ==> v@ == mse_of(self@)),
            r matches Some(p) ==> p.rmse@ * p.rmse@ <= mse_of(self@) * SCALE,
            r matches Some(p) ==> (p.rmse@ + 1) * (p.rmse@ + 1) > mse_of(self@) * SCALE,
            r matches Some(p) ==> ((p.r2 is Some) <==> sst_of(self@) > 0 && i64::MIN <= r2_of(
                self@,
            )),
            r matches Some(p) ==> (p.r2 matches Some(v) ==> v@ == r2_of(self@)),
    {
        let n = self.data.len();
        if n == 0 {
            return None;
        }
        let ghost m = self@;
        let mut sy: i128 = 0;
        let mut sae: i128 = 0;
        let mut sse: i128 = 0;
        let mut k: usize = 0;
        while k < n
            invariant
                0 <= k <= n,
                self@.wf(),
                self@ == m,
                n == self@.data.len(),
                sy == sum_y(m, k as int),
                -(k as int * VAL_LIMIT) <= sy <= k as int * VAL_LIMIT,
                sae == sum_abs_err(m, k as int),
                0 <= sae <= k as int * PERR_LIMIT,
                sse == sum_sq_pred_err(m, k as int),
                0 <= sse <= k as int * (PERR_LIMIT * PERR_LIMIT),
            decreases n - k,
        {
            let pv = self.predict_stored(k);
            let s = self.data[k];
            proof {
                assert(0 <= self@.data[k as int].1 <= self@.yr());
                lemma_pred_stored_bound(m, k as int);
            }
            let y: i64 = s.dy + self.normalization.y_min.units;
            let e: i64 = y - pv;
            let ae: i64 = if e < 0 {
                -e
            } else {
                e
            };
            proof {
                assert(y == denorm_y_at(m, k as int));
                assert(e == pred_err_at(m, k as int));
                assert(0 <= e as int * (e as int) <= PERR_LIMIT * PERR_LIMIT)
                    by (nonlinear_arith)
                    requires
                        -PERR_LIMIT <= e as int <= PERR_LIMIT,
                ;
                assert((k as int + 1) * VAL_LIMIT == k as int * VAL_LIMIT + VAL_LIMIT);
                assert((k as int + 1) * PERR_LIMIT == k as int * PERR_LIMIT + PERR_LIMIT);
                assert((k as int + 1) * (PERR_LIMIT * PERR_LIMIT) == k as int * (PERR_LIMIT
                    * PERR_LIMIT) + PERR_LIMIT * PERR_LIMIT) by (nonlinear_arith);
                assert(k as int * (PERR_LIMIT * PERR_LIMIT) <= MAX_SAMPLES as int * (PERR_LIMIT
                    * PERR_LIMIT)) by (nonlinear_arith)
                    requires
                        0 <= k as int <= MAX_SAMPLES,
                ;
                assert(k as int * PERR_LIMIT <= MAX_SAMPLES as int * PERR_LIMIT)
                    by (nonlinear_arith)
                    requires
                        0 <= k as int <= MAX_SAMPLES,
                ;
                assert(k as int * VAL_LIMIT <= MAX_SAMPLES as int * VAL_LIMIT)
                    by (nonlinear_arith)
                    requires
                        0 <= k as int <= MAX_SAMPLES,
                ;
            }
            sy = sy + y as i128;
            sae = sae + ae as i128;
            sse = sse + e as i128 * e as i128;
            k = k + 1;
        }
        proof {
            assert(VAL_LIMIT as int * (n as int) == n as int * VAL_LIMIT);
            lemma_tdiv_bound(sy as int, n as int, VAL_LIMIT as int);
        }
        let mean = div_trunc(sy, n as i128);
        proof {
            assert(mean == mean_y(m));
        }
        let mut sst: i128 = 0;
        let mut k2: usize = 0;
        while k2 < n
            invariant
                0 <= k2 <= n,
                self@.wf(),
                self@ == m,
                n == self@.data.len(),
                -VAL_LIMIT <= mean <= VAL_LIMIT,
                mean == mean_y(m),
                sst == sum_var(m, k2 as int, mean as int),
                0 <= sst <= k2 as int * (4 * VAL_LIMIT as int * VAL_LIMIT),
            decreases n - k2,
        {
            let s = self.data[k2];
            proof {
                assert(0 <= self@.data[k2 as int].1 <= self@.yr());
            }
            let y: i64 = s.dy + self.normalization.y_min.units;
            let d: i128 = y as i128 - mean;
            proof {
                assert(y == denorm_y_at(m, k2 as int));
                assert(0 <= d as int * (d as int) <= 4 * VAL_LIMIT as int * VAL_LIMIT)
                    by (nonlinear_arith)
                    requires
                        -2 * VAL_LIMIT <= d as int <= 2 * VAL_LIMIT,
                ;
                assert((k2 as int + 1) * (4 * VAL_LIMIT as int * VAL_LIMIT) == k2 as int * (4
                    * VAL_LIMIT as int * VAL_LIMIT) + 4 * VAL_LIMIT as int * VAL_LIMIT)
                    by (nonlinear_arith);
                assert(k2 as int * (4 * VAL_LIMIT as int * VAL_LIMIT) <= MAX_SAMPLES as int * (4
                    * VAL_LIMIT as int * VAL_LIMIT)) by (nonlinear_arith)
                    requires
                        0 <= k2 as int <= MAX_SAMPLES,
                ;
            }
            sst = sst + d * d;
            k2 = k2 + 1;
        }
        proof {
            assert(PERR_LIMIT as int * (n as int) == n as int * PERR_LIMIT);
            lemma_tdiv_bound(sae as int, n as int, PERR_LIMIT as int);
            lemma_div_pos_is_pos(sae as int, n as int);
        }
        let mae = div_trunc(sae, n as i128);
        proof {
            let mb = 16_016_004_000_000_000_000_000_000int;
            assert(mb * (n as int * SCALE) == n as int * (PERR_LIMIT * PERR_LIMIT))
                by (nonlinear_arith)
                requires
                    mb == 16_016_004_000_000_000_000_000_000int,
            ;
            assert(0 < n as int * SCALE <= MAX_SAMPLES as int * SCALE) by (nonlinear_arith)
                requires
                    0 < n as int <= MAX_SAMPLES,
            ;
            lemma_tdiv_bound(sse as int, n as int * SCALE, mb);
            lemma_div_pos_is_pos(sse as int, n as int * SCALE);
        }
        let mse128 = div_trunc(sse, n as i128 * SCALE as i128);
        let mse: Option<Fx> = if mse128 <= i64::MAX as i128 {
            Some(Fx { units: mse128 as i64 })
        } else {
            None
        };
        proof {
            assert(mse128 * SCALE <= 16_016_004_000_000_000_000_000_000int * SCALE)
                by (nonlinear_arith)
                requires
                    0 <= mse128 as int <= 16_016_004_000_000_000_000_000_000int,
            ;
        }
        let rad = (mse128 * SCALE as i128) as u128;
        let root = isqrt(rad);
        proof {
            let rb = 4_003_000_000_000_000int;
            assert(root as int <= rb) by (nonlinear_arith)
                requires
                    root as int * (root as int) <= rad as int,
                    0 <= root,
                    rad as int <= 16_016_004_000_000_000_000_000_000int * SCALE,
                    rb == 4_003_000_000_000_000int,
            ;
        }
        let rmse = Fx { units: root as i64 };
        let r2: Option<Fx> = if sst == 0 {
            None
        } else {
            let q = div_trunc(sse, sst);
            proof {
                vstd::arithmetic::div_mod::lemma_fundamental_div_mod(sse as int, sst as int);
                vstd::arithmetic::div_mod::lemma_mod_division_less_than_divisor(
                    sse as int,
                    sst as int,
                );
                lemma_div_pos_is_pos(sse as int, sst as int);
                assert(0 <= sse && 0 < sst);
                assert(q == sse as int / sst as int);
                assert(sst as int * (sse as int / sst as int) == sst as int * (q as int));
                assert(sst as int * (q as int) == q as int * (sst as int))
                    by (nonlinear_arith);
                assert(q as int * sst == sse as int - sse as int % sst as int);
            }
            let rem = sse - q * sst;
            proof {
                assert(rem == sse as int % sst as int);
                assert(sse as int * SCALE == rem as int * SCALE + (q as int * SCALE) * sst)
                    by (nonlinear_arith)
                    requires
                        sse as int == q as int * sst + rem,
                ;
                lemma_hoist_over_denominator(rem as int * SCALE, q as int * SCALE, sst as nat);
                assert(tdiv(sse as int * SCALE, sst as int) == q as int * SCALE + tdiv(
                    rem as int * SCALE,
                    sst as int,
                ));
                assert(rem as int * SCALE <= sst as int * SCALE) by (nonlinear_arith)
                    requires
                        0 <= rem as int <= sst as int,
                ;
                assert(SCALE as int * sst == sst as int * SCALE);
                lemma_tdiv_bound(rem as int * SCALE, sst as int, SCALE as int);
                lemma_div_pos_is_pos(rem as int * SCALE, sst as int);
                vstd::arithmetic::mul::lemma_mul_nonnegative(rem as int, SCALE as int);
            }
            if q > 20_000_000_000_000 {
                proof {
                    assert(q as int * SCALE >= 20_000_000_000_000int * SCALE)
                        by (nonlinear_arith)
                        requires
                            q as int >= 20_000_000_000_000int,
                    ;
                }
                None
            } else {
                let frac = div_trunc(rem * SCALE as i128, sst);
                let v = SCALE as i128 - (q * SCALE as i128 + frac);
                proof {
                    assert(v == r2_of(m));
                }
                if v >= i64::MIN as i128 {
                    Some(Fx { units: v as i64 })
                } else {
                    None
                }
            }
        };
        Some(Precision { mae: Fx { units: mae as i64 }, mse, rmse, r2 })
    }
}

} // verus!
