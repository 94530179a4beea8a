pub mod helpers;
pub mod traits;

pub use crate::helpers::{keep_last, seq_sum, Accumulator, SlidingWindow};
pub use crate::traits::{lit, specified_arith, ExactInt, Filter, Scalar};

use vstd::prelude::*;
use crate::helpers::{
    lemma_keep_last_push, lemma_accumulator_history, lemma_accumulator_history_sums, lemma_seq_sum_first,
};
use vstd::std_specs::convert::FromSpec;
use vstd::std_specs::ops::{AddSpec, DivSpec, MulSpec, SubSpec};

verus! {

/// # Welles Wilder smoothing
pub struct WWS<T> {
    prev: Option<T>,
    periods: T,
}

impl<T> WWS<T> where T: Scalar {
    /// The last value returned, `None` before the first step.
    pub closed spec fn prev(&self) -> Option<T> {
        self.prev
    }

    /// The smoothing period.
    pub closed spec fn periods(&self) -> T {
        self.periods
    }

    /// The value a step with `value` returns.
    pub open spec fn output(&self, value: T) -> T {
        match self.prev() {
            Some(p) => p.add_spec(value.sub_spec(p).div_spec(self.periods())),
            None => value,
        }
    }

    pub fn new(prev: Option<T>, periods: T) -> (r: Self)
        ensures
            r.prev() == prev,
            r.periods() == periods,
    {
        Self { prev, periods }
    }
}

impl<T> Filter for WWS<T> where T: Scalar {
    type Input = T;

    type Output = T;

    open spec fn inv(&self) -> bool {
        true
    }

    open spec fn step_req(&self, value: T) -> bool {
        self.prev() matches Some(p) ==> {
            &&& specified_arith::<T>()
            &&& value.sub_req(p)
            &&& value.sub_spec(p).div_req(self.periods())
            &&& p.add_req(value.sub_spec(p).div_spec(self.periods()))
        }
    }

    open spec fn step_post(&self, value: T, next: Self, out: T) -> bool {
        &&& out == self.output(value)
        &&& next.prev() == Some(out)
        &&& next.periods() == self.periods()
    }

    open spec fn reset_post(&self, next: Self) -> bool {
        &&& next.prev() == None::<T>
        &&& next.periods() == self.periods()
    }

    fn step(&mut self, value: T) -> (out: T) {
        let next = match self.prev {
            Some(prev) => prev + ((value - prev) / self.periods),
            None => value,
        };
        self.prev = Some(next);
        next
    }

    fn reset(&mut self) {
        self.prev = None;
    }
}

/// The smoothing factor `smoothing_constant / (periods + 1)` of an exponential moving average.
pub open spec fn ema_alpha<T: Scalar>(periods: i32, smoothing_constant: i32) -> T {
    lit::<T>(smoothing_constant).div_spec(lit::<T>(periods).add_spec(lit::<T>(1)))
}

/// The arithmetic that computes the smoothing factors of an exponential moving average is
/// defined.
pub open spec fn ema_params_req<T: Scalar>(periods: i32, smoothing_constant: i32) -> bool {
    &&& specified_arith::<T>()
    &&& lit::<T>(periods).add_req(lit::<T>(1))
    &&& lit::<T>(smoothing_constant).div_req(lit::<T>(periods).add_spec(lit::<T>(1)))
    &&& lit::<T>(1).sub_req(ema_alpha::<T>(periods, smoothing_constant))
}

/// # Exponential moving average
pub struct EMA<T> {
    prev: Option<T>,
    alpha: T,
    alpha_neg: T,
}

impl<T> EMA<T> where T: Scalar {
    /// The last value returned, `None` before the first step.
    pub closed spec fn prev(&self) -> Option<T> {
        self.prev
    }

    /// The weight of the new input.
    pub closed spec fn alpha(&self) -> T {
        self.alpha
    }

    /// The weight of the previous average.
    pub closed spec fn alpha_neg(&self) -> T {
        self.alpha_neg
    }

    /// The value a step with `value` returns.
    pub open spec fn output(&self, value: T) -> T {
        match self.prev() {
            Some(p) => self.alpha().mul_spec(value).add_spec(self.alpha_neg().mul_spec(p)),
            None => value,
        }
    }

    /// A step with `value` is defined.
    pub open spec fn output_req(&self, value: T) -> bool {
        self.prev() matches Some(p) ==> {
            &&& specified_arith::<T>()
            &&& self.alpha().mul_req(value)
            &&& self.alpha_neg().mul_req(p)
            &&& self.alpha().mul_spec(value).add_req(self.alpha_neg().mul_spec(p))
        }
    }

    /// `self` is an average with the given starting value, made from `periods` and
    /// `smoothing_constant` as `EMA::new` makes it.
    pub open spec fn made_from(&self, prev: Option<T>, periods: i32, smoothing_constant: i32) -> bool {
        &&& self.prev() == prev
        &&& self.alpha() == lit::<T>(smoothing_constant).div_spec(lit::<T>(periods).add_spec(lit::<T>(1)))
        &&& self.alpha_neg() == lit::<T>(1).sub_spec(
            lit::<T>(smoothing_constant).div_spec(lit::<T>(periods).add_spec(lit::<T>(1))),
        )
    }

    /// Creates an average with smoothing factor `smoothing_constant / (periods + 1)`, starting
    /// from `prev`.
    pub fn new(prev: Option<T>, periods: i32, smoothing_constant: i32) -> (r: Self)
        requires
            ema_params_req::<T>(periods, smoothing_constant),
        ensures
            r.prev() == prev,
            r.alpha() == lit::<T>(smoothing_constant).div_spec(lit::<T>(periods).add_spec(lit::<T>(1))),
            r.alpha_neg() == lit::<T>(1).sub_spec(
                lit::<T>(smoothing_constant).div_spec(lit::<T>(periods).add_spec(lit::<T>(1))),
            ),
    {
        let one_t = T::from(1);
        let alpha = T::from(smoothing_constant) / (T::from(periods) + one_t);
        Self { prev, alpha, alpha_neg: one_t - alpha }
    }
}

impl<T> Filter for EMA<T> where T: Scalar {
    type Input = T;

    type Output = T;

    open spec fn inv(&self) -> bool {
        true
    }

    open spec fn step_req(&self, value: T) -> bool {
        self.output_req(value)
    }

    open spec fn step_post(&self, value: T, next: Self, out: T) -> bool {
        &&& out == self.output(value)
        &&& next.prev() == Some(out)
        &&& next.alpha() == self.alpha()
        &&& next.alpha_neg() == self.alpha_neg()
    }

    open spec fn reset_post(&self, next: Self) -> bool {
        &&& next.prev() == None::<T>
        &&& next.alpha() == self.alpha()
        &&& next.alpha_neg() == self.alpha_neg()
    }

    fn step(&mut self, value: T) -> (out: T) {
        let next = match self.prev {
            Some(prev) => self.alpha * value + self.alpha_neg * prev,
            None => value,
        };
        self.prev = Some(next);
        next
    }

    fn reset(&mut self) {
        self.prev = None;
    }
}

/// A Welles Wilder smoothing step from previous value `p` with `value` returns
/// `p + (value - p) / periods`; the first step (no previous value) returns `value`. Either
/// way the result becomes the previous value and the period is kept.
pub proof fn lemma_wws_step<T: Scalar>(w: WWS<T>, value: T, next: WWS<T>, out: T)
    requires
        w.step_post(value, next, out),
    ensures
        match w.prev() {
            Some(p) => out == p.add_spec(value.sub_spec(p).div_spec(w.periods())),
            None => out == value,
        },
        next.prev() == Some(out),
        next.periods() == w.periods(),
{
}

/// An exponential average whose weights are those `EMA::new(.., periods, smoothing_constant)`
/// sets, `alpha = T::from(smoothing_constant) / (T::from(periods) + T::from(1))` and
/// `T::from(1) - alpha`, steps from previous value `p` with `value` to
/// `alpha * value + (1 - alpha) * p`, and from no previous value to `value`; the result becomes
/// its previous value and the weights are kept.
pub proof fn lemma_ema_step<T: Scalar>(
    e: EMA<T>,
    periods: i32,
    smoothing_constant: i32,
    value: T,
    next: EMA<T>,
    out: T,
)
    requires
        e.alpha() == lit::<T>(smoothing_constant).div_spec(lit::<T>(periods).add_spec(lit::<T>(1))),
        e.alpha_neg() == lit::<T>(1).sub_spec(lit::<T>(smoothing_constant).div_spec(lit::<T>(periods).add_spec(lit::<T>(1)))),
        e.step_post(value, next, out),
    ensures
        match e.prev() {
            Some(p) => out == lit::<T>(smoothing_constant).div_spec(lit::<T>(periods).add_spec(lit::<T>(1))).mul_spec(value).add_spec(
                lit::<T>(1).sub_spec(lit::<T>(smoothing_constant).div_spec(lit::<T>(periods).add_spec(lit::<T>(1)))).mul_spec(p),
            ),
            None => out == value,
        },
        next.prev() == Some(out),
        next.alpha() == lit::<T>(smoothing_constant).div_spec(lit::<T>(periods).add_spec(lit::<T>(1))),
        next.alpha_neg() == lit::<T>(1).sub_spec(lit::<T>(smoothing_constant).div_spec(lit::<T>(periods).add_spec(lit::<T>(1)))),
{
}

/// Over an exact integer type (`i64`, `i128`), a step of an exponential average that
/// `EMA::new(.., periods, smoothing_constant)` made moves its previous value `p` toward
/// `value` by `alpha` times the difference: it returns `p + alpha * (value - p)`, where
/// `alpha = T::from(smoothing_constant) / (T::from(periods) + T::from(1))` (the type's own
/// division).
pub proof fn lemma_ema_step_exact<T: ExactInt>(
    e: EMA<T>,
    periods: i32,
    smoothing_constant: i32,
    value: T,
    next: EMA<T>,
    out: T,
)
    requires
        ema_params_req::<T>(periods, smoothing_constant),
        e.alpha() == lit::<T>(smoothing_constant).div_spec(lit::<T>(periods).add_spec(lit::<T>(1))),
        e.alpha_neg() == lit::<T>(1).sub_spec(lit::<T>(smoothing_constant).div_spec(lit::<T>(periods).add_spec(lit::<T>(1)))),
        e.step_req(value),
        e.step_post(value, next, out),
    ensures
        e.prev() matches Some(p) ==> out.to_int() == p.to_int() + lit::<T>(smoothing_constant).div_spec(lit::<T>(periods).add_spec(lit::<T>(1))).to_int() * (
        value.to_int() - p.to_int()),
{
    if let Some(p) = e.prev() {
        let a = lit::<T>(smoothing_constant).div_spec(lit::<T>(periods).add_spec(lit::<T>(1)));
        T::lemma_lit(1);
        T::lemma_sub(lit::<T>(1), a);
        T::lemma_mul(a, value);
        T::lemma_mul(lit::<T>(1).sub_spec(a), p);
        T::lemma_add(a.mul_spec(value), lit::<T>(1).sub_spec(a).mul_spec(p));
        let ai = a.to_int();
        let vi = value.to_int();
        let pi = p.to_int();
        assert(ai * vi + (1 - ai) * pi == pi + ai * (vi - pi)) by (nonlinear_arith);
    }
}

/// # Double exponential moving average
pub struct DEMA<T> {
    ema_1: EMA<T>,
    ema_2: EMA<T>,
    two_t: T,
}

impl<T> DEMA<T> where T: Scalar {
    /// The average of the inputs.
    pub closed spec fn ema_1(&self) -> EMA<T> {
        self.ema_1
    }

    /// The average of the first average.
    pub closed spec fn ema_2(&self) -> EMA<T> {
        self.ema_2
    }

    /// The value two of `T`.
    pub closed spec fn two(&self) -> T {
        self.two_t
    }

    /// The value a step with `value` returns: `2 * e1 - e2`.
    pub open spec fn output(&self, value: T) -> T {
        let e1 = self.ema_1().output(value);
        let e2 = self.ema_2().output(e1);
        self.two().mul_spec(e1).sub_spec(e2)
    }

    pub fn new(prev: Option<T>, periods: i32, smoothing_constant: i32) -> (r: Self)
        requires
            ema_params_req::<T>(periods, smoothing_constant),
        ensures
            r.ema_1().made_from(prev, periods, smoothing_constant),
            r.ema_2().made_from(None, periods, smoothing_constant),
            r.two() == lit::<T>(2),
    {
        Self {
            ema_1: EMA::new(prev, periods, smoothing_constant),
            ema_2: EMA::new(None, periods, smoothing_constant),
            two_t: T::from(2),
        }
    }
}

impl<T> Filter for DEMA<T> where T: Scalar {
    type Input = T;

    type Output = T;

    open spec fn inv(&self) -> bool {
        true
    }

    open spec fn step_req(&self, value: T) -> bool {
        let e1 = self.ema_1().output(value);
        let e2 = self.ema_2().output(e1);
        &&& specified_arith::<T>()
        &&& self.ema_1().output_req(value)
        &&& self.ema_2().output_req(e1)
        &&& self.two().mul_req(e1)
        &&& self.two().mul_spec(e1).sub_req(e2)
    }

    open spec fn step_post(&self, value: T, next: Self, out: T) -> bool {
        let e1 = self.ema_1().output(value);
        let e2 = self.ema_2().output(e1);
        &&& out == self.output(value)
        &&& self.ema_1().step_post(value, next.ema_1(), e1)
        &&& self.ema_2().step_post(e1, next.ema_2(), e2)
        &&& next.two() == self.two()
    }

    open spec fn reset_post(&self, next: Self) -> bool {
        &&& self.ema_1().reset_post(next.ema_1())
        &&& self.ema_2().reset_post(next.ema_2())
        &&& next.two() == self.two()
    }

    fn step(&mut self, value: T) -> (out: T) {
        let e1 = self.ema_1.step(value);
        let e2 = self.ema_2.step(e1);
        self.two_t * e1 - e2
    }

    fn reset(&mut self) {
        self.ema_1.reset();
        self.ema_2.reset();
    }
}

impl<T: Scalar> EMA<T> {
    /// Two averages whose starting value and weights agree are the same average.
    pub proof fn lemma_same(a: Self, b: Self)
        requires
            a.prev() == b.prev(),
            a.alpha() == b.alpha(),
            a.alpha_neg() == b.alpha_neg(),
        ensures
            a == b,
    {
    }
}

impl<T: Scalar> DEMA<T> {
    /// A double average and two exponential averages that start equal to its inner ones, put
    /// through the same history: each step of the double average with `x` (`events[i]` is
    /// `Some(x)`) is mirrored by a step of the first average with `x` (returning `y1s[i]`)
    /// and of the second with `y1s[i]` (returning `y2s[i]`); each reset (`None`) by a reset of
    /// both. Its inner averages then stay equal to the two, and, when `new` made it (its `two`
    /// is `T::from(2)`), each of its steps returns `T::from(2) * y1 - y2`.
    pub proof fn lemma_mirrors_emas(
        states: Seq<Self>,
        e1s: Seq<EMA<T>>,
        e2s: Seq<EMA<T>>,
        events: Seq<Option<T>>,
        outs: Seq<T>,
        y1s: Seq<T>,
        y2s: Seq<T>,
    )
        requires
            states.len() == events.len() + 1,
            e1s.len() == events.len() + 1,
            e2s.len() == events.len() + 1,
            outs.len() == events.len(),
            y1s.len() == events.len(),
            y2s.len() == events.len(),
            states[0].two() == lit::<T>(2),
            e1s[0] == states[0].ema_1(),
            e2s[0] == states[0].ema_2(),
            forall|i: int|
                0 <= i < events.len() ==> match #[trigger] events[i] {
                    Some(x) => {
                        &&& states[i].step_post(x, states[i + 1], outs[i])
                        &&& e1s[i].step_post(x, e1s[i + 1], y1s[i])
                        &&& e2s[i].step_post(y1s[i], e2s[i + 1], y2s[i])
                    },
                    None => {
                        &&& states[i].reset_post(states[i + 1])
                        &&& e1s[i].reset_post(e1s[i + 1])
                        &&& e2s[i].reset_post(e2s[i + 1])
                    },
                },
        ensures
            forall|i: int|
                0 <= i <= events.len() ==> {
                    &&& #[trigger] states[i].ema_1() == e1s[i]
                    &&& states[i].ema_2() == e2s[i]
                    &&& states[i].two() == states[0].two()
                },
            forall|i: int|
                0 <= i < events.len() ==> (#[trigger] events[i] is Some ==> outs[i]
                    == lit::<T>(2).mul_spec(y1s[i]).sub_spec(y2s[i])),
    {
        assert forall|i: int| 0 <= i <= events.len() implies {
            &&& #[trigger] states[i].ema_1() == e1s[i]
            &&& states[i].ema_2() == e2s[i]
            &&& states[i].two() == states[0].two()
        } by {
            Self::lemma_mirror_at(states, e1s, e2s, events, outs, y1s, y2s, i);
        }
        assert forall|i: int| 0 <= i < events.len() implies (#[trigger] events[i] is Some
            ==> outs[i] == lit::<T>(2).mul_spec(y1s[i]).sub_spec(y2s[i])) by {
            Self::lemma_mirror_at(states, e1s, e2s, events, outs, y1s, y2s, i);
        }
    }

    proof fn lemma_mirror_at(
        states: Seq<Self>,
        e1s: Seq<EMA<T>>,
        e2s: Seq<EMA<T>>,
        events: Seq<Option<T>>,
        outs: Seq<T>,
        y1s: Seq<T>,
        y2s: Seq<T>,
        i: int,
    )
        requires
            states.len() == events.len() + 1,
            e1s.len() == events.len() + 1,
            e2s.len() == events.len() + 1,
            outs.len() == events.len(),
            y1s.len() == events.len(),
            y2s.len() == events.len(),
            0 <= i <= events.len(),
            states[0].two() == lit::<T>(2),
            e1s[0] == states[0].ema_1(),
            e2s[0] == states[0].ema_2(),
            forall|j: int|
                0 <= j < events.len() ==> match #[trigger] events[j] {
                    Some(x) => {
                        &&& states[j].step_post(x, states[j + 1], outs[j])
                        &&& e1s[j].step_post(x, e1s[j + 1], y1s[j])
                        &&& e2s[j].step_post(y1s[j], e2s[j + 1], y2s[j])
                    },
                    None => {
                        &&& states[j].reset_post(states[j + 1])
                        &&& e1s[j].reset_post(e1s[j + 1])
                        &&& e2s[j].reset_post(e2s[j + 1])
                    },
                },
        ensures
            states[i].ema_1() == e1s[i],
            states[i].ema_2() == e2s[i],
            states[i].two() == states[0].two(),
            i < events.len() ==> (events[i] is Some ==> outs[i] == lit::<T>(2).mul_spec(
                y1s[i],
            ).sub_spec(y2s[i])),
        decreases i,
    {
        if i > 0 {
            let j = i - 1;
            Self::lemma_mirror_at(states, e1s, e2s, events, outs, y1s, y2s, j);
            EMA::lemma_same(states[i].ema_1(), e1s[i]);
            EMA::lemma_same(states[i].ema_2(), e2s[i]);
        }
    }
}

/// # Triple exponential moving average
pub struct TEMA<T> {
    ema_1: EMA<T>,
    ema_2: EMA<T>,
    ema_3: EMA<T>,
    three_t: T,
}

impl<T> TEMA<T> where T: Scalar {
    /// The average of the inputs.
    pub closed spec fn ema_1(&self) -> EMA<T> {
        self.ema_1
    }

    /// The average of the first average.
    pub closed spec fn ema_2(&self) -> EMA<T> {
        self.ema_2
    }

    /// The average of the second average.
    pub closed spec fn ema_3(&self) -> EMA<T> {
        self.ema_3
    }

    /// The value three of `T`.
    pub closed spec fn three(&self) -> T {
        self.three_t
    }

    /// The value a step with `value` returns: `3 * e1 - 3 * e2 + e3`.
    pub open spec fn output(&self, value: T) -> T {
        let e1 = self.ema_1().output(value);
        let e2 = self.ema_2().output(e1);
        let e3 = self.ema_3().output(e2);
        self.three().mul_spec(e1).sub_spec(self.three().mul_spec(e2)).add_spec(e3)
    }

    pub fn new(prev: Option<T>, periods: i32, smoothing_constant: i32) -> (r: Self)
        requires
            ema_params_req::<T>(periods, smoothing_constant),
        ensures
            r.ema_1().made_from(prev, periods, smoothing_constant),
            r.ema_2().made_from(None, periods, smoothing_constant),
            r.ema_3().made_from(None, periods, smoothing_constant),
            r.three() == lit::<T>(3),
    {
        Self {
            ema_1: EMA::new(prev, periods, smoothing_constant),
            ema_2: EMA::new(None, periods, smoothing_constant),
            ema_3: EMA::new(None, periods, smoothing_constant),
            three_t: T::from(3),
        }
    }
}

impl<T> Filter for TEMA<T> where T: Scalar {
    type Input = T;

    type Output = T;

    open spec fn inv(&self) -> bool {
        true
    }

    open spec fn step_req(&self, value: T) -> bool {
        let e1 = self.ema_1().output(value);
        let e2 = self.ema_2().output(e1);
        let e3 = self.ema_3().output(e2);
        &&& specified_arith::<T>()
        &&& self.ema_1().output_req(value)
        &&& self.ema_2().output_req(e1)
        &&& self.ema_3().output_req(e2)
        &&& self.three().mul_req(e1)
        &&& self.three().mul_req(e2)
        &&& self.three().mul_spec(e1).sub_req(self.three().mul_spec(e2))
        &&& self.three().mul_spec(e1).sub_spec(self.three().mul_spec(e2)).add_req(e3)
    }

    open spec fn step_post(&self, value: T, next: Self, out: T) -> bool {
        let e1 = self.ema_1().output(value);
        let e2 = self.ema_2().output(e1);
        let e3 = self.ema_3().output(e2);
        &&& out == self.output(value)
        &&& self.ema_1().step_post(value, next.ema_1(), e1)
        &&& self.ema_2().step_post(e1, next.ema_2(), e2)
        &&& self.ema_3().step_post(e2, next.ema_3(), e3)
        &&& next.three() == self.three()
    }

    open spec fn reset_post(&self, next: Self) -> bool {
        &&& self.ema_1().reset_post(next.ema_1())
        &&& self.ema_2().reset_post(next.ema_2())
        &&& self.ema_3().reset_post(next.ema_3())
        &&& next.three() == self.three()
    }

    fn step(&mut self, value: T) -> (out: T) {
        let e1 = self.ema_1.step(value);
        let e2 = self.ema_2.step(e1);
        let e3 = self.ema_3.step(e2);
        self.three_t * e1 - self.three_t * e2 + e3
    }

    fn reset(&mut self) {
        self.ema_1.reset();
        self.ema_2.reset();
        self.ema_3.reset();
    }
}

impl<T: Scalar> TEMA<T> {
    /// A triple average and three exponential averages that start equal to its inner ones,
    /// put through the same history: each step of the triple average with `x` (`events[i]` is
    /// `Some(x)`) is mirrored by a step of the first average with `x` (returning `y1s[i]`), of
    /// the second with `y1s[i]` (returning `y2s[i]`) and of the third with `y2s[i]` (returning
    /// `y3s[i]`); each reset (`None`) by a reset of all three. Its inner averages then stay
    /// equal to the three, and, when `new` made it (its `three` is `T::from(3)`), each of its
    /// steps returns `T::from(3) * y1 - T::from(3) * y2 + y3`.
    pub proof fn lemma_mirrors_emas(
        states: Seq<Self>,
        es: Seq<(EMA<T>, EMA<T>, EMA<T>)>,
        events: Seq<Option<T>>,
        outs: Seq<T>,
        ys: Seq<(T, T, T)>,
    )
        requires
            states.len() == events.len() + 1,
            es.len() == events.len() + 1,
            outs.len() == events.len(),
            ys.len() == events.len(),
            states[0].three() == lit::<T>(3),
            es[0] == (states[0].ema_1(), states[0].ema_2(), states[0].ema_3()),
            forall|i: int|
                0 <= i < events.len() ==> match #[trigger] events[i] {
                    Some(x) => {
                        &&& states[i].step_post(x, states[i + 1], outs[i])
                        &&& es[i].0.step_post(x, es[i + 1].0, ys[i].0)
                        &&& es[i].1.step_post(ys[i].0, es[i + 1].1, ys[i].1)
                        &&& es[i].2.step_post(ys[i].1, es[i + 1].2, ys[i].2)
                    },
                    None => {
                        &&& states[i].reset_post(states[i + 1])
                        &&& es[i].0.reset_post(es[i + 1].0)
                        &&& es[i].1.reset_post(es[i + 1].1)
                        &&& es[i].2.reset_post(es[i + 1].2)
                    },
                },
        ensures
            forall|i: int|
                0 <= i <= events.len() ==> {
                    &&& #[trigger] es[i] == (states[i].ema_1(), states[i].ema_2(), states[i].ema_3())
                    &&& states[i].three() == states[0].three()
                },
            forall|i: int|
                0 <= i < events.len() ==> (#[trigger] events[i] is Some ==> outs[i]
                    == lit::<T>(3).mul_spec(ys[i].0).sub_spec(
                    lit::<T>(3).mul_spec(ys[i].1),
                ).add_spec(ys[i].2)),
    {
        assert forall|i: int| 0 <= i <= events.len() implies {
            &&& #[trigger] es[i] == (states[i].ema_1(), states[i].ema_2(), states[i].ema_3())
            &&& states[i].three() == states[0].three()
        } by {
            Self::lemma_mirror_at(states, es, events, outs, ys, i);
        }
        assert forall|i: int| 0 <= i < events.len() implies (#[trigger] events[i] is Some
            ==> outs[i] == lit::<T>(3).mul_spec(ys[i].0).sub_spec(
            lit::<T>(3).mul_spec(ys[i].1),
        ).add_spec(ys[i].2)) by {
            Self::lemma_mirror_at(states, es, events, outs, ys, i);
        }
    }

    proof fn lemma_mirror_at(
        states: Seq<Self>,
        es: Seq<(EMA<T>, EMA<T>, EMA<T>)>,
        events: Seq<Option<T>>,
        outs: Seq<T>,
        ys: Seq<(T, T, T)>,
        i: int,
    )
        requires
            states.len() == events.len() + 1,
            es.len() == events.len() + 1,
            outs.len() == events.len(),
            ys.len() == events.len(),
            0 <= i <= events.len(),
            states[0].three() == lit::<T>(3),
            es[0] == (states[0].ema_1(), states[0].ema_2(), states[0].ema_3()),
            forall|j: int|
                0 <= j < events.len() ==> match #[trigger] events[j] {
                    Some(x) => {
                        &&& states[j].step_post(x, states[j + 1], outs[j])
                        &&& es[j].0.step_post(x, es[j + 1].0, ys[j].0)
                        &&& es[j].1.step_post(ys[j].0, es[j + 1].1, ys[j].1)
                        &&& es[j].2.step_post(ys[j].1, es[j + 1].2, ys[j].2)
                    },
                    None => {
                        &&& states[j].reset_post(states[j + 1])
                        &&& es[j].0.reset_post(es[j + 1].0)
                        &&& es[j].1.reset_post(es[j + 1].1)
                        &&& es[j].2.reset_post(es[j + 1].2)
                    },
                },
        ensures
            es[i] == (states[i].ema_1(), states[i].ema_2(), states[i].ema_3()),
            states[i].three() == states[0].three(),
            i < events.len() ==> (events[i] is Some ==> outs[i] == lit::<T>(3).mul_spec(
                ys[i].0,
            ).sub_spec(lit::<T>(3).mul_spec(ys[i].1)).add_spec(ys[i].2)),
        decreases i,
    {
        if i > 0 {
            let j = i - 1;
            Self::lemma_mirror_at(states, es, events, outs, ys, j);
            EMA::lemma_same(states[i].ema_1(), es[i].0);
            EMA::lemma_same(states[i].ema_2(), es[i].1);
            EMA::lemma_same(states[i].ema_3(), es[i].2);
        }
    }
}

/// # Cumulative moving average
pub struct CMA<T> {
    count: T,
    avg: T,
    zero_t: T,
    one_t: T,
}

impl<T> CMA<T> where T: Scalar {
    /// The number of values seen.
    pub closed spec fn count(&self) -> T {
        self.count
    }

    /// The current average.
    pub closed spec fn avg(&self) -> T {
        self.avg
    }

    /// The value zero of `T`.
    pub closed spec fn zero(&self) -> T {
        self.zero_t
    }

    /// The value one of `T`.
    pub closed spec fn one(&self) -> T {
        self.one_t
    }

    /// The count after a step.
    pub open spec fn next_count(&self) -> T {
        self.count().add_spec(self.one())
    }

    /// The value a step with `value` returns.
    pub open spec fn output(&self, value: T) -> T {
        self.avg().add_spec(value.sub_spec(self.avg()).div_spec(self.next_count()))
    }

    /// `self` is in the state `CMA::new` makes: no value seen, average zero.
    pub open spec fn fresh(&self) -> bool {
        &&& self.count() == lit::<T>(0)
        &&& self.avg() == lit::<T>(0)
        &&& self.zero() == lit::<T>(0)
        &&& self.one() == lit::<T>(1)
    }

    /// A reset puts an average that `new` made back in the state `new` made it in: steps
    /// never change its zero and one, and a reset sets count and average back to zero.
    pub proof fn lemma_reset_restores_fresh(&self, value: T, stepped: Self, next: Self)
        requires
            self.fresh(),
            self.step_post(value, stepped, self.output(value)),
            stepped.reset_post(next),
        ensures
            next.fresh(),
    {
    }

    pub fn new() -> (r: Self)
        ensures
            r.count() == r.zero(),
            r.avg() == r.zero(),
            <T as FromSpec<i32>>::obeys_from_spec() ==> r.fresh(),
    {
        let zero_t = T::from(0);
        Self { count: zero_t, avg: zero_t, zero_t, one_t: T::from(1) }
    }
}

impl<T> Filter for CMA<T> where T: Scalar {
    type Input = T;

    type Output = T;

    open spec fn inv(&self) -> bool {
        true
    }

    open spec fn step_req(&self, value: T) -> bool {
        &&& specified_arith::<T>()
        &&& self.count().add_req(self.one())
        &&& value.sub_req(self.avg())
        &&& value.sub_spec(self.avg()).div_req(self.next_count())
        &&& self.avg().add_req(value.sub_spec(self.avg()).div_spec(self.next_count()))
    }

    open spec fn step_post(&self, value: T, next: Self, out: T) -> bool {
        &&& out == self.output(value)
        &&& next.count() == self.next_count()
        &&& next.avg() == out
        &&& next.zero() == self.zero()
        &&& next.one() == self.one()
    }

    open spec fn reset_post(&self, next: Self) -> bool {
        &&& next.count() == self.zero()
        &&& next.avg() == self.zero()
        &&& next.zero() == self.zero()
        &&& next.one() == self.one()
    }

    fn step(&mut self, value: T) -> (out: T) {
        self.count = self.count + self.one_t;
        let diff = value - self.avg;
        self.avg = self.avg + (diff / self.count);
        self.avg
    }

    fn reset(&mut self) {
        self.count = self.zero_t;
        self.avg = self.zero_t;
    }
}

impl<T: Scalar> CMA<T> {
    /// A cumulative average step adds one to the count and moves the average by the
    /// difference between `value` and the average, divided by the new count:
    /// `avg + (value - avg) / (count + 1)`, which it returns.
    pub proof fn lemma_step(&self, value: T, next: Self, out: T)
        requires
            self.step_post(value, next, out),
        ensures
            next.count() == self.count().add_spec(self.one()),
            out == self.avg().add_spec(
                value.sub_spec(self.avg()).div_spec(self.count().add_spec(self.one())),
            ),
            next.avg() == out,
            next.one() == self.one(),
            next.zero() == self.zero(),
    {
    }
}

impl<T: ExactInt> CMA<T> {
    /// A cumulative average over an exact integer type (`i64`, `i128`) that `new` made,
    /// stepped with `xs` (`states[i]` is its state before the step with `xs[i]`, `outs[i]`
    /// what that step returned): after `i` steps its count is `i`, and the first step returns
    /// its input.
    pub proof fn lemma_history(states: Seq<Self>, xs: Seq<T>, outs: Seq<T>)
        requires
            states.len() == xs.len() + 1,
            outs.len() == xs.len(),
            states[0].fresh(),
            forall|i: int| 0 <= i < xs.len() ==> #[trigger] states[i].step_req(xs[i]),
            forall|i: int|
                0 <= i < xs.len() ==> #[trigger] states[i].step_post(xs[i], states[i + 1], outs[i]),
        ensures
            forall|i: int| 0 <= i <= xs.len() ==> #[trigger] states[i].count().to_int() == i,
            xs.len() > 0 ==> outs[0] == xs[0],
    {
        assert forall|i: int| 0 <= i <= xs.len() implies #[trigger] states[i].count().to_int()
            == i by {
            Self::lemma_count_at(states, xs, outs, i);
        }
        if xs.len() > 0 {
            let j: int = 0;
            assert(states[j].step_req(xs[j]));
            assert(states[j].step_post(xs[j], states[j + 1], outs[j]));
            T::lemma_lit(0);
            T::lemma_lit(1);
            T::lemma_add(states[0].count(), states[0].one());
            T::lemma_to_int_injective(states[0].next_count(), lit::<T>(1));
            T::lemma_sub(xs[0], states[0].avg());
            T::lemma_to_int_injective(xs[0].sub_spec(states[0].avg()), xs[0]);
            T::lemma_div_one(xs[0]);
            T::lemma_add(states[0].avg(), xs[0]);
            T::lemma_to_int_injective(states[0].avg().add_spec(xs[0]), xs[0]);
        }
    }

    proof fn lemma_count_at(states: Seq<Self>, xs: Seq<T>, outs: Seq<T>, i: int)
        requires
            states.len() == xs.len() + 1,
            outs.len() == xs.len(),
            0 <= i <= xs.len(),
            states[0].fresh(),
            forall|j: int| 0 <= j < xs.len() ==> #[trigger] states[j].step_req(xs[j]),
            forall|j: int|
                0 <= j < xs.len() ==> #[trigger] states[j].step_post(xs[j], states[j + 1], outs[j]),
        ensures
            states[i].count().to_int() == i,
            states[i].one() == lit::<T>(1),
        decreases i,
    {
        T::lemma_lit(0);
        T::lemma_lit(1);
        if i > 0 {
            let j = i - 1;
            Self::lemma_count_at(states, xs, outs, j);
            assert(states[j].step_req(xs[j]));
            assert(states[j].step_post(xs[j], states[j + 1], outs[j]));
            T::lemma_add(states[j].count(), states[j].one());
        }
    }
}

/// # Simple moving average
pub struct SMA<T, const N: usize> {
    acc: Accumulator<T, N>,
    divisor: T,
}

impl<T, const N: usize> SMA<T, N> where T: Scalar {
    /// The running sum of the last `N` inputs.
    pub closed spec fn acc(&self) -> Accumulator<T, N> {
        self.acc
    }

    /// The factor `1 / N` the sum is multiplied by.
    pub closed spec fn divisor(&self) -> T {
        self.divisor
    }

    /// The value a step with `value` returns: `None` until `N` inputs have been seen, then the
    /// sum of the last `N` inputs times the divisor.
    pub open spec fn output(&self, value: T) -> Option<T> {
        if self.acc().window().len() < N {
            None
        } else {
            Some(self.acc().pushed_total(value).mul_spec(self.divisor()))
        }
    }

    pub fn new() -> (r: Self)
        requires
            specified_arith::<T>(),
            0 < N <= i32::MAX,
            lit::<T>(1).div_req(lit::<T>(N as i32)),
        ensures
            r.acc().wf(),
            r.acc().window() == Seq::<T>::empty(),
            r.acc().total() == lit::<T>(0),
            r.acc().nil() == lit::<T>(0),
            r.divisor() == lit::<T>(1).div_spec(lit::<T>(N as i32)),
    {
        Self { acc: Accumulator::new(T::from(0)), divisor: T::from(1) / T::from(N as i32) }
    }
}

impl<T, const N: usize> Filter for SMA<T, N> where T: Scalar {
    type Input = T;

    type Output = Option<T>;

    open spec fn inv(&self) -> bool {
        self.acc().wf()
    }

    open spec fn step_req(&self, value: T) -> bool {
        &&& specified_arith::<T>()
        &&& self.acc().push_req(value)
        &&& self.acc().window().len() >= N ==> self.acc().pushed_total(value).mul_req(
            self.divisor(),
        )
    }

    open spec fn step_post(&self, value: T, next: Self, out: Option<T>) -> bool {
        &&& out == self.output(value)
        &&& self.acc().push_post(value, next.acc())
        &&& next.divisor() == self.divisor()
    }

    open spec fn reset_post(&self, next: Self) -> bool {
        &&& self.acc().reset_post(next.acc())
        &&& next.divisor() == self.divisor()
    }

    fn step(&mut self, value: T) -> (out: Option<T>) {
        if let Some(sum) = self.acc.push(value) {
            Some(sum * self.divisor)
        } else {
            None
        }
    }

    fn reset(&mut self) {
        self.acc.reset();
    }
}

/// `start` plus the first `k` items of `w`, the item at position `i` weighted by `i + 1`, added
/// up oldest first.
pub open spec fn weighted_sum<T: Scalar>(w: Seq<T>, k: nat, start: T) -> T
    decreases k,
{
    if k == 0 {
        start
    } else {
        weighted_sum(w, (k - 1) as nat, start).add_spec(w[k - 1].mul_spec(lit::<T>(k as i32)))
    }
}

/// The arithmetic of `weighted_sum(w, k, start)` is defined.
pub open spec fn weighted_sum_req<T: Scalar>(w: Seq<T>, k: nat, start: T) -> bool
    decreases k,
{
    if k == 0 {
        true
    } else {
        &&& weighted_sum_req(w, (k - 1) as nat, start)
        &&& w[k - 1].mul_req(lit::<T>(k as i32))
        &&& weighted_sum(w, (k - 1) as nat, start).add_req(w[k - 1].mul_spec(lit::<T>(k as i32)))
    }
}

proof fn lemma_weighted_sum_req_prefix<T: Scalar>(w: Seq<T>, j: nat, k: nat, start: T)
    requires
        j <= k,
        weighted_sum_req(w, k, start),
    ensures
        weighted_sum_req(w, j, start),
    decreases k,
{
    if j < k {
        lemma_weighted_sum_req_prefix(w, j, (k - 1) as nat, start);
    }
}

/// # Weighted moving average
pub struct WMA<T, const N: usize> {
    sliding_window: SlidingWindow<T, N>,
    divisor: T,
    rolling_sum: T,
    rolling_weighted_sum: T,
    zero: T,
    n: T,
}

impl<T, const N: usize> WMA<T, N> where T: Scalar {
    /// The last (up to `N`) inputs, oldest first.
    pub closed spec fn window(&self) -> Seq<T> {
        self.sliding_window@
    }

    /// The factor `2 / (N * (N + 1))` the weighted sum is multiplied by.
    pub closed spec fn divisor(&self) -> T {
        self.divisor
    }

    /// The running sum of the inputs in the window.
    pub closed spec fn rolling_sum(&self) -> T {
        self.rolling_sum
    }

    /// The running weighted sum of the inputs in the window.
    pub closed spec fn rolling_weighted_sum(&self) -> T {
        self.rolling_weighted_sum
    }

    /// The value zero of `T`.
    pub closed spec fn zero(&self) -> T {
        self.zero
    }

    /// The value `N` of `T`.
    pub closed spec fn n(&self) -> T {
        self.n
    }

    /// The window is full.
    pub open spec fn full(&self) -> bool {
        self.window().len() >= N
    }

    /// The running sum after a step with `value`.
    pub open spec fn next_sum(&self, value: T) -> T {
        if self.full() {
            self.rolling_sum().sub_spec(self.window()[0]).add_spec(value)
        } else {
            self.rolling_sum().add_spec(value)
        }
    }

    /// The running weighted sum after a step with `value`: on a full window it is updated from
    /// the previous sums; otherwise it is computed again over the window.
    pub open spec fn next_weighted_sum(&self, value: T) -> T {
        if self.full() {
            self.rolling_weighted_sum().sub_spec(self.rolling_sum()).add_spec(
                value.mul_spec(self.n()),
            )
        } else {
            let w = self.window().push(value);
            weighted_sum(w, w.len(), self.zero())
        }
    }

    /// The value a step with `value` returns: `None` until `N` inputs have been seen, then the
    /// weighted sum times the divisor.
    pub open spec fn output(&self, value: T) -> Option<T> {
        if self.window().len() + 1 < N {
            None
        } else {
            Some(self.next_weighted_sum(value).mul_spec(self.divisor()))
        }
    }

    /// A step with `value` is defined.
    pub open spec fn output_req(&self, value: T) -> bool {
        &&& specified_arith::<T>()
        &&& if self.full() {
            &&& self.rolling_weighted_sum().sub_req(self.rolling_sum())
            &&& value.mul_req(self.n())
            &&& self.rolling_weighted_sum().sub_spec(self.rolling_sum()).add_req(
                value.mul_spec(self.n()),
            )
            &&& self.rolling_sum().sub_req(self.window()[0])
            &&& self.rolling_sum().sub_spec(self.window()[0]).add_req(value)
        } else {
            &&& self.rolling_sum().add_req(value)
            &&& weighted_sum_req(
                self.window().push(value),
                self.window().len() + 1,
                self.zero(),
            )
        }
        &&& self.window().len() + 1 >= N ==> self.next_weighted_sum(value).mul_req(
            self.divisor(),
        )
    }

    /// `next` is this average after a step with `value`.
    pub open spec fn step_next(&self, value: T, next: Self) -> bool {
        &&& next.window() == keep_last(self.window().push(value), N as nat)
        &&& next.rolling_sum() == self.next_sum(value)
        &&& next.rolling_weighted_sum() == self.next_weighted_sum(value)
        &&& next.divisor() == self.divisor()
        &&& next.zero() == self.zero()
        &&& next.n() == self.n()
    }

    /// `self` and `other` agree on everything a step reads or returns: window, running sums
    /// and constants.
    pub open spec fn agrees(&self, other: Self) -> bool {
        &&& self.window() == other.window()
        &&& self.rolling_sum() == other.rolling_sum()
        &&& self.rolling_weighted_sum() == other.rolling_weighted_sum()
        &&& self.divisor() == other.divisor()
        &&& self.zero() == other.zero()
        &&& self.n() == other.n()
    }

    /// `next` is this average after a reset.
    pub open spec fn reset_next(&self, next: Self) -> bool {
        &&& next.window() == Seq::<T>::empty()
        &&& next.rolling_sum() == self.zero()
        &&& next.rolling_weighted_sum() == self.zero()
        &&& next.divisor() == self.divisor()
        &&& next.zero() == self.zero()
        &&& next.n() == self.n()
    }

    /// The constants of `self` are those `WMA::new` sets: zero, `N`, and the divisor
    /// `2 / (N * (N + 1))`. Steps and resets keep them.
    pub open spec fn made_by_new(&self) -> bool {
        let n = lit::<T>(N as i32);
        &&& self.divisor() == lit::<T>(2).div_spec(n.mul_spec(n.add_spec(lit::<T>(1))))
        &&& self.zero() == lit::<T>(0)
        &&& self.n() == n
    }

    /// `self` is in the state `WMA::new` makes: no inputs seen, sums zero.
    pub open spec fn fresh(&self) -> bool {
        &&& self.made_by_new()
        &&& self.window() == Seq::<T>::empty()
        &&& self.rolling_sum() == lit::<T>(0)
        &&& self.rolling_weighted_sum() == lit::<T>(0)
    }

    /// A reset puts an average that `new` made back in the state `new` made it in, whatever
    /// steps it took since.
    pub proof fn lemma_reset_restores_fresh(&self, next: Self)
        requires
            self.made_by_new(),
            self.reset_next(next),
        ensures
            next.fresh(),
    {
    }

    /// A step keeps the constants `new` set.
    pub proof fn lemma_step_keeps_constants(&self, value: T, next: Self)
        requires
            self.made_by_new(),
            self.step_next(value, next),
        ensures
            next.made_by_new(),
    {
    }

    /// The arithmetic `WMA::new` performs is defined.
    pub open spec fn new_req() -> bool {
        let n = lit::<T>(N as i32);
        &&& specified_arith::<T>()
        &&& 0 < N <= i32::MAX
        &&& n.add_req(lit::<T>(1))
        &&& n.mul_req(n.add_spec(lit::<T>(1)))
        &&& lit::<T>(2).div_req(n.mul_spec(n.add_spec(lit::<T>(1))))
    }

    /// The average's internal invariant.
    pub closed spec fn wf(&self) -> bool {
        &&& self.sliding_window.wf()
        &&& N <= i32::MAX
    }

    pub fn new() -> (r: Self)
        requires
            Self::new_req(),
        ensures
            r.wf(),
            r.fresh(),
    {
        let zero = T::from(0);
        let n = T::from(N as i32);
        Self {
            sliding_window: SlidingWindow::new(zero),
            divisor: T::from(2) / (n * (n + T::from(1))),
            rolling_sum: zero,
            rolling_weighted_sum: zero,
            zero,
            n,
        }
    }
}

impl<T, const N: usize> Filter for WMA<T, N> where T: Scalar {
    type Input = T;

    type Output = Option<T>;

    open spec fn inv(&self) -> bool {
        self.wf()
    }

    open spec fn step_req(&self, value: T) -> bool {
        self.output_req(value)
    }

    open spec fn step_post(&self, value: T, next: Self, out: Option<T>) -> bool {
        &&& out == self.output(value)
        &&& self.step_next(value, next)
    }

    open spec fn reset_post(&self, next: Self) -> bool {
        self.reset_next(next)
    }

    fn step(&mut self, value: T) -> (out: Option<T>) {
        proof {
            self.sliding_window.lemma_view_facts();
        }
        if let Some(prev) = self.sliding_window.push(value) {
            self.rolling_weighted_sum = self.rolling_weighted_sum - self.rolling_sum + value
                * self.n;
            self.rolling_sum = self.rolling_sum - prev + value;

            Some(self.rolling_weighted_sum * self.divisor)
        } else {
            self.rolling_sum = self.rolling_sum + value;
            let ghost w = self.sliding_window@;
            let len = self.sliding_window.length();
            let mut acc = self.zero;
            let mut i: usize = 0;
            proof {
                assert(w =~= old(self).window().push(value));
            }
            while i < len
                invariant
                    self.sliding_window.wf(),
                    self.sliding_window@ == w,
                    len == w.len(),
                    len <= N <= i32::MAX,
                    i <= len,
                    specified_arith::<T>(),
                    weighted_sum_req(w, len as nat, self.zero),
                    acc == weighted_sum(w, i as nat, self.zero),
                decreases len - i,
            {
                proof {
                    lemma_weighted_sum_req_prefix(w, (i + 1) as nat, len as nat, self.zero);
                    vstd::arithmetic::div_mod::lemma_small_mod(i as nat, len as nat);
                }
                acc = acc + *self.sliding_window.at(i) * T::from((i + 1) as i32);
                i = i + 1;
            }
            self.rolling_weighted_sum = acc;

            if self.sliding_window.length() < N {
                None
            } else {
                Some(self.rolling_weighted_sum * self.divisor)
            }
        }
    }

    fn reset(&mut self) {
        self.sliding_window.reset();
        self.rolling_sum = self.zero;
        self.rolling_weighted_sum = self.zero;
    }
}

impl<T: Scalar, const N: usize> WMA<T, N> {
    /// A weighted moving average emptied by `new` or `reset`, stepped with `xs` (`states[i]`
    /// is its state before the step with `xs[i]`, `outs[i]` what that step returned): after
    /// `i` steps its window holds the last `N` inputs and its constants are unchanged, so the
    /// first `N - 1` steps return `None` and every later step returns `Some`.
    pub proof fn lemma_history(states: Seq<Self>, xs: Seq<T>, outs: Seq<Option<T>>)
        requires
            states.len() == xs.len() + 1,
            outs.len() == xs.len(),
            states[0].window() == Seq::<T>::empty(),
            forall|i: int| 0 <= i <= xs.len() ==> #[trigger] states[i].inv(),
            forall|i: int|
                0 <= i < xs.len() ==> #[trigger] states[i].step_post(xs[i], states[i + 1], outs[i]),
        ensures
            forall|i: int| 0 <= i < xs.len() ==> (#[trigger] outs[i] is None <==> i + 1 < N),
            forall|i: int|
                0 <= i <= xs.len() ==> {
                    &&& #[trigger] states[i].window() == keep_last(xs.take(i), N as nat)
                    &&& states[i].divisor() == states[0].divisor()
                    &&& states[i].zero() == states[0].zero()
                    &&& states[i].n() == states[0].n()
                },
    {
        assert forall|i: int| 0 <= i <= xs.len() implies {
            &&& #[trigger] states[i].window() == keep_last(xs.take(i), N as nat)
            &&& states[i].divisor() == states[0].divisor()
            &&& states[i].zero() == states[0].zero()
            &&& states[i].n() == states[0].n()
        } by {
            Self::lemma_history_at(states, xs, outs, i);
        }
        assert forall|i: int| 0 <= i < xs.len() implies (#[trigger] outs[i] is None <==> i + 1
            < N) by {
            Self::lemma_history_at(states, xs, outs, i);
            assert(states[i].step_post(xs[i], states[i + 1], outs[i]));
        }
    }

    proof fn lemma_history_at(states: Seq<Self>, xs: Seq<T>, outs: Seq<Option<T>>, i: int)
        requires
            states.len() == xs.len() + 1,
            outs.len() == xs.len(),
            0 <= i <= xs.len(),
            states[0].window() == Seq::<T>::empty(),
            forall|j: int| 0 <= j <= xs.len() ==> #[trigger] states[j].inv(),
            forall|j: int|
                0 <= j < xs.len() ==> #[trigger] states[j].step_post(xs[j], states[j + 1], outs[j]),
        ensures
            states[i].window() == keep_last(xs.take(i), N as nat),
            states[i].window().len() == (if i < N { i } else { N as int }),
            states[i].divisor() == states[0].divisor(),
            states[i].zero() == states[0].zero(),
            states[i].n() == states[0].n(),
        decreases i,
    {
        assert(states[0].inv());
        states[0].sliding_window.lemma_view_facts();
        if i == 0 {
            assert(xs.take(0) =~= Seq::<T>::empty());
        } else {
            Self::lemma_history_at(states, xs, outs, i - 1);
            let j = i - 1;
            assert(states[j].step_post(xs[j], states[j + 1], outs[j]));
            lemma_keep_last_push(xs.take(j), xs[j], N as nat);
            assert(xs.take(j).push(xs[j]) =~= xs.take(i));
        }
    }
}

impl<T: ExactInt, const N: usize> WMA<T, N> {
    /// A weighted moving average over an exact integer type (`i64`, `i128`) that `new` made or
    /// `reset` restored, stepped with `xs`: every `Some(v)` a step returns is the weighted sum
    /// of the last `N` inputs (weight 1 on the oldest up to `N` on the newest, that step's
    /// input) times the divisor `2 / (N * (N + 1))`.
    pub proof fn lemma_history_values(states: Seq<Self>, xs: Seq<T>, outs: Seq<Option<T>>)
        requires
            states.len() == xs.len() + 1,
            outs.len() == xs.len(),
            states[0].fresh(),
            forall|i: int| 0 <= i <= xs.len() ==> #[trigger] states[i].inv(),
            forall|i: int| 0 <= i < xs.len() ==> #[trigger] states[i].step_req(xs[i]),
            forall|i: int|
                0 <= i < xs.len() ==> #[trigger] states[i].step_post(xs[i], states[i + 1], outs[i]),
        ensures
            forall|i: int|
                0 <= i < xs.len() ==> (#[trigger] outs[i] matches Some(v) ==> {
                    &&& v == states[i + 1].rolling_weighted_sum().mul_spec(states[0].divisor())
                    &&& states[i + 1].rolling_weighted_sum().to_int() == seq_weighted_sum(
                        keep_last(xs.take(i + 1), N as nat),
                    )
                }),
    {
        Self::lemma_history(states, xs, outs);
        assert forall|i: int| 0 <= i < xs.len() implies (#[trigger] outs[i] matches Some(v) ==> {
            &&& v == states[i + 1].rolling_weighted_sum().mul_spec(states[0].divisor())
            &&& states[i + 1].rolling_weighted_sum().to_int() == seq_weighted_sum(
                keep_last(xs.take(i + 1), N as nat),
            )
        }) by {
            Self::lemma_sums_at(states, xs, outs, i);
            assert(states[i].window() == keep_last(xs.take(i), N as nat));
            assert(states[i + 1].window() == keep_last(xs.take(i + 1), N as nat));
            assert(states[i].step_post(xs[i], states[i + 1], outs[i]));
            assert(states[i].step_req(xs[i]));
            assert(states[i].inv());
            T::lemma_lit(0);
            T::lemma_lit(N as i32);
            states[i].lemma_rolling_sums_match_window(xs[i], states[i + 1]);
        }
    }

    proof fn lemma_sums_at(states: Seq<Self>, xs: Seq<T>, outs: Seq<Option<T>>, i: int)
        requires
            states.len() == xs.len() + 1,
            outs.len() == xs.len(),
            0 <= i <= xs.len(),
            states[0].fresh(),
            forall|j: int| 0 <= j <= xs.len() ==> #[trigger] states[j].inv(),
            forall|j: int| 0 <= j < xs.len() ==> #[trigger] states[j].step_req(xs[j]),
            forall|j: int|
                0 <= j < xs.len() ==> #[trigger] states[j].step_post(xs[j], states[j + 1], outs[j]),
        ensures
            states[i].sums_match_window(),
        decreases i,
    {
        Self::lemma_history_at(states, xs, outs, i);
        T::lemma_lit(0);
        assert(states[0].inv());
        if i == 0 {
            states[0].lemma_fresh_sums_match();
        } else {
            let j = i - 1;
            Self::lemma_sums_at(states, xs, outs, j);
            Self::lemma_history_at(states, xs, outs, j);
            assert(states[j].step_post(xs[j], states[j + 1], outs[j]));
            assert(states[j].step_req(xs[j]));
            assert(states[j].inv());
            T::lemma_lit(N as i32);
            states[j].lemma_rolling_sums_match_window(xs[j], states[j + 1]);
        }
    }
}

/// The sum of the integers the items of `s` stand for, the item at position `i` weighted by
/// `i + 1`.
pub open spec fn seq_weighted_sum<T: ExactInt>(s: Seq<T>) -> int
    decreases s.len(),
{
    if s.len() == 0 {
        0
    } else {
        seq_weighted_sum(s.drop_last()) + s.last().to_int() * s.len()
    }
}

/// Dropping the first item lowers every weight by one: the weighted sum of a nonempty sequence
/// is the weighted sum of the rest plus the plain sum.
pub proof fn lemma_weighted_sum_first<T: ExactInt>(s: Seq<T>)
    requires
        s.len() > 0,
    ensures
        seq_weighted_sum(s) == seq_weighted_sum(s.drop_first()) + seq_sum(s),
    decreases s.len(),
{
    if s.len() == 1 {
        assert(s.drop_last().len() == 0);
        assert(s.drop_first().len() == 0);
        assert(seq_sum(s.drop_last()) == 0);
        assert(seq_weighted_sum(s.drop_last()) == 0);
        assert(seq_weighted_sum(s.drop_first()) == 0);
    } else {
        let m = s.len() as int;
        let x = s.last().to_int();
        lemma_weighted_sum_first(s.drop_last());
        assert(s.drop_last().drop_first() =~= s.drop_first().drop_last());
        assert(s.drop_first().last() == s.last());
        assert(seq_weighted_sum(s.drop_first()) == seq_weighted_sum(s.drop_first().drop_last()) + x
            * (m - 1));
        assert(x * m == x * (m - 1) + x) by (nonlinear_arith);
    }
}

/// Over an exact integer type, with every step of it defined, `weighted_sum` starting at zero
/// is the weighted sum of the prefix.
pub proof fn lemma_weighted_sum_exact<T: ExactInt>(w: Seq<T>, k: nat, zero: T)
    requires
        k <= w.len(),
        k <= i32::MAX,
        zero.to_int() == 0,
        weighted_sum_req(w, k, zero),
    ensures
        weighted_sum(w, k, zero).to_int() == seq_weighted_sum(w.subrange(0, k as int)),
    decreases k,
{
    if k == 0 {
        assert(w.subrange(0, 0).len() == 0);
    } else {
        lemma_weighted_sum_exact(w, (k - 1) as nat, zero);
        let wk = lit::<T>(k as i32);
        T::lemma_lit(k as i32);
        T::lemma_mul(w[k - 1], wk);
        T::lemma_add(weighted_sum(w, (k - 1) as nat, zero), w[k - 1].mul_spec(wk));
        assert(w.subrange(0, k as int).drop_last() =~= w.subrange(0, k - 1));
    }
}

impl<T: ExactInt, const N: usize> WMA<T, N> {
    /// The running sums of the average are the sum and the weighted sum of its window.
    pub open spec fn sums_match_window(&self) -> bool {
        &&& self.rolling_sum().to_int() == seq_sum(self.window())
        &&& self.rolling_weighted_sum().to_int() == seq_weighted_sum(self.window())
    }

    /// A weighted moving average over an exact integer type (`i64`, `i128`) that `new` made
    /// (zero is 0, `n` is `N`) keeps its running sums equal to the sum and the weighted sum of
    /// its window: a fresh one does, and every step keeps it so, whether the weighted sum is
    /// updated from the previous sums (full window) or computed again. The value a step returns
    /// is then the weighted sum of the window times the divisor.
    pub proof fn lemma_rolling_sums_match_window(&self, value: T, next: Self)
        requires
            self.wf(),
            self.output_req(value),
            self.step_next(value, next),
            self.zero().to_int() == 0,
            self.n().to_int() == N,
            self.sums_match_window(),
        ensures
            next.sums_match_window(),
            self.output(value) matches Some(o) ==> o == next.rolling_weighted_sum().mul_spec(
                self.divisor(),
            ),
    {
        self.sliding_window.lemma_view_facts();
        let w = self.window();
        if w.len() < N {
            let w2 = w.push(value);
            T::lemma_add(self.rolling_sum(), value);
            assert(next.window() =~= w2);
            assert(w2.drop_last() =~= w);
            lemma_weighted_sum_exact(w2, w2.len(), self.zero());
            assert(w2.subrange(0, w2.len() as int) =~= w2);
        } else {
            T::lemma_sub(self.rolling_weighted_sum(), self.rolling_sum());
            T::lemma_mul(value, self.n());
            T::lemma_add(
                self.rolling_weighted_sum().sub_spec(self.rolling_sum()),
                value.mul_spec(self.n()),
            );
            T::lemma_sub(self.rolling_sum(), w[0]);
            T::lemma_add(self.rolling_sum().sub_spec(w[0]), value);
            lemma_seq_sum_first(w);
            lemma_weighted_sum_first(w);
            let w2 = w.drop_first().push(value);
            assert(next.window() =~= w2);
            assert(w2.drop_last() =~= w.drop_first());
        }
    }

    /// A fresh weighted moving average's running sums match its (empty) window.
    pub proof fn lemma_fresh_sums_match(&self)
        requires
            self.fresh(),
        ensures
            self.sums_match_window(),
    {
        T::lemma_lit(0);
    }
}

/// # Volume weighted average price
pub struct VWAP<T, const N: usize> {
    num_acc: Accumulator<T, N>,
    den_acc: Accumulator<T, N>,
}

impl<T, const N: usize> VWAP<T, N> where T: Scalar {
    /// The running sum of `price * quantity` over the last `N` inputs.
    pub closed spec fn num_acc(&self) -> Accumulator<T, N> {
        self.num_acc
    }

    /// The running sum of `quantity` over the last `N` inputs.
    pub closed spec fn den_acc(&self) -> Accumulator<T, N> {
        self.den_acc
    }

    /// The value a step with `value` (price, then quantity) returns: `None` until `N` inputs
    /// have been seen, then the sum of `price * quantity` over the last `N` inputs divided by
    /// the sum of their quantities.
    pub open spec fn output(&self, value: [T; 2]) -> Option<T> {
        if self.num_acc().window().len() < N {
            None
        } else {
            Some(
                self.num_acc().pushed_total(value@[0].mul_spec(value@[1])).div_spec(
                    self.den_acc().pushed_total(value@[1]),
                ),
            )
        }
    }

    pub fn new() -> (r: Self)
        requires
            N > 0,
        ensures
            r.num_acc().wf(),
            r.den_acc().wf(),
            r.num_acc().window() == Seq::<T>::empty(),
            r.den_acc().window() == Seq::<T>::empty(),
            r.num_acc().total() == r.num_acc().nil(),
            r.den_acc().total() == r.den_acc().nil(),
            r.num_acc().nil() == r.den_acc().nil(),
            <T as FromSpec<i32>>::obeys_from_spec() ==> r.num_acc().nil() == lit::<T>(0),
    {
        let zero = T::from(0);
        Self { num_acc: Accumulator::new(zero), den_acc: Accumulator::new(zero) }
    }
}

impl<T, const N: usize> Filter for VWAP<T, N> where T: Scalar {
    /// The price and the quantity, in that order.
    type Input = [T; 2];

    type Output = Option<T>;

    open spec fn inv(&self) -> bool {
        &&& self.num_acc().wf()
        &&& self.den_acc().wf()
        &&& self.num_acc().window().len() == self.den_acc().window().len()
    }

    open spec fn step_req(&self, value: [T; 2]) -> bool {
        let price_quantity = value@[0].mul_spec(value@[1]);
        &&& specified_arith::<T>()
        &&& value@[0].mul_req(value@[1])
        &&& self.num_acc().push_req(price_quantity)
        &&& self.den_acc().push_req(value@[1])
        &&& self.num_acc().window().len() >= N ==> self.num_acc().pushed_total(
            price_quantity,
        ).div_req(self.den_acc().pushed_total(value@[1]))
    }

    open spec fn step_post(&self, value: [T; 2], next: Self, out: Option<T>) -> bool {
        &&& out == self.output(value)
        &&& self.num_acc().push_post(value@[0].mul_spec(value@[1]), next.num_acc())
        &&& self.den_acc().push_post(value@[1], next.den_acc())
    }

    open spec fn reset_post(&self, next: Self) -> bool {
        &&& self.num_acc().reset_post(next.num_acc())
        &&& self.den_acc().reset_post(next.den_acc())
    }

    /// - `value` holds the current price and the quantity (in that order)
    fn step(&mut self, value: [T; 2]) -> (out: Option<T>) {
        let quantity = value[1];
        let price_quantity = value[0] * quantity;
        let num = self.num_acc.push(price_quantity);
        let den = self.den_acc.push(quantity);
        match (num, den) {
            (Some(num_sum), Some(den_sum)) => Some(num_sum / den_sum),
            _ => None,
        }
    }

    fn reset(&mut self) {
        self.num_acc.reset();
        self.den_acc.reset();
    }
}

impl<T: Scalar, const N: usize> SMA<T, N> {
    /// A simple moving average emptied by `new` or `reset`, stepped with `xs` (`states[i]` is
    /// its state before the step with `xs[i]`, `outs[i]` what that step returned): the first
    /// `N` steps return `None` and every later step returns `Some`; the divisor never changes.
    pub proof fn lemma_history(states: Seq<Self>, xs: Seq<T>, outs: Seq<Option<T>>)
        requires
            states.len() == xs.len() + 1,
            outs.len() == xs.len(),
            states[0].inv(),
            states[0].acc().window() == Seq::<T>::empty(),
            forall|i: int|
                0 <= i < xs.len() ==> #[trigger] states[i].step_post(xs[i], states[i + 1], outs[i]),
        ensures
            forall|i: int| 0 <= i < xs.len() ==> (#[trigger] outs[i] is None <==> i < N),
            forall|i: int| 0 <= i <= xs.len() ==> #[trigger] states[i].divisor() == states[0].divisor(),
    {
        let accs = Seq::new(states.len(), |i: int| states[i].acc());
        let results = Seq::new(xs.len(), |i: int| accs[i].push_result(accs[i + 1]));
        assert forall|i: int| 0 <= i < xs.len() implies #[trigger] accs[i].push_post(
            xs[i],
            accs[i + 1],
        ) by {
            assert(states[i].step_post(xs[i], states[i + 1], outs[i]));
        }
        lemma_accumulator_history(accs, xs, results);
        assert forall|i: int| 0 <= i < xs.len() implies (#[trigger] outs[i] is None <==> i < N) by {
            assert(states[i].step_post(xs[i], states[i + 1], outs[i]));
            assert(results[i] is Some <==> i >= N);
        }
        assert forall|i: int| 0 <= i <= xs.len() implies #[trigger] states[i].divisor()
            == states[0].divisor() by {
            Self::lemma_divisor_kept(states, xs, outs, i);
        }
    }

    proof fn lemma_divisor_kept(states: Seq<Self>, xs: Seq<T>, outs: Seq<Option<T>>, i: int)
        requires
            states.len() == xs.len() + 1,
            outs.len() == xs.len(),
            0 <= i <= xs.len(),
            forall|j: int|
                0 <= j < xs.len() ==> #[trigger] states[j].step_post(xs[j], states[j + 1], outs[j]),
        ensures
            states[i].divisor() == states[0].divisor(),
        decreases i,
    {
        if i > 0 {
            Self::lemma_divisor_kept(states, xs, outs, i - 1);
            let j = i - 1;
            assert(states[j].step_post(xs[j], states[j + 1], outs[j]));
        }
    }
}

impl<T: ExactInt, const N: usize> SMA<T, N> {
    /// A simple moving average over an exact integer type (`i64`, `i128`) emptied by `new` or
    /// `reset` (its sum then starts at its `nil`, zero when `new` made it), stepped with `xs`:
    /// every `Some(v)` a step returns is the sum of the last `N` inputs, that step's included,
    /// times the divisor.
    pub proof fn lemma_history_values(states: Seq<Self>, xs: Seq<T>, outs: Seq<Option<T>>)
        requires
            states.len() == xs.len() + 1,
            outs.len() == xs.len(),
            states[0].inv(),
            states[0].acc().window() == Seq::<T>::empty(),
            states[0].acc().total() == states[0].acc().nil(),
            forall|i: int| 0 <= i < xs.len() ==> #[trigger] states[i].step_req(xs[i]),
            forall|i: int|
                0 <= i < xs.len() ==> #[trigger] states[i].step_post(xs[i], states[i + 1], outs[i]),
        ensures
            forall|i: int|
                0 <= i < xs.len() ==> (#[trigger] outs[i] matches Some(v) ==> {
                    &&& v == states[i + 1].acc().total().mul_spec(states[0].divisor())
                    &&& states[i + 1].acc().total().to_int() == states[0].acc().nil().to_int()
                        + seq_sum(keep_last(xs.take(i + 1), N as nat))
                }),
    {
        Self::lemma_history(states, xs, outs);
        let accs = Seq::new(states.len(), |i: int| states[i].acc());
        let results = Seq::new(xs.len(), |i: int| accs[i].push_result(accs[i + 1]));
        assert forall|i: int| 0 <= i < xs.len() implies #[trigger] accs[i].push_post(
            xs[i],
            accs[i + 1],
        ) by {
            assert(states[i].step_post(xs[i], states[i + 1], outs[i]));
        }
        assert forall|i: int| 0 <= i < xs.len() implies #[trigger] accs[i].push_req(xs[i]) by {
            assert(states[i].step_req(xs[i]));
        }
        lemma_accumulator_history_sums(accs, xs, results);
        assert forall|i: int| 0 <= i < xs.len() implies (#[trigger] outs[i] matches Some(v) ==> {
            &&& v == states[i + 1].acc().total().mul_spec(states[0].divisor())
            &&& states[i + 1].acc().total().to_int() == states[0].acc().nil().to_int() + seq_sum(
                keep_last(xs.take(i + 1), N as nat),
            )
        }) by {
            assert(states[i].step_post(xs[i], states[i + 1], outs[i]));
            assert(states[i].divisor() == states[0].divisor());
            assert(accs[i + 1] == states[i + 1].acc());
            assert(results[i] == accs[i].push_result(accs[i + 1]));
        }
    }
}

impl<T: Scalar, const N: usize> VWAP<T, N> {
    /// A volume weighted average price emptied by `new` or `reset`, stepped with `xs` (`states[i]`
    /// is its state before the step with `xs[i]`, `outs[i]` what that step returned): the first
    /// `N` steps return `None` and every later step returns `Some`.
    pub proof fn lemma_history(states: Seq<Self>, xs: Seq<[T; 2]>, outs: Seq<Option<T>>)
        requires
            states.len() == xs.len() + 1,
            outs.len() == xs.len(),
            states[0].inv(),
            states[0].num_acc().window() == Seq::<T>::empty(),
            states[0].den_acc().window() == Seq::<T>::empty(),
            forall|i: int|
                0 <= i < xs.len() ==> #[trigger] states[i].step_post(xs[i], states[i + 1], outs[i]),
        ensures
            forall|i: int| 0 <= i < xs.len() ==> (#[trigger] outs[i] is None <==> i < N),
    {
        let accs = Seq::new(states.len(), |i: int| states[i].num_acc());
        let pqs = Seq::new(xs.len(), |i: int| xs[i]@[0].mul_spec(xs[i]@[1]));
        let results = Seq::new(xs.len(), |i: int| accs[i].push_result(accs[i + 1]));
        assert forall|i: int| 0 <= i < xs.len() implies #[trigger] accs[i].push_post(
            pqs[i],
            accs[i + 1],
        ) by {
            assert(states[i].step_post(xs[i], states[i + 1], outs[i]));
        }
        lemma_accumulator_history(accs, pqs, results);
        assert forall|i: int| 0 <= i < xs.len() implies (#[trigger] outs[i] is None <==> i < N) by {
            assert(states[i].step_post(xs[i], states[i + 1], outs[i]));
            assert(results[i] is Some <==> i >= N);
        }
    }
}

impl<T: ExactInt, const N: usize> VWAP<T, N> {
    /// A volume weighted average price over an exact integer type (`i64`, `i128`) emptied by
    /// `new` or `reset` (both sums then start at their `nil`, zero when `new` made it), stepped
    /// with `xs` (price, then quantity): every `Some(v)` a step returns is the sum of
    /// `price * quantity` over the last `N` inputs, that step's included, divided by the sum
    /// of their quantities.
    pub proof fn lemma_history_values(states: Seq<Self>, xs: Seq<[T; 2]>, outs: Seq<Option<T>>)
        requires
            states.len() == xs.len() + 1,
            outs.len() == xs.len(),
            states[0].inv(),
            states[0].num_acc().window() == Seq::<T>::empty(),
            states[0].den_acc().window() == Seq::<T>::empty(),
            states[0].num_acc().total() == states[0].num_acc().nil(),
            states[0].den_acc().total() == states[0].den_acc().nil(),
            forall|i: int| 0 <= i < xs.len() ==> #[trigger] states[i].step_req(xs[i]),
            forall|i: int|
                0 <= i < xs.len() ==> #[trigger] states[i].step_post(xs[i], states[i + 1], outs[i]),
        ensures
            forall|i: int|
                0 <= i < xs.len() ==> (#[trigger] outs[i] matches Some(v) ==> {
                    let pqs = Seq::new(xs.len(), |j: int| xs[j]@[0].mul_spec(xs[j]@[1]));
                    let qs = Seq::new(xs.len(), |j: int| xs[j]@[1]);
                    let num = states[i + 1].num_acc().total();
                    let den = states[i + 1].den_acc().total();
                    &&& v == num.div_spec(den)
                    &&& num.to_int() == states[0].num_acc().nil().to_int() + seq_sum(
                        keep_last(pqs.take(i + 1), N as nat),
                    )
                    &&& den.to_int() == states[0].den_acc().nil().to_int() + seq_sum(
                        keep_last(qs.take(i + 1), N as nat),
                    )
                }),
    {
        let nums = Seq::new(states.len(), |i: int| states[i].num_acc());
        let dens = Seq::new(states.len(), |i: int| states[i].den_acc());
        let pqs = Seq::new(xs.len(), |j: int| xs[j]@[0].mul_spec(xs[j]@[1]));
        let qs = Seq::new(xs.len(), |j: int| xs[j]@[1]);
        let rn = Seq::new(xs.len(), |i: int| nums[i].push_result(nums[i + 1]));
        let rd = Seq::new(xs.len(), |i: int| dens[i].push_result(dens[i + 1]));
        assert forall|i: int| 0 <= i < xs.len() implies #[trigger] nums[i].push_post(
            pqs[i],
            nums[i + 1],
        ) && dens[i].push_post(qs[i], dens[i + 1]) by {
            assert(states[i].step_post(xs[i], states[i + 1], outs[i]));
        }
        assert forall|i: int| 0 <= i < xs.len() implies #[trigger] nums[i].push_req(pqs[i])
            && dens[i].push_req(qs[i]) by {
            assert(states[i].step_req(xs[i]));
        }
        assert forall|i: int| 0 <= i < xs.len() implies #[trigger] dens[i].push_post(
            qs[i],
            dens[i + 1],
        ) by {
            assert(states[i].step_post(xs[i], states[i + 1], outs[i]));
        }
        assert forall|i: int| 0 <= i < xs.len() implies #[trigger] dens[i].push_req(qs[i]) by {
            assert(states[i].step_req(xs[i]));
        }
        lemma_accumulator_history_sums(nums, pqs, rn);
        lemma_accumulator_history_sums(dens, qs, rd);
        assert forall|i: int| 0 <= i < xs.len() implies (#[trigger] outs[i] matches Some(v) ==> {
            let num = states[i + 1].num_acc().total();
            let den = states[i + 1].den_acc().total();
            &&& v == num.div_spec(den)
            &&& num.to_int() == states[0].num_acc().nil().to_int() + seq_sum(
                keep_last(pqs.take(i + 1), N as nat),
            )
            &&& den.to_int() == states[0].den_acc().nil().to_int() + seq_sum(
                keep_last(qs.take(i + 1), N as nat),
            )
        }) by {
            assert(states[i].step_post(xs[i], states[i + 1], outs[i]));
            assert(nums[i + 1] == states[i + 1].num_acc());
            assert(dens[i + 1] == states[i + 1].den_acc());
            assert(states[i + 1].num_acc().total() == nums[i + 1].total());
        }
    }
}

/// # Hull moving average
pub struct HMA<T, const N: usize, const N_HALF: usize, const N_SQRT: usize> {
    wma_1: WMA<T, N>,
    wma_2: WMA<T, N_HALF>,
    wma_3: WMA<T, N_SQRT>,
    two_t: T,
}

impl<T, const N: usize, const N_HALF: usize, const N_SQRT: usize> HMA<T, N, N_HALF, N_SQRT> where
    T: Scalar,
 {
    /// The weighted average of the inputs over `N` periods.
    pub closed spec fn wma_1(&self) -> WMA<T, N> {
        self.wma_1
    }

    /// The weighted average of the inputs over `N_HALF` periods.
    pub closed spec fn wma_2(&self) -> WMA<T, N_HALF> {
        self.wma_2
    }

    /// The weighted average, over `N_SQRT` periods, of `2 * wma_2 - wma_1`.
    pub closed spec fn wma_3(&self) -> WMA<T, N_SQRT> {
        self.wma_3
    }

    /// The value two of `T`.
    pub closed spec fn two(&self) -> T {
        self.two_t
    }

    /// The input of the third average, once both others return a value.
    pub open spec fn raw(&self, w1: T, w2: T) -> T {
        self.two().mul_spec(w2).sub_spec(w1)
    }

    /// The value a step with `value` returns.
    pub open spec fn output(&self, value: T) -> Option<T> {
        match (self.wma_1().output(value), self.wma_2().output(value)) {
            (Some(w1), Some(w2)) => self.wma_3().output(self.raw(w1, w2)),
            _ => None,
        }
    }

    pub fn new() -> (r: Self)
        requires
            WMA::<T, N>::new_req(),
            WMA::<T, N_HALF>::new_req(),
            WMA::<T, N_SQRT>::new_req(),
        ensures
            r.wma_1().wf(),
            r.wma_2().wf(),
            r.wma_3().wf(),
            r.wma_1().fresh(),
            r.wma_2().fresh(),
            r.wma_3().fresh(),
            r.two() == lit::<T>(2),
    {
        Self { wma_1: WMA::new(), wma_2: WMA::new(), wma_3: WMA::new(), two_t: T::from(2) }
    }
}

impl<T, const N: usize, const N_HALF: usize, const N_SQRT: usize> Filter for HMA<
    T,
    N,
    N_HALF,
    N_SQRT,
> where T: Scalar {
    type Input = T;

    type Output = Option<T>;

    open spec fn inv(&self) -> bool {
        &&& self.wma_1().wf()
        &&& self.wma_2().wf()
        &&& self.wma_3().wf()
    }

    open spec fn step_req(&self, value: T) -> bool {
        &&& self.wma_1().output_req(value)
        &&& self.wma_2().output_req(value)
        &&& match (self.wma_1().output(value), self.wma_2().output(value)) {
            (Some(w1), Some(w2)) => {
                &&& self.two().mul_req(w2)
                &&& self.two().mul_spec(w2).sub_req(w1)
                &&& self.wma_3().output_req(self.raw(w1, w2))
            },
            _ => true,
        }
    }

    open spec fn step_post(&self, value: T, next: Self, out: Option<T>) -> bool {
        &&& out == self.output(value)
        &&& self.wma_1().step_next(value, next.wma_1())
        &&& self.wma_2().step_next(value, next.wma_2())
        &&& match (self.wma_1().output(value), self.wma_2().output(value)) {
            (Some(w1), Some(w2)) => self.wma_3().step_next(self.raw(w1, w2), next.wma_3()),
            _ => next.wma_3() == self.wma_3(),
        }
        &&& next.two() == self.two()
    }

    open spec fn reset_post(&self, next: Self) -> bool {
        &&& self.wma_1().reset_next(next.wma_1())
        &&& self.wma_2().reset_next(next.wma_2())
        &&& self.wma_3().reset_next(next.wma_3())
        &&& next.two() == self.two()
    }

    fn step(&mut self, value: T) -> (out: Option<T>) {
        let w1 = self.wma_1.step(value);
        let w2 = self.wma_2.step(value);
        match (w1, w2) {
            (Some(w1), Some(w2)) => {
                let raw_hma = (self.two_t * w2) - w1;
                self.wma_3.step(raw_hma)
            },
            _ => None,
        }
    }

    fn reset(&mut self) {
        self.wma_1.reset();
        self.wma_2.reset();
        self.wma_3.reset();
    }
}

impl<T: Scalar, const N: usize, const N_HALF: usize, const N_SQRT: usize> HMA<T, N, N_HALF, N_SQRT> {
    /// A step of a Hull average that `new` made (its `two` is `T::from(2)`): when the
    /// weighted averages of the inputs over `N` and `N_HALF` periods return `w1` and `w2`, the
    /// third average is stepped with `T::from(2) * w2 - w1` and its result is returned;
    /// otherwise the third average is left as it was and the result is `None`.
    pub proof fn lemma_step_feeds_third(&self, value: T, next: Self, out: Option<T>)
        requires
            self.two() == lit::<T>(2),
            self.step_post(value, next, out),
        ensures
            self.wma_1().step_next(value, next.wma_1()),
            self.wma_2().step_next(value, next.wma_2()),
            match (self.wma_1().output(value), self.wma_2().output(value)) {
                (Some(w1), Some(w2)) => {
                    &&& self.wma_3().step_next(lit::<T>(2).mul_spec(w2).sub_spec(w1), next.wma_3())
                    &&& out == self.wma_3().output(lit::<T>(2).mul_spec(w2).sub_spec(w1))
                },
                _ => next.wma_3() == self.wma_3() && out is None,
            },
    {
    }

    /// A Hull average that `new` made (its `two` is `T::from(2)`), and three weighted averages
    /// that start in agreement with its inner ones,
    /// put through the same history: each step of the Hull average with `x` (`events[i]` is
    /// `Some(x)`) is mirrored by steps of the first two averages with `x` (returning `z1s[i]`
    /// and `z2s[i]`) and, when both returned a value `w1`, `w2`, by a step of the third with
    /// `T::from(2) * w2 - w1` (returning `z3s[i]`; otherwise the third is left alone and
    /// `z3s[i]` is `None`); each reset (`None`) by a reset of all three. Its inner averages then
    /// stay in agreement with the three, and each of its steps returns `z3s[i]`.
    pub proof fn lemma_mirrors_wmas(
        states: Seq<Self>,
        w1s: Seq<WMA<T, N>>,
        w2s: Seq<WMA<T, N_HALF>>,
        w3s: Seq<WMA<T, N_SQRT>>,
        events: Seq<Option<T>>,
        outs: Seq<Option<T>>,
        zs: Seq<(Option<T>, Option<T>, Option<T>)>,
    )
        requires
            states.len() == events.len() + 1,
            states[0].two() == lit::<T>(2),
            w1s.len() == events.len() + 1,
            w2s.len() == events.len() + 1,
            w3s.len() == events.len() + 1,
            outs.len() == events.len(),
            zs.len() == events.len(),
            states[0].wma_1().agrees(w1s[0]),
            states[0].wma_2().agrees(w2s[0]),
            states[0].wma_3().agrees(w3s[0]),
            forall|i: int|
                0 <= i < events.len() ==> match #[trigger] events[i] {
                    Some(x) => {
                        &&& states[i].step_post(x, states[i + 1], outs[i])
                        &&& w1s[i].step_post(x, w1s[i + 1], zs[i].0)
                        &&& w2s[i].step_post(x, w2s[i + 1], zs[i].1)
                        &&& match (zs[i].0, zs[i].1) {
                            (Some(a), Some(b)) => w3s[i].step_post(
                                lit::<T>(2).mul_spec(b).sub_spec(a),
                                w3s[i + 1],
                                zs[i].2,
                            ),
                            _ => w3s[i + 1] == w3s[i] && zs[i].2 is None,
                        }
                    },
                    None => {
                        &&& states[i].reset_post(states[i + 1])
                        &&& w1s[i].reset_post(w1s[i + 1])
                        &&& w2s[i].reset_post(w2s[i + 1])
                        &&& w3s[i].reset_post(w3s[i + 1])
                    },
                },
        ensures
            forall|i: int|
                0 <= i <= events.len() ==> {
                    &&& #[trigger] states[i].wma_1().agrees(w1s[i])
                    &&& states[i].wma_2().agrees(w2s[i])
                    &&& states[i].wma_3().agrees(w3s[i])
                    &&& states[i].two() == states[0].two()
                },
            forall|i: int|
                0 <= i < events.len() ==> (#[trigger] events[i] is Some ==> outs[i] == zs[i].2),
    {
        assert forall|i: int| 0 <= i <= events.len() implies {
            &&& #[trigger] states[i].wma_1().agrees(w1s[i])
            &&& states[i].wma_2().agrees(w2s[i])
            &&& states[i].wma_3().agrees(w3s[i])
            &&& states[i].two() == states[0].two()
        } by {
            Self::lemma_mirror_at(states, w1s, w2s, w3s, events, outs, zs, i);
        }
        assert forall|i: int| 0 <= i < events.len() implies (#[trigger] events[i] is Some
            ==> outs[i] == zs[i].2) by {
            Self::lemma_mirror_at(states, w1s, w2s, w3s, events, outs, zs, i);
        }
    }

    proof fn lemma_mirror_at(
        states: Seq<Self>,
        w1s: Seq<WMA<T, N>>,
        w2s: Seq<WMA<T, N_HALF>>,
        w3s: Seq<WMA<T, N_SQRT>>,
        events: Seq<Option<T>>,
        outs: Seq<Option<T>>,
        zs: Seq<(Option<T>, Option<T>, Option<T>)>,
        i: int,
    )
        requires
            states.len() == events.len() + 1,
            states[0].two() == lit::<T>(2),
            w1s.len() == events.len() + 1,
            w2s.len() == events.len() + 1,
            w3s.len() == events.len() + 1,
            outs.len() == events.len(),
            zs.len() == events.len(),
            0 <= i <= events.len(),
            states[0].wma_1().agrees(w1s[0]),
            states[0].wma_2().agrees(w2s[0]),
            states[0].wma_3().agrees(w3s[0]),
            forall|j: int|
                0 <= j < events.len() ==> match #[trigger] events[j] {
                    Some(x) => {
                        &&& states[j].step_post(x, states[j + 1], outs[j])
                        &&& w1s[j].step_post(x, w1s[j + 1], zs[j].0)
                        &&& w2s[j].step_post(x, w2s[j + 1], zs[j].1)
                        &&& match (zs[j].0, zs[j].1) {
                            (Some(a), Some(b)) => w3s[j].step_post(
                                lit::<T>(2).mul_spec(b).sub_spec(a),
                                w3s[j + 1],
                                zs[j].2,
                            ),
                            _ => w3s[j + 1] == w3s[j] && zs[j].2 is None,
                        }
                    },
                    None => {
                        &&& states[j].reset_post(states[j + 1])
                        &&& w1s[j].reset_post(w1s[j + 1])
                        &&& w2s[j].reset_post(w2s[j + 1])
                        &&& w3s[j].reset_post(w3s[j + 1])
                    },
                },
        ensures
            states[i].wma_1().agrees(w1s[i]),
            states[i].wma_2().agrees(w2s[i]),
            states[i].wma_3().agrees(w3s[i]),
            states[i].two() == states[0].two(),
            i < events.len() ==> (events[i] is Some ==> outs[i] == zs[i].2),
        decreases i,
    {
        if i > 0 {
            Self::lemma_mirror_at(states, w1s, w2s, w3s, events, outs, zs, i - 1);
        }
    }
}

/// # Kaufman adaptive moving average
pub struct KAMA {}

/// # Zero lag exponential moving average
pub struct ZLEMA {}

} // verus!
