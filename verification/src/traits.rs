use core::ops::{Add, Div, Mul, Sub};
use vstd::prelude::*;
use vstd::std_specs::convert::FromSpec;
use vstd::std_specs::ops::{AddSpec, DivSpec, MulSpec, SubSpec};

verus! {

/// The numeric type the indicators compute with: anything that can be copied, built from an
/// `i32`, and combined with `+`, `-`, `*` and `/`.
pub trait Scalar: Copy + From<i32> + Add<Output = Self> + Sub<Output = Self> + Div<Output = Self> + Mul<Output = Self> {

}

impl<T> Scalar for T where
    T: Copy + From<i32> + Add<Output = T> + Sub<Output = T> + Div<Output = T> + Mul<Output = T>,
 {

}

/// Holds when every arithmetic operation of `T` that the indicators use behaves as its
/// specification in `vstd` describes (true of `i64` and `i128`, the primitive integer types that
/// are `Scalar`). The indicators' contracts are stated over those specifications.
pub open spec fn specified_arith<T: Scalar>() -> bool {
    &&& <T as AddSpec>::obeys_add_spec()
    &&& <T as SubSpec>::obeys_sub_spec()
    &&& <T as MulSpec>::obeys_mul_spec()
    &&& <T as DivSpec>::obeys_div_spec()
    &&& <T as FromSpec<i32>>::obeys_from_spec()
}

/// The value `T::from(v)` stands for.
pub open spec fn lit<T: Scalar>(v: i32) -> T {
    <T as FromSpec<i32>>::from_spec(v)
}

/// A scalar type whose arithmetic, wherever it is defined (no overflow, no division by zero), is
/// exact integer arithmetic; `to_int` is the integer a value stands for. `i64` and `i128` are
/// such types.
pub trait ExactInt: Scalar {
    spec fn to_int(self) -> int;

    proof fn lemma_specified()
        ensures
            specified_arith::<Self>(),
    ;

    proof fn lemma_add(a: Self, b: Self)
        requires
            a.add_req(b),
        ensures
            a.add_spec(b).to_int() == a.to_int() + b.to_int(),
    ;

    proof fn lemma_sub(a: Self, b: Self)
        requires
            a.sub_req(b),
        ensures
            a.sub_spec(b).to_int() == a.to_int() - b.to_int(),
    ;

    proof fn lemma_mul(a: Self, b: Self)
        requires
            a.mul_req(b),
        ensures
            a.mul_spec(b).to_int() == a.to_int() * b.to_int(),
    ;

    proof fn lemma_lit(v: i32)
        ensures
            lit::<Self>(v).to_int() == v,
    ;

    proof fn lemma_div_one(a: Self)
        requires
            a.div_req(lit::<Self>(1)),
        ensures
            a.div_spec(lit::<Self>(1)) == a,
    ;

    proof fn lemma_to_int_injective(a: Self, b: Self)
        requires
            a.to_int() == b.to_int(),
        ensures
            a == b,
    ;
}

impl ExactInt for i64 {
    open spec fn to_int(self) -> int {
        self as int
    }

    proof fn lemma_specified() {
    }

    proof fn lemma_add(a: i64, b: i64) {
    }

    proof fn lemma_sub(a: i64, b: i64) {
    }

    proof fn lemma_mul(a: i64, b: i64) {
    }

    proof fn lemma_lit(v: i32) {
    }

    proof fn lemma_div_one(a: i64) {
    }

    proof fn lemma_to_int_injective(a: i64, b: i64) {
    }
}

impl ExactInt for i128 {
    open spec fn to_int(self) -> int {
        self as int
    }

    proof fn lemma_specified() {
    }

    proof fn lemma_add(a: i128, b: i128) {
    }

    proof fn lemma_sub(a: i128, b: i128) {
    }

    proof fn lemma_mul(a: i128, b: i128) {
    }

    proof fn lemma_lit(v: i32) {
    }

    proof fn lemma_div_one(a: i128) {
    }

    proof fn lemma_to_int_injective(a: i128, b: i128) {
    }
}

/// An indicator that consumes one input at a time.
///
/// `inv` is the filter's well-formedness; `step_req` says on which inputs a step is defined
/// (the arithmetic of the scalar type does not fail); `step_post` relates the state before a
/// step, the input, the state after it and the value it returned; `reset_post` relates the
/// state before a reset to the state after it.
pub trait Filter: Sized {
    type Input;

    type Output;

    spec fn inv(&self) -> bool;

    spec fn step_req(&self, value: Self::Input) -> bool;

    spec fn step_post(&self, value: Self::Input, next: Self, out: Self::Output) -> bool;

    spec fn reset_post(&self, next: Self) -> bool;

    fn step(&mut self, value: Self::Input) -> (out: Self::Output)
        requires
            old(self).inv(),
            old(self).step_req(value),
        ensures
            final(self).inv(),
            old(self).step_post(value, *final(self), out),
    ;

    fn reset(&mut self)
        requires
            old(self).inv(),
        ensures
            final(self).inv(),
            old(self).reset_post(*final(self)),
    ;
}

} // verus!
