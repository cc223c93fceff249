//! Small numeric helpers.
use vstd::prelude::*;
use vstd::std_specs::ops::{AddSpec, DivSpec, MulSpec, SubSpec};

verus! {

/// The value that `map_range` computes, as the operators of `T` specify it.
pub open spec fn spec_map_range<T>(from_range: (T, T), to_range: (T, T), s: T) -> T
    where T: core::ops::Add<T, Output = T> + core::ops::Sub<T, Output = T> + core::ops::Mul<T, Output = T> + core::ops::Div<T, Output = T>,
{
    to_range.0.add_spec(
        s.sub_spec(from_range.0).mul_spec(to_range.1.sub_spec(to_range.0)).div_spec(
            from_range.1.sub_spec(from_range.0),
        ),
    )
}

/// The operators of `T` follow their specifications, and none of the steps of `map_range`
/// on these arguments fails (no overflow, no division by zero).
pub open spec fn map_range_defined<T>(from_range: (T, T), to_range: (T, T), s: T) -> bool
    where T: core::ops::Add<T, Output = T> + core::ops::Sub<T, Output = T> + core::ops::Mul<T, Output = T> + core::ops::Div<T, Output = T>,
{
    &&& T::obeys_add_spec()
    &&& T::obeys_sub_spec()
    &&& T::obeys_mul_spec()
    &&& T::obeys_div_spec()
    &&& s.sub_req(from_range.0)
    &&& to_range.1.sub_req(to_range.0)
    &&& from_range.1.sub_req(from_range.0)
    &&& s.sub_spec(from_range.0).mul_req(to_range.1.sub_spec(to_range.0))
    &&& s.sub_spec(from_range.0).mul_spec(to_range.1.sub_spec(to_range.0)).div_req(
        from_range.1.sub_spec(from_range.0),
    )
    &&& to_range.0.add_req(
        s.sub_spec(from_range.0).mul_spec(to_range.1.sub_spec(to_range.0)).div_spec(
            from_range.1.sub_spec(from_range.0),
        ),
    )
}

/// Maps `s` linearly from `from_range` onto `to_range`:
/// `to.0 + (s - from.0) * (to.1 - to.0) / (from.1 - from.0)`.
pub fn map_range<T: Copy>(from_range: (T, T), to_range: (T, T), s: T) -> (r: T)
    where T: core::ops::Add<T, Output = T> + core::ops::Sub<T, Output = T> + core::ops::Mul<T, Output = T> + core::ops::Div<T, Output = T>,
    requires
        map_range_defined(from_range, to_range, s),
    ensures
        r == spec_map_range(from_range, to_range, s),
{
    to_range.0 + (s - from_range.0) * (to_range.1 - to_range.0) / (from_range.1 - from_range.0)
}

proof fn lemma_exact_division(y: int, d: int)
    requires
        d != 0,
    ensures
        (y * d) / d == y,
{
    assert((y * d) / d == y) by (nonlinear_arith)
        requires
            d != 0,
    ;
}

/// Exact integer facts behind the endpoint laws: with `d != 0`, `0 / d == 0`, and
/// `(span * d) / d == span` both when divided directly and when the negated product is divided.
proof fn lemma_endpoint_arith(span: int, d: int)
    requires
        d != 0,
    ensures
        0int / d == 0,
        (d * span) / d == span,
        -((-(d * span)) / d) == span,
{
    lemma_exact_division(span, d);
    lemma_exact_division(-span, d);
    assert(d * span == span * d) by (nonlinear_arith);
    assert((-(d * span)) == (-span) * d) by (nonlinear_arith);
    assert(0int / d == 0) by (nonlinear_arith)
        requires
            d != 0,
    ;
}

/// On `i8`, `map_range` sends the ends of the source range to the ends of the target
/// range, wherever it is defined at both ends.
pub proof fn lemma_map_range_endpoints_i8(from_range: (i8, i8), to_range: (i8, i8))
    requires
        map_range_defined(from_range, to_range, from_range.0),
        map_range_defined(from_range, to_range, from_range.1),
    ensures
        spec_map_range(from_range, to_range, from_range.0) == to_range.0,
        spec_map_range(from_range, to_range, from_range.1) == to_range.1,
{
    lemma_endpoint_arith(to_range.1 - to_range.0, from_range.1 - from_range.0);
    let zero: i8 = from_range.0.sub_spec(from_range.0);
    assert(zero == 0);
    let span: i8 = to_range.1.sub_spec(to_range.0);
    assert(0 * (span as int) == 0) by (nonlinear_arith);
    let scaled: i8 = zero.mul_spec(span);
    assert(scaled == 0);
    let divisor: i8 = from_range.1.sub_spec(from_range.0);
    assert(scaled.div_spec(divisor) == 0);
}

/// On `i16`, `map_range` sends the ends of the source range to the ends of the target
/// range, wherever it is defined at both ends.
pub proof fn lemma_map_range_endpoints_i16(from_range: (i16, i16), to_range: (i16, i16))
    requires
        map_range_defined(from_range, to_range, from_range.0),
        map_range_defined(from_range, to_range, from_range.1),
    ensures
        spec_map_range(from_range, to_range, from_range.0) == to_range.0,
        spec_map_range(from_range, to_range, from_range.1) == to_range.1,
{
    lemma_endpoint_arith(to_range.1 - to_range.0, from_range.1 - from_range.0);
    let zero: i16 = from_range.0.sub_spec(from_range.0);
    assert(zero == 0);
    let span: i16 = to_range.1.sub_spec(to_range.0);
    assert(0 * (span as int) == 0) by (nonlinear_arith);
    let scaled: i16 = zero.mul_spec(span);
    assert(scaled == 0);
    let divisor: i16 = from_range.1.sub_spec(from_range.0);
    assert(scaled.div_spec(divisor) == 0);
}

/// On `i32`, `map_range` sends the ends of the source range to the ends of the target
/// range, wherever it is defined at both ends.
pub proof fn lemma_map_range_endpoints_i32(from_range: (i32, i32), to_range: (i32, i32))
    requires
        map_range_defined(from_range, to_range, from_range.0),
        map_range_defined(from_range, to_range, from_range.1),
    ensures
        spec_map_range(from_range, to_range, from_range.0) == to_range.0,
        spec_map_range(from_range, to_range, from_range.1) == to_range.1,
{
    lemma_endpoint_arith(to_range.1 - to_range.0, from_range.1 - from_range.0);
    let zero: i32 = from_range.0.sub_spec(from_range.0);
    assert(zero == 0);
    let span: i32 = to_range.1.sub_spec(to_range.0);
    assert(0 * (span as int) == 0) by (nonlinear_arith);
    let scaled: i32 = zero.mul_spec(span);
    assert(scaled == 0);
    let divisor: i32 = from_range.1.sub_spec(from_range.0);
    assert(scaled.div_spec(divisor) == 0);
}

/// On `i64`, `map_range` sends the ends of the source range to the ends of the target
/// range, wherever it is defined at both ends.
pub proof fn lemma_map_range_endpoints_i64(from_range: (i64, i64), to_range: (i64, i64))
    requires
        map_range_defined(from_range, to_range, from_range.0),
        map_range_defined(from_range, to_range, from_range.1),
    ensures
        spec_map_range(from_range, to_range, from_range.0) == to_range.0,
        spec_map_range(from_range, to_range, from_range.1) == to_range.1,
{
    lemma_endpoint_arith(to_range.1 - to_range.0, from_range.1 - from_range.0);
    let zero: i64 = from_range.0.sub_spec(from_range.0);
    assert(zero == 0);
    let span: i64 = to_range.1.sub_spec(to_range.0);
    assert(0 * (span as int) == 0) by (nonlinear_arith);
    let scaled: i64 = zero.mul_spec(span);
    assert(scaled == 0);
    let divisor: i64 = from_range.1.sub_spec(from_range.0);
    assert(scaled.div_spec(divisor) == 0);
}

/// On `i128`, `map_range` sends the ends of the source range to the ends of the target
/// range, wherever it is defined at both ends.
pub proof fn lemma_map_range_endpoints_i128(from_range: (i128, i128), to_range: (i128, i128))
    requires
        map_range_defined(from_range, to_range, from_range.0),
        map_range_defined(from_range, to_range, from_range.1),
    ensures
        spec_map_range(from_range, to_range, from_range.0) == to_range.0,
        spec_map_range(from_range, to_range, from_range.1) == to_range.1,
{
    lemma_endpoint_arith(to_range.1 - to_range.0, from_range.1 - from_range.0);
    let zero: i128 = from_range.0.sub_spec(from_range.0);
    assert(zero == 0);
    let span: i128 = to_range.1.sub_spec(to_range.0);
    assert(0 * (span as int) == 0) by (nonlinear_arith);
    let scaled: i128 = zero.mul_spec(span);
    assert(scaled == 0);
    let divisor: i128 = from_range.1.sub_spec(from_range.0);
    assert(scaled.div_spec(divisor) == 0);
}

/// On `isize`, `map_range` sends the ends of the source range to the ends of the target
/// range, wherever it is defined at both ends.
pub proof fn lemma_map_range_endpoints_isize(from_range: (isize, isize), to_range: (isize, isize))
    requires
        map_range_defined(from_range, to_range, from_range.0),
        map_range_defined(from_range, to_range, from_range.1),
    ensures
        spec_map_range(from_range, to_range, from_range.0) == to_range.0,
        spec_map_range(from_range, to_range, from_range.1) == to_range.1,
{
    lemma_endpoint_arith(to_range.1 - to_range.0, from_range.1 - from_range.0);
    let zero: isize = from_range.0.sub_spec(from_range.0);
    assert(zero == 0);
    let span: isize = to_range.1.sub_spec(to_range.0);
    assert(0 * (span as int) == 0) by (nonlinear_arith);
    let scaled: isize = zero.mul_spec(span);
    assert(scaled == 0);
    let divisor: isize = from_range.1.sub_spec(from_range.0);
    assert(scaled.div_spec(divisor) == 0);
}

/// On `u8`, `map_range` sends the ends of the source range to the ends of the target
/// range, wherever it is defined at both ends.
pub proof fn lemma_map_range_endpoints_u8(from_range: (u8, u8), to_range: (u8, u8))
    requires
        map_range_defined(from_range, to_range, from_range.0),
        map_range_defined(from_range, to_range, from_range.1),
    ensures
        spec_map_range(from_range, to_range, from_range.0) == to_range.0,
        spec_map_range(from_range, to_range, from_range.1) == to_range.1,
{
    lemma_endpoint_arith(to_range.1 - to_range.0, from_range.1 - from_range.0);
    let zero: u8 = from_range.0.sub_spec(from_range.0);
    assert(zero == 0);
    let span: u8 = to_range.1.sub_spec(to_range.0);
    assert(0 * (span as int) == 0) by (nonlinear_arith);
    let scaled: u8 = zero.mul_spec(span);
    assert(scaled == 0);
    let divisor: u8 = from_range.1.sub_spec(from_range.0);
    assert(scaled.div_spec(divisor) == 0);
}

/// On `u16`, `map_range` sends the ends of the source range to the ends of the target
/// range, wherever it is defined at both ends.
pub proof fn lemma_map_range_endpoints_u16(from_range: (u16, u16), to_range: (u16, u16))
    requires
        map_range_defined(from_range, to_range, from_range.0),
        map_range_defined(from_range, to_range, from_range.1),
    ensures
        spec_map_range(from_range, to_range, from_range.0) == to_range.0,
        spec_map_range(from_range, to_range, from_range.1) == to_range.1,
{
    lemma_endpoint_arith(to_range.1 - to_range.0, from_range.1 - from_range.0);
    let zero: u16 = from_range.0.sub_spec(from_range.0);
    assert(zero == 0);
    let span: u16 = to_range.1.sub_spec(to_range.0);
    assert(0 * (span as int) == 0) by (nonlinear_arith);
    let scaled: u16 = zero.mul_spec(span);
    assert(scaled == 0);
    let divisor: u16 = from_range.1.sub_spec(from_range.0);
    assert(scaled.div_spec(divisor) == 0);
}

/// On `u32`, `map_range` sends the ends of the source range to the ends of the target
/// range, wherever it is defined at both ends.
pub proof fn lemma_map_range_endpoints_u32(from_range: (u32, u32), to_range: (u32, u32))
    requires
        map_range_defined(from_range, to_range, from_range.0),
        map_range_defined(from_range, to_range, from_range.1),
    ensures
        spec_map_range(from_range, to_range, from_range.0) == to_range.0,
        spec_map_range(from_range, to_range, from_range.1) == to_range.1,
{
    lemma_endpoint_arith(to_range.1 - to_range.0, from_range.1 - from_range.0);
    let zero: u32 = from_range.0.sub_spec(from_range.0);
    assert(zero == 0);
    let span: u32 = to_range.1.sub_spec(to_range.0);
    assert(0 * (span as int) == 0) by (nonlinear_arith);
    let scaled: u32 = zero.mul_spec(span);
    assert(scaled == 0);
    let divisor: u32 = from_range.1.sub_spec(from_range.0);
    assert(scaled.div_spec(divisor) == 0);
}

/// On `u64`, `map_range` sends the ends of the source range to the ends of the target
/// range, wherever it is defined at both ends.
pub proof fn lemma_map_range_endpoints_u64(from_range: (u64, u64), to_range: (u64, u64))
    requires
        map_range_defined(from_range, to_range, from_range.0),
        map_range_defined(from_range, to_range, from_range.1),
    ensures
        spec_map_range(from_range, to_range, from_range.0) == to_range.0,
        spec_map_range(from_range, to_range, from_range.1) == to_range.1,
{
    lemma_endpoint_arith(to_range.1 - to_range.0, from_range.1 - from_range.0);
    let zero: u64 = from_range.0.sub_spec(from_range.0);
    assert(zero == 0);
    let span: u64 = to_range.1.sub_spec(to_range.0);
    assert(0 * (span as int) == 0) by (nonlinear_arith);
    let scaled: u64 = zero.mul_spec(span);
    assert(scaled == 0);
    let divisor: u64 = from_range.1.sub_spec(from_range.0);
    assert(scaled.div_spec(divisor) == 0);
}

/// On `u128`, `map_range` sends the ends of the source range to the ends of the target
/// range, wherever it is defined at both ends.
pub proof fn lemma_map_range_endpoints_u128(from_range: (u128, u128), to_range: (u128, u128))
    requires
        map_range_defined(from_range, to_range, from_range.0),
        map_range_defined(from_range, to_range, from_range.1),
    ensures
        spec_map_range(from_range, to_range, from_range.0) == to_range.0,
        spec_map_range(from_range, to_range, from_range.1) == to_range.1,
{
    lemma_endpoint_arith(to_range.1 - to_range.0, from_range.1 - from_range.0);
    let zero: u128 = from_range.0.sub_spec(from_range.0);
    assert(zero == 0);
    let span: u128 = to_range.1.sub_spec(to_range.0);
    assert(0 * (span as int) == 0) by (nonlinear_arith);
    let scaled: u128 = zero.mul_spec(span);
    assert(scaled == 0);
    let divisor: u128 = from_range.1.sub_spec(from_range.0);
    assert(scaled.div_spec(divisor) == 0);
}

/// On `usize`, `map_range` sends the ends of the source range to the ends of the target
/// range, wherever it is defined at both ends.
pub proof fn lemma_map_range_endpoints_usize(from_range: (usize, usize), to_range: (usize, usize))
    requires
        map_range_defined(from_range, to_range, from_range.0),
        map_range_defined(from_range, to_range, from_range.1),
    ensures
        spec_map_range(from_range, to_range, from_range.0) == to_range.0,
        spec_map_range(from_range, to_range, from_range.1) == to_range.1,
{
    lemma_endpoint_arith(to_range.1 - to_range.0, from_range.1 - from_range.0);
    let zero: usize = from_range.0.sub_spec(from_range.0);
    assert(zero == 0);
    let span: usize = to_range.1.sub_spec(to_range.0);
    assert(0 * (span as int) == 0) by (nonlinear_arith);
    let scaled: usize = zero.mul_spec(span);
    assert(scaled == 0);
    let divisor: usize = from_range.1.sub_spec(from_range.0);
    assert(scaled.div_spec(divisor) == 0);
}

} // verus!
