use vstd::prelude::*;

verus! {

/// The value `2^31`, the distance between the `i32` and the `u32` ranges
/// in the order-preserving bias encoding used by [i32_to_u32].
pub open spec fn i32_bias() -> int {
    0x8000_0000
}

/// The biased `u32` encoding of an `i32`.
pub open spec fn i32_to_u32_spec(x: i32) -> u32 {
    (x + i32_bias()) as u32
}

/// The `i32` that a biased `u32` encodes.
pub open spec fn u32_to_i32_spec(x: u32) -> i32 {
    (x - i32_bias()) as i32
}

/// Maps an `i32` onto a `u32` while preserving order: `i32::MIN` becomes `0`
/// and `i32::MAX` becomes `u32::MAX`.
pub fn i32_to_u32(i32_value: i32) -> (r: u32)
    ensures
        r == i32_to_u32_spec(i32_value),
        r == i32_value + i32_bias(),
{
    let r = (i32_value as u32) ^ 0x8000_0000u32;
    assert(r == i32_value + 0x8000_0000int) by (bit_vector)
        requires
            r == (i32_value as u32) ^ 0x8000_0000u32,
    ;
    r
}

/// The inverse of [i32_to_u32].
pub fn u32_to_i32(u32_value: u32) -> (r: i32)
    ensures
        r == u32_to_i32_spec(u32_value),
        r == u32_value - i32_bias(),
{
    let r = (u32_value ^ 0x8000_0000u32) as i32;
    assert(r == u32_value - 0x8000_0000int) by (bit_vector)
        requires
            r == (u32_value ^ 0x8000_0000u32) as i32,
    ;
    r
}

/// Adds an unsigned amount to a signed value. The sum must fit in an `i32`.
pub fn add_u32_to_i32(i32_value: i32, u32_value: u32) -> (r: i32)
    requires
        i32_value + u32_value <= i32::MAX,
    ensures
        r == i32_value + u32_value,
{
    let conv = i32_to_u32(i32_value);
    u32_to_i32(conv + u32_value)
}

/// Adds an unsigned amount to a signed value, returning `None` when the sum
/// does not fit in an `i32`.
pub fn checked_add_u32_to_i32(i32_value: i32, u32_value: u32) -> (r: Option<i32>)
    ensures
        r == (if i32_value + u32_value <= i32::MAX {
            Some((i32_value + u32_value) as i32)
        } else {
            None::<i32>
        }),
{
    let conv = i32_to_u32(i32_value);
    match conv.checked_add(u32_value) {
        Some(result) => Some(u32_to_i32(result)),
        None => None,
    }
}

/// Converting an `i32` to its biased `u32` form and back gives the value back.
pub proof fn lemma_i32_u32_round_trip(x: i32)
    ensures
        u32_to_i32_spec(i32_to_u32_spec(x)) == x,
{
}

/// Converting a `u32` to its `i32` form and back gives the value back.
pub proof fn lemma_u32_i32_round_trip(x: u32)
    ensures
        i32_to_u32_spec(u32_to_i32_spec(x)) == x,
{
}

/// The biased encoding preserves order.
pub proof fn lemma_i32_to_u32_monotonic(a: i32, b: i32)
    ensures
        a < b <==> i32_to_u32_spec(a) < i32_to_u32_spec(b),
{
}

/// Converts between the tuple types used for dimensions and coordinates.
pub struct TupleConverter;

/// The tuple types used for dimensions and coordinates.
pub trait DimensionsType: Sized {
}

impl DimensionsType for (i32, i32) {
}

impl DimensionsType for (i32, i32, i32) {
}

impl DimensionsType for (u32, u32) {
}

impl DimensionsType for (u32, u32, u32) {
}

impl DimensionsType for (i64, i64) {
}

impl DimensionsType for (i64, i64, i64) {
}

impl DimensionsType for (usize, usize) {
}

impl DimensionsType for (usize, usize, usize) {
}

/// A lossless conversion from the tuple type `A` to the tuple type `B`.
pub trait ConvertTuple<A: DimensionsType, B: DimensionsType> {
    /// The converted value.
    spec fn convert_spec(input: A) -> B;

    /// Converts `input`, component by component.
    fn convert(input: A) -> (r: B)
        ensures
            r == Self::convert_spec(input),
    ;
}

impl ConvertTuple<(i32, i32), (i64, i64)> for TupleConverter {
    open spec fn convert_spec(input: (i32, i32)) -> (i64, i64) {
        (input.0 as i64, input.1 as i64)
    }

    fn convert(input: (i32, i32)) -> (r: (i64, i64)) {
        (input.0 as i64, input.1 as i64)
    }
}

impl ConvertTuple<(u32, u32), (i64, i64)> for TupleConverter {
    open spec fn convert_spec(input: (u32, u32)) -> (i64, i64) {
        (input.0 as i64, input.1 as i64)
    }

    fn convert(input: (u32, u32)) -> (r: (i64, i64)) {
        (input.0 as i64, input.1 as i64)
    }
}

impl ConvertTuple<(u32, u32), (usize, usize)> for TupleConverter {
    open spec fn convert_spec(input: (u32, u32)) -> (usize, usize) {
        (input.0 as usize, input.1 as usize)
    }

    fn convert(input: (u32, u32)) -> (r: (usize, usize)) {
        (input.0 as usize, input.1 as usize)
    }
}

impl ConvertTuple<(i32, i32, i32), (i64, i64, i64)> for TupleConverter {
    open spec fn convert_spec(input: (i32, i32, i32)) -> (i64, i64, i64) {
        (input.0 as i64, input.1 as i64, input.2 as i64)
    }

    fn convert(input: (i32, i32, i32)) -> (r: (i64, i64, i64)) {
        (input.0 as i64, input.1 as i64, input.2 as i64)
    }
}

impl ConvertTuple<(u32, u32, u32), (i64, i64, i64)> for TupleConverter {
    open spec fn convert_spec(input: (u32, u32, u32)) -> (i64, i64, i64) {
        (input.0 as i64, input.1 as i64, input.2 as i64)
    }

    fn convert(input: (u32, u32, u32)) -> (r: (i64, i64, i64)) {
        (input.0 as i64, input.1 as i64, input.2 as i64)
    }
}

impl ConvertTuple<(u32, u32, u32), (usize, usize, usize)> for TupleConverter {
    open spec fn convert_spec(input: (u32, u32, u32)) -> (usize, usize, usize) {
        (input.0 as usize, input.1 as usize, input.2 as usize)
    }

    fn convert(input: (u32, u32, u32)) -> (r: (usize, usize, usize)) {
        (input.0 as usize, input.1 as usize, input.2 as usize)
    }
}

/// Conversion of a tuple into another tuple type through [TupleConverter].
pub trait Convert: DimensionsType {
    /// Converts `self` into the tuple type `T`.
    fn convert<T>(self) -> (r: T) where T: DimensionsType, TupleConverter: ConvertTuple<Self, T>
        ensures
            r == <TupleConverter as ConvertTuple<Self, T>>::convert_spec(self),
    ;
}

impl<A: DimensionsType> Convert for A {
    fn convert<T>(self) -> (r: T) where T: DimensionsType, TupleConverter: ConvertTuple<Self, T> {
        <TupleConverter as ConvertTuple<Self, T>>::convert(self)
    }
}

/// Whether an integer fits in an `i32`.
pub open spec fn fits_i32(v: int) -> bool {
    i32::MIN <= v <= i32::MAX
}

/// Whether `a / b` and `a % b` are defined on `i32`: `b` is not zero and the quotient
/// does not overflow.
pub open spec fn div_defined(a: i32, b: i32) -> bool {
    b != 0 && !(a == i32::MIN && b == -1)
}

/// Division rounding toward zero.
pub open spec fn trunc_div(a: int, b: int) -> int {
    if a >= 0 {
        a / b
    } else {
        -((-a) / b)
    }
}

/// The remainder of division rounding toward zero; it has the sign of `a`.
pub open spec fn trunc_rem(a: int, b: int) -> int {
    if a >= 0 {
        a % b
    } else {
        -((-a) % b)
    }
}

/// Component-wise sum of coordinates.
pub trait AddCoord<Rhs>: Sized {
    /// The type of the sum.
    type Output;

    /// Whether the sum is defined: no component overflows.
    spec fn add_coord_defined(self, rhs: Rhs) -> bool;

    /// The sum.
    spec fn add_coord_spec(self, rhs: Rhs) -> Self::Output;

    /// Computes the sum.
    fn add_coord(self, rhs: Rhs) -> (r: Self::Output)
        requires
            self.add_coord_defined(rhs),
        ensures
            r == self.add_coord_spec(rhs),
    ;
}

impl AddCoord<(i32, i32)> for (i32, i32) {
    type Output = (i32, i32);

    open spec fn add_coord_defined(self, rhs: (i32, i32)) -> bool {
        fits_i32(self.0 + rhs.0) && fits_i32(self.1 + rhs.1)
    }

    open spec fn add_coord_spec(self, rhs: (i32, i32)) -> (i32, i32) {
        ((self.0 + rhs.0) as i32, (self.1 + rhs.1) as i32)
    }

    fn add_coord(self, rhs: (i32, i32)) -> (r: (i32, i32)) {
        (self.0 + rhs.0, self.1 + rhs.1)
    }
}

impl AddCoord<(i32, i32, i32)> for (i32, i32, i32) {
    type Output = (i32, i32, i32);

    open spec fn add_coord_defined(self, rhs: (i32, i32, i32)) -> bool {
        fits_i32(self.0 + rhs.0) && fits_i32(self.1 + rhs.1) && fits_i32(self.2 + rhs.2)
    }

    open spec fn add_coord_spec(self, rhs: (i32, i32, i32)) -> (i32, i32, i32) {
        ((self.0 + rhs.0) as i32, (self.1 + rhs.1) as i32, (self.2 + rhs.2) as i32)
    }

    fn add_coord(self, rhs: (i32, i32, i32)) -> (r: (i32, i32, i32)) {
        (self.0 + rhs.0, self.1 + rhs.1, self.2 + rhs.2)
    }
}

impl AddCoord<i32> for (i32, i32) {
    type Output = (i32, i32);

    open spec fn add_coord_defined(self, rhs: i32) -> bool {
        fits_i32(self.0 + rhs) && fits_i32(self.1 + rhs)
    }

    open spec fn add_coord_spec(self, rhs: i32) -> (i32, i32) {
        ((self.0 + rhs) as i32, (self.1 + rhs) as i32)
    }

    fn add_coord(self, rhs: i32) -> (r: (i32, i32)) {
        (self.0 + rhs, self.1 + rhs)
    }
}

impl AddCoord<i32> for (i32, i32, i32) {
    type Output = (i32, i32, i32);

    open spec fn add_coord_defined(self, rhs: i32) -> bool {
        fits_i32(self.0 + rhs) && fits_i32(self.1 + rhs) && fits_i32(self.2 + rhs)
    }

    open spec fn add_coord_spec(self, rhs: i32) -> (i32, i32, i32) {
        ((self.0 + rhs) as i32, (self.1 + rhs) as i32, (self.2 + rhs) as i32)
    }

    fn add_coord(self, rhs: i32) -> (r: (i32, i32, i32)) {
        (self.0 + rhs, self.1 + rhs, self.2 + rhs)
    }
}

/// Component-wise difference of coordinates.
pub trait SubCoord<Rhs>: Sized {
    /// The type of the difference.
    type Output;

    /// Whether the difference is defined: no component overflows.
    spec fn sub_coord_defined(self, rhs: Rhs) -> bool;

    /// The difference.
    spec fn sub_coord_spec(self, rhs: Rhs) -> Self::Output;

    /// Computes the difference.
    fn sub_coord(self, rhs: Rhs) -> (r: Self::Output)
        requires
            self.sub_coord_defined(rhs),
        ensures
            r == self.sub_coord_spec(rhs),
    ;
}

impl SubCoord<(i32, i32)> for (i32, i32) {
    type Output = (i32, i32);

    open spec fn sub_coord_defined(self, rhs: (i32, i32)) -> bool {
        fits_i32(self.0 - rhs.0) && fits_i32(self.1 - rhs.1)
    }

    open spec fn sub_coord_spec(self, rhs: (i32, i32)) -> (i32, i32) {
        ((self.0 - rhs.0) as i32, (self.1 - rhs.1) as i32)
    }

    fn sub_coord(self, rhs: (i32, i32)) -> (r: (i32, i32)) {
        (self.0 - rhs.0, self.1 - rhs.1)
    }
}

impl SubCoord<(i32, i32, i32)> for (i32, i32, i32) {
    type Output = (i32, i32, i32);

    open spec fn sub_coord_defined(self, rhs: (i32, i32, i32)) -> bool {
        fits_i32(self.0 - rhs.0) && fits_i32(self.1 - rhs.1) && fits_i32(self.2 - rhs.2)
    }

    open spec fn sub_coord_spec(self, rhs: (i32, i32, i32)) -> (i32, i32, i32) {
        ((self.0 - rhs.0) as i32, (self.1 - rhs.1) as i32, (self.2 - rhs.2) as i32)
    }

    fn sub_coord(self, rhs: (i32, i32, i32)) -> (r: (i32, i32, i32)) {
        (self.0 - rhs.0, self.1 - rhs.1, self.2 - rhs.2)
    }
}

impl SubCoord<i32> for (i32, i32) {
    type Output = (i32, i32);

    open spec fn sub_coord_defined(self, rhs: i32) -> bool {
        fits_i32(self.0 - rhs) && fits_i32(self.1 - rhs)
    }

    open spec fn sub_coord_spec(self, rhs: i32) -> (i32, i32) {
        ((self.0 - rhs) as i32, (self.1 - rhs) as i32)
    }

    fn sub_coord(self, rhs: i32) -> (r: (i32, i32)) {
        (self.0 - rhs, self.1 - rhs)
    }
}

impl SubCoord<i32> for (i32, i32, i32) {
    type Output = (i32, i32, i32);

    open spec fn sub_coord_defined(self, rhs: i32) -> bool {
        fits_i32(self.0 - rhs) && fits_i32(self.1 - rhs) && fits_i32(self.2 - rhs)
    }

    open spec fn sub_coord_spec(self, rhs: i32) -> (i32, i32, i32) {
        ((self.0 - rhs) as i32, (self.1 - rhs) as i32, (self.2 - rhs) as i32)
    }

    fn sub_coord(self, rhs: i32) -> (r: (i32, i32, i32)) {
        (self.0 - rhs, self.1 - rhs, self.2 - rhs)
    }
}

/// Component-wise product of coordinates.
pub trait MulCoord<Rhs>: Sized {
    /// The type of the product.
    type Output;

    /// Whether the product is defined: no component overflows.
    spec fn mul_coord_defined(self, rhs: Rhs) -> bool;

    /// The product.
    spec fn mul_coord_spec(self, rhs: Rhs) -> Self::Output;

    /// Computes the product.
    fn mul_coord(self, rhs: Rhs) -> (r: Self::Output)
        requires
            self.mul_coord_defined(rhs),
        ensures
            r == self.mul_coord_spec(rhs),
    ;
}

impl MulCoord<(i32, i32)> for (i32, i32) {
    type Output = (i32, i32);

    open spec fn mul_coord_defined(self, rhs: (i32, i32)) -> bool {
        fits_i32(self.0 * rhs.0) && fits_i32(self.1 * rhs.1)
    }

    open spec fn mul_coord_spec(self, rhs: (i32, i32)) -> (i32, i32) {
        ((self.0 * rhs.0) as i32, (self.1 * rhs.1) as i32)
    }

    fn mul_coord(self, rhs: (i32, i32)) -> (r: (i32, i32)) {
        (self.0 * rhs.0, self.1 * rhs.1)
    }
}

impl MulCoord<(i32, i32, i32)> for (i32, i32, i32) {
    type Output = (i32, i32, i32);

    open spec fn mul_coord_defined(self, rhs: (i32, i32, i32)) -> bool {
        fits_i32(self.0 * rhs.0) && fits_i32(self.1 * rhs.1) && fits_i32(self.2 * rhs.2)
    }

    open spec fn mul_coord_spec(self, rhs: (i32, i32, i32)) -> (i32, i32, i32) {
        ((self.0 * rhs.0) as i32, (self.1 * rhs.1) as i32, (self.2 * rhs.2) as i32)
    }

    fn mul_coord(self, rhs: (i32, i32, i32)) -> (r: (i32, i32, i32)) {
        (self.0 * rhs.0, self.1 * rhs.1, self.2 * rhs.2)
    }
}

impl MulCoord<i32> for (i32, i32) {
    type Output = (i32, i32);

    open spec fn mul_coord_defined(self, rhs: i32) -> bool {
        fits_i32(self.0 * rhs) && fits_i32(self.1 * rhs)
    }

    open spec fn mul_coord_spec(self, rhs: i32) -> (i32, i32) {
        ((self.0 * rhs) as i32, (self.1 * rhs) as i32)
    }

    fn mul_coord(self, rhs: i32) -> (r: (i32, i32)) {
        (self.0 * rhs, self.1 * rhs)
    }
}

impl MulCoord<i32> for (i32, i32, i32) {
    type Output = (i32, i32, i32);

    open spec fn mul_coord_defined(self, rhs: i32) -> bool {
        fits_i32(self.0 * rhs) && fits_i32(self.1 * rhs) && fits_i32(self.2 * rhs)
    }

    open spec fn mul_coord_spec(self, rhs: i32) -> (i32, i32, i32) {
        ((self.0 * rhs) as i32, (self.1 * rhs) as i32, (self.2 * rhs) as i32)
    }

    fn mul_coord(self, rhs: i32) -> (r: (i32, i32, i32)) {
        (self.0 * rhs, self.1 * rhs, self.2 * rhs)
    }
}

/// Component-wise quotient of coordinates.
pub trait DivCoord<Rhs>: Sized {
    /// The type of the quotient.
    type Output;

    /// Whether the quotient is defined: no component overflows and no divisor is zero.
    spec fn div_coord_defined(self, rhs: Rhs) -> bool;

    /// The quotient.
    spec fn div_coord_spec(self, rhs: Rhs) -> Self::Output;

    /// Computes the quotient.
    fn div_coord(self, rhs: Rhs) -> (r: Self::Output)
        requires
            self.div_coord_defined(rhs),
        ensures
            r == self.div_coord_spec(rhs),
    ;
}

impl DivCoord<(i32, i32)> for (i32, i32) {
    type Output = (i32, i32);

    open spec fn div_coord_defined(self, rhs: (i32, i32)) -> bool {
        div_defined(self.0, rhs.0) && div_defined(self.1, rhs.1)
    }

    open spec fn div_coord_spec(self, rhs: (i32, i32)) -> (i32, i32) {
        (trunc_div(self.0 as int, rhs.0 as int) as i32, trunc_div(self.1 as int, rhs.1 as int) as i32)
    }

    fn div_coord(self, rhs: (i32, i32)) -> (r: (i32, i32)) {
        (self.0 / rhs.0, self.1 / rhs.1)
    }
}

impl DivCoord<(i32, i32, i32)> for (i32, i32, i32) {
    type Output = (i32, i32, i32);

    open spec fn div_coord_defined(self, rhs: (i32, i32, i32)) -> bool {
        div_defined(self.0, rhs.0) && div_defined(self.1, rhs.1) && div_defined(self.2, rhs.2)
    }

    open spec fn div_coord_spec(self, rhs: (i32, i32, i32)) -> (i32, i32, i32) {
        (trunc_div(self.0 as int, rhs.0 as int) as i32, trunc_div(self.1 as int, rhs.1 as int) as i32, trunc_div(self.2 as int, rhs.2 as int) as i32)
    }

    fn div_coord(self, rhs: (i32, i32, i32)) -> (r: (i32, i32, i32)) {
        (self.0 / rhs.0, self.1 / rhs.1, self.2 / rhs.2)
    }
}

impl DivCoord<i32> for (i32, i32) {
    type Output = (i32, i32);

    open spec fn div_coord_defined(self, rhs: i32) -> bool {
        div_defined(self.0, rhs) && div_defined(self.1, rhs)
    }

    open spec fn div_coord_spec(self, rhs: i32) -> (i32, i32) {
        (trunc_div(self.0 as int, rhs as int) as i32, trunc_div(self.1 as int, rhs as int) as i32)
    }

    fn div_coord(self, rhs: i32) -> (r: (i32, i32)) {
        (self.0 / rhs, self.1 / rhs)
    }
}

impl DivCoord<i32> for (i32, i32, i32) {
    type Output = (i32, i32, i32);

    open spec fn div_coord_defined(self, rhs: i32) -> bool {
        div_defined(self.0, rhs) && div_defined(self.1, rhs) && div_defined(self.2, rhs)
    }

    open spec fn div_coord_spec(self, rhs: i32) -> (i32, i32, i32) {
        (trunc_div(self.0 as int, rhs as int) as i32, trunc_div(self.1 as int, rhs as int) as i32, trunc_div(self.2 as int, rhs as int) as i32)
    }

    fn div_coord(self, rhs: i32) -> (r: (i32, i32, i32)) {
        (self.0 / rhs, self.1 / rhs, self.2 / rhs)
    }
}

/// Component-wise remainder of coordinates.
pub trait RemCoord<Rhs>: Sized {
    /// The type of the remainder.
    type Output;

    /// Whether the remainder is defined: no component overflows and no divisor is zero.
    spec fn rem_coord_defined(self, rhs: Rhs) -> bool;

    /// The remainder.
    spec fn rem_coord_spec(self, rhs: Rhs) -> Self::Output;

    /// Computes the remainder.
    fn rem_coord(self, rhs: Rhs) -> (r: Self::Output)
        requires
            self.rem_coord_defined(rhs),
        ensures
            r == self.rem_coord_spec(rhs),
    ;
}

impl RemCoord<(i32, i32)> for (i32, i32) {
    type Output = (i32, i32);

    open spec fn rem_coord_defined(self, rhs: (i32, i32)) -> bool {
        div_defined(self.0, rhs.0) && div_defined(self.1, rhs.1)
    }

    open spec fn rem_coord_spec(self, rhs: (i32, i32)) -> (i32, i32) {
        (trunc_rem(self.0 as int, rhs.0 as int) as i32, trunc_rem(self.1 as int, rhs.1 as int) as i32)
    }

    fn rem_coord(self, rhs: (i32, i32)) -> (r: (i32, i32)) {
        (self.0 % rhs.0, self.1 % rhs.1)
    }
}

impl RemCoord<(i32, i32, i32)> for (i32, i32, i32) {
    type Output = (i32, i32, i32);

    open spec fn rem_coord_defined(self, rhs: (i32, i32, i32)) -> bool {
        div_defined(self.0, rhs.0) && div_defined(self.1, rhs.1) && div_defined(self.2, rhs.2)
    }

    open spec fn rem_coord_spec(self, rhs: (i32, i32, i32)) -> (i32, i32, i32) {
        (trunc_rem(self.0 as int, rhs.0 as int) as i32, trunc_rem(self.1 as int, rhs.1 as int) as i32, trunc_rem(self.2 as int, rhs.2 as int) as i32)
    }

    fn rem_coord(self, rhs: (i32, i32, i32)) -> (r: (i32, i32, i32)) {
        (self.0 % rhs.0, self.1 % rhs.1, self.2 % rhs.2)
    }
}

impl RemCoord<i32> for (i32, i32) {
    type Output = (i32, i32);

    open spec fn rem_coord_defined(self, rhs: i32) -> bool {
        div_defined(self.0, rhs) && div_defined(self.1, rhs)
    }

    open spec fn rem_coord_spec(self, rhs: i32) -> (i32, i32) {
        (trunc_rem(self.0 as int, rhs as int) as i32, trunc_rem(self.1 as int, rhs as int) as i32)
    }

    fn rem_coord(self, rhs: i32) -> (r: (i32, i32)) {
        (self.0 % rhs, self.1 % rhs)
    }
}

impl RemCoord<i32> for (i32, i32, i32) {
    type Output = (i32, i32, i32);

    open spec fn rem_coord_defined(self, rhs: i32) -> bool {
        div_defined(self.0, rhs) && div_defined(self.1, rhs) && div_defined(self.2, rhs)
    }

    open spec fn rem_coord_spec(self, rhs: i32) -> (i32, i32, i32) {
        (trunc_rem(self.0 as int, rhs as int) as i32, trunc_rem(self.1 as int, rhs as int) as i32, trunc_rem(self.2 as int, rhs as int) as i32)
    }

    fn rem_coord(self, rhs: i32) -> (r: (i32, i32, i32)) {
        (self.0 % rhs, self.1 % rhs, self.2 % rhs)
    }
}

/// Truncated division: the quotient times the divisor plus the remainder gives back the
/// dividend, the remainder is smaller than the divisor in magnitude and has the sign of
/// the dividend; when the division is defined on `i32`, the quotient fits in an `i32`.
pub proof fn lemma_trunc_div_rem(a: int, b: int)
    requires
        b != 0,
    ensures
        trunc_div(a, b) * b + trunc_rem(a, b) == a,
        0 <= trunc_rem(a, b) < b || -b < trunc_rem(a, b) <= 0 || 0 <= trunc_rem(a, b) < -b || b < trunc_rem(a, b) <= 0,
        a >= 0 ==> trunc_rem(a, b) >= 0,
        a < 0 ==> trunc_rem(a, b) <= 0,
        i32::MIN <= a <= i32::MAX && !(a == i32::MIN && b == -1) ==> fits_i32(trunc_div(a, b)),
        i32::MIN <= a <= i32::MAX ==> fits_i32(trunc_rem(a, b)),
{
    if a >= 0 {
        assert(a == b * (a / b) + a % b && 0 <= a % b < (if b > 0 { b } else { -b }) && a % b <= a) by (nonlinear_arith)
            requires
                b != 0,
                a >= 0,
        ;
        assert((a / b) * b == b * (a / b)) by (nonlinear_arith);
    } else {
        let n = -a;
        assert(n == b * (n / b) + n % b && 0 <= n % b < (if b > 0 { b } else { -b }) && n % b <= n) by (nonlinear_arith)
            requires
                b != 0,
                n >= 0,
        ;
        assert((-(n / b)) * b == -(b * (n / b))) by (nonlinear_arith);
    }
    if i32::MIN <= a <= i32::MAX && !(a == i32::MIN && b == -1) {
        let q = trunc_div(a, b);
        if b == 1 {
            assert(q * 1 == q) by (nonlinear_arith);
        } else if b == -1 {
            assert(q * -1 == -q) by (nonlinear_arith);
        } else {
            let r = trunc_rem(a, b);
            assert(-0x8000_0000 <= q <= 0x7fff_ffff) by (nonlinear_arith)
                requires
                    q * b + r == a,
                    b >= 2 || b <= -2,
                    -0x8000_0000 <= a <= 0x7fff_ffff,
                    a >= 0 ==> 0 <= r,
                    a < 0 ==> r <= 0,
                    0 <= r < b || -b < r <= 0 || 0 <= r < -b || b < r <= 0,
            ;
        }
    }
}

/// Adding coordinates adds each component separately, and subtracting the same
/// coordinates again gives the first back.
pub proof fn lemma_add_coord2(a: (i32, i32), b: (i32, i32))
    requires
        a.add_coord_defined(b),
    ensures
        a.add_coord_spec(b).0 == a.0 + b.0,
        a.add_coord_spec(b).1 == a.1 + b.1,
        a.add_coord_spec(b).sub_coord_defined(b),
        a.add_coord_spec(b).sub_coord_spec(b) == a,
{
}

/// Subtracting coordinates subtracts each component separately, and adding the same
/// coordinates again gives the first back.
pub proof fn lemma_sub_coord2(a: (i32, i32), b: (i32, i32))
    requires
        a.sub_coord_defined(b),
    ensures
        a.sub_coord_spec(b).0 == a.0 - b.0,
        a.sub_coord_spec(b).1 == a.1 - b.1,
        a.sub_coord_spec(b).add_coord_defined(b),
        a.sub_coord_spec(b).add_coord_spec(b) == a,
{
}

/// Adding coordinates adds each component separately, and subtracting the same
/// coordinates again gives the first back.
pub proof fn lemma_add_coord3(a: (i32, i32, i32), b: (i32, i32, i32))
    requires
        a.add_coord_defined(b),
    ensures
        a.add_coord_spec(b).0 == a.0 + b.0,
        a.add_coord_spec(b).1 == a.1 + b.1,
        a.add_coord_spec(b).2 == a.2 + b.2,
        a.add_coord_spec(b).sub_coord_defined(b),
        a.add_coord_spec(b).sub_coord_spec(b) == a,
{
}

/// Subtracting coordinates subtracts each component separately, and adding the same
/// coordinates again gives the first back.
pub proof fn lemma_sub_coord3(a: (i32, i32, i32), b: (i32, i32, i32))
    requires
        a.sub_coord_defined(b),
    ensures
        a.sub_coord_spec(b).0 == a.0 - b.0,
        a.sub_coord_spec(b).1 == a.1 - b.1,
        a.sub_coord_spec(b).2 == a.2 - b.2,
        a.sub_coord_spec(b).add_coord_defined(b),
        a.sub_coord_spec(b).add_coord_spec(b) == a,
{
}

/// Adding or subtracting a scalar does so on every component.
pub proof fn lemma_scalar_add_sub_coord(a: (i32, i32), c: (i32, i32, i32), k: i32)
    ensures
        a.add_coord_defined(k) ==> a.add_coord_spec(k).0 == a.0 + k && a.add_coord_spec(k).1 == a.1 + k,
        a.sub_coord_defined(k) ==> a.sub_coord_spec(k).0 == a.0 - k && a.sub_coord_spec(k).1 == a.1 - k,
        c.add_coord_defined(k) ==> c.add_coord_spec(k).0 == c.0 + k && c.add_coord_spec(k).1 == c.1 + k && c.add_coord_spec(k).2 == c.2 + k,
        c.sub_coord_defined(k) ==> c.sub_coord_spec(k).0 == c.0 - k && c.sub_coord_spec(k).1 == c.1 - k && c.sub_coord_spec(k).2 == c.2 - k,
{
}

/// Multiplying coordinates multiplies each component separately, by the matching
/// component or by a scalar.
pub proof fn lemma_mul_coord(a: (i32, i32), b: (i32, i32), c: (i32, i32, i32), d: (i32, i32, i32), k: i32)
    ensures
        a.mul_coord_defined(b) ==> a.mul_coord_spec(b).0 == a.0 * b.0 && a.mul_coord_spec(b).1 == a.1 * b.1,
        c.mul_coord_defined(d) ==> c.mul_coord_spec(d).0 == c.0 * d.0 && c.mul_coord_spec(d).1 == c.1 * d.1 && c.mul_coord_spec(d).2 == c.2 * d.2,
        a.mul_coord_defined(k) ==> a.mul_coord_spec(k).0 == a.0 * k && a.mul_coord_spec(k).1 == a.1 * k,
        c.mul_coord_defined(k) ==> c.mul_coord_spec(k).0 == c.0 * k && c.mul_coord_spec(k).1 == c.1 * k && c.mul_coord_spec(k).2 == c.2 * k,
{
}

/// Whether `q` and `r` are the quotient and remainder of `a` divided by `b` rounding
/// toward zero.
pub open spec fn divides_to(a: int, b: int, q: int, r: int) -> bool {
    &&& q * b + r == a
    &&& a >= 0 ==> 0 <= r && (r < b || r < -b)
    &&& a < 0 ==> r <= 0 && (-r < b || -r < -b)
}

/// Dividing coordinates divides each component by the matching component, rounding
/// toward zero, and the remainder is what is left over on each component.
pub proof fn lemma_div_rem_coord2(a: (i32, i32), b: (i32, i32))
    requires
        a.div_coord_defined(b),
    ensures
        a.rem_coord_defined(b),
        divides_to(a.0 as int, b.0 as int, a.div_coord_spec(b).0 as int, a.rem_coord_spec(b).0 as int),
        divides_to(a.1 as int, b.1 as int, a.div_coord_spec(b).1 as int, a.rem_coord_spec(b).1 as int),
{
    lemma_trunc_div_rem(a.0 as int, b.0 as int);
    lemma_trunc_div_rem(a.1 as int, b.1 as int);
}

/// Dividing coordinates divides each component by the matching component, rounding
/// toward zero, and the remainder is what is left over on each component.
pub proof fn lemma_div_rem_coord3(a: (i32, i32, i32), b: (i32, i32, i32))
    requires
        a.div_coord_defined(b),
    ensures
        a.rem_coord_defined(b),
        divides_to(a.0 as int, b.0 as int, a.div_coord_spec(b).0 as int, a.rem_coord_spec(b).0 as int),
        divides_to(a.1 as int, b.1 as int, a.div_coord_spec(b).1 as int, a.rem_coord_spec(b).1 as int),
        divides_to(a.2 as int, b.2 as int, a.div_coord_spec(b).2 as int, a.rem_coord_spec(b).2 as int),
{
    lemma_trunc_div_rem(a.0 as int, b.0 as int);
    lemma_trunc_div_rem(a.1 as int, b.1 as int);
    lemma_trunc_div_rem(a.2 as int, b.2 as int);
}

/// Dividing coordinates by a scalar divides every component by it, rounding toward
/// zero, and the remainder is what is left over on each component.
pub proof fn lemma_div_rem_scalar(a: (i32, i32), c: (i32, i32, i32), k: i32)
    ensures
        a.div_coord_defined(k) ==> a.rem_coord_defined(k)
            && divides_to(a.0 as int, k as int, a.div_coord_spec(k).0 as int, a.rem_coord_spec(k).0 as int)
            && divides_to(a.1 as int, k as int, a.div_coord_spec(k).1 as int, a.rem_coord_spec(k).1 as int),
        c.div_coord_defined(k) ==> c.rem_coord_defined(k)
            && divides_to(c.0 as int, k as int, c.div_coord_spec(k).0 as int, c.rem_coord_spec(k).0 as int)
            && divides_to(c.1 as int, k as int, c.div_coord_spec(k).1 as int, c.rem_coord_spec(k).1 as int)
            && divides_to(c.2 as int, k as int, c.div_coord_spec(k).2 as int, c.rem_coord_spec(k).2 as int),
{
    if k != 0 {
        lemma_trunc_div_rem(a.0 as int, k as int);
        lemma_trunc_div_rem(a.1 as int, k as int);
        lemma_trunc_div_rem(c.0 as int, k as int);
        lemma_trunc_div_rem(c.1 as int, k as int);
        lemma_trunc_div_rem(c.2 as int, k as int);
    }
}

/// Converting a tuple keeps every component's value, in place.
pub proof fn lemma_convert2(a: (i32, i32), b: (u32, u32))
    ensures
        <TupleConverter as ConvertTuple<(i32, i32), (i64, i64)>>::convert_spec(a).0 == a.0,
        <TupleConverter as ConvertTuple<(i32, i32), (i64, i64)>>::convert_spec(a).1 == a.1,
        <TupleConverter as ConvertTuple<(u32, u32), (i64, i64)>>::convert_spec(b).0 == b.0,
        <TupleConverter as ConvertTuple<(u32, u32), (i64, i64)>>::convert_spec(b).1 == b.1,
        <TupleConverter as ConvertTuple<(u32, u32), (usize, usize)>>::convert_spec(b).0 == b.0,
        <TupleConverter as ConvertTuple<(u32, u32), (usize, usize)>>::convert_spec(b).1 == b.1,
{
}

/// Converting a tuple keeps every component's value, in place.
pub proof fn lemma_convert3(a: (i32, i32, i32), b: (u32, u32, u32))
    ensures
        <TupleConverter as ConvertTuple<(i32, i32, i32), (i64, i64, i64)>>::convert_spec(a).0 == a.0,
        <TupleConverter as ConvertTuple<(i32, i32, i32), (i64, i64, i64)>>::convert_spec(a).1 == a.1,
        <TupleConverter as ConvertTuple<(i32, i32, i32), (i64, i64, i64)>>::convert_spec(a).2 == a.2,
        <TupleConverter as ConvertTuple<(u32, u32, u32), (i64, i64, i64)>>::convert_spec(b).0 == b.0,
        <TupleConverter as ConvertTuple<(u32, u32, u32), (i64, i64, i64)>>::convert_spec(b).1 == b.1,
        <TupleConverter as ConvertTuple<(u32, u32, u32), (i64, i64, i64)>>::convert_spec(b).2 == b.2,
        <TupleConverter as ConvertTuple<(u32, u32, u32), (usize, usize, usize)>>::convert_spec(b).0 == b.0,
        <TupleConverter as ConvertTuple<(u32, u32, u32), (usize, usize, usize)>>::convert_spec(b).1 == b.1,
        <TupleConverter as ConvertTuple<(u32, u32, u32), (usize, usize, usize)>>::convert_spec(b).2 == b.2,
{
}

} // verus!
