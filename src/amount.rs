use vstd::prelude::*;

verus! {

/// The largest scale (digits after the point) that a share may carry.
pub const MAX_SCALE: u32 = 28;

/// The largest magnitude of a share's mantissa: a 96-bit unsigned integer.
pub const MAX_MANTISSA: i128 = 0xFFFF_FFFF_FFFF_FFFF_FFFF_FFFF;

/// An exact decimal value: `mantissa * 10^(-scale)`.
#[derive(Clone, Copy, Debug, PartialEq, Eq, Structural)]
pub struct ScaledAmount {
    pub mantissa: i128,
    pub scale: u32,
}

/// Why an amount could not be split.
#[derive(Clone, Copy, Debug, PartialEq, Eq, Structural)]
pub enum SplitError {
    /// There is nobody to split the amount among.
    InvalidRecipientCount,
    /// The requested output scale exceeds what a share can carry.
    UnsupportedScale,
    /// A share's mantissa exceeds what a share can carry.
    ArithmeticOverflow,
    /// The amount is below zero.
    NegativeAmountUnsupported,
}

impl ScaledAmount {
    pub fn new(mantissa: i128, scale: u32) -> (r: ScaledAmount)
        ensures
            r.mantissa == mantissa,
            r.scale == scale,
    {
        ScaledAmount { mantissa, scale }
    }
}

/// Whether a value with this mantissa and scale can be held as a share,
/// and which limit it breaks when it cannot: the scale is looked at first.
pub open spec fn decimal_limits(mantissa: int, scale: u32) -> Result<(), SplitError> {
    if scale > MAX_SCALE {
        Err(SplitError::UnsupportedScale)
    } else if mantissa > MAX_MANTISSA || mantissa < -MAX_MANTISSA {
        Err(SplitError::ArithmeticOverflow)
    } else {
        Ok(())
    }
}

/// Relies on rust_decimal's `Decimal::try_from_i128_with_scale`, which refuses
/// a scale above `Decimal::MAX_SCALE` (28) with `ScaleExceedsMaximumPrecision`
/// before it looks at the mantissa, and then a mantissa whose magnitude exceeds
/// 2^96 - 1 with one of two other errors.
#[verifier::external_body]
pub(crate) fn decimal_representable(mantissa: i128, scale: u32) -> (r: Result<(), SplitError>)
    ensures
        r == decimal_limits(mantissa as int, scale),
{
    match rust_decimal::Decimal::try_from_i128_with_scale(mantissa, scale) {
        Ok(_) => Ok(()),
        Err(rust_decimal::Error::ScaleExceedsMaximumPrecision(_)) => Err(SplitError::UnsupportedScale),
        Err(_) => Err(SplitError::ArithmeticOverflow),
    }
}

/// The amount in minimal units: its mantissa, whatever its scale.
pub fn decimal_to_int(amount: ScaledAmount, _scale: u32) -> (r: i128)
    ensures
        r == amount.mantissa,
{
    amount.mantissa
}

} // verus!
