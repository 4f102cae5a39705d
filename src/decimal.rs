//! The exact decimal value that fields are read into and written from: a
//! sign, an unsigned integer mantissa and a scale (its count of fractional
//! digits), with the range of `rust_decimal::Decimal`.
use vstd::prelude::*;

verus! {

/// The largest mantissa a decimal can hold: `2^96 - 1`.
pub const MAX_MANTISSA: u128 = 79228162514264337593543950335;

/// The largest scale a decimal can hold.
pub const MAX_SCALE: u32 = 28;

/// Ten to the power `n`.
pub open spec fn pow10(n: nat) -> nat
    decreases n,
{
    if n == 0 {
        1
    } else {
        10 * pow10((n - 1) as nat)
    }
}

/// A signed decimal number `(-1)^negative * mantissa / 10^scale`. The sign
/// is kept apart from the mantissa, so a zero may be negative.
#[derive(Clone, Copy, Debug)]
pub struct ExactDecimal {
    pub negative: bool,
    pub mantissa: u128,
    pub scale: u32,
}

impl ExactDecimal {
    /// The value lies in the range of the decimal type.
    pub open spec fn wf(&self) -> bool {
        self.mantissa <= MAX_MANTISSA && self.scale <= MAX_SCALE
    }

    /// The mantissa with its sign.
    pub open spec fn signed_mantissa(&self) -> int {
        if self.negative {
            -(self.mantissa as int)
        } else {
            self.mantissa as int
        }
    }

    /// The two numbers are equal, whatever their scales; a negative zero
    /// equals zero.
    pub open spec fn same_number(&self, other: ExactDecimal) -> bool {
        self.signed_mantissa() * pow10(other.scale as nat) == other.signed_mantissa() * pow10(
            self.scale as nat,
        )
    }

    /// Whether the value lies in the range of the decimal type.
    pub fn is_valid(&self) -> (r: bool)
        ensures
            r == self.wf(),
    {
        self.mantissa <= MAX_MANTISSA && self.scale <= MAX_SCALE
    }
}

/// The magnitude of `v` rounded half away from zero to `decimals` fractional
/// digits, counted in units of `10^-decimals`.
pub open spec fn rounded_magnitude(v: ExactDecimal, decimals: nat) -> nat {
    if v.scale <= decimals {
        v.mantissa as nat * pow10((decimals - v.scale) as nat)
    } else {
        let k = (v.scale - decimals) as nat;
        ((v.mantissa as int + 5 * pow10((k - 1) as nat)) / (pow10(k) as int)) as nat
    }
}

/// The text that `rust_decimal` displays for a decimal number.
pub uninterp spec fn decimal_text(negative: bool, mantissa: nat, scale: nat) -> Seq<char>;

/// Relies on `rust_decimal::Decimal::rescale`: lowering the scale of a
/// non-negative decimal divides its mantissa by the power of ten and rounds
/// half away from zero (the most significant dropped digit decides).
#[verifier::external_body]
pub(crate) fn rescale_mantissa(mantissa: u128, scale: u32, new_scale: u32) -> (r: u128)
    requires
        mantissa <= MAX_MANTISSA,
        new_scale < scale <= MAX_SCALE,
    ensures
        r as int == (mantissa as int + 5 * pow10((scale - new_scale - 1) as nat)) / (pow10(
            (scale - new_scale) as nat,
        ) as int),
{
    let mut d = rust_decimal::Decimal::from_i128_with_scale(mantissa as i128, scale);
    d.rescale(new_scale);
    d.mantissa() as u128
}

/// Relies on the `Display` impl of `rust_decimal::Decimal`: the text of the
/// decimal with these parts.
#[verifier::external_body]
pub(crate) fn decimal_to_text(negative: bool, mantissa: u128, scale: u32) -> (r: String)
    requires
        mantissa <= MAX_MANTISSA,
        scale <= MAX_SCALE,
    ensures
        r@ == decimal_text(negative, mantissa as nat, scale as nat),
{
    let mut d = rust_decimal::Decimal::from_i128_with_scale(mantissa as i128, scale);
    d.set_sign_negative(negative);
    d.to_string()
}

} // verus!
