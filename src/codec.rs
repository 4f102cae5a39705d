//! Reading a signed-overpunch field into an exact decimal, and writing an
//! exact decimal as one.
use vstd::prelude::*;
use vstd::string::is_ascii_spec_bytes;
use vstd::utf8::is_ascii_chars;
use crate::decimal::{
    ExactDecimal, MAX_MANTISSA, MAX_SCALE, pow10, rounded_magnitude, decimal_text,
    decimal_to_text, rescale_mantissa,
};
use crate::picture::{decimals_after_marker, decimal_places_from_picture};
use crate::table::{
    is_digit_char, digit_value, digit_char, overpunch_char, last_char_meaning, digit_char_of,
    overpunch_char_of, last_byte_meaning,
};

verus! {

/// Why a field could not be read or written.
#[derive(Debug, PartialEq, Eq)]
pub enum OverpunchError {
    /// The field to read is empty.
    EmptyField,
    /// The field to read is not a signed-overpunch number that a decimal
    /// can hold; it carries the field.
    ParseError(String),
    /// The value to write does not fit the working integer range once
    /// scaled; it carries the value's text.
    OverflowError(String),
}

/// The largest magnitude, counted in units of the last digit, that a field
/// is written from: the largest `i64`.
pub const MAX_SCALED: u64 = 9223372036854775807;

// ---------------------------------------------------------------------------
// Reading: what a field means

/// The value of a sequence of plain digits, most significant first; zero for
/// an empty one.
pub open spec fn digits_value(s: Seq<char>) -> nat
    decreases s.len(),
{
    if s.len() == 0 {
        0
    } else {
        digits_value(s.drop_last()) * 10 + digit_value(s.last())
    }
}

/// Every character is a plain digit.
pub open spec fn all_digits(s: Seq<char>) -> bool {
    forall|i: int| 0 <= i < s.len() ==> is_digit_char(#[trigger] s[i])
}

/// A field: at least one character, plain digits but for the last one, which
/// is a plain digit or an overpunch character.
pub open spec fn well_formed_field(raw: Seq<char>) -> bool {
    &&& raw.len() > 0
    &&& all_digits(raw.drop_last())
    &&& last_char_meaning(raw.last()) is Some
}

/// Whether a well-formed field is negative, as its last character says.
pub open spec fn field_negative(raw: Seq<char>) -> bool {
    last_char_meaning(raw.last())->Some_0.0
}

/// The digits of a well-formed field read as one integer, the last digit
/// being the one its last character carries.
pub open spec fn field_magnitude(raw: Seq<char>) -> nat {
    digits_value(raw.drop_last()) * 10 + last_char_meaning(raw.last())->Some_0.1
}

/// The field is read as a decimal with `decimals` fractional digits: it is
/// well formed, and its magnitude and `decimals` are in a decimal's range.
pub open spec fn decodable(raw: Seq<char>, decimals: nat) -> bool {
    &&& well_formed_field(raw)
    &&& field_magnitude(raw) <= MAX_MANTISSA
    &&& decimals <= MAX_SCALE
}

/// The decimal that a decodable field stands for: its digits, with the
/// point `decimals` places from the right, and its sign.
pub open spec fn decoded(raw: Seq<char>, decimals: nat) -> ExactDecimal {
    ExactDecimal {
        negative: field_negative(raw),
        mantissa: field_magnitude(raw) as u128,
        scale: decimals as u32,
    }
}

// ---------------------------------------------------------------------------
// Writing: what a value is written as

/// The decimal digits of `n`, most significant first, without leading zeros
/// (`"0"` for zero).
pub open spec fn digits(n: nat) -> Seq<char>
    decreases n,
{
    if n < 10 {
        seq![digit_char(n)]
    } else {
        digits(n / 10).push(digit_char(n % 10))
    }
}

/// `k` zero digits.
pub open spec fn zeros(k: nat) -> Seq<char> {
    Seq::new(k, |_i: int| '0')
}

/// `s` with zeros in front up to `width` characters.
pub open spec fn left_padded(s: Seq<char>, width: nat) -> Seq<char> {
    if s.len() >= width {
        s
    } else {
        zeros((width - s.len()) as nat) + s
    }
}

/// The field for the magnitude `n`, counted in units of the last digit: its
/// digits padded with zeros to at least `decimals + 1` characters, the last
/// one replaced by the overpunch character of the sign and that digit.
pub open spec fn overpunch_text(negative: bool, n: nat, decimals: nat) -> Seq<char> {
    let p = left_padded(digits(n), decimals + 1);
    p.update(p.len() - 1, overpunch_char(negative, n % 10))
}

/// The value can be written with `decimals` fractional digits: its rounded
/// magnitude fits the working integer range.
pub open spec fn encodable(v: ExactDecimal, decimals: nat) -> bool {
    rounded_magnitude(v, decimals) <= MAX_SCALED
}

/// The field that a value is written as with `decimals` fractional digits.
pub open spec fn encoded_text(v: ExactDecimal, decimals: nat) -> Seq<char> {
    overpunch_text(v.negative, rounded_magnitude(v, decimals), decimals)
}


// ---------------------------------------------------------------------------
// Reading

/// A prefix of a sequence of digits is worth no more than the whole.
proof fn lemma_prefix_value_le(s: Seq<char>, j: int)
    requires
        0 <= j <= s.len(),
    ensures
        digits_value(s.subrange(0, j)) <= digits_value(s),
    decreases s.len() - j,
{
    if j < s.len() {
        lemma_prefix_value_le(s, j + 1);
        let t = s.subrange(0, j + 1);
        assert(t.drop_last() =~= s.subrange(0, j));
    } else {
        assert(s.subrange(0, j) =~= s);
    }
}

/// A field that holds a character outside ASCII is not well formed.
proof fn lemma_non_ascii_not_well_formed(raw: Seq<char>, i: int)
    requires
        0 <= i < raw.len(),
        !('\0' <= raw[i] <= '\u{7f}'),
    ensures
        !well_formed_field(raw),
{
    if i < raw.len() - 1 {
        assert(raw.drop_last()[i] == raw[i]);
    }
}

/// Reads a signed-overpunch field as a decimal with `decimals` fractional
/// digits: the digits of the field, the last one carried by its last
/// character, with the point `decimals` places from the right and the sign
/// that the last character carries. A field shorter than `decimals + 1`
/// digits is read with zeros in front.
pub fn extract(raw: &str, decimals: usize) -> (r: Result<ExactDecimal, OverpunchError>)
    ensures
        match r {
            Ok(v) => decodable(raw@, decimals as nat) && v == decoded(raw@, decimals as nat),
            Err(OverpunchError::EmptyField) => raw@.len() == 0,
            Err(OverpunchError::ParseError(t)) => raw@.len() > 0 && !decodable(
                raw@,
                decimals as nat,
            ) && t@ == raw@,
            Err(OverpunchError::OverflowError(_)) => false,
        },
        raw@.len() == 0 <==> r matches Err(OverpunchError::EmptyField),
{
    if raw.is_empty() {
        return Err(OverpunchError::EmptyField);
    }
    if !raw.is_ascii() {
        proof {
            assert(!is_ascii_chars(raw@));
            let i = choose|i: int| 0 <= i < raw@.len() && !('\0' <= #[trigger] raw@[i] <= '\u{7f}');
            lemma_non_ascii_not_well_formed(raw@, i);
        }
        return Err(OverpunchError::ParseError(raw.to_owned()));
    }
    let bytes = raw.as_bytes();
    proof {
        is_ascii_spec_bytes(raw);
    }
    let len = bytes.len();
    let ghost s = raw@;
    let mut val: u128 = 0;
    let mut i: usize = 0;
    while i < len - 1
        invariant
            len == s.len(),
            len > 0,
            s == raw@,
            bytes@ == Seq::new(s.len(), |k: int| s[k] as u8),
            is_ascii_chars(s),
            i <= len - 1,
            forall|k: int| 0 <= k < i ==> is_digit_char(#[trigger] s[k]),
            val == digits_value(s.subrange(0, i as int)),
            val <= MAX_MANTISSA,
        decreases len - 1 - i,
    {
        let b = bytes[i];
        assert(s[i as int] <= '\u{7f}');
        if !(48 <= b && b <= 57) {
            proof {
                assert(s.drop_last()[i as int] == s[i as int]);
            }
            return Err(OverpunchError::ParseError(raw.to_owned()));
        }
        let d = (b - 48) as u128;
        proof {
            assert(s.subrange(0, i + 1).drop_last() =~= s.subrange(0, i as int));
            assert(digit_value(s[i as int]) == d);
        }
        if val > (MAX_MANTISSA - d) / 10 {
            proof {
                if well_formed_field(s) {
                    assert(s.drop_last().subrange(0, i + 1) =~= s.subrange(0, i + 1));
                    lemma_prefix_value_le(s.drop_last(), i + 1);
                }
            }
            return Err(OverpunchError::ParseError(raw.to_owned()));
        }
        val = val * 10 + d;
        i = i + 1;
    }
    proof {
        assert(s.drop_last() =~= s.subrange(0, len - 1));
        assert(s.last() <= '\u{7f}');
    }
    match last_byte_meaning(bytes[len - 1]) {
        None => Err(OverpunchError::ParseError(raw.to_owned())),
        Some((negative, d)) => {
            if val > (MAX_MANTISSA - d as u128) / 10 || decimals > MAX_SCALE as usize {
                return Err(OverpunchError::ParseError(raw.to_owned()));
            }
            Ok(ExactDecimal { negative, mantissa: val * 10 + d as u128, scale: decimals as u32 })
        },
    }
}

// ---------------------------------------------------------------------------
// Writing

pub(crate) proof fn lemma_pow10_positive(n: nat)
    ensures
        pow10(n) >= 1,
    decreases n,
{
    if n > 0 {
        lemma_pow10_positive((n - 1) as nat);
    }
}

proof fn lemma_pow10_monotone(i: nat, j: nat)
    requires
        i <= j,
    ensures
        pow10(i) <= pow10(j),
    decreases j,
{
    if i < j {
        lemma_pow10_monotone(i, (j - 1) as nat);
        lemma_pow10_positive((j - 1) as nat);
    }
}

/// Relies on `String::push`: appends one character.
#[verifier::external_body]
fn push_char(s: &mut String, c: char)
    ensures
        final(s)@ == old(s)@.push(c),
{
    s.push(c);
}

/// The magnitude of `value` rounded to `decimals` fractional digits and
/// counted in units of the last of them, where it fits the working range.
fn scaled_magnitude(value: ExactDecimal, decimals: usize) -> (r: Option<u64>)
    requires
        value.wf(),
    ensures
        match r {
            Some(n) => encodable(value, decimals as nat) && n == rounded_magnitude(
                value,
                decimals as nat,
            ),
            None => !encodable(value, decimals as nat),
        },
{
    if value.scale as usize > decimals {
        let m = rescale_mantissa(value.mantissa, value.scale, decimals as u32);
        if m <= MAX_SCALED as u128 {
            Some(m as u64)
        } else {
            None
        }
    } else {
        let k = decimals - value.scale as usize;
        let ghost m = value.mantissa as nat;
        if value.mantissa == 0 {
            return Some(0);
        }
        proof {
            lemma_pow10_positive(k as nat);
            assert(m * pow10(k as nat) >= m) by (nonlinear_arith)
                requires
                    pow10(k as nat) >= 1,
            ;
        }
        if value.mantissa > MAX_SCALED as u128 {
            return None;
        }
        let mut n: u128 = value.mantissa;
        let mut i: usize = 0;
        assert(pow10(0) == 1);
        while i < k
            invariant
                i <= k,
                k == decimals - value.scale,
                value.scale <= decimals,
                m == value.mantissa,
                m > 0,
                n == m * pow10(i as nat),
                n <= MAX_SCALED,
            decreases k - i,
        {
            if n > MAX_SCALED as u128 / 10 {
                proof {
                    lemma_pow10_monotone((i + 1) as nat, k as nat);
                    assert(m * pow10((i + 1) as nat) <= m * pow10(k as nat)) by (nonlinear_arith)
                        requires
                            pow10((i + 1) as nat) <= pow10(k as nat),
                    ;
                    assert(pow10((i + 1) as nat) == 10 * pow10(i as nat));
                    assert(m * pow10((i + 1) as nat) == 10 * n) by (nonlinear_arith)
                        requires
                            pow10((i + 1) as nat) == 10 * pow10(i as nat),
                            n == m * pow10(i as nat),
                    ;
                }
                return None;
            }
            proof {
                assert(pow10((i + 1) as nat) == 10 * pow10(i as nat));
                assert(m * pow10((i + 1) as nat) == 10 * n) by (nonlinear_arith)
                    requires
                        pow10((i + 1) as nat) == 10 * pow10(i as nat),
                        n == m * pow10(i as nat),
                ;
            }
            n = n * 10;
            i = i + 1;
        }
        Some(n as u64)
    }
}

/// The number of decimal digits of `n`.
fn digit_count(n: u64) -> (r: u64)
    ensures
        r == digits(n as nat).len(),
        r <= n + 1,
    decreases n,
{
    if n < 10 {
        1
    } else {
        digit_count(n / 10) + 1
    }
}

/// Appends the decimal digits of `n`.
fn push_digits(s: &mut String, n: u64)
    ensures
        final(s)@ == old(s)@ + digits(n as nat),
    decreases n,
{
    if n >= 10 {
        push_digits(s, n / 10);
    }
    push_char(s, digit_char_of(n % 10));
    proof {
        assert(final(s)@ =~= old(s)@ + digits(n as nat));
    }
}

/// The field is the padding, the digits of `n` but the last, and the
/// overpunch character.
pub(crate) proof fn lemma_overpunch_text_parts(negative: bool, n: nat, decimals: nat)
    ensures
        overpunch_text(negative, n, decimals) =~= zeros(
            if digits(n).len() >= decimals + 1 {
                0
            } else {
                (decimals + 1 - digits(n).len()) as nat
            },
        ) + (if n >= 10 {
            digits(n / 10)
        } else {
            Seq::empty()
        }).push(overpunch_char(negative, n % 10)),
{
    let prefix = if n >= 10 {
        digits(n / 10)
    } else {
        Seq::empty()
    };
    assert(digits(n) =~= prefix.push(digit_char(n % 10)));
}

/// The field for the magnitude `n` with `decimals` fractional digits.
fn render(negative: bool, n: u64, decimals: usize) -> (s: String)
    ensures
        s@ == overpunch_text(negative, n as nat, decimals as nat),
{
    let count = digit_count(n);
    let mut s = String::new();
    let mut i: u128 = count as u128;
    while i <= decimals as u128
        invariant
            count <= i,
            i <= decimals + 1 || i == count,
            s@ == zeros((i - count) as nat),
        decreases decimals + 1 - i,
    {
        push_char(&mut s, '0');
        proof {
            assert(s@ =~= zeros((i + 1 - count) as nat));
        }
        i = i + 1;
    }
    if n >= 10 {
        push_digits(&mut s, n / 10);
    }
    push_char(&mut s, overpunch_char_of(negative, n % 10));
    proof {
        lemma_overpunch_text_parts(negative, n as nat, decimals as nat);
        if count as int >= decimals + 1 {
            assert(i == count);
        }
    }
    s
}

/// Writes `value` as a signed-overpunch field with `decimals` fractional
/// digits: its magnitude is rounded half away from zero to `decimals`
/// places and scaled to an integer, whose digits are padded with zeros to at
/// least `decimals + 1` characters; the last digit is replaced by the
/// overpunch character of that digit and of the value's sign (a negative
/// zero keeps its sign). Fails where the scaled magnitude exceeds the
/// largest `i64`.
pub fn format(value: ExactDecimal, decimals: usize) -> (r: Result<String, OverpunchError>)
    requires
        value.wf(),
    ensures
        match r {
            Ok(s) => encodable(value, decimals as nat) && s@ == encoded_text(
                value,
                decimals as nat,
            ),
            Err(OverpunchError::OverflowError(t)) => !encodable(value, decimals as nat) && t@
                == decimal_text(value.negative, value.mantissa as nat, value.scale as nat),
            Err(_) => false,
        },
{
    match scaled_magnitude(value, decimals) {
        Some(n) => Ok(render(value.negative, n, decimals)),
        None => Err(
            OverpunchError::OverflowError(
                decimal_to_text(value.negative, value.mantissa, value.scale),
            ),
        ),
    }
}

// ---------------------------------------------------------------------------
// Picture-driven entry points

/// Reads a field with the fractional digits that the picture format
/// implies; `None` wherever `extract` fails.
pub fn convert_from_signed_format(value: &str, field_format: &str) -> (r: Option<ExactDecimal>)
    ensures
        match r {
            Some(v) => decodable(value@, decimals_after_marker(field_format@))
                && v == decoded(value@, decimals_after_marker(field_format@)),
            None => !decodable(value@, decimals_after_marker(field_format@)),
        },
        value@.len() == 0 ==> r is None,
{
    let decimals = decimal_places_from_picture(field_format);
    match extract(value, decimals) {
        Ok(v) => Some(v),
        Err(_) => None,
    }
}

/// Writes a value as a field with the fractional digits that the picture
/// format implies; `None` wherever `format` fails.
pub fn convert_to_signed_format(value: ExactDecimal, field_format: &str) -> (r: Option<String>)
    requires
        value.wf(),
    ensures
        match r {
            Some(s) => encodable(value, decimals_after_marker(field_format@)) && s@
                == encoded_text(value, decimals_after_marker(field_format@)),
            None => !encodable(value, decimals_after_marker(field_format@)),
        },
{
    let decimals = decimal_places_from_picture(field_format);
    match format(value, decimals) {
        Ok(s) => Some(s),
        Err(_) => None,
    }
}

} // verus!
