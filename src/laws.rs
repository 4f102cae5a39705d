//! What holds across reading and writing fields.
use vstd::prelude::*;
use crate::codec::{
    all_digits, decodable, decoded, digits, digits_value, encodable, encoded_text,
    field_magnitude, lemma_overpunch_text_parts, lemma_pow10_positive, well_formed_field, zeros,
};
use crate::decimal::{ExactDecimal, MAX_SCALE, pow10, rounded_magnitude};
use vstd::arithmetic::div_mod::{lemma_fundamental_div_mod, lemma_fundamental_div_mod_converse};
use crate::table::{digit_char, digit_value, is_digit_char, lemma_overpunch_bijection};

verus! {

proof fn lemma_pow10_add(a: nat, b: nat)
    ensures
        pow10(a + b) == pow10(a) * pow10(b),
    decreases b,
{
    if b == 0 {
        assert(pow10(0) == 1);
    } else {
        lemma_pow10_add(a, (b - 1) as nat);
        assert((a + b - 1) as nat == a + (b - 1) as nat);
        assert(pow10(a + b) == 10 * pow10((a + b - 1) as nat));
        assert(pow10(a) * pow10(b) == pow10(a) * (10 * pow10((b - 1) as nat)));
        assert(pow10(a) * (10 * pow10((b - 1) as nat)) == 10 * (pow10(a) * pow10(
            (b - 1) as nat,
        ))) by (nonlinear_arith);
    }
}

proof fn lemma_digit_char(d: nat)
    requires
        d < 10,
    ensures
        is_digit_char(digit_char(d)),
        digit_value(digit_char(d)) == d,
{
}

proof fn lemma_digits(n: nat)
    ensures
        all_digits(digits(n)),
        digits_value(digits(n)) == n,
        digits(n).len() >= 1,
    decreases n,
{
    lemma_digit_char(n % 10);
    if n >= 10 {
        lemma_digits(n / 10);
        assert(digits(n).drop_last() =~= digits(n / 10));
        assert(digits(n).last() == digit_char(n % 10));
        assert(digits_value(digits(n)) == digits_value(digits(n / 10)) * 10 + digit_value(
            digit_char(n % 10),
        ));
        assert((n / 10) * 10 + n % 10 == n) by (nonlinear_arith);
        assert forall|i: int| 0 <= i < digits(n).len() implies is_digit_char(
            #[trigger] digits(n)[i],
        ) by {
            if i < digits(n).len() - 1 {
                assert(digits(n)[i] == digits(n / 10)[i]);
            }
        }
    } else {
        assert(digits(n).drop_last() =~= Seq::<char>::empty());
        assert(digits_value(Seq::<char>::empty()) == 0);
        assert(n % 10 == n);
    }
}

proof fn lemma_zeros_value(k: nat)
    ensures
        digits_value(zeros(k)) == 0,
        all_digits(zeros(k)),
    decreases k,
{
    if k > 0 {
        assert(zeros(k).drop_last() =~= zeros((k - 1) as nat));
        lemma_zeros_value((k - 1) as nat);
    }
}

/// Zeros in front of a sequence of digits do not change its value.
proof fn lemma_leading_zeros(k: nat, s: Seq<char>)
    ensures
        digits_value(zeros(k) + s) == digits_value(s),
    decreases s.len(),
{
    if s.len() == 0 {
        assert(zeros(k) + s =~= zeros(k));
        lemma_zeros_value(k);
    } else {
        assert((zeros(k) + s).drop_last() =~= zeros(k) + s.drop_last());
        lemma_leading_zeros(k, s.drop_last());
    }
}

/// The value has no more than `decimals` fractional digits: its scale is at
/// most `decimals`, or the digits beyond are zeros.
pub open spec fn fits_decimals(v: ExactDecimal, decimals: nat) -> bool {
    v.scale <= decimals || v.mantissa as nat % pow10((v.scale - decimals) as nat) == 0
}

/// Rounding a value that fits `decimals` fractional digits loses nothing:
/// the rounded magnitude is the exact one.
proof fn lemma_exact_rounding(v: ExactDecimal, decimals: nat)
    requires
        fits_decimals(v, decimals),
    ensures
        v.scale <= decimals ==> rounded_magnitude(v, decimals) == v.mantissa * pow10(
            (decimals - v.scale) as nat,
        ),
        v.scale > decimals ==> rounded_magnitude(v, decimals) * pow10(
            (v.scale - decimals) as nat,
        ) == v.mantissa,
{
    if v.scale > decimals {
        let k = (v.scale - decimals) as nat;
        let p = pow10(k) as int;
        let half = 5 * pow10((k - 1) as nat);
        let m = v.mantissa as int;
        lemma_pow10_positive((k - 1) as nat);
        assert(p == 10 * pow10((k - 1) as nat));
        lemma_fundamental_div_mod(m, p);
        let q = m / p;
        assert(m == q * p) by (nonlinear_arith)
            requires
                m == p * (m / p) + m % p,
                m % p == 0,
                q == m / p,
        ;
        assert(m + half == q * p + half);
        lemma_fundamental_div_mod_converse(m + half, p, q, half as int);
    }
}

/// Writing a value that has no more than `decimals` fractional digits, then
/// reading the field back with the same count, gives the same number with
/// the same sign, wherever the written field fits the working range and the
/// count of fractional digits fits a decimal.
pub proof fn lemma_round_trip(v: ExactDecimal, decimals: nat)
    requires
        v.wf(),
        fits_decimals(v, decimals),
        decimals <= MAX_SCALE,
        encodable(v, decimals),
    ensures
        decodable(encoded_text(v, decimals), decimals),
        decoded(encoded_text(v, decimals), decimals).same_number(v),
        decoded(encoded_text(v, decimals), decimals).negative == v.negative,
        decoded(encoded_text(v, decimals), decimals).scale == decimals,
{
    let n = rounded_magnitude(v, decimals);
    let t = encoded_text(v, decimals);
    let pad: nat = if digits(n).len() >= decimals + 1 {
        0
    } else {
        (decimals + 1 - digits(n).len()) as nat
    };
    let prefix = if n >= 10 {
        digits(n / 10)
    } else {
        Seq::<char>::empty()
    };
    lemma_overpunch_text_parts(v.negative, n, decimals);
    lemma_overpunch_bijection();
    lemma_zeros_value(pad);
    if n >= 10 {
        lemma_digits(n / 10);
    }
    assert(t.drop_last() =~= zeros(pad) + prefix);
    assert(all_digits(t.drop_last())) by {
        assert forall|i: int| 0 <= i < t.drop_last().len() implies is_digit_char(
            #[trigger] t.drop_last()[i],
        ) by {
            if i < pad {
                assert(t.drop_last()[i] == zeros(pad)[i]);
            } else {
                assert(t.drop_last()[i] == prefix[i - pad]);
            }
        }
    }
    lemma_leading_zeros(pad, prefix);
    assert(digits_value(prefix) == n / 10);
    assert(field_magnitude(t) == n);
    assert(well_formed_field(t));
    let m = v.mantissa as int;
    let s = v.scale as nat;
    lemma_exact_rounding(v, decimals);
    if s <= decimals {
        let k = (decimals - s) as nat;
        lemma_pow10_add(k, s);
        assert(n * pow10(s) == m * pow10(decimals)) by (nonlinear_arith)
            requires
                n == m * pow10(k),
                pow10(decimals) == pow10(k) * pow10(s),
        ;
    } else {
        let k = (s - decimals) as nat;
        lemma_pow10_add(k, decimals);
        assert(n * pow10(s) == m * pow10(decimals)) by (nonlinear_arith)
            requires
                n * pow10(k) == m,
                pow10(s) == pow10(k) * pow10(decimals),
        ;
    }
    let back = decoded(t, decimals);
    assert(back.mantissa == n);
    assert(back.scale == decimals);
    assert(back.negative == v.negative);
    if v.negative {
        assert(-(n as int) * pow10(s) == -m * pow10(decimals)) by (nonlinear_arith)
            requires
                n * pow10(s) == m * pow10(decimals),
        ;
    }
}

/// A field of the one character `{` reads as zero, and one of `}` as a
/// negative zero, equal to zero, whatever count of fractional digits a
/// decimal can hold.
pub proof fn lemma_zero_fields(decimals: nat)
    requires
        decimals <= MAX_SCALE,
    ensures
        decodable(seq!['{'], decimals),
        decoded(seq!['{'], decimals) == (ExactDecimal {
            negative: false,
            mantissa: 0,
            scale: decimals as u32,
        }),
        decodable(seq!['}'], decimals),
        decoded(seq!['}'], decimals) == (ExactDecimal {
            negative: true,
            mantissa: 0,
            scale: decimals as u32,
        }),
        decoded(seq!['}'], decimals).same_number(
            ExactDecimal { negative: false, mantissa: 0, scale: decimals as u32 },
        ),
{
    assert(seq!['{'].drop_last() =~= Seq::<char>::empty());
    assert(seq!['}'].drop_last() =~= Seq::<char>::empty());
    assert(digits_value(Seq::<char>::empty()) == 0);
}

} // verus!
