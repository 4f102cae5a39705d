//! The two tables of the encoding: a terminal character to its sign and
//! digit, and a sign and digit to their overpunch character.
use vstd::prelude::*;

verus! {

/// The character that carries `digit` as the last digit of a number whose
/// sign is negative when `negative` holds.
pub open spec fn overpunch_char(negative: bool, digit: nat) -> char {
    if !negative {
        if digit == 0 {
            '{'
        } else if digit == 1 {
            'A'
        } else if digit == 2 {
            'B'
        } else if digit == 3 {
            'C'
        } else if digit == 4 {
            'D'
        } else if digit == 5 {
            'E'
        } else if digit == 6 {
            'F'
        } else if digit == 7 {
            'G'
        } else if digit == 8 {
            'H'
        } else {
            'I'
        }
    } else {
        if digit == 0 {
            '}'
        } else if digit == 1 {
            'J'
        } else if digit == 2 {
            'K'
        } else if digit == 3 {
            'L'
        } else if digit == 4 {
            'M'
        } else if digit == 5 {
            'N'
        } else if digit == 6 {
            'O'
        } else if digit == 7 {
            'P'
        } else if digit == 8 {
            'Q'
        } else {
            'R'
        }
    }
}

/// One of the twenty characters that carry a sign together with a digit.
pub open spec fn is_overpunch_char(c: char) -> bool {
    exists|negative: bool, digit: nat| digit < 10 && overpunch_char(negative, digit) == c
}

/// A plain decimal digit.
pub open spec fn is_digit_char(c: char) -> bool {
    '0' <= c <= '9'
}

/// The value of a plain decimal digit.
pub open spec fn digit_value(c: char) -> nat {
    (c as u32 - '0' as u32) as nat
}

/// The plain digit character for a value below ten.
pub open spec fn digit_char(d: nat) -> char {
    if d == 0 {
        '0'
    } else if d == 1 {
        '1'
    } else if d == 2 {
        '2'
    } else if d == 3 {
        '3'
    } else if d == 4 {
        '4'
    } else if d == 5 {
        '5'
    } else if d == 6 {
        '6'
    } else if d == 7 {
        '7'
    } else if d == 8 {
        '8'
    } else {
        '9'
    }
}

/// What the last character of a field means: whether the number is negative,
/// and its last digit. A plain digit there stands for a positive number.
pub open spec fn last_char_meaning(c: char) -> Option<(bool, nat)> {
    if is_digit_char(c) {
        Some((false, digit_value(c)))
    } else {
        match c {
            '{' => Some((false, 0nat)),
            'A' => Some((false, 1nat)),
            'B' => Some((false, 2nat)),
            'C' => Some((false, 3nat)),
            'D' => Some((false, 4nat)),
            'E' => Some((false, 5nat)),
            'F' => Some((false, 6nat)),
            'G' => Some((false, 7nat)),
            'H' => Some((false, 8nat)),
            'I' => Some((false, 9nat)),
            '}' => Some((true, 0nat)),
            'J' => Some((true, 1nat)),
            'K' => Some((true, 2nat)),
            'L' => Some((true, 3nat)),
            'M' => Some((true, 4nat)),
            'N' => Some((true, 5nat)),
            'O' => Some((true, 6nat)),
            'P' => Some((true, 7nat)),
            'Q' => Some((true, 8nat)),
            'R' => Some((true, 9nat)),
            _ => None,
        }
    }
}

/// Each sign and digit is carried by its own character, and that character
/// is read back as the same sign and digit; each of the twenty overpunch
/// characters is the character of the sign and digit it is read as.
pub proof fn lemma_overpunch_bijection()
    ensures
        forall|negative: bool, digit: nat|
            digit < 10 ==> #[trigger] last_char_meaning(overpunch_char(negative, digit)) == Some(
                (negative, digit),
            ),
        forall|c: char|
            #[trigger] is_overpunch_char(c) ==> last_char_meaning(c) is Some && overpunch_char(
                last_char_meaning(c)->Some_0.0,
                last_char_meaning(c)->Some_0.1,
            ) == c,
        forall|n1: bool, d1: nat, n2: bool, d2: nat|
            d1 < 10 && d2 < 10 && #[trigger] overpunch_char(n1, d1) == #[trigger] overpunch_char(
                n2,
                d2,
            ) ==> n1 == n2 && d1 == d2,
{
}

/// The overpunch character of a sign and a digit.
pub fn overpunch_char_of(negative: bool, digit: u64) -> (c: char)
    requires
        digit < 10,
    ensures
        c == overpunch_char(negative, digit as nat),
{
    if !negative {
        match digit {
            0 => '{',
            1 => 'A',
            2 => 'B',
            3 => 'C',
            4 => 'D',
            5 => 'E',
            6 => 'F',
            7 => 'G',
            8 => 'H',
            _ => 'I',
        }
    } else {
        match digit {
            0 => '}',
            1 => 'J',
            2 => 'K',
            3 => 'L',
            4 => 'M',
            5 => 'N',
            6 => 'O',
            7 => 'P',
            8 => 'Q',
            _ => 'R',
        }
    }
}

/// The plain digit character of a value below ten.
pub fn digit_char_of(digit: u64) -> (c: char)
    requires
        digit < 10,
    ensures
        c == digit_char(digit as nat),
        is_digit_char(c),
        digit_value(c) == digit,
{
    match digit {
        0 => '0',
        1 => '1',
        2 => '2',
        3 => '3',
        4 => '4',
        5 => '5',
        6 => '6',
        7 => '7',
        8 => '8',
        _ => '9',
    }
}

/// The meaning of the last byte of a field, as `last_char_meaning` gives it
/// for the ASCII character of that byte.
pub fn last_byte_meaning(b: u8) -> (r: Option<(bool, u8)>)
    requires
        b < 128,
    ensures
        match last_char_meaning(b as char) {
            Some((negative, digit)) => r == Some((negative, digit as u8)),
            None => r is None,
        },
{
    // '0' ..= '9'
    if 48 <= b && b <= 57 {
        return Some((false, b - 48));
    }
    match b {
        123 => Some((false, 0)), // '{'
        65 => Some((false, 1)), // 'A'
        66 => Some((false, 2)), // 'B'
        67 => Some((false, 3)), // 'C'
        68 => Some((false, 4)), // 'D'
        69 => Some((false, 5)), // 'E'
        70 => Some((false, 6)), // 'F'
        71 => Some((false, 7)), // 'G'
        72 => Some((false, 8)), // 'H'
        73 => Some((false, 9)), // 'I'
        125 => Some((true, 0)), // '}'
        74 => Some((true, 1)), // 'J'
        75 => Some((true, 2)), // 'K'
        76 => Some((true, 3)), // 'L'
        77 => Some((true, 4)), // 'M'
        78 => Some((true, 5)), // 'N'
        79 => Some((true, 6)), // 'O'
        80 => Some((true, 7)), // 'P'
        81 => Some((true, 8)), // 'Q'
        82 => Some((true, 9)), // 'R'
        _ => None,
    }
}

} // verus!
