//! The 64-symbol alphabet: the ten digits, the lowercase letters, the
//! uppercase letters, then `+` and `-`.

use vstd::prelude::*;

verus! {

/// The byte that follows every token in an output file: a backslash.
pub const SEPARATOR: u8 = 92;

/// The symbols in the order of the digit values they stand for.
pub const BASE64_CHARS: [u8; 64] = [
    48, 49, 50, 51, 52, 53, 54, 55, 56, 57, 97, 98, 99, 100, 101, 102,
    103, 104, 105, 106, 107, 108, 109, 110, 111, 112, 113, 114, 115, 116, 117, 118,
    119, 120, 121, 122, 65, 66, 67, 68, 69, 70, 71, 72, 73, 74, 75, 76,
    77, 78, 79, 80, 81, 82, 83, 84, 85, 86, 87, 88, 89, 90, 43, 45,
];

/// The symbol that stands for the digit value `v`, for `0 <= v < 64`:
/// `'0'..'9'` for 0 to 9, `'a'..'z'` for 10 to 35, `'A'..'Z'` for 36 to 61,
/// `'+'` for 62 and `'-'` for 63.
pub open spec fn symbol(v: int) -> u8 {
    if v < 10 {
        (48 + v) as u8
    } else if v < 36 {
        (97 + (v - 10)) as u8
    } else if v < 62 {
        (65 + (v - 36)) as u8
    } else if v == 62 {
        43u8
    } else {
        45u8
    }
}

/// Whether `c` is one of the 64 symbols.
pub open spec fn is_symbol(c: u8) -> bool {
    ||| 48 <= c <= 57
    ||| 97 <= c <= 122
    ||| 65 <= c <= 90
    ||| c == 43
    ||| c == 45
}

/// The digit value that the symbol `c` stands for.
pub open spec fn digit_value(c: u8) -> int {
    if 48 <= c <= 57 {
        c - 48
    } else if 97 <= c <= 122 {
        c - 97 + 10
    } else if 65 <= c <= 90 {
        c - 65 + 36
    } else if c == 43 {
        62
    } else {
        63
    }
}

/// `symbol` and `digit_value` are inverse to each other, between the digit
/// values `0..64` and the 64 symbols. Every symbol is an ASCII character, and
/// the separator is none of them.
pub proof fn lemma_symbol_bijection()
    ensures
        forall|v: int|
            0 <= v < 64 ==> is_symbol(#[trigger] symbol(v)) && digit_value(symbol(v)) == v,
        forall|c: u8|
            is_symbol(c) ==> 0 <= #[trigger] digit_value(c) < 64 && symbol(digit_value(c)) == c,
        forall|c: u8| #[trigger] is_symbol(c) ==> c < 128,
        !is_symbol(SEPARATOR),
{
}

/// The symbol for a digit value, looked up in the table.
pub fn symbol_of(v: u8) -> (c: u8)
    requires
        v < 64,
    ensures
        c == symbol(v as int),
{
    BASE64_CHARS[v as usize]
}

/// The digit value of a byte, or `None` where the byte is no symbol.
pub fn value_of(c: u8) -> (r: Option<u8>)
    ensures
        is_symbol(c) ==> r == Some(digit_value(c) as u8),
        !is_symbol(c) ==> r.is_none(),
{
    if 48 <= c && c <= 57 {
        Some(c - 48)
    } else if 97 <= c && c <= 122 {
        Some(c - 97 + 10)
    } else if 65 <= c && c <= 90 {
        Some(c - 65 + 36)
    } else if c == 43 {
        Some(62)
    } else if c == 45 {
        Some(63)
    } else {
        None
    }
}

} // verus!
