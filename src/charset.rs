//! The 32-character alphabet of the data part.
use crate::text::{is_upper, lower_char, to_lower, to_upper};
use vstd::prelude::*;

verus! {

/// The character that stands for the 5-bit value `q` (taken below 32):
/// "qpzry9x8gf2tvdw0s3jn54khce6mua7l", indexed by value.
pub open spec fn charset_char(q: u8) -> char {
    match q {
        0u8 => 'q',
        1u8 => 'p',
        2u8 => 'z',
        3u8 => 'r',
        4u8 => 'y',
        5u8 => '9',
        6u8 => 'x',
        7u8 => '8',
        8u8 => 'g',
        9u8 => 'f',
        10u8 => '2',
        11u8 => 't',
        12u8 => 'v',
        13u8 => 'd',
        14u8 => 'w',
        15u8 => '0',
        16u8 => 's',
        17u8 => '3',
        18u8 => 'j',
        19u8 => 'n',
        20u8 => '5',
        21u8 => '4',
        22u8 => 'k',
        23u8 => 'h',
        24u8 => 'c',
        25u8 => 'e',
        26u8 => '6',
        27u8 => 'm',
        28u8 => 'u',
        29u8 => 'a',
        30u8 => '7',
        _ => 'l',
    }
}

/// The value of a data character, looked up without regard to case.
pub open spec fn char_value(c: char) -> Option<u8> {
    match to_lower(c) {
        'q' => Some(0u8),
        'p' => Some(1u8),
        'z' => Some(2u8),
        'r' => Some(3u8),
        'y' => Some(4u8),
        '9' => Some(5u8),
        'x' => Some(6u8),
        '8' => Some(7u8),
        'g' => Some(8u8),
        'f' => Some(9u8),
        '2' => Some(10u8),
        't' => Some(11u8),
        'v' => Some(12u8),
        'd' => Some(13u8),
        'w' => Some(14u8),
        '0' => Some(15u8),
        's' => Some(16u8),
        '3' => Some(17u8),
        'j' => Some(18u8),
        'n' => Some(19u8),
        '5' => Some(20u8),
        '4' => Some(21u8),
        'k' => Some(22u8),
        'h' => Some(23u8),
        'c' => Some(24u8),
        'e' => Some(25u8),
        '6' => Some(26u8),
        'm' => Some(27u8),
        'u' => Some(28u8),
        'a' => Some(29u8),
        '7' => Some(30u8),
        'l' => Some(31u8),
        _ => None,
    }
}

pub fn charset_encode(q: u8) -> (r: char)
    requires
        q < 32,
    ensures
        r == charset_char(q),
{
    match q {
        0u8 => 'q',
        1u8 => 'p',
        2u8 => 'z',
        3u8 => 'r',
        4u8 => 'y',
        5u8 => '9',
        6u8 => 'x',
        7u8 => '8',
        8u8 => 'g',
        9u8 => 'f',
        10u8 => '2',
        11u8 => 't',
        12u8 => 'v',
        13u8 => 'd',
        14u8 => 'w',
        15u8 => '0',
        16u8 => 's',
        17u8 => '3',
        18u8 => 'j',
        19u8 => 'n',
        20u8 => '5',
        21u8 => '4',
        22u8 => 'k',
        23u8 => 'h',
        24u8 => 'c',
        25u8 => 'e',
        26u8 => '6',
        27u8 => 'm',
        28u8 => 'u',
        29u8 => 'a',
        30u8 => '7',
        _ => 'l',
    }
}

pub fn charset_decode(c: char) -> (r: Option<u8>)
    ensures
        r == char_value(c),
        r matches Some(q) ==> q < 32,
{
    match lower_char(c) {
        'q' => Some(0u8),
        'p' => Some(1u8),
        'z' => Some(2u8),
        'r' => Some(3u8),
        'y' => Some(4u8),
        '9' => Some(5u8),
        'x' => Some(6u8),
        '8' => Some(7u8),
        'g' => Some(8u8),
        'f' => Some(9u8),
        '2' => Some(10u8),
        't' => Some(11u8),
        'v' => Some(12u8),
        'd' => Some(13u8),
        'w' => Some(14u8),
        '0' => Some(15u8),
        's' => Some(16u8),
        '3' => Some(17u8),
        'j' => Some(18u8),
        'n' => Some(19u8),
        '5' => Some(20u8),
        '4' => Some(21u8),
        'k' => Some(22u8),
        'h' => Some(23u8),
        'c' => Some(24u8),
        'e' => Some(25u8),
        '6' => Some(26u8),
        'm' => Some(27u8),
        'u' => Some(28u8),
        'a' => Some(29u8),
        '7' => Some(30u8),
        'l' => Some(31u8),
        _ => None,
    }
}

/// Each value's character reads back as that value, in either case; it is
/// neither the separator nor an uppercase letter.
pub proof fn lemma_charset_inverse(q: u8)
    requires
        q < 32,
    ensures
        char_value(charset_char(q)) == Some(q),
        char_value(to_upper(charset_char(q))) == Some(q),
        to_lower(charset_char(q)) == charset_char(q),
        charset_char(q) != '1',
        to_upper(charset_char(q)) != '1',
        !is_upper(charset_char(q)),
{
}

} // verus!
