//! The human-readable part: the prefix before the separator.
use crate::text::{
    chars_of, has_lower, has_lower_exec, has_upper, has_upper_exec, lower_seq, lower_vec,
    string_of,
};
use vstd::prelude::*;

verus! {

/// The longest human-readable part accepted.
pub const MAX_HRP_LEN: usize = 83;

/// Why a string is not a valid human-readable part.
#[derive(Debug, Clone, Copy, PartialEq, Eq, Structural)]
pub enum HrpError {
    /// The string is empty.
    Empty,
    /// The string is longer than 83 characters.
    TooLong,
    /// A character lies outside ASCII 33 to 126.
    InvalidChar,
    /// The string holds both uppercase and lowercase letters.
    MixedCase,
}

/// A printable, non-space ASCII character (codes 33 to 126).
pub open spec fn is_hrp_char(c: char) -> bool {
    '!' <= c && c <= '~'
}

/// The first rule that `s` breaks, in the order: empty, too long, invalid
/// character, mixed case.
pub open spec fn hrp_error(s: Seq<char>) -> Option<HrpError> {
    if s.len() == 0 {
        Some(HrpError::Empty)
    } else if s.len() > MAX_HRP_LEN {
        Some(HrpError::TooLong)
    } else if exists|i: int| 0 <= i < s.len() && !is_hrp_char(#[trigger] s[i]) {
        Some(HrpError::InvalidChar)
    } else if has_upper(s) && has_lower(s) {
        Some(HrpError::MixedCase)
    } else {
        None
    }
}

pub open spec fn valid_hrp(s: Seq<char>) -> bool {
    hrp_error(s) is None
}

/// A validated human-readable part, kept in the case it was given in.
pub struct Hrp {
    chars: Vec<char>,
}

impl View for Hrp {
    type V = Seq<char>;

    closed spec fn view(&self) -> Seq<char> {
        self.chars@
    }
}

/// Checks the rules of a human-readable part on its characters.
pub fn check_hrp(s: &[char]) -> (r: Option<HrpError>)
    ensures
        r == hrp_error(s@),
{
    if s.len() == 0 {
        return Some(HrpError::Empty);
    }
    if s.len() > MAX_HRP_LEN {
        return Some(HrpError::TooLong);
    }
    let mut i: usize = 0;
    while i < s.len()
        invariant
            i <= s@.len(),
            0 < s@.len() <= MAX_HRP_LEN,
            forall|j: int| 0 <= j < i ==> is_hrp_char(#[trigger] s@[j]),
        decreases s@.len() - i,
    {
        let c = s[i];
        if c < '!' || c > '~' {
            assert(!is_hrp_char(s@[i as int]));
            return Some(HrpError::InvalidChar);
        }
        i = i + 1;
    }
    if has_upper_exec(s) && has_lower_exec(s) {
        return Some(HrpError::MixedCase);
    }
    None
}

impl Hrp {
    #[verifier::type_invariant]
    spec fn inv(self) -> bool {
        valid_hrp(self.chars@)
    }

    /// Validates `s` as a human-readable part.
    pub fn parse(s: &str) -> (r: Result<Hrp, HrpError>)
        ensures
            match r {
                Ok(h) => h@ == s@ && valid_hrp(s@),
                Err(e) => hrp_error(s@) == Some(e),
            },
    {
        let chars = chars_of(s);
        Hrp::from_chars(chars)
    }

    /// Validates a sequence of characters as a human-readable part.
    pub fn from_chars(chars: Vec<char>) -> (r: Result<Hrp, HrpError>)
        ensures
            match r {
                Ok(h) => h@ == chars@ && valid_hrp(chars@),
                Err(e) => hrp_error(chars@) == Some(e),
            },
    {
        match check_hrp(&chars) {
            Some(e) => Err(e),
            None => Ok(Hrp { chars }),
        }
    }

    pub fn len(&self) -> (r: usize)
        ensures
            r == self@.len(),
            1 <= r <= MAX_HRP_LEN,
    {
        proof {
            use_type_invariant(self);
        }
        self.chars.len()
    }

    /// The characters, in the case they were given in.
    pub fn chars(&self) -> (r: &Vec<char>)
        ensures
            r@ == self@,
            valid_hrp(self@),
    {
        proof {
            use_type_invariant(self);
        }
        &self.chars
    }

    /// The human-readable part as given.
    pub fn as_string(&self) -> (r: String)
        ensures
            r@ == self@,
    {
        string_of(&self.chars)
    }

    /// The human-readable part in lowercase.
    pub fn to_lowercase(&self) -> (r: String)
        ensures
            r@ == lower_seq(self@),
    {
        let l = lower_vec(&self.chars);
        string_of(&l)
    }
}

} // verus!
