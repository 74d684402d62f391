//! Encoding bytes under a human-readable part, and decoding them back.
use crate::charset::{char_value, charset_char, charset_decode, charset_encode};
use crate::checksum::{
    checksum_groups, lemma_six_groups_bound, polymod, polymod_run, six_groups, variant_const,
    Variant, BECH32M_CONST, BECH32_CONST,
};
use crate::hrp::{check_hrp, hrp_error, is_hrp_char, Hrp, HrpError, MAX_HRP_LEN};
use crate::regroup::{
    bytes_to_quintets, from_quintets, is_quintets, quintets_to_bytes, to_quintets,
};
use crate::text::{
    chars_of, has_lower, has_lower_exec, has_upper, has_upper_exec, lower_seq, lower_vec,
    string_of, upper_seq, upper_vec,
};
use vstd::prelude::*;

verus! {

/// The longest checksummed string that encoding produces.
pub const MAX_ENCODED_LEN: usize = 90;

/// The number of checksum groups.
pub const CHECKSUM_LEN: usize = 6;

/// Why bytes could not be encoded.
#[derive(Debug, Clone, Copy, PartialEq, Eq, Structural)]
pub enum EncodeError {
    /// The human-readable part is not valid.
    Hrp(HrpError),
    /// The checksummed string would be longer than 90 characters.
    TooLong,
    /// The mode names no known checksum variant.
    UnknownMode,
}

/// Why a string could not be decoded.
#[derive(Debug, Clone, Copy, PartialEq, Eq, Structural)]
pub enum DecodeError {
    /// The string holds both uppercase and lowercase letters.
    MixedCase,
    /// No `1` stands where a separator could.
    SeparatorNotFound,
    /// The part before the separator is not a valid human-readable part.
    Hrp(HrpError),
    /// A character after the separator is not in the alphabet.
    InvalidCharacter,
    /// The checksum is neither a valid Bech32 nor a valid Bech32m checksum.
    InvalidChecksum,
    /// The bits after the last whole byte of the data are not all zero.
    NonZeroPadding,
}

/// The groups that bind a checksum to a human-readable part: the high three
/// bits of each character, a zero, then the low five bits of each character.
pub open spec fn hrp_expand(h: Seq<char>) -> Seq<u8> {
    h.map_values(|c: char| ((c as u32) / 32) as u8) + seq![0u8] + h.map_values(
        |c: char| ((c as u32) % 32) as u8,
    )
}

/// The groups after the separator: the data, then the checksum if any.
pub open spec fn body_groups(h: Seq<char>, q: Seq<u8>, v: Variant) -> Seq<u8> {
    if v == Variant::NoChecksum {
        q
    } else {
        q + checksum_groups(hrp_expand(lower_seq(h)) + q, variant_const(v))
    }
}

/// What encoding `d` under `h` with the variant `v` gives. The output is in
/// uppercase when `h` is (and `lower` is false), else in lowercase.
pub open spec fn encode_spec(h: Seq<char>, d: Seq<u8>, v: Variant, lower: bool) -> Result<
    Seq<char>,
    EncodeError,
> {
    match hrp_error(h) {
        Some(e) => Err(EncodeError::Hrp(e)),
        None => {
            let body = body_groups(h, to_quintets(d), v);
            if v != Variant::NoChecksum && h.len() + 1 + body.len() > MAX_ENCODED_LEN {
                Err(EncodeError::TooLong)
            } else {
                let s = lower_seq(h) + seq!['1'] + body.map_values(|x: u8| charset_char(x));
                Ok(
                    if !lower && has_upper(h) {
                        upper_seq(s)
                    } else {
                        s
                    },
                )
            }
        },
    }
}

/// A `1` at `i` can separate: 1 to 83 characters before it, 6 or more after.
pub open spec fn is_separator_at(s: Seq<char>, i: int) -> bool {
    &&& 0 <= i < s.len()
    &&& s[i] == '1'
    &&& 1 <= i <= MAX_HRP_LEN
    &&& s.len() - i - 1 >= CHECKSUM_LEN
}

/// The rightmost separator among the first `n` positions.
pub open spec fn separator_in(s: Seq<char>, n: nat) -> Option<int>
    decreases n,
{
    if n == 0 {
        None
    } else if is_separator_at(s, n - 1) {
        Some(n - 1)
    } else {
        separator_in(s, (n - 1) as nat)
    }
}

/// The rightmost separator of `s`.
pub open spec fn separator(s: Seq<char>) -> Option<int> {
    separator_in(s, s.len())
}

pub open spec fn all_in_charset(t: Seq<char>) -> bool {
    forall|j: int| 0 <= j < t.len() ==> (#[trigger] char_value(t[j])) is Some
}

pub open spec fn char_values(t: Seq<char>) -> Seq<u8> {
    t.map_values(|c: char| char_value(c)->0)
}

/// What decoding `s` gives: the human-readable part in lowercase and the data.
pub open spec fn decode_spec(s: Seq<char>) -> Result<(Seq<char>, Seq<u8>), DecodeError> {
    if has_upper(s) && has_lower(s) {
        Err(DecodeError::MixedCase)
    } else {
        match separator(s) {
            None => Err(DecodeError::SeparatorNotFound),
            Some(i) => {
                let h = s.take(i);
                let t = s.skip(i + 1);
                match hrp_error(h) {
                    Some(e) => Err(DecodeError::Hrp(e)),
                    None => {
                        if !all_in_charset(t) {
                            Err(DecodeError::InvalidCharacter)
                        } else {
                            let q = char_values(t);
                            let pm = polymod(hrp_expand(lower_seq(h)) + q);
                            if pm != BECH32_CONST && pm != BECH32M_CONST {
                                Err(DecodeError::InvalidChecksum)
                            } else {
                                match from_quintets(q.take(q.len() - CHECKSUM_LEN)) {
                                    Ok(d) => Ok((lower_seq(h), d)),
                                    Err(_) => Err(DecodeError::NonZeroPadding),
                                }
                            }
                        }
                    },
                }
            },
        }
    }
}

/// The checksum mode a name selects.
pub open spec fn mode_of(m: Seq<char>) -> Option<Variant> {
    if m == "bech32"@ {
        Some(Variant::Bech32)
    } else if m == "bech32m"@ {
        Some(Variant::Bech32m)
    } else if m == "nochecksum"@ {
        Some(Variant::NoChecksum)
    } else {
        None
    }
}

fn extend_u8(dst: &mut Vec<u8>, src: &[u8])
    ensures
        final(dst)@ == old(dst)@ + src@,
{
    let mut i: usize = 0;
    while i < src.len()
        invariant
            i <= src@.len(),
            dst@ == old(dst)@ + src@.take(i as int),
        decreases src@.len() - i,
    {
        proof {
            assert(src@.take(i + 1) =~= src@.take(i as int).push(src@[i as int]));
        }
        dst.push(src[i]);
        i = i + 1;
    }
    proof {
        assert(src@.take(src@.len() as int) =~= src@);
    }
}

fn sub_chars(v: &[char], lo: usize, hi: usize) -> (r: Vec<char>)
    requires
        lo <= hi <= v@.len(),
    ensures
        r@ == v@.subrange(lo as int, hi as int),
{
    let mut out: Vec<char> = Vec::new();
    let mut i: usize = lo;
    while i < hi
        invariant
            lo <= i <= hi <= v@.len(),
            out@ == v@.subrange(lo as int, i as int),
        decreases hi - i,
    {
        proof {
            assert(v@.subrange(lo as int, i + 1) =~= v@.subrange(lo as int, i as int).push(
                v@[i as int],
            ));
        }
        out.push(v[i]);
        i = i + 1;
    }
    out
}

/// The expansion of a human-readable part made of printable ASCII.
pub fn expand_hrp(h: &[char]) -> (r: Vec<u8>)
    requires
        forall|i: int| 0 <= i < h@.len() ==> is_hrp_char(#[trigger] h@[i]),
    ensures
        r@ == hrp_expand(h@),
{
    let mut out: Vec<u8> = Vec::new();
    let mut i: usize = 0;
    while i < h.len()
        invariant
            i <= h@.len(),
            forall|j: int| 0 <= j < h@.len() ==> is_hrp_char(#[trigger] h@[j]),
            out@ == h@.take(i as int).map_values(|c: char| ((c as u32) / 32) as u8),
        decreases h@.len() - i,
    {
        proof {
            assert(h@.take(i + 1).map_values(|c: char| ((c as u32) / 32) as u8) =~= h@.take(
                i as int,
            ).map_values(|c: char| ((c as u32) / 32) as u8).push(((h@[i as int] as u32) / 32) as u8));
        }
        out.push(((h[i] as u32) / 32) as u8);
        i = i + 1;
    }
    out.push(0);
    let mut i: usize = 0;
    let ghost mid = out@;
    proof {
        assert(h@.take(h@.len() as int) =~= h@);
    }
    while i < h.len()
        invariant
            i <= h@.len(),
            forall|j: int| 0 <= j < h@.len() ==> is_hrp_char(#[trigger] h@[j]),
            mid == h@.map_values(|c: char| ((c as u32) / 32) as u8) + seq![0u8],
            out@ == mid + h@.take(i as int).map_values(|c: char| ((c as u32) % 32) as u8),
        decreases h@.len() - i,
    {
        proof {
            assert(h@.take(i + 1).map_values(|c: char| ((c as u32) % 32) as u8) =~= h@.take(
                i as int,
            ).map_values(|c: char| ((c as u32) % 32) as u8).push(((h@[i as int] as u32) % 32) as u8));
        }
        out.push(((h[i] as u32) % 32) as u8);
        i = i + 1;
    }
    proof {
        assert(h@.take(h@.len() as int) =~= h@);
        assert(out@ =~= hrp_expand(h@));
    }
    out
}

/// The six checksum groups of the lowercase human-readable part `lh` and the
/// data groups `q`, for a checksummed variant.
pub fn compute_checksum(lh: &[char], q: &[u8], variant: Variant) -> (r: Vec<u8>)
    requires
        forall|i: int| 0 <= i < lh@.len() ==> is_hrp_char(#[trigger] lh@[i]),
        variant != Variant::NoChecksum,
    ensures
        r@ == checksum_groups(hrp_expand(lh@) + q@, variant_const(variant)),
{
    let k = if variant == Variant::Bech32 {
        BECH32_CONST
    } else {
        BECH32M_CONST
    };
    let mut buf = expand_hrp(lh);
    extend_u8(&mut buf, q);
    let ghost prefix = buf@;
    let mut z: usize = 0;
    while z < CHECKSUM_LEN
        invariant
            z <= CHECKSUM_LEN,
            buf@ == prefix + Seq::new(z as nat, |i: int| 0u8),
        decreases CHECKSUM_LEN - z,
    {
        buf.push(0);
        z = z + 1;
        assert(buf@ =~= prefix + Seq::new(z as nat, |i: int| 0u8));
    }
    proof {
        assert(buf@ =~= prefix + seq![0u8, 0u8, 0u8, 0u8, 0u8, 0u8]);
    }
    let p = polymod_run(1, &buf) ^ k;
    let mut out: Vec<u8> = Vec::new();
    let mut i: u32 = 0;
    while i < 6
        invariant
            i <= 6,
            out@ == six_groups(p).take(i as int),
        decreases 6 - i,
    {
        proof {
            assert(six_groups(p).take(i + 1) =~= six_groups(p).take(i as int).push(
                six_groups(p)[i as int],
            ));
        }
        out.push(((p >> (25 - 5 * i)) & 31) as u8);
        i = i + 1;
    }
    proof {
        assert(six_groups(p).take(6) =~= six_groups(p));
    }
    out
}

/// Whether `dc` (data groups followed by their checksum) carries a valid
/// checksum of the variant under the lowercase human-readable part `lh`;
/// without a checksum every sequence verifies.
pub fn verify_checksum(lh: &[char], dc: &[u8], variant: Variant) -> (r: bool)
    requires
        forall|i: int| 0 <= i < lh@.len() ==> is_hrp_char(#[trigger] lh@[i]),
    ensures
        r == (variant == Variant::NoChecksum || polymod(hrp_expand(lh@) + dc@) == variant_const(
            variant,
        )),
{
    if variant == Variant::NoChecksum {
        return true;
    }
    let mut buf = expand_hrp(lh);
    extend_u8(&mut buf, dc);
    let k = if variant == Variant::Bech32 {
        BECH32_CONST
    } else {
        BECH32M_CONST
    };
    polymod_run(1, &buf) == k
}

/// Encodes `data` under `hrp` with the checksum `variant`; the output takes
/// the case of `hrp` unless `lower` asks for lowercase.
pub fn encode(hrp: &Hrp, data: &[u8], variant: Variant, lower: bool) -> (r: Result<
    String,
    EncodeError,
>)
    ensures
        match r {
            Ok(s) => encode_spec(hrp@, data@, variant, lower) == Ok::<Seq<char>, EncodeError>(s@),
            Err(e) => encode_spec(hrp@, data@, variant, lower) == Err::<Seq<char>, EncodeError>(e),
        },
{
    let h = hrp.chars();
    let lh = lower_vec(h);
    let q = bytes_to_quintets(data);
    let mut body: Vec<u8> = Vec::new();
    extend_u8(&mut body, &q);
    proof {
        assert(forall|i: int| 0 <= i < lh@.len() ==> is_hrp_char(#[trigger] lh@[i]));
    }
    if variant != Variant::NoChecksum {
        let cs = compute_checksum(&lh, &q, variant);
        proof {
            lemma_six_groups_bound(
                polymod(hrp_expand(lh@) + q@ + seq![0u8, 0u8, 0u8, 0u8, 0u8, 0u8]) ^ variant_const(
                    variant,
                ),
            );
        }
        extend_u8(&mut body, &cs);
        if body.len() > MAX_ENCODED_LEN || hrp.len() + 1 + body.len() > MAX_ENCODED_LEN {
            return Err(EncodeError::TooLong);
        }
    }
    assert(body@ == body_groups(hrp@, to_quintets(data@), variant));
    let mut out: Vec<char> = Vec::new();
    let mut i: usize = 0;
    while i < lh.len()
        invariant
            i <= lh@.len(),
            out@ == lh@.take(i as int),
        decreases lh@.len() - i,
    {
        proof {
            assert(lh@.take(i + 1) =~= lh@.take(i as int).push(lh@[i as int]));
        }
        out.push(lh[i]);
        i = i + 1;
    }
    out.push('1');
    let ghost head = out@;
    proof {
        assert(lh@.take(lh@.len() as int) =~= lh@);
    }
    let mut j: usize = 0;
    while j < body.len()
        invariant
            j <= body@.len(),
            is_quintets(body@),
            out@ == head + body@.take(j as int).map_values(|x: u8| charset_char(x)),
        decreases body@.len() - j,
    {
        proof {
            assert(body@.take(j + 1).map_values(|x: u8| charset_char(x)) =~= body@.take(
                j as int,
            ).map_values(|x: u8| charset_char(x)).push(charset_char(body@[j as int])));
        }
        out.push(charset_encode(body[j]));
        j = j + 1;
    }
    proof {
        assert(body@.take(body@.len() as int) =~= body@);
        assert(out@ =~= lower_seq(hrp@) + seq!['1'] + body@.map_values(|x: u8| charset_char(x)));
    }
    if !lower && has_upper_exec(h) {
        let up = upper_vec(&out);
        Ok(string_of(&up))
    } else {
        Ok(string_of(&out))
    }
}

/// A separator found is one.
pub proof fn lemma_separator_in(s: Seq<char>, n: nat)
    ensures
        separator_in(s, n) matches Some(i) ==> is_separator_at(s, i) && i < n,
    decreases n,
{
    if n > 0 {
        lemma_separator_in(s, (n - 1) as nat);
    }
}

/// The position of the rightmost separator.
pub fn find_separator(s: &[char]) -> (r: Option<usize>)
    ensures
        match r {
            Some(i) => separator(s@) == Some(i as int),
            None => separator(s@) is None,
        },
{
    let mut n: usize = s.len();
    while n > 0
        invariant
            n <= s@.len(),
            separator(s@) == separator_in(s@, n as nat),
        decreases n,
    {
        let i = n - 1;
        if s[i] == '1' && 1 <= i && i <= MAX_HRP_LEN && s.len() - i - 1 >= CHECKSUM_LEN {
            return Some(i);
        }
        n = i;
    }
    None
}

/// Decodes a checksummed string into its human-readable part, in lowercase,
/// and its data; either checksum variant is accepted.
pub fn bech32_decode(input: &str) -> (r: Result<(String, Vec<u8>), DecodeError>)
    ensures
        match r {
            Ok((h, d)) => decode_spec(input@) == Ok::<(Seq<char>, Seq<u8>), DecodeError>(
                (h@, d@),
            ),
            Err(e) => decode_spec(input@) == Err::<(Seq<char>, Seq<u8>), DecodeError>(e),
        },
{
    let s = chars_of(input);
    if has_upper_exec(&s) && has_lower_exec(&s) {
        return Err(DecodeError::MixedCase);
    }
    let i = match find_separator(&s) {
        None => {
            return Err(DecodeError::SeparatorNotFound);
        },
        Some(i) => i,
    };
    proof {
        lemma_separator_in(s@, s@.len());
    }
    let h = sub_chars(&s, 0, i);
    proof {
        assert(h@ =~= s@.take(i as int));
    }
    match check_hrp(&h) {
        Some(e) => {
            return Err(DecodeError::Hrp(e));
        },
        None => {},
    }
    let ghost t = s@.skip(i + 1);
    let mut q: Vec<u8> = Vec::new();
    let mut j: usize = i + 1;
    while j < s.len()
        invariant
            i + 1 <= j <= s@.len(),
            s@ == input@,
            !(has_upper(s@) && has_lower(s@)),
            separator(s@) == Some(i as int),
            is_separator_at(s@, i as int),
            h@ == s@.take(i as int),
            hrp_error(h@) is None,
            t == s@.skip(i + 1),
            all_in_charset(s@.subrange(i + 1, j as int)),
            q@ == char_values(s@.subrange(i + 1, j as int)),
            is_quintets(q@),
        decreases s@.len() - j,
    {
        proof {
            assert(s@.subrange(i + 1, j + 1) =~= s@.subrange(i + 1, j as int).push(s@[j as int]));
        }
        match charset_decode(s[j]) {
            None => {
                proof {
                    assert(t[j - i - 1] == s@[j as int]);
                    assert(char_value(t[j - i - 1]) is None);
                    assert(!all_in_charset(t));
                }
                return Err(DecodeError::InvalidCharacter);
            },
            Some(x) => {
                q.push(x);
            },
        }
        proof {
            assert(q@ =~= char_values(s@.subrange(i + 1, j + 1)));
        }
        j = j + 1;
    }
    proof {
        assert(s@.subrange(i + 1, s@.len() as int) =~= t);
    }
    let lh = lower_vec(&h);
    proof {
        assert(forall|k: int| 0 <= k < lh@.len() ==> is_hrp_char(#[trigger] lh@[k]));
    }
    if !verify_checksum(&lh, &q, Variant::Bech32) && !verify_checksum(&lh, &q, Variant::Bech32m) {
        return Err(DecodeError::InvalidChecksum);
    }
    let mut dq = q.clone();
    dq.truncate(q.len() - CHECKSUM_LEN);
    proof {
        assert(dq@ =~= q@.take(q@.len() - CHECKSUM_LEN));
    }
    match quintets_to_bytes(&dq) {
        Err(_) => Err(DecodeError::NonZeroPadding),
        Ok(d) => Ok((string_of(&lh), d)),
    }
}

/// What encoding under a mode name gives: the human-readable part is checked
/// first, then the mode.
pub open spec fn encode_mode_spec(h: Seq<char>, d: Seq<u8>, m: Seq<char>, lower: bool) -> Result<
    Seq<char>,
    EncodeError,
> {
    match hrp_error(h) {
        Some(e) => Err(EncodeError::Hrp(e)),
        None => match mode_of(m) {
            None => Err(EncodeError::UnknownMode),
            Some(v) => encode_spec(h, d, v, lower),
        },
    }
}

fn same_chars(a: &[char], b: &[char]) -> (r: bool)
    ensures
        r == (a@ == b@),
{
    if a.len() != b.len() {
        return false;
    }
    let mut i: usize = 0;
    while i < a.len()
        invariant
            i <= a@.len() == b@.len(),
            forall|j: int| 0 <= j < i ==> a@[j] == b@[j],
        decreases a@.len() - i,
    {
        if a[i] != b[i] {
            return false;
        }
        i = i + 1;
    }
    assert(a@ =~= b@);
    true
}

/// The checksum variant named by `mode`: "bech32", "bech32m" or "nochecksum".
pub fn parse_mode(mode: &str) -> (r: Option<Variant>)
    ensures
        r == mode_of(mode@),
{
    let m = chars_of(mode);
    if same_chars(&m, &chars_of("bech32")) {
        Some(Variant::Bech32)
    } else if same_chars(&m, &chars_of("bech32m")) {
        Some(Variant::Bech32m)
    } else if same_chars(&m, &chars_of("nochecksum")) {
        Some(Variant::NoChecksum)
    } else {
        None
    }
}

fn encode_with_mode(hrp: &str, input: &[u8], mode: &str, lower: bool) -> (r: Result<
    String,
    EncodeError,
>)
    ensures
        match r {
            Ok(s) => encode_mode_spec(hrp@, input@, mode@, lower) == Ok::<Seq<char>, EncodeError>(
                s@,
            ),
            Err(e) => encode_mode_spec(hrp@, input@, mode@, lower) == Err::<
                Seq<char>,
                EncodeError,
            >(e),
        },
{
    let h = match Hrp::parse(hrp) {
        Ok(h) => h,
        Err(e) => {
            return Err(EncodeError::Hrp(e));
        },
    };
    match parse_mode(mode) {
        None => Err(EncodeError::UnknownMode),
        Some(v) => encode(&h, input, v, lower),
    }
}

/// Encodes `input` under the human-readable part `hrp` with the checksum
/// named by `mode`; the output is in uppercase when `hrp` is.
pub fn bech32_encode(hrp: &str, input: &[u8], mode: &str) -> (r: Result<String, EncodeError>)
    ensures
        match r {
            Ok(s) => encode_mode_spec(hrp@, input@, mode@, false) == Ok::<Seq<char>, EncodeError>(
                s@,
            ),
            Err(e) => encode_mode_spec(hrp@, input@, mode@, false) == Err::<
                Seq<char>,
                EncodeError,
            >(e),
        },
{
    encode_with_mode(hrp, input, mode, false)
}

/// Encodes `input` under the human-readable part `hrp` with the checksum
/// named by `mode`; the output is in lowercase whatever the case of `hrp`.
pub fn bech32_encode_lower(hrp: &str, input: &[u8], mode: &str) -> (r: Result<
    String,
    EncodeError,
>)
    ensures
        match r {
            Ok(s) => encode_mode_spec(hrp@, input@, mode@, true) == Ok::<Seq<char>, EncodeError>(
                s@,
            ),
            Err(e) => encode_mode_spec(hrp@, input@, mode@, true) == Err::<
                Seq<char>,
                EncodeError,
            >(e),
        },
{
    encode_with_mode(hrp, input, mode, true)
}

} // verus!
