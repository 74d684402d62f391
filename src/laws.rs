//! Laws that relate encoding and decoding.
use crate::charset::{char_value, charset_char, lemma_charset_inverse};
use crate::checksum::{
    checksum_groups, lemma_checksum_closes, lemma_six_groups_bound, polymod, variant_const,
    Variant,
};
use crate::codec::{
    all_in_charset, body_groups, char_values, decode_spec, encode_mode_spec, encode_spec,
    hrp_expand, is_separator_at, separator, separator_in, CHECKSUM_LEN, MAX_ENCODED_LEN,
};
use crate::codec::{DecodeError, EncodeError};
use crate::hrp::{hrp_error, is_hrp_char, valid_hrp, HrpError, MAX_HRP_LEN};
use crate::regroup::{is_quintets, lemma_regroup_round_trip, pad_len, to_quintets};
use crate::text::{has_lower, has_upper, is_lower, is_upper, lower_seq, to_upper, upper_seq};
use vstd::arithmetic::div_mod::*;
use vstd::prelude::*;

verus! {

/// The number of 5-bit groups that `n` bytes take.
pub open spec fn quintet_count(n: nat) -> nat {
    (8 * n + 4) / 5
}

/// The length of the checksummed string for a human-readable part of `h`
/// characters and `n` bytes of data.
pub open spec fn checksummed_len(h: nat, n: nat) -> nat {
    h + 1 + quintet_count(n) + CHECKSUM_LEN as nat
}

proof fn lemma_quintet_count(d: Seq<u8>)
    ensures
        to_quintets(d).len() == quintet_count(d.len()),
{
    lemma_regroup_round_trip(d);
    let n8 = 8 * d.len();
    lemma_fundamental_div_mod(n8 as int, 5);
    lemma_mod_bound(n8 as int, 5);
    let a = n8 / 5;
    let r = n8 % 5;
    if r == 0 {
        lemma_fundamental_div_mod_converse((n8 + pad_len(n8)) as int, 5, a as int, 0);
        lemma_fundamental_div_mod_converse((n8 + 4) as int, 5, a as int, 4);
    } else {
        lemma_fundamental_div_mod_converse((n8 + pad_len(n8)) as int, 5, (a + 1) as int, 0);
        lemma_fundamental_div_mod_converse((n8 + 4) as int, 5, (a + 1) as int, (r - 1) as int);
    }
}

/// The first separator scanning from the right is the rightmost one.
proof fn lemma_separator_is(s: Seq<char>, i: int, n: nat)
    requires
        is_separator_at(s, i),
        i < n <= s.len(),
        forall|j: int| i < j < s.len() ==> s[j] != '1',
    ensures
        separator_in(s, n) == Some(i),
    decreases n,
{
    if n - 1 != i {
        lemma_separator_is(s, i, (n - 1) as nat);
    }
}

/// Decoding what was encoded with a checksum gives back the human-readable
/// part, in lowercase, and the data, for either variant and either case of
/// output, whenever the encoded string fits in 90 characters.
pub proof fn lemma_round_trip(h: Seq<char>, d: Seq<u8>, v: Variant, lower: bool)
    requires
        valid_hrp(h),
        v != Variant::NoChecksum,
        checksummed_len(h.len(), d.len()) <= MAX_ENCODED_LEN,
    ensures
        encode_spec(h, d, v, lower) is Ok,
        decode_spec(encode_spec(h, d, v, lower)->Ok_0) == Ok::<(Seq<char>, Seq<u8>), DecodeError>(
            (lower_seq(h), d),
        ),
{
    let q = to_quintets(d);
    lemma_quintet_count(d);
    lemma_regroup_round_trip(d);
    let lh = lower_seq(h);
    let k = variant_const(v);
    let prefix = hrp_expand(lh) + q;
    let cs = checksum_groups(prefix, k);
    lemma_six_groups_bound(polymod(prefix + seq![0u8, 0u8, 0u8, 0u8, 0u8, 0u8]) ^ k);
    let body = body_groups(h, q, v);
    assert(body == q + cs);
    assert(is_quintets(body));
    let chars = body.map_values(|x: u8| charset_char(x));
    let s0 = lh + seq!['1'] + chars;
    let up = !lower && has_upper(h);
    let s = if up {
        upper_seq(s0)
    } else {
        s0
    };
    assert(encode_spec(h, d, v, lower) == Ok::<Seq<char>, EncodeError>(s));
    let n = h.len() as int;
    // The characters after the separator, in the output's case.
    assert forall|j: int| 0 <= j < body.len() implies {
        &&& s[n + 1 + j] == (if up {
            to_upper(charset_char(body[j]))
        } else {
            charset_char(body[j])
        })
        &&& s[n + 1 + j] != '1'
        &&& char_value(#[trigger] s[n + 1 + j]) == Some(body[j])
        &&& !is_upper(s[n + 1 + j]) || up
        &&& !is_lower(s[n + 1 + j]) || !up
    } by {
        lemma_charset_inverse(body[j]);
    }
    // The human-readable part as it stands in the output.
    let hs = s.take(n);
    assert(hs =~= (if up {
        upper_seq(lh)
    } else {
        lh
    }));
    assert(s[n] == '1');
    if up {
        assert(!has_lower(h));
        assert(hs =~= h);
    } else {
        assert(!has_upper(h) || lower);
        assert forall|i: int| 0 <= i < hs.len() implies !is_upper(#[trigger] hs[i]) by {}
        assert forall|i: int| 0 <= i < hs.len() implies is_hrp_char(#[trigger] hs[i]) by {
            assert(is_hrp_char(h[i]));
        }
        assert(!has_upper(hs));
    }
    assert(lower_seq(hs) =~= lh);
    assert(hrp_error(hs) is None);
    // No mixed case.
    if up {
        assert forall|i: int| 0 <= i < s.len() implies !is_lower(#[trigger] s[i]) by {
            if i > n {
                assert(s[n + 1 + (i - n - 1)] == s[i]);
            }
        }
        assert(!has_lower(s));
    } else {
        assert forall|i: int| 0 <= i < s.len() implies !is_upper(#[trigger] s[i]) by {
            if i > n {
                assert(s[n + 1 + (i - n - 1)] == s[i]);
            }
        }
        assert(!has_upper(s));
    }
    // The separator.
    assert(s.len() == n + 1 + body.len());
    assert forall|j: int| n < j < s.len() implies s[j] != '1' by {
        assert(s[n + 1 + (j - n - 1)] == s[j]);
    }
    lemma_separator_is(s, n, s.len());
    assert(separator(s) == Some(n));
    // The data characters.
    let t = s.skip(n + 1);
    assert forall|j: int| 0 <= j < t.len() implies (#[trigger] char_value(t[j])) is Some by {
        assert(t[j] == s[n + 1 + j]);
    }
    assert(all_in_charset(t));
    assert(char_values(t) =~= body) by {
        assert forall|j: int| 0 <= j < t.len() implies char_values(t)[j] == body[j] by {
            assert(t[j] == s[n + 1 + j]);
        }
    }
    // The checksum.
    assert forall|i: int| 0 <= i < prefix.len() implies prefix[i] < 32 by {
        if i < lh.len() {
            assert(is_hrp_char(h[i]));
        } else if lh.len() < i < 2 * lh.len() + 1 {
            assert(is_hrp_char(h[i - lh.len() - 1]));
        } else if i >= 2 * lh.len() + 1 {
            assert(prefix[i] == q[i - 2 * lh.len() - 1]);
        }
    }
    assert(k < 0x40000000);
    lemma_checksum_closes(prefix, k);
    assert(hrp_expand(lower_seq(hs)) + char_values(t) =~= prefix + cs);
    // The data.
    assert(body.take(body.len() - CHECKSUM_LEN) =~= q);
}

/// Encoding in the case of the human-readable part and encoding in lowercase
/// decode to the same human-readable part (in lowercase) and data.
pub proof fn lemma_case_invariance(h: Seq<char>, d: Seq<u8>, v: Variant)
    requires
        valid_hrp(h),
        v != Variant::NoChecksum,
        checksummed_len(h.len(), d.len()) <= MAX_ENCODED_LEN,
    ensures
        decode_spec(encode_spec(h, d, v, false)->Ok_0) == decode_spec(
            encode_spec(h, d, v, true)->Ok_0,
        ),
{
    lemma_round_trip(h, d, v, false);
    lemma_round_trip(h, d, v, true);
}

/// A human-readable part that holds both cases is refused whatever the data
/// and the mode, before any checksum is computed.
pub proof fn lemma_mixed_case_hrp_rejected(h: Seq<char>, d: Seq<u8>, m: Seq<char>, lower: bool)
    requires
        0 < h.len() <= MAX_HRP_LEN,
        forall|i: int| 0 <= i < h.len() ==> is_hrp_char(#[trigger] h[i]),
        has_upper(h),
        has_lower(h),
    ensures
        encode_mode_spec(h, d, m, lower) == Err::<Seq<char>, EncodeError>(
            EncodeError::Hrp(HrpError::MixedCase),
        ),
        forall|v: Variant|
            #![auto]
            encode_spec(h, d, v, lower) == Err::<Seq<char>, EncodeError>(
                EncodeError::Hrp(HrpError::MixedCase),
            ),
{
    assert(hrp_error(h) == Some(HrpError::MixedCase));
}

} // verus!
