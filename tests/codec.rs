use bech32::Fe32IterExt;
use bech32_core::{
    bech32_decode, bech32_encode, bech32_encode_lower, bytes_to_quintets, encode, parse_mode,
    quintets_to_bytes, DecodeError, EncodeError, Hrp, HrpError, PaddingError, Variant,
};

const LITERAL: &str = "union14qemq0vw6y3gc3u3e0aty2e764u4gs5lnxk4rv";

fn bech32_crate_encode(hrp: &str, data: &[u8], variant: Variant) -> String {
    let h = bech32::Hrp::parse(hrp).unwrap();
    match variant {
        Variant::Bech32 => bech32::encode::<bech32::Bech32>(h, data).unwrap(),
        Variant::Bech32m => bech32::encode::<bech32::Bech32m>(h, data).unwrap(),
        Variant::NoChecksum => bech32::encode::<bech32::NoChecksum>(h, data).unwrap(),
    }
}

#[test]
fn test_bech32_decode() {
    let (hrp, data) = bech32_decode(LITERAL).unwrap();
    assert_eq!(hrp, "union");
    assert_eq!(
        data,
        vec![
            168, 51, 176, 61, 142, 209, 34, 140, 71, 145, 203, 250, 178, 43, 62, 213, 121, 84, 66,
            159
        ]
    );
}

#[test]
fn test_bech32_encode() {
    let raw = hex::decode("644a2606654a7c0e70bf343ae6b828d3fe448447").unwrap();
    let bech = bech32_encode("union", &raw, "bech32").unwrap();
    assert_eq!(bech, "union1v39zvpn9ff7quu9lxsawdwpg60lyfpz8pmhfey")
}

#[test]
fn test_bech32_encode2() {
    let raw = hex::decode("7e83d17b15e379b76cbf6966564472e567ccc4a2").unwrap();
    let bech = bech32_encode("union", &raw, "bech32").unwrap();
    assert_eq!(bech, "union106paz7c4udumwm9ld9n9v3rju4nue39z4nt8tg")
}

#[test]
fn test_encode_bech_from_hex() {
    let raw = hex::decode("644a2606654a7c0e70bf343ae6b828d3fe448447").unwrap();
    let result = bech32_encode_lower("union", &raw, "bech32").unwrap();
    assert_eq!(result, "union1v39zvpn9ff7quu9lxsawdwpg60lyfpz8pmhfey")
}

#[test]
fn encode_agrees_with_bech32_crate() {
    let samples: Vec<Vec<u8>> = vec![
        vec![],
        vec![0],
        vec![255],
        vec![1, 2, 3],
        vec![0xde, 0xad, 0xbe, 0xef, 0x00, 0x11],
        (0u8..40).collect(),
    ];
    for hrp in ["a", "bc", "tb", "union", "x!#~z", "abc1def"] {
        for d in &samples {
            for (mode, v) in [
                ("bech32", Variant::Bech32),
                ("bech32m", Variant::Bech32m),
                ("nochecksum", Variant::NoChecksum),
            ] {
                let ours = bech32_encode(hrp, d, mode).unwrap();
                assert_eq!(ours, bech32_crate_encode(hrp, d, v));
                let lower = bech32_encode_lower(hrp, d, mode).unwrap();
                assert_eq!(lower, ours);
            }
        }
    }
}

#[test]
fn decode_agrees_with_bech32_crate() {
    for s in [
        LITERAL,
        "a12uel5l",
        "abcdef1l7aum6echk45nj3s0wdvt2fg8x9yrzpqzd3ryx",
        "split1checkupstagehandshakeupstreamerranterredcaperred2y9e3w",
        "a1lqfn3a",
        "abcdef1l7aum6echk45nj3s0wdvt2fg8x9yrzpqzd3ryx",
        "?1v759aa",
    ] {
        let (hrp, data) = bech32_decode(s).unwrap();
        let (rh, rd) = bech32::decode(s).unwrap();
        assert_eq!(hrp, rh.to_lowercase());
        assert_eq!(data, rd);
    }
}

#[test]
fn round_trip_both_variants() {
    let d: Vec<u8> = vec![7, 77, 177, 0, 255, 128, 64];
    for mode in ["bech32", "bech32m"] {
        let s = bech32_encode("Hello".to_uppercase().as_str(), &d, mode).unwrap();
        assert_eq!(s, s.to_uppercase());
        let (hrp, data) = bech32_decode(&s).unwrap();
        assert_eq!(hrp, "hello");
        assert_eq!(data, d);
    }
}

#[test]
fn uppercase_hrp_gives_uppercase_output() {
    let raw = hex::decode("644a2606654a7c0e70bf343ae6b828d3fe448447").unwrap();
    let upper = bech32_encode("UNION", &raw, "bech32").unwrap();
    assert_eq!(upper, "UNION1V39ZVPN9FF7QUU9LXSAWDWPG60LYFPZ8PMHFEY");
    let lower = bech32_encode_lower("UNION", &raw, "bech32").unwrap();
    assert_eq!(lower, "union1v39zvpn9ff7quu9lxsawdwpg60lyfpz8pmhfey");
}

#[test]
fn case_invariance_of_decoding() {
    let d: Vec<u8> = vec![1, 2, 3, 4, 5];
    for mode in ["bech32", "bech32m"] {
        let a = bech32_decode(&bech32_encode("ABC", &d, mode).unwrap()).unwrap();
        let b = bech32_decode(&bech32_encode_lower("ABC", &d, mode).unwrap()).unwrap();
        assert_eq!(a, b);
        assert_eq!(a, (String::from("abc"), d.clone()));
    }
}

#[test]
fn checksum_detects_single_substitutions() {
    let alphabet = "qpzry9x8gf2tvdw0s3jn54khce6mua7l";
    let s: Vec<char> = LITERAL.chars().collect();
    for pos in 6..s.len() {
        for c in alphabet.chars() {
            if c == s[pos] {
                continue;
            }
            let mut t = s.clone();
            t[pos] = c;
            let t: String = t.into_iter().collect();
            assert_eq!(bech32_decode(&t), Err(DecodeError::InvalidChecksum), "{}", t);
        }
    }
}

#[test]
fn checksum_detects_hrp_change() {
    let t = LITERAL.replacen("union", "uniom", 1);
    assert_eq!(bech32_decode(&t), Err(DecodeError::InvalidChecksum));
}

#[test]
fn padding_rule() {
    // Two groups carry 10 bits: one byte and two padding bits.
    assert_eq!(quintets_to_bytes(&[31, 28]), Ok(vec![0xff]));
    assert_eq!(quintets_to_bytes(&[31, 29]), Err(PaddingError::NonZeroPadding));
    assert_eq!(quintets_to_bytes(&[31, 30]), Err(PaddingError::NonZeroPadding));
    assert_eq!(quintets_to_bytes(&[1]), Err(PaddingError::NonZeroPadding));
    assert_eq!(quintets_to_bytes(&[0]), Ok(vec![]));
    assert_eq!(quintets_to_bytes(&[]), Ok(vec![]));
}

#[test]
fn regrouping_values() {
    assert_eq!(bytes_to_quintets(&[0xff]), vec![31, 28]);
    assert_eq!(bytes_to_quintets(&[]), Vec::<u8>::new());
    assert_eq!(bytes_to_quintets(&[0, 0, 0, 0, 1]), vec![0, 0, 0, 0, 0, 0, 0, 1]);
    let d: Vec<u8> = (0u8..=255).collect();
    assert_eq!(quintets_to_bytes(&bytes_to_quintets(&d)), Ok(d));
}

#[test]
fn hrp_rules() {
    assert_eq!(Hrp::parse("").err(), Some(HrpError::Empty));
    assert_eq!(Hrp::parse(&"a".repeat(84)).err(), Some(HrpError::TooLong));
    assert!(Hrp::parse(&"a".repeat(83)).is_ok());
    assert_eq!(Hrp::parse("a b").err(), Some(HrpError::InvalidChar));
    assert_eq!(Hrp::parse("é").err(), Some(HrpError::InvalidChar));
    assert_eq!(Hrp::parse("UnioN").err(), Some(HrpError::MixedCase));
    let h = Hrp::parse("UNION").unwrap();
    assert_eq!(h.as_string(), "UNION");
    assert_eq!(h.to_lowercase(), "union");
    assert_eq!(h.len(), 5);
}

#[test]
fn mixed_case_hrp_is_rejected_on_encode() {
    for mode in ["bech32", "bech32m", "nochecksum", "other"] {
        assert_eq!(
            bech32_encode("UnioN", &[1, 2, 3], mode),
            Err(EncodeError::Hrp(HrpError::MixedCase))
        );
        assert_eq!(
            bech32_encode_lower("UnioN", &[1, 2, 3], mode),
            Err(EncodeError::Hrp(HrpError::MixedCase))
        );
    }
}

#[test]
fn encode_errors() {
    assert_eq!(bech32_encode("", &[1], "bech32"), Err(EncodeError::Hrp(HrpError::Empty)));
    assert_eq!(bech32_encode("union", &[1], "base58"), Err(EncodeError::UnknownMode));
    // 5 + 1 + 6 = 12 characters around the data leave 78 groups: 48 bytes
    // take 77 of them, 49 bytes take 79.
    assert!(bech32_encode("union", &[0u8; 48], "bech32").is_ok());
    assert_eq!(bech32_encode("union", &[0u8; 49], "bech32"), Err(EncodeError::TooLong));
    assert_eq!(bech32_encode("union", &[0u8; 49], "bech32m"), Err(EncodeError::TooLong));
    assert!(bech32_encode("union", &[0u8; 200], "nochecksum").is_ok());
}

#[test]
fn length_limit_is_exact() {
    let s = bech32_encode("union", &[0u8; 48], "bech32").unwrap();
    assert_eq!(s.len(), 5 + 1 + 77 + 6);
    assert!(s.len() <= 90);
}

#[test]
fn modes() {
    assert_eq!(parse_mode("bech32"), Some(Variant::Bech32));
    assert_eq!(parse_mode("bech32m"), Some(Variant::Bech32m));
    assert_eq!(parse_mode("nochecksum"), Some(Variant::NoChecksum));
    assert_eq!(parse_mode("Bech32"), None);
    assert_eq!(parse_mode(""), None);
}

#[test]
fn encode_with_parsed_hrp() {
    let h = Hrp::parse("tb").unwrap();
    let s = encode(&h, &[9, 8, 7], Variant::Bech32m, false).unwrap();
    assert_eq!(s, bech32_crate_encode("tb", &[9, 8, 7], Variant::Bech32m));
}

#[test]
fn decode_errors() {
    assert_eq!(bech32_decode("Union14qemq0vw6y3gc3u3e0aty2e764u4gs5lnxk4rv"), Err(DecodeError::MixedCase));
    assert_eq!(bech32_decode("unionqqqqqqqq"), Err(DecodeError::SeparatorNotFound));
    assert_eq!(bech32_decode("1qqqqqqqq"), Err(DecodeError::SeparatorNotFound));
    assert_eq!(bech32_decode("union1qqqqq"), Err(DecodeError::SeparatorNotFound));
    assert_eq!(bech32_decode(""), Err(DecodeError::SeparatorNotFound));
    assert_eq!(
        bech32_decode("un on1qqqqqqqq"),
        Err(DecodeError::Hrp(HrpError::InvalidChar))
    );
    assert_eq!(bech32_decode("union1qqqqqqbq"), Err(DecodeError::InvalidCharacter));
    assert_eq!(bech32_decode("union1qqqqqqqi"), Err(DecodeError::InvalidCharacter));
    assert_eq!(bech32_decode("union1qqqqqqqq"), Err(DecodeError::InvalidChecksum));
}

#[test]
fn decode_nonzero_padding() {
    let h = bech32::Hrp::parse("union").unwrap();
    let s: String = [bech32::Fe32::P].iter().copied().with_checksum::<bech32::Bech32>(&h).chars().collect();
    assert_eq!(bech32_decode(&s), Err(DecodeError::NonZeroPadding));
}

#[test]
fn decode_uppercase_input() {
    let (hrp, data) = bech32_decode(&LITERAL.to_uppercase()).unwrap();
    assert_eq!(hrp, "union");
    assert_eq!(data.len(), 20);
}

#[test]
fn decode_rejects_unchecked_string() {
    let s = bech32_encode("union", &[1, 2, 3, 4, 5, 6], "nochecksum").unwrap();
    assert_eq!(bech32_decode(&s), Err(DecodeError::InvalidChecksum));
}

#[test]
fn longest_hrp_round_trips() {
    let hrp = "x".repeat(83);
    let s = bech32_encode(&hrp, &[], "bech32m").unwrap();
    assert_eq!(s.len(), 90);
    assert_eq!(bech32_decode(&s), Ok((hrp.clone(), vec![])));
    assert_eq!(bech32_encode(&hrp, &[0], "bech32m"), Err(EncodeError::TooLong));
}

#[test]
fn hrp_with_separator_character_round_trips() {
    let d: Vec<u8> = vec![0x10, 0x20, 0x30];
    let s = bech32_encode("a1b", &d, "bech32").unwrap();
    assert_eq!(bech32_decode(&s), Ok((String::from("a1b"), d)));
}

#[test]
fn separator_needs_six_characters_after_it() {
    // The last `1` leaves only two characters, so the earlier one is taken,
    // and the `1` after it is not in the alphabet.
    assert_eq!(bech32_decode("ab1qqqqqqqq1qq"), Err(DecodeError::InvalidCharacter));
}
