use std::str::FromStr;

use uuid32::{Uuid32, Uuid32Error};

const VALUE: u128 = 2107409058113878995600607032774715894;
const COMPACT: &str = "1jqfmkr26e00swayb1r4rytfp";
const HEX: &str = "0195df49-e046-7001-9e2b-cb0e098f69f6";
const LONG_FROM: u128 = 1 << 125;

/// `digits` with zeros before it to make 25 characters.
fn padded(digits: &str) -> String {
    format!("{}{}", "0".repeat(25 - digits.len()), digits)
}

#[test]
fn try_from() {
    let expected = Ok(Uuid32::from_u128(2107409058113878995600607032774715894));

    let s1 = "1jqfmkr26e00swayb1r4rytfp";
    assert_eq!(Uuid32::try_from(s1), expected);
    assert_eq!(Uuid32::try_from(s1.to_owned()), expected);
    assert_eq!(Uuid32::try_from(&s1.to_owned()), expected);
    assert_eq!(Uuid32::from_str(s1), expected);
    let j = Uuid32::try_from(s1).unwrap().to_string();
    assert_eq!(j.as_str(), s1);

    let s2 = "0195df49-e046-7001-9e2b-cb0e098f69f6";
    assert_eq!(Uuid32::try_from(s2), expected);
    assert_eq!(Uuid32::try_from(s2.to_owned()), expected);
    assert_eq!(Uuid32::try_from(&s2.to_owned()), expected);
    assert_eq!(Uuid32::from_str(s2), expected);
    let j = Uuid32::try_from(s2).unwrap().to_string();
    assert_eq!(j.as_str(), s1); // not s2

    let s3 = "?!";
    assert!(Uuid32::try_from(s3).is_err());
    assert!(Uuid32::try_from(s3.to_owned()).is_err());
    assert!(Uuid32::try_from(&s3.to_owned()).is_err());
    assert!(Uuid32::from_str(s3).is_err());
}

#[test]
fn concrete_vector_both_ways() {
    let u = Uuid32::from_u128(VALUE);
    assert_eq!(u.to_compact_form(), COMPACT);
    assert_eq!(u.to_string(), COMPACT);
    assert_eq!(u.to_hex_form(), HEX);
    assert_eq!(Uuid32::from_compact_form(COMPACT), Ok(u));
    assert_eq!(Uuid32::from_hex_form(HEX), Ok(u));
    assert_eq!(Uuid32::from_any_form(COMPACT), Ok(u));
    assert_eq!(Uuid32::from_any_form(HEX), Ok(u));
    assert_eq!(uuid32::uuid32::decode(COMPACT), Ok(u));
    assert_eq!(u.inner(), VALUE);
}

#[test]
fn compact_round_trip_on_values() {
    for v in [0u128, 1, 31, 32, 1023, 1024, VALUE, u128::MAX - 1, u128::MAX, LONG_FROM, LONG_FROM - 1] {
        let s = Uuid32::from_u128(v).to_compact_form();
        assert_eq!(s.len(), if v < LONG_FROM { 25 } else { 26 }, "{s}");
        assert_eq!(Uuid32::from_compact_form(&s), Ok(Uuid32::from_u128(v)), "{s}");
        assert_eq!(Uuid32::from_any_form(&s), Ok(Uuid32::from_u128(v)), "{s}");
    }
}

#[test]
fn hex_round_trip_on_values() {
    for v in [0u128, 1, 15, 16, 255, VALUE, u128::MAX - 1, u128::MAX, 1 << 127] {
        let s = Uuid32::from_u128(v).to_hex_form();
        assert_eq!(s.len(), 36);
        assert_eq!(Uuid32::from_hex_form(&s), Ok(Uuid32::from_u128(v)), "{s}");
    }
}

#[test]
fn both_forms_agree() {
    for v in [0u128, 7, VALUE, u128::MAX] {
        let u = Uuid32::from_u128(v);
        assert_eq!(
            Uuid32::from_compact_form(&u.to_compact_form()),
            Uuid32::from_hex_form(&u.to_hex_form())
        );
    }
}

#[test]
fn compact_form_digits() {
    assert_eq!(Uuid32::from_u128(0).to_compact_form(), "0000000000000000000000000");
    assert_eq!(Uuid32::from_u128(9).to_compact_form(), "0000000000000000000000009");
    assert_eq!(Uuid32::from_u128(10).to_compact_form(), padded("a"));
    assert_eq!(Uuid32::from_u128(17).to_compact_form(), padded("h"));
    assert_eq!(Uuid32::from_u128(18).to_compact_form(), padded("j"));
    assert_eq!(Uuid32::from_u128(19).to_compact_form(), padded("k"));
    assert_eq!(Uuid32::from_u128(20).to_compact_form(), padded("m"));
    assert_eq!(Uuid32::from_u128(21).to_compact_form(), padded("n"));
    assert_eq!(Uuid32::from_u128(22).to_compact_form(), padded("p"));
    assert_eq!(Uuid32::from_u128(26).to_compact_form(), padded("t"));
    assert_eq!(Uuid32::from_u128(27).to_compact_form(), padded("v"));
    assert_eq!(Uuid32::from_u128(31).to_compact_form(), padded("z"));
    assert_eq!(Uuid32::from_u128(32).to_compact_form(), "0000000000000000000000010");
    assert_eq!(Uuid32::from_u128(111).to_compact_form(), padded("3f"));
    assert_eq!(Uuid32::from_u128(1024).to_compact_form(), padded("100"));
}

#[test]
fn compact_form_width() {
    assert_eq!(Uuid32::from_u128(LONG_FROM - 1).to_compact_form(), "z".repeat(25));
    assert_eq!(
        Uuid32::from_u128(LONG_FROM).to_compact_form(),
        "10000000000000000000000000"
    );
    assert_eq!(Uuid32::from_u128(LONG_FROM).to_string().len(), 26);
    assert_eq!(Uuid32::from_u128(VALUE).to_string().len(), 25);
    assert_eq!(Uuid32::nil().to_string().len(), 25);
    assert_eq!(Uuid32::max().to_string().len(), 26);
}

#[test]
fn nil_and_max() {
    assert_eq!(Uuid32::nil().inner(), 0);
    assert_eq!(Uuid32::max().inner(), u128::MAX);
    assert_eq!(Uuid32::default(), Uuid32::nil());
    assert_eq!(Uuid32::nil().to_compact_form(), "0000000000000000000000000");
    assert_eq!(Uuid32::max().to_compact_form(), "7zzzzzzzzzzzzzzzzzzzzzzzzz");
    assert_eq!(Uuid32::nil().to_hex_form(), "00000000-0000-0000-0000-000000000000");
    assert_eq!(Uuid32::max().to_hex_form(), "ffffffff-ffff-ffff-ffff-ffffffffffff");
    assert_eq!(Uuid32::nil().to_bytes(), [0u8; 16]);
    assert_eq!(Uuid32::max().to_bytes(), [0xffu8; 16]);
}

#[test]
fn compact_decode_ignores_case() {
    let u = Uuid32::from_u128(VALUE);
    assert_eq!(Uuid32::from_compact_form("1JQFMKR26E00SWAYB1R4RYTFP"), Ok(u));
    assert_eq!(Uuid32::from_compact_form("1jQfMkR26e00SwAyB1r4RyTfP"), Ok(u));
    assert_eq!(
        Uuid32::from_compact_form("1JQFMKR26E00SWAYB1R4RYTFP").unwrap().to_compact_form(),
        COMPACT
    );
}

#[test]
fn compact_decode_reads_look_alike_letters() {
    assert_eq!(Uuid32::from_compact_form(&padded("i")), Ok(Uuid32::from_u128(1)));
    assert_eq!(Uuid32::from_compact_form(&padded("I")), Ok(Uuid32::from_u128(1)));
    assert_eq!(Uuid32::from_compact_form(&padded("l")), Ok(Uuid32::from_u128(1)));
    assert_eq!(Uuid32::from_compact_form(&padded("L")), Ok(Uuid32::from_u128(1)));
    assert_eq!(Uuid32::from_compact_form(&padded("o")), Ok(Uuid32::from_u128(0)));
    assert_eq!(Uuid32::from_compact_form(&padded("O")), Ok(Uuid32::from_u128(0)));
    assert_eq!(Uuid32::from_compact_form(&padded("lo")), Ok(Uuid32::from_u128(32)));
    assert_eq!(Uuid32::from_compact_form(&padded("3F")), Ok(Uuid32::from_u128(111)));
    assert_eq!(Uuid32::from_compact_form(&"o".repeat(25)), Ok(Uuid32::nil()));
    assert_eq!(
        Uuid32::from_compact_form("Lzzzzzzzzzzzzzzzzzzzzzzzzz"),
        Ok(Uuid32::from_u128(2 * LONG_FROM - 1))
    );
    assert_eq!(
        Uuid32::from_compact_form("Ozzzzzzzzzzzzzzzzzzzzzzzzz"),
        Ok(Uuid32::from_u128(LONG_FROM - 1))
    );
}

#[test]
fn compact_decode_rejects() {
    let bad = Err(Uuid32Error::InvalidCompactForm);
    assert_eq!(Uuid32::from_compact_form("?!"), bad);
    assert_eq!(Uuid32::from_compact_form(&padded("u")), bad);
    assert_eq!(Uuid32::from_compact_form(&padded("U")), bad);
    assert_eq!(Uuid32::from_compact_form("u0000000000000000000000000"), bad);
    assert_eq!(Uuid32::from_compact_form("1jqfmkr26e00swayb1r4rytf-"), bad);
    assert_eq!(Uuid32::from_compact_form("1jqfmkr26e00 swayb1r4rytfp"), bad);
    assert_eq!(Uuid32::from_compact_form("é"), bad);
    assert_eq!(Uuid32::from_compact_form(&padded("é")), bad);
    assert_eq!(Uuid32::from_compact_form("é000000000000000000000000"), bad);
    assert_eq!(Uuid32::from_compact_form(&"0".repeat(27)), bad);
    assert_eq!(Uuid32::from_compact_form(HEX), bad);
}

#[test]
fn compact_decode_lengths() {
    let bad = Err(Uuid32Error::InvalidCompactForm);
    assert_eq!(Uuid32::from_compact_form(""), bad);
    assert_eq!(Uuid32::from_compact_form("a"), bad);
    assert_eq!(Uuid32::from_compact_form("b"), bad);
    assert_eq!(Uuid32::from_compact_form("0"), bad);
    assert_eq!(Uuid32::from_compact_form("1jqfmkr26e00swayb1r4rytf"), bad);
    assert_eq!(Uuid32::from_compact_form(&"0".repeat(24)), bad);
    assert_eq!(Uuid32::from_compact_form(&"0".repeat(25)), Ok(Uuid32::nil()));
    assert_eq!(Uuid32::from_compact_form(&"0".repeat(26)), Ok(Uuid32::nil()));
    assert_eq!(
        Uuid32::from_compact_form("01jqfmkr26e00swayb1r4rytfp"),
        Ok(Uuid32::from_u128(VALUE))
    );
    assert_eq!(Uuid32::from_compact_form(&"z".repeat(25)), Ok(Uuid32::from_u128(LONG_FROM - 1)));
}

#[test]
fn compact_decode_rejects_more_than_128_bits() {
    let bad = Err(Uuid32Error::InvalidCompactForm);
    assert_eq!(Uuid32::from_compact_form("7zzzzzzzzzzzzzzzzzzzzzzzzz"), Ok(Uuid32::max()));
    assert_eq!(Uuid32::from_compact_form("8zzzzzzzzzzzzzzzzzzzzzzzzz"), bad);
    assert_eq!(Uuid32::from_compact_form("80000000000000000000000000"), bad);
    assert_eq!(Uuid32::from_compact_form("90000000000000000000000000"), bad);
    assert_eq!(Uuid32::from_compact_form("a0000000000000000000000000"), bad);
    assert_eq!(Uuid32::from_compact_form(&"z".repeat(26)), bad);
    assert_eq!(
        Uuid32::from_any_form("8zzzzzzzzzzzzzzzzzzzzzzzzz"),
        Err(Uuid32Error::Unrecognized)
    );
    assert_eq!(
        uuid32::uuid32::decode("8zzzzzzzzzzzzzzzzzzzzzzzzz"),
        Err(Uuid32Error::Unrecognized)
    );
}

#[test]
fn hex_decode_accepts_both_shapes_and_cases() {
    let u = Uuid32::from_u128(VALUE);
    assert_eq!(Uuid32::from_hex_form("0195df49e04670019e2bcb0e098f69f6"), Ok(u));
    assert_eq!(Uuid32::from_hex_form("0195DF49-E046-7001-9E2B-CB0E098F69F6"), Ok(u));
    assert_eq!(Uuid32::from_hex_form("0195DF49E04670019E2BCB0E098F69F6"), Ok(u));
    assert_eq!(
        Uuid32::from_hex_form("0195DF49-E046-7001-9E2B-CB0E098F69F6").unwrap().to_hex_form(),
        HEX
    );
}

#[test]
fn hex_decode_rejects() {
    let bad = Err(Uuid32Error::InvalidHexForm);
    assert_eq!(Uuid32::from_hex_form("?!"), bad);
    assert_eq!(Uuid32::from_hex_form(""), bad);
    assert_eq!(Uuid32::from_hex_form(COMPACT), bad);
    assert_eq!(Uuid32::from_hex_form("0195df49-e046-7001-9e2b-cb0e098f69f"), bad);
    assert_eq!(Uuid32::from_hex_form("0195df49-e046-7001-9e2b-cb0e098f69f6a"), bad);
    assert_eq!(Uuid32::from_hex_form("0195df49e-046-7001-9e2b-cb0e098f69f6"), bad);
    assert_eq!(Uuid32::from_hex_form("0195df49-e046-7001-9e2b-cb0e098f69fg"), bad);
    assert_eq!(Uuid32::from_hex_form("0195df49e04670019e2bcb0e098f69fg"), bad);
    assert_eq!(Uuid32::from_hex_form("0195df49-e04670019e2bcb0e098f69f6"), bad);
    assert_eq!(Uuid32::from_hex_form("{0195df49-e046-7001-9e2b-cb0e098f69f6}"), bad);
    assert_eq!(Uuid32::from_hex_form("urn:uuid:0195df49-e046-7001-9e2b-cb0e098f69f6"), bad);
    assert_eq!(Uuid32::from_hex_form("0195df49-e046-7001-9e2b-cb0e098f69é"), bad);
    assert_eq!(Uuid32::from_hex_form("0195df49e04670019e2bcb0e098fé"), bad);
}

#[test]
fn any_form_rejects_what_is_neither() {
    let bad = Err(Uuid32Error::Unrecognized);
    assert_eq!(Uuid32::from_any_form("?!"), bad);
    assert_eq!(Uuid32::from_any_form("not an identifier"), bad);
    assert_eq!(Uuid32::from_any_form("{0195df49-e046-7001-9e2b-cb0e098f69f6}"), bad);
    assert_eq!(uuid32::uuid32::decode("?!"), bad);
    assert_eq!(Uuid32::from_any_form(""), bad);
    assert_eq!(Uuid32::from_any_form("a"), bad);
    assert_eq!(Uuid32::try_from("a"), bad);
    assert_eq!(Uuid32::try_from("b"), bad);
    assert_eq!(uuid32::uuid32::decode("1jqfmkr26e00swayb1r4rytf"), bad);
}

#[test]
fn bytes_both_ways() {
    let u = Uuid32::from_u128(VALUE);
    let b = u.to_bytes();
    assert_eq!(
        b,
        [0x01, 0x95, 0xdf, 0x49, 0xe0, 0x46, 0x70, 0x01, 0x9e, 0x2b, 0xcb, 0x0e, 0x09, 0x8f, 0x69, 0xf6]
    );
    assert_eq!(b, VALUE.to_be_bytes());
    assert_eq!(Uuid32::from_bytes(&b), Ok(u));
    assert_eq!(Uuid32::from_bytes(&[0u8; 16]), Ok(Uuid32::nil()));
    assert_eq!(Uuid32::from_bytes(&[0xffu8; 16]), Ok(Uuid32::max()));
    let mut one = [0u8; 16];
    one[15] = 1;
    assert_eq!(Uuid32::from_bytes(&one), Ok(Uuid32::from_u128(1)));
    one[0] = 0x80;
    assert_eq!(Uuid32::from_bytes(&one), Ok(Uuid32::from_u128((1 << 127) + 1)));
}

#[test]
fn bytes_of_another_length_are_refused() {
    let bad = Err(Uuid32Error::InvalidByteLength);
    assert_eq!(Uuid32::from_bytes(&[]), bad);
    assert_eq!(Uuid32::from_bytes(&[0u8; 15]), bad);
    assert_eq!(Uuid32::from_bytes(&[0u8; 17]), bad);
}

#[test]
fn order_is_that_of_the_values() {
    let a = Uuid32::from_u128(1);
    let b = Uuid32::from_u128(2);
    let c = Uuid32::from_u128(1 << 100);
    assert!(a < b && b < c && a < c);
    assert!(a <= a && a >= a && !(a < a));
    assert!(uuid32::order::precedes(&a, &b));
    assert!(!uuid32::order::precedes(&b, &a));
    assert!(!uuid32::order::precedes(&a, &a));
    assert_eq!(a.cmp(&b), std::cmp::Ordering::Less);
    assert_eq!(a.partial_cmp(&b), Some(std::cmp::Ordering::Less));
    assert_eq!(c.partial_cmp(&b), Some(std::cmp::Ordering::Greater));
    assert_eq!(b.partial_cmp(&b), Some(std::cmp::Ordering::Equal));
    let mut v = vec![c, a, Uuid32::max(), b, Uuid32::nil()];
    v.sort();
    assert_eq!(v, vec![Uuid32::nil(), a, b, c, Uuid32::max()]);
    assert_eq!(a, Uuid32::from_u128(1));
    assert_ne!(a, b);
}

#[test]
fn compact_forms_of_equal_length_sort_as_values() {
    let values = [0u128, 1, 2, 31, 32, 33, 63, 64, 500, 1023, 1024, VALUE, VALUE + 1, LONG_FROM - 1];
    for w in values.windows(2) {
        let a = Uuid32::from_u128(w[0]).to_compact_form();
        let b = Uuid32::from_u128(w[1]).to_compact_form();
        assert_eq!(a.len(), 25);
        assert_eq!(b.len(), 25);
        assert!(a < b, "{a} {b}");
    }
    let values = [LONG_FROM, LONG_FROM + 1, LONG_FROM + 32, 1 << 127, u128::MAX - 1, u128::MAX];
    for w in values.windows(2) {
        let a = Uuid32::from_u128(w[0]).to_compact_form();
        let b = Uuid32::from_u128(w[1]).to_compact_form();
        assert_eq!(a.len(), 26);
        assert_eq!(b.len(), 26);
        assert!(a < b, "{a} {b}");
    }
}

#[test]
fn compact_forms_of_unequal_length() {
    let short = Uuid32::from_u128(LONG_FROM - 1).to_compact_form();
    let long = Uuid32::from_u128(LONG_FROM).to_compact_form();
    assert!(short.len() < long.len());
    assert!(short > long);
    let low = Uuid32::from_u128(LONG_FROM / 32).to_compact_form();
    assert!(low < long);
    let next = Uuid32::from_u128(LONG_FROM / 32 + 1).to_compact_form();
    assert!(next > long);
    assert!(Uuid32::nil().to_compact_form() < long);
}

