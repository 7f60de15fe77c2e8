use package_metadata::address::AddressError;
use package_metadata::hexcodec::HexError;
use package_metadata::model::{AccountAddress, PackageDep, ADDRESS_LENGTH};

const SAMPLE: &str = "a272d39841bac0be1e8a8f5f4ab3185be67527cd7f5d8f3973df6140961299f9";

fn sample_bytes() -> [u8; 32] {
    [
        0xa2, 0x72, 0xd3, 0x98, 0x41, 0xba, 0xc0, 0xbe, 0x1e, 0x8a, 0x8f, 0x5f, 0x4a, 0xb3, 0x18,
        0x5b, 0xe6, 0x75, 0x27, 0xcd, 0x7f, 0x5d, 0x8f, 0x39, 0x73, 0xdf, 0x61, 0x40, 0x96, 0x12,
        0x99, 0xf9,
    ]
}

#[test]
fn address_length_is_32() {
    assert_eq!(ADDRESS_LENGTH, 32);
}

#[test]
fn parse_refuses_the_empty_text() {
    assert_eq!(AccountAddress::parse(""), Err(AddressError::TooShort));
}

#[test]
fn parse_refuses_63_digits() {
    let text = &SAMPLE[..63];
    assert_eq!(AccountAddress::parse(text), Err(AddressError::Hex(HexError::OddLength)));
}

#[test]
fn parse_refuses_62_digits() {
    let text = &SAMPLE[..62];
    assert_eq!(AccountAddress::parse(text), Err(AddressError::TooShort));
}

#[test]
fn parse_takes_64_digits() {
    let a = AccountAddress::parse(SAMPLE).unwrap();
    assert_eq!(a.to_bytes(), sample_bytes());
    assert_eq!(a, AccountAddress::new(sample_bytes()));
}

#[test]
fn text_of_parsed_is_the_text() {
    let a = AccountAddress::parse(SAMPLE).unwrap();
    assert_eq!(a.to_text(), SAMPLE);
    assert_eq!(a.to_text().len(), 64);
}

#[test]
fn text_of_parsed_uppercase_is_lowercase() {
    let upper = SAMPLE.to_uppercase();
    assert_ne!(upper, SAMPLE);
    let a = AccountAddress::parse(&upper).unwrap();
    assert_eq!(a.to_text(), SAMPLE);
    let mixed = "A272d39841BAC0be1e8a8f5f4ab3185BE67527cd7f5d8f3973df6140961299F9";
    assert_eq!(AccountAddress::parse(mixed).unwrap().to_text(), SAMPLE);
}

#[test]
fn parse_of_text_is_the_address() {
    for seed in [0u8, 1, 0x7f, 0x80, 0xff] {
        let mut bytes = [seed; 32];
        bytes[0] = 0;
        bytes[31] = 0xff;
        let a = AccountAddress::new(bytes);
        assert_eq!(AccountAddress::parse(&a.to_text()), Ok(a));
        assert_eq!(AccountAddress::from_hex(&a.to_text()), Ok(a));
    }
}

#[test]
fn text_has_no_prefix_and_keeps_leading_zeros() {
    let a = AccountAddress::new([0u8; 32]);
    assert_eq!(a.to_text(), "0".repeat(64));
    let mut one = [0u8; 32];
    one[31] = 1;
    assert_eq!(AccountAddress::new(one).to_text(), format!("{}1", "0".repeat(63)));
}

#[test]
fn parse_cuts_a_longer_text_to_32_bytes() {
    let long = format!("{}ffee", SAMPLE);
    let a = AccountAddress::parse(&long).unwrap();
    assert_eq!(a.to_bytes(), sample_bytes());
}

#[test]
fn from_hex_refuses_a_longer_text() {
    let long = format!("{}ffee", SAMPLE);
    assert_eq!(AccountAddress::from_hex(&long), Err(HexError::InvalidStringLength));
}

#[test]
fn from_hex_refuses_a_shorter_text() {
    assert_eq!(AccountAddress::from_hex(""), Err(HexError::InvalidStringLength));
    assert_eq!(AccountAddress::from_hex(&SAMPLE[..62]), Err(HexError::InvalidStringLength));
    assert_eq!(AccountAddress::from_hex(&SAMPLE[..63]), Err(HexError::OddLength));
}

#[test]
fn from_hex_takes_64_digits() {
    assert_eq!(AccountAddress::from_hex(SAMPLE), Ok(AccountAddress::new(sample_bytes())));
    assert_eq!(
        AccountAddress::from_hex(&SAMPLE.to_uppercase()),
        Ok(AccountAddress::new(sample_bytes()))
    );
}

#[test]
fn from_hex_agrees_with_the_hex_crate() {
    let direct: [u8; 32] = hex::FromHex::from_hex(SAMPLE).unwrap();
    assert_eq!(AccountAddress::from_hex(SAMPLE).unwrap().to_bytes(), direct);
    assert_eq!(AccountAddress::new(direct).to_text(), hex::encode(direct));
}

#[test]
fn invalid_digit_is_reported_with_its_place() {
    let bad = format!("{}g{}", &SAMPLE[..10], &SAMPLE[11..]);
    let expected = HexError::InvalidHexCharacter { c: 'g', index: 10 };
    assert_eq!(AccountAddress::parse(&bad), Err(AddressError::Hex(expected)));
    assert_eq!(AccountAddress::from_hex(&bad), Err(expected));
}

#[test]
fn first_invalid_digit_wins() {
    let bad = format!("zz{}x", &SAMPLE[..61]);
    assert_eq!(
        AccountAddress::parse(&bad),
        Err(AddressError::Hex(HexError::InvalidHexCharacter { c: 'z', index: 0 }))
    );
    let second = format!("0-{}", &SAMPLE[..62]);
    assert_eq!(
        AccountAddress::parse(&second),
        Err(AddressError::Hex(HexError::InvalidHexCharacter { c: '-', index: 1 }))
    );
}

#[test]
fn odd_length_is_reported_before_an_invalid_digit() {
    assert_eq!(AccountAddress::parse("xyz"), Err(AddressError::Hex(HexError::OddLength)));
    assert_eq!(AccountAddress::from_hex("xyz"), Err(HexError::OddLength));
}

#[test]
fn from_hex_reports_length_before_an_invalid_digit() {
    assert_eq!(AccountAddress::from_hex("zz"), Err(HexError::InvalidStringLength));
}

#[test]
fn prefixed_text_is_refused() {
    let prefixed = format!("0x{}", &SAMPLE[..62]);
    assert_eq!(
        AccountAddress::parse(&prefixed),
        Err(AddressError::Hex(HexError::InvalidHexCharacter { c: 'x', index: 1 }))
    );
}

#[test]
fn non_ascii_text_is_refused_by_its_first_byte() {
    let text = format!("\u{e9}{}", &SAMPLE[..62]);
    assert_eq!(text.len(), 64);
    assert_eq!(
        AccountAddress::parse(&text),
        Err(AddressError::Hex(HexError::InvalidHexCharacter { c: '\u{c3}', index: 0 }))
    );
}

#[test]
fn from_slice_copies_32_bytes_from_the_start() {
    let mut bytes = vec![0xeeu8; 3];
    bytes.extend_from_slice(&sample_bytes());
    bytes.push(0xee);
    assert_eq!(AccountAddress::from_slice(&bytes, 3).to_bytes(), sample_bytes());
}

#[test]
fn addresses_are_ordered_byte_by_byte() {
    let low = AccountAddress::new([0u8; 32]);
    let mut mid_bytes = [0u8; 32];
    mid_bytes[31] = 1;
    let mid = AccountAddress::new(mid_bytes);
    let mut high_bytes = [0u8; 32];
    high_bytes[0] = 1;
    let high = AccountAddress::new(high_bytes);
    assert!(low < mid && mid < high);
    let mut sorted = vec![high, low, mid];
    sorted.sort();
    assert_eq!(sorted, vec![low, mid, high]);
}

#[test]
fn dependencies_are_ordered_by_account_then_name() {
    let a = AccountAddress::new([1u8; 32]);
    let b = AccountAddress::new([2u8; 32]);
    let d1 = PackageDep { account: a, package_name: "zeta".to_string() };
    let d2 = PackageDep { account: b, package_name: "alpha".to_string() };
    let d3 = PackageDep { account: b, package_name: "beta".to_string() };
    assert!(d1 < d2 && d2 < d3);
    assert_eq!(d1, d1.clone());
    assert_ne!(d2, d3);
}
