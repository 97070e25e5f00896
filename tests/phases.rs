use price_oracle::abi::encode_uint_array;
use price_oracle::decimal::{decimal_text, parse_unsigned};
use price_oracle::median::median;
use price_oracle::price::scale_price;
use price_oracle::observer::{
    observe_item, observe_scalar, split_identifiers, trim_input, ItemStep, ObserveError,
    QuoteOutcome,
};
use price_oracle::tally::{collect_values, tally_array, tally_median, FirstReveal, TallyError};

fn reveals(items: &[&[u8]]) -> Vec<Vec<u8>> {
    items.iter().map(|r| r.to_vec()).collect()
}

fn word(x: u64) -> Vec<u8> {
    let mut w = vec![0u8; 24];
    w.extend_from_slice(&x.to_be_bytes());
    w
}

fn decode_uint_array(bytes: &[u8]) -> Vec<u64> {
    let read = |at: usize| -> u64 {
        assert!(bytes[at..at + 24].iter().all(|b| *b == 0));
        let mut b = [0u8; 8];
        b.copy_from_slice(&bytes[at + 24..at + 32]);
        u64::from_be_bytes(b)
    };
    let offset = read(0) as usize;
    let n = read(offset) as usize;
    assert_eq!(bytes.len(), offset + 32 * (n + 1));
    (0..n).map(|i| read(offset + 32 * (i + 1))).collect()
}

#[test]
fn scale_price_rounds_to_millionths() {
    assert_eq!(scale_price(b"0.905"), Some(905000));
    assert_eq!(scale_price(b"1"), Some(1_000_000));
    assert_eq!(scale_price(b"0.1234565"), Some(123457));
    assert_eq!(scale_price(b"0.1234564999"), Some(123456));
    assert_eq!(scale_price(b"0.0000005"), Some(1));
    assert_eq!(scale_price(b"0.0000004"), Some(0));
    assert_eq!(scale_price(b".5"), Some(500000));
    assert_eq!(scale_price(b"5."), Some(5_000_000));
    assert_eq!(scale_price(b"12.000001"), Some(12_000_001));
}

#[test]
fn scale_price_ignores_trailing_zeros() {
    assert_eq!(scale_price(b"0.90"), Some(900000));
    assert_eq!(scale_price(b"0.900"), Some(900000));
    assert_eq!(scale_price(b"0.9000000000"), Some(900000));
    assert_eq!(scale_price(b"0.905"), scale_price(b"0.90500"));
}

#[test]
fn scale_price_rejects_bad_text() {
    for bad in [&b""[..], b".", b"abc", b"1.2.3", b"-1", b"+1", b" 1", b"1e-3", b"0,5"] {
        assert_eq!(scale_price(bad), None);
    }
}

#[test]
fn scale_price_detects_overflow() {
    assert_eq!(scale_price(b"18446744073709.551615"), Some(u64::MAX));
    assert_eq!(scale_price(b"18446744073709.5516155"), None);
    assert_eq!(scale_price(b"18446744073710"), None);
    assert_eq!(scale_price(b"99999999999999999999999"), None);
}

#[test]
fn parse_unsigned_reads_integers() {
    assert_eq!(parse_unsigned(b"905000"), Some(905000));
    assert_eq!(parse_unsigned(b"0"), Some(0));
    assert_eq!(parse_unsigned(b"007"), Some(7));
    assert_eq!(parse_unsigned(u128::MAX.to_string().as_bytes()), Some(u128::MAX));
    assert_eq!(parse_unsigned(b"340282366920938463463374607431768211456"), None);
    assert_eq!(parse_unsigned(b""), None);
    assert_eq!(parse_unsigned(b"12a"), None);
    assert_eq!(parse_unsigned(b"-3"), None);
    assert_eq!(parse_unsigned(b"1.5"), None);
}

#[test]
fn decimal_text_writes_integers() {
    assert_eq!(decimal_text(0), b"0".to_vec());
    assert_eq!(decimal_text(905000), b"905000".to_vec());
    assert_eq!(decimal_text(u128::MAX), u128::MAX.to_string().into_bytes());
    assert_eq!(parse_unsigned(&decimal_text(123456789)), Some(123456789));
}

#[test]
fn median_odd_and_even() {
    assert_eq!(median(vec![3, 1, 2]), 2);
    assert_eq!(median(vec![1, 2]), 1);
    assert_eq!(median(vec![7]), 7);
    assert_eq!(median(vec![10, 1, 4, 3]), 3);
    assert_eq!(median(vec![u128::MAX, u128::MAX]), u128::MAX);
    assert_eq!(median(vec![u128::MAX, u128::MAX - 1]), u128::MAX - 1);
}

#[test]
fn median_ignores_order() {
    let a = vec![5u128, 9, 1, 7, 3, 3];
    let b = vec![3u128, 1, 3, 9, 5, 7];
    assert_eq!(median(a), median(b));
    assert_eq!(median(vec![5, 9, 1, 7, 3, 3]), 4);
}

#[test]
fn tally_median_three_nodes() {
    let rs = reveals(&[b"904998", b"905000", b"905002"]);
    assert_eq!(tally_median(&rs), Ok(b"905000".to_vec()));
}

#[test]
fn tally_median_even_count_floors() {
    let rs = reveals(&[b"2", b"1"]);
    assert_eq!(tally_median(&rs), Ok(b"1".to_vec()));
}

#[test]
fn tally_median_without_reveals_has_no_consensus() {
    assert_eq!(tally_median(&Vec::new()), Err(TallyError::NoConsensus));
    let rs = reveals(&[&[0xff, 0xfe], b"abc", b""]);
    assert_eq!(tally_median(&rs), Err(TallyError::NoConsensus));
}

#[test]
fn tally_median_skips_malformed_reveals() {
    let mixed = reveals(&[b"10", &[0xff, 0x00], b"30", b"x1", b"20", b"-5"]);
    let clean = reveals(&[b"10", b"30", b"20"]);
    assert_eq!(collect_values(&mixed), vec![10, 30, 20]);
    assert_eq!(tally_median(&mixed), tally_median(&clean));
    assert_eq!(tally_median(&mixed), Ok(b"20".to_vec()));
}

#[test]
fn abi_encoding_of_two_prices() {
    let bytes = encode_uint_array(&vec![105000, 895000]);
    assert_eq!(bytes.len(), 128);
    let expected = [
        "0000000000000000000000000000000000000000000000000000000000000020",
        "0000000000000000000000000000000000000000000000000000000000000002",
        "0000000000000000000000000000000000000000000000000000000000019a28",
        "00000000000000000000000000000000000000000000000000000000000da818",
    ]
    .concat();
    assert_eq!(hex::encode(&bytes), expected);
    assert_eq!(105000u64, 0x019a28);
    assert_eq!(895000u64, 0x0da818);
    assert_eq!(decode_uint_array(&bytes), vec![105000, 895000]);
}

#[test]
fn abi_encoding_of_empty_and_large() {
    let empty = encode_uint_array(&Vec::new());
    assert_eq!(empty, [word(32), word(0)].concat());
    let big = encode_uint_array(&vec![u64::MAX, 0, 1]);
    assert_eq!(big.len(), 32 * 5);
    assert_eq!(big, [word(32), word(3), word(u64::MAX), word(0), word(1)].concat());
    assert_eq!(decode_uint_array(&big), vec![u64::MAX, 0, 1]);
}

#[test]
fn tally_array_two_identifiers() {
    let prices = [0.10f64, 0.20f64];
    let scaled: Vec<u64> = prices.iter().map(|p| (p * 1_000_000.0) as u64).collect();
    assert_eq!(scaled, vec![100000, 200000]);
    let out = tally_array(FirstReveal::Prices(scaled)).unwrap();
    assert_eq!(out.len(), 32 * (2 + 2));
    assert_eq!(out, [word(32), word(2), word(100000), word(200000)].concat());
}

#[test]
fn tally_array_failures() {
    assert_eq!(tally_array(FirstReveal::Missing), Err(TallyError::NoConsensus));
    assert_eq!(tally_array(FirstReveal::Malformed), Err(TallyError::MalformedReveal));
}

fn chars(s: &str) -> Vec<char> {
    s.chars().collect()
}

#[test]
fn identifiers_are_trimmed_and_split() {
    assert_eq!(split_identifiers(" A,B \n"), vec![chars("A"), chars("B")]);
    assert_eq!(split_identifiers("XYZ"), vec![chars("XYZ")]);
    assert_eq!(split_identifiers(""), vec![Vec::<char>::new()]);
    assert_eq!(
        split_identifiers("a,,b,"),
        vec![chars("a"), Vec::new(), chars("b"), Vec::new()]
    );
    assert_eq!(split_identifiers("\u{a0}x, y\u{3000}"), vec![chars("x"), chars(" y")]);
    assert_eq!(trim_input("\t 123 456\r\n"), chars("123 456"));
    assert_eq!(trim_input("   "), Vec::<char>::new());
}

#[test]
fn identifiers_trim_unicode_whitespace() {
    let input = "\u{a0}\u{85}\u{2003}XYZ\u{2028}\u{3000}\u{b}";
    assert_eq!(trim_input(input), chars("XYZ"));
    assert_eq!(trim_input(input), chars(input.trim()));
    assert_eq!(trim_input("\u{200b}XYZ"), chars("\u{200b}XYZ"));
}

#[test]
fn observe_scalar_scales_the_mid_price() {
    let r = observe_scalar(QuoteOutcome::Mid(b"0.905".to_vec()));
    assert_eq!(r, Ok(b"905000".to_vec()));
    assert_eq!(observe_scalar(QuoteOutcome::Rejected), Err(ObserveError::FetchFailed));
    assert_eq!(observe_scalar(QuoteOutcome::Undecodable), Err(ObserveError::UndecodableBody));
    assert_eq!(observe_scalar(QuoteOutcome::Unparsable), Err(ObserveError::MalformedQuote));
    assert_eq!(
        observe_scalar(QuoteOutcome::Mid(b"n/a".to_vec())),
        Err(ObserveError::InvalidPrice)
    );
}

#[test]
fn observe_item_policy() {
    assert!(matches!(observe_item(QuoteOutcome::Rejected), ItemStep::Skip));
    assert!(matches!(
        observe_item(QuoteOutcome::Undecodable),
        ItemStep::Abort(ObserveError::UndecodableBody)
    ));
    assert!(matches!(
        observe_item(QuoteOutcome::Unparsable),
        ItemStep::Abort(ObserveError::MalformedQuote)
    ));
    for mid in [&b"1e-7"[..], b"+0.1", b"1E2", b"inf", b"abc"] {
        match observe_item(QuoteOutcome::Mid(mid.to_vec())) {
            ItemStep::Keep(t) => assert_eq!(t, mid.to_vec()),
            _ => panic!("every mid price text is kept"),
        }
    }
    match observe_item(QuoteOutcome::Mid(b"0.10".to_vec())) {
        ItemStep::Keep(t) => assert_eq!(t, b"0.10".to_vec()),
        _ => panic!("a good mid price is kept"),
    }
}

#[test]
fn end_to_end_scalar_flow() {
    let ids = trim_input(" XYZ\n");
    assert_eq!(ids, chars("XYZ"));
    let own = observe_scalar(QuoteOutcome::Mid(b"0.905".to_vec())).unwrap();
    assert_eq!(own, b"905000".to_vec());
    let rs = vec![b"904998".to_vec(), own, b"905002".to_vec()];
    assert_eq!(tally_median(&rs), Ok(b"905000".to_vec()));
}

#[test]
fn tally_median_ignores_reveal_order() {
    let a = reveals(&[b"905002", b"bad", b"904998", b"905000", b"904990"]);
    let b = reveals(&[b"904990", b"905000", b"905002", b"904998", b"bad"]);
    assert_eq!(tally_median(&a), tally_median(&b));
    assert_eq!(tally_median(&a), Ok(b"904999".to_vec()));
}
