use cheese_scraper::model::name_or_unknown;
use cheese_scraper::numbers::{is_float_text, parse_u32, IntError};
use cheese_scraper::text::{decimal_string, trim_text};

#[test]
fn parse_u32_matches_std() {
    for s in ["0", "42", "+7", "4294967295", "4294967296", "", "+", "-", "-1", "1 ", " 1", "12a", "99999999999", "9999999999x", "007"] {
        let expected = s.parse::<u32>();
        let got = parse_u32(s);
        match (expected, got) {
            (Ok(a), Ok(b)) => assert_eq!(a, b, "{:?}", s),
            (Err(e), Err(k)) => assert_eq!(e.to_string(), k.message(), "{:?}", s),
            (e, g) => panic!("{:?}: std {:?}, library {:?}", s, e, g),
        }
    }
}

#[test]
fn parse_u32_error_kinds() {
    assert_eq!(parse_u32(""), Err(IntError::Empty));
    assert_eq!(parse_u32("+"), Err(IntError::InvalidDigit));
    assert_eq!(parse_u32("12x"), Err(IntError::InvalidDigit));
    assert_eq!(parse_u32("4294967296"), Err(IntError::PosOverflow));
    assert_eq!(parse_u32("+4294967295"), Ok(4294967295));
}

#[test]
fn float_texts_match_std() {
    for s in ["1", "1.5", ".5", "5.", "-2.25", "+3", "1e5", "1E-5", "2.5e+3", "inf", "-Infinity", "NaN", "nan", "INF",
              "", "+", ".", "e5", "1e", "1e+", "1.2.3", "abc", " 1", "1 ", "infin", "0x10", "1_000", "--1"] {
        assert_eq!(is_float_text(s), s.parse::<f64>().is_ok(), "{:?}", s);
        assert_eq!(is_float_text(s), s.parse::<f32>().is_ok(), "{:?}", s);
    }
}

#[test]
fn decimal_matches_to_string_and_reads_back() {
    for n in [0u64, 7, 10, 99, 100, 4294967295, 18446744073709551615] {
        assert_eq!(decimal_string(n), n.to_string());
    }
    for n in [0u32, 5, 12345, u32::MAX] {
        assert_eq!(parse_u32(&decimal_string(n as u64)), Ok(n));
    }
}

#[test]
fn trim_matches_std() {
    for s in ["  name  ", "\t\nx y\r\n", "", "   ", "\u{3000}wide\u{a0}", "plain", " \u{200b}z "] {
        assert_eq!(trim_text(s), s.trim(), "{:?}", s);
    }
}

#[test]
fn missing_leaderboard_name_reads_unknown() {
    assert_eq!(name_or_unknown(None), "UNKNOWN");
    assert_eq!(name_or_unknown(Some("abc".to_string())), "abc");
}
