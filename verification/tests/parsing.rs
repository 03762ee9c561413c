use portfolio::num::{parse_capital, parse_price, SCALE};
use portfolio::parse::tokenize;
use portfolio::portfolio::{parse_line, ParsedLine};
use portfolio::symbols::Crypto;

#[test]
fn price_with_two_decimals() {
    assert_eq!(parse_price("0.02"), Some(2_000_000));
}

#[test]
fn price_whole_dollars() {
    assert_eq!(parse_price("5"), Some(5 * SCALE));
    assert_eq!(parse_price("104094"), Some(104_094 * SCALE));
}

#[test]
fn price_all_eight_fraction_digits() {
    assert_eq!(parse_price("1.00000001"), Some(SCALE + 1));
}

#[test]
fn price_accepts_bare_dot_forms() {
    assert_eq!(parse_price(".5"), Some(50_000_000));
    assert_eq!(parse_price("5."), Some(5 * SCALE));
}

#[test]
fn price_rejects_malformed_tokens() {
    assert_eq!(parse_price(""), None);
    assert_eq!(parse_price("."), None);
    assert_eq!(parse_price("1e3"), None);
    assert_eq!(parse_price("-1"), None);
    assert_eq!(parse_price("1.2.3"), None);
    assert_eq!(parse_price("abc"), None);
}

#[test]
fn price_rejects_too_many_fraction_digits() {
    assert_eq!(parse_price("0.123456789"), None);
}

#[test]
fn price_rejects_overflow() {
    assert_eq!(parse_price("999999999999999999999"), None);
}

#[test]
fn capital_parses_plain_integers() {
    assert_eq!(parse_capital("100"), Some(100));
    assert_eq!(parse_capital("0"), Some(0));
    assert_eq!(parse_capital("4294967295"), Some(u32::MAX));
}

#[test]
fn capital_rejects_malformed_tokens() {
    assert_eq!(parse_capital(""), None);
    assert_eq!(parse_capital("-1"), None);
    assert_eq!(parse_capital("1.5"), None);
    assert_eq!(parse_capital("4294967296"), None);
}

#[test]
fn tokenize_splits_on_whitespace_runs() {
    let ts = tokenize("  BAN\t0.02   100 ");
    assert_eq!(ts.len(), 3);
    assert_eq!(ts[0], "BAN");
    assert_eq!(ts[1], "0.02");
    assert_eq!(ts[2], "100");
}

#[test]
fn tokenize_splits_on_unicode_whitespace() {
    let ts = tokenize("BAN\u{00A0}0.02\u{2003}100");
    assert_eq!(ts.len(), 3);
    assert_eq!(ts[0], "BAN");
    assert_eq!(ts[1], "0.02");
    assert_eq!(ts[2], "100");
}

#[test]
fn tokenize_empty_line() {
    assert_eq!(tokenize("").len(), 0);
    assert_eq!(tokenize("   ").len(), 0);
}

#[test]
fn parse_line_well_formed() {
    assert_eq!(
        parse_line("BAN 0.02 100"),
        ParsedLine::Entry(Crypto::BAN, 2_000_000, 100)
    );
}

#[test]
fn parse_line_wrong_token_count() {
    assert_eq!(parse_line("BAN 0.02"), ParsedLine::WrongTokenCount);
    assert_eq!(parse_line("BAN 0.02 100 extra"), ParsedLine::WrongTokenCount);
    assert_eq!(parse_line(""), ParsedLine::WrongTokenCount);
}

#[test]
fn parse_line_bad_number() {
    assert_eq!(parse_line("BAN x 100"), ParsedLine::BadNumber);
    assert_eq!(parse_line("BAN 0.02 x"), ParsedLine::BadNumber);
}
