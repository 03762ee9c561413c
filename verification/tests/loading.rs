use portfolio::num::SCALE;
use portfolio::portfolio::{load_lines, ParsedLine};
use portfolio::symbols::Crypto;

fn lines(v: &[&str]) -> Vec<String> {
    v.iter().map(|s| s.to_string()).collect()
}

#[test]
fn last_line_wins_for_a_repeated_symbol() {
    let (p, issues) = load_lines(&lines(&["DYM 5 100", "DYM 6 200"]));
    assert_eq!(issues.len(), 0);
    assert_eq!(p.len(), 1);
    assert_eq!(p.symbol_at(0), Crypto::DYM);
    let h = p.holding_at(0);
    assert_eq!(h.entry_price, 6 * SCALE);
    assert_eq!(h.capital, 200);
}

#[test]
fn one_entry_per_distinct_symbol() {
    let (p, issues) = load_lines(&lines(&[
        "BAN 0.02 100",
        "DYM 5 100",
        "BAN 0.04 300",
        "SCRT 0.3 50",
    ]));
    assert_eq!(issues.len(), 0);
    assert_eq!(p.len(), 3);
    assert_eq!(p.symbol_at(0), Crypto::BAN);
    assert_eq!(p.holding_at(0).entry_price, 4_000_000);
    assert_eq!(p.holding_at(0).capital, 300);
    assert_eq!(p.symbol_at(1), Crypto::DYM);
    assert_eq!(p.symbol_at(2), Crypto::SCRT);
}

#[test]
fn malformed_lines_are_skipped_with_a_warning() {
    let (p, issues) = load_lines(&lines(&[
        "BAN 0.02 100",
        "too few",
        "one two three four",
        "DYM 5 100",
    ]));
    assert_eq!(p.len(), 2);
    assert_eq!(issues.len(), 2);
    assert_eq!(issues[0], (1, ParsedLine::WrongTokenCount));
    assert_eq!(issues[1], (2, ParsedLine::WrongTokenCount));
}

#[test]
fn bad_numeric_fields_are_skipped_with_a_warning() {
    let (p, issues) = load_lines(&lines(&["BAN abc 100", "DYM 5 1.5"]));
    assert_eq!(p.len(), 0);
    assert_eq!(issues.len(), 2);
    assert_eq!(issues[0], (0, ParsedLine::BadNumber));
    assert_eq!(issues[1], (1, ParsedLine::BadNumber));
}

#[test]
fn unrecognized_symbol_is_inserted_under_the_sentinel() {
    let (p, issues) = load_lines(&lines(&["XYZ 1 10"]));
    assert_eq!(issues.len(), 0);
    assert_eq!(p.len(), 1);
    assert_eq!(p.symbol_at(0), Crypto::Unknown);
    assert_eq!(p.holding_at(0).entry_price, SCALE);
    assert_eq!(p.holding_at(0).capital, 10);
}

#[test]
fn two_unrecognized_symbols_collide_under_the_sentinel() {
    let (p, issues) = load_lines(&lines(&["XYZ 1 10", "ABC 2 20"]));
    assert_eq!(issues.len(), 0);
    assert_eq!(p.len(), 1);
    assert_eq!(p.symbol_at(0), Crypto::Unknown);
    assert_eq!(p.holding_at(0).entry_price, 2 * SCALE);
    assert_eq!(p.holding_at(0).capital, 20);
}

#[test]
fn empty_input_gives_an_empty_portfolio() {
    let (p, issues) = load_lines(&Vec::new());
    assert_eq!(p.len(), 0);
    assert_eq!(issues.len(), 0);
}
