use portfolio::portfolio::load_lines;
use portfolio::profit::Signed2;
use portfolio::render::{
    cents_string, dec_string, pad_left, pad_right, price_string, render_row, render_table,
};
use portfolio::symbols::Crypto;
use portfolio::Holding;

const BORDER: &str =
    "|---------------------------------------------------------------------------------|\n";

fn header() -> String {
    let mut s = String::new();
    s.push_str(BORDER);
    s.push_str("|                                  PORTFOLIO                                      |\n");
    s.push_str(BORDER);
    s.push_str("|  SYMBOL  | Capital(USD) | Entry Price | Current Price | Profit(%) | Profit(USD) |\n");
    s.push_str(BORDER);
    s
}

#[test]
fn numbers_render_in_decimal() {
    assert_eq!(dec_string(0), "0");
    assert_eq!(dec_string(7), "7");
    assert_eq!(dec_string(104094), "104094");
}

#[test]
fn prices_render_with_eight_fraction_digits() {
    assert_eq!(price_string(2_000_000), "0.02000000");
    assert_eq!(price_string(5 * 100_000_000), "5.00000000");
    assert_eq!(price_string(100_000_001), "1.00000001");
}

#[test]
fn small_amounts_keep_their_leading_zeros() {
    assert_eq!(cents_string(Signed2 { neg: false, mag: 5 }), "0.05");
    assert_eq!(cents_string(Signed2 { neg: true, mag: 1 }), "-0.01");
    assert_eq!(cents_string(Signed2 { neg: false, mag: 0 }), "0.00");
    assert_eq!(price_string(0), "0.00000000");
}

#[test]
fn padding_matches_column_widths() {
    assert_eq!(pad_right(String::from("BAN"), 8), "BAN     ");
    assert_eq!(pad_right(String::from("CHILLGUY"), 8), "CHILLGUY");
    assert_eq!(pad_left(String::from("N/A"), 10), "       N/A");
}

#[test]
fn row_shows_fifty_percent_profit_for_the_ban_example() {
    let h = Holding::new(2_000_000, 100);
    let (row, cents) = render_row(Crypto::BAN, &h, &Some(3_000_000));
    let expected = format!(
        "| {:<8} | {:<12} | {:<11} | {:<13} | {:<9} | {:<11} |\n",
        "BAN", "100", "0.02000000", "0.03000000", "50.00", "50.00"
    );
    assert_eq!(row, expected);
    assert_eq!(cents.neg, false);
    assert_eq!(cents.mag, 5000);
}

#[test]
fn row_falls_back_to_the_entry_price_when_the_fetch_failed() {
    let h = Holding::new(2_000_000, 100);
    let (row, cents) = render_row(Crypto::BAN, &h, &None);
    let expected = format!(
        "| {:<8} | {:<12} | {:<11} | {:<13} | {:<9} | {:<11} |\n",
        "BAN", "100", "0.02000000", "0.02000000", "0.00", "0.00"
    );
    assert_eq!(row, expected);
    assert_eq!(cents.mag, 0);
}

#[test]
fn row_for_an_unrecognized_symbol_has_an_empty_name() {
    let h = Holding::new(100_000_000, 10);
    let (row, _) = render_row(Crypto::Unknown, &h, &None);
    let expected = format!(
        "| {:<8} | {:<12} | {:<11} | {:<13} | {:<9} | {:<11} |\n",
        "", "10", "1.00000000", "1.00000000", "0.00", "0.00"
    );
    assert_eq!(row, expected);
}

#[test]
fn zero_entry_price_renders_na_cells() {
    let h = Holding::new(0, 10);
    let (row, cents) = render_row(Crypto::BAN, &h, &Some(3_000_000));
    let expected = format!(
        "| {:<8} | {:<12} | {:<11} | {:<13} | {:<9} | {:<11} |\n",
        "BAN", "10", "0.00000000", "0.03000000", "N/A", "N/A"
    );
    assert_eq!(row, expected);
    assert_eq!(cents.mag, 0);
}

#[test]
fn full_table_for_one_holding() {
    let (p, issues) = load_lines(&vec![String::from("BAN 0.02 100")]);
    assert_eq!(issues.len(), 0);
    let table = render_table(&p, &vec![Some(3_000_000)]);
    let mut expected = header();
    expected.push_str(&format!(
        "| {:<8} | {:<12} | {:<11} | {:<13} | {:<9} | {:<11} |\n",
        "BAN", "100", "0.02000000", "0.03000000", "50.00", "50.00"
    ));
    expected.push_str(BORDER);
    expected.push_str(&format!(
        "| Total invested(USD): {:<8} | Profit(%): {:>10} | Profit(USD): {:>10} |\n",
        "100", "50.00", "50.00"
    ));
    expected.push_str(BORDER);
    assert_eq!(table, expected);
}

#[test]
fn empty_portfolio_renders_na_totals() {
    let (p, issues) = load_lines(&Vec::new());
    assert_eq!(issues.len(), 0);
    let table = render_table(&p, &Vec::new());
    let mut expected = header();
    expected.push_str(BORDER);
    expected.push_str(&format!(
        "| Total invested(USD): {:<8} | Profit(%): {:>10} | Profit(USD): {:>10} |\n",
        "0", "N/A", "0.00"
    ));
    expected.push_str(BORDER);
    assert_eq!(table, expected);
}
