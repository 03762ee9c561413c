use portfolio::profit::{
    add_signed2, current_price, profit_pct_centi, profit_usd_cents, total_pct_centi, Signed2,
};
use portfolio::quote::{build_url, extract_usd, PriceError};
use portfolio::render::cents_string;
use portfolio::Holding;

#[test]
fn quote_equal_to_entry_price_gives_exactly_zero_profit() {
    let pct = profit_pct_centi(2_000_000, 2_000_000);
    assert_eq!(pct, Signed2 { neg: false, mag: 0 });
    let usd = profit_usd_cents(pct, 100);
    assert_eq!(usd, Signed2 { neg: false, mag: 0 });
}

#[test]
fn failed_fetch_falls_back_to_the_entry_price() {
    let h = Holding::new(2_000_000, 100);
    assert_eq!(current_price(&h, &None), 2_000_000);
    assert_eq!(current_price(&h, &Some(3_000_000)), 3_000_000);
}

#[test]
fn ban_example_fifty_percent_profit() {
    // entry 0.02, quote 0.03, capital 100
    let pct = profit_pct_centi(2_000_000, 3_000_000);
    assert_eq!(pct, Signed2 { neg: false, mag: 5000 });
    assert_eq!(cents_string(pct), "50.00");
    let usd = profit_usd_cents(pct, 100);
    assert_eq!(usd, Signed2 { neg: false, mag: 5000 });
    assert_eq!(cents_string(usd), "50.00");
}

#[test]
fn losses_carry_a_sign() {
    // entry 0.04, quote 0.03: -25%
    let pct = profit_pct_centi(4_000_000, 3_000_000);
    assert_eq!(pct, Signed2 { neg: true, mag: 2500 });
    assert_eq!(cents_string(pct), "-25.00");
    let usd = profit_usd_cents(pct, 200);
    assert_eq!(cents_string(usd), "-50.00");
}

#[test]
fn signed_sums() {
    let a = Signed2 { neg: false, mag: 5000 };
    let b = Signed2 { neg: true, mag: 7000 };
    assert_eq!(add_signed2(a, b), Signed2 { neg: true, mag: 2000 });
    let c = add_signed2(b, Signed2 { neg: false, mag: 7000 });
    assert_eq!(c, Signed2 { neg: false, mag: 0 });
}

#[test]
fn aggregate_percentage_is_undefined_on_zero_capital() {
    let cents = Signed2 { neg: false, mag: 5000 };
    assert_eq!(total_pct_centi(cents, 0), None);
    let some = total_pct_centi(cents, 100);
    assert_eq!(some, Some(Signed2 { neg: false, mag: 5000 }));
}

#[test]
fn url_matches_the_price_service_format() {
    assert_eq!(
        build_url("comedian"),
        "https://api.coingecko.com/api/v3/simple/price?ids=comedian&vs_currencies=usd"
    );
}

#[test]
fn extract_reads_the_usd_quote() {
    assert_eq!(
        extract_usd("{\"comedian\":{\"usd\":0.03}}", "comedian"),
        Ok(3_000_000)
    );
    assert_eq!(
        extract_usd("{\"dymension\":{\"usd\":104094}}", "dymension"),
        Ok(104_094 * 100_000_000)
    );
}

#[test]
fn extract_tolerates_json_whitespace() {
    assert_eq!(
        extract_usd(" {\"comedian\": {\"usd\": 1.5} }\n", "comedian"),
        Ok(150_000_000)
    );
}

#[test]
fn extract_finds_the_identifier_among_other_keys() {
    assert_eq!(
        extract_usd(
            "{\"other\":{\"usd\":7},\"comedian\":{\"usd\":0.03}}",
            "comedian"
        ),
        Ok(3_000_000)
    );
    assert_eq!(
        extract_usd("{\"comedian\":{\"usd\":0.03,\"eur\":0.02}}", "comedian"),
        Ok(3_000_000)
    );
}

#[test]
fn extract_reads_exponent_notation() {
    assert_eq!(
        extract_usd("{\"comedian\":{\"usd\":1.5e2}}", "comedian"),
        Ok(150 * 100_000_000)
    );
    assert_eq!(
        extract_usd("{\"comedian\":{\"usd\":2500E-2}}", "comedian"),
        Ok(25 * 100_000_000)
    );
    // below the fixed-point resolution: truncates toward zero
    assert_eq!(extract_usd("{\"comedian\":{\"usd\":8.6e-9}}", "comedian"), Ok(0));
}

#[test]
fn extract_truncates_long_fractions() {
    assert_eq!(
        extract_usd("{\"comedian\":{\"usd\":0.123456789}}", "comedian"),
        Ok(12_345_678)
    );
}

#[test]
fn extract_not_found_when_the_identifier_is_absent() {
    assert_eq!(extract_usd("{}", "none"), Err(PriceError::NotFound));
    assert_eq!(extract_usd(" { } ", "none"), Err(PriceError::NotFound));
    assert_eq!(
        extract_usd("{\"other\":{\"usd\":0.03}}", "comedian"),
        Err(PriceError::NotFound)
    );
}

#[test]
fn extract_decode_error_on_malformed_bodies() {
    assert_eq!(extract_usd("", "comedian"), Err(PriceError::Decode));
    assert_eq!(extract_usd("garbage", "comedian"), Err(PriceError::Decode));
    assert_eq!(
        extract_usd("{\"comedian\":{\"usd\":abc}}", "comedian"),
        Err(PriceError::Decode)
    );
    assert_eq!(
        extract_usd("{\"comedian\":{\"usd\":1}", "comedian"),
        Err(PriceError::Decode)
    );
    // an entry without a usd field fails the whole decode
    assert_eq!(
        extract_usd("{\"comedian\":{\"eur\":1}}", "comedian"),
        Err(PriceError::Decode)
    );
}

#[test]
fn extract_decode_error_outside_the_price_range() {
    assert_eq!(
        extract_usd("{\"comedian\":{\"usd\":-1}}", "comedian"),
        Err(PriceError::Decode)
    );
    assert_eq!(
        extract_usd("{\"comedian\":{\"usd\":1e30}}", "comedian"),
        Err(PriceError::Decode)
    );
}
