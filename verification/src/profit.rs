use vstd::prelude::*;

use crate::Holding;

verus! {

/// A signed amount counted in hundredths: of a percent for profit
/// percentages, of a dollar for profit amounts.
#[derive(PartialEq, Eq, Structural, Clone, Copy, Debug)]
pub struct Signed2 {
    pub neg: bool,
    pub mag: u128,
}

/// The integer (in hundredths) a Signed2 stands for.
pub open spec fn val2(x: Signed2) -> int {
    if x.neg {
        -(x.mag as int)
    } else {
        x.mag as int
    }
}

/// Zero is never marked negative.
pub open spec fn wf2(x: Signed2) -> bool {
    x.mag == 0 ==> !x.neg
}

/// Integer division truncating toward zero, for a positive divisor.
pub open spec fn trunc_div(a: int, b: int) -> int {
    if a >= 0 {
        a / b
    } else {
        -((-a) / b)
    }
}

/// Largest magnitude a per-row profit percentage can reach.
pub open spec fn pct_mag_bound() -> int {
    u64::MAX * 10000
}

/// The price a row is rendered with: the quote if the fetch succeeded, the
/// entry price otherwise.
pub open spec fn spec_current_price(h: Holding, quote: Option<u64>) -> u64 {
    match quote {
        Some(p) => p,
        None => h.entry_price,
    }
}

pub fn current_price(h: &Holding, quote: &Option<u64>) -> (r: u64)
    ensures
        r == spec_current_price(*h, *quote),
{
    match quote {
        Some(p) => *p,
        None => h.entry_price,
    }
}

/// Profit of a row in hundredths of a percent:
/// (current - entry) / entry * 100, truncated toward zero.
pub open spec fn spec_profit_pct(entry: u64, current: u64) -> int {
    trunc_div((current - entry) * 10000, entry as int)
}

pub fn profit_pct_centi(entry: u64, current: u64) -> (r: Signed2)
    requires
        entry > 0,
    ensures
        wf2(r),
        val2(r) == spec_profit_pct(entry, current),
        r.mag <= pct_mag_bound(),
{
    if current >= entry {
        let diff: u128 = (current - entry) as u128;
        let mag: u128 = diff * 10000 / (entry as u128);
        proof {
            assert(diff * 10000 <= pct_mag_bound()) by (nonlinear_arith)
                requires
                    0 <= diff <= u64::MAX,
            ;
            assert(diff * 10000 / (entry as int) <= diff * 10000) by (nonlinear_arith)
                requires
                    entry >= 1,
                    diff * 10000 >= 0,
            ;
        }
        Signed2 { neg: false, mag }
    } else {
        let diff: u128 = (entry - current) as u128;
        proof {
            assert(diff * 10000 <= pct_mag_bound()) by (nonlinear_arith)
                requires
                    0 <= diff <= u64::MAX,
            ;
        }
        let mag: u128 = diff * 10000 / (entry as u128);
        proof {
            assert(diff * 10000 / (entry as int) <= diff * 10000) by (nonlinear_arith)
                requires
                    entry >= 1,
                    diff * 10000 >= 0,
            ;
            assert((current - entry) * 10000 == -((diff as int) * 10000));
        }
        if mag == 0 {
            Signed2 { neg: false, mag: 0 }
        } else {
            Signed2 { neg: true, mag }
        }
    }
}

/// Profit of a row in cents: pct * capital / 100, truncated toward zero,
/// with pct in hundredths of a percent.
pub open spec fn spec_profit_usd(pct: int, capital: u32) -> int {
    trunc_div(pct * capital, 100)
}

pub fn profit_usd_cents(pct: Signed2, capital: u32) -> (r: Signed2)
    requires
        wf2(pct),
        pct.mag <= pct_mag_bound(),
    ensures
        wf2(r),
        val2(r) == spec_profit_usd(val2(pct), capital),
        r.mag <= pct_mag_bound() * u32::MAX,
{
    proof {
        assert(pct.mag * capital <= pct_mag_bound() * u32::MAX) by (nonlinear_arith)
            requires
                0 <= pct.mag <= pct_mag_bound(),
                0 <= capital <= u32::MAX,
        ;
        assert(pct_mag_bound() * u32::MAX < u128::MAX);
    }
    let prod: u128 = pct.mag * (capital as u128);
    let mag: u128 = prod / 100;
    proof {
        assert(prod / 100 <= prod);
        if pct.neg {
            let m = pct.mag as int;
            let c = capital as int;
            assert((-m) * c == -(m * c)) by (nonlinear_arith);
            assert(val2(pct) * capital == -((pct.mag as int) * capital));
        }
    }
    if mag == 0 {
        Signed2 { neg: false, mag: 0 }
    } else {
        Signed2 { neg: pct.neg, mag }
    }
}

/// Signed addition of two amounts.
pub fn add_signed2(a: Signed2, b: Signed2) -> (r: Signed2)
    requires
        wf2(a),
        wf2(b),
        a.mag + b.mag <= u128::MAX,
    ensures
        wf2(r),
        val2(r) == val2(a) + val2(b),
        r.mag <= a.mag + b.mag,
{
    if a.neg == b.neg {
        let mag: u128 = a.mag + b.mag;
        if mag == 0 {
            Signed2 { neg: false, mag: 0 }
        } else {
            Signed2 { neg: a.neg, mag }
        }
    } else if a.mag >= b.mag {
        let mag: u128 = a.mag - b.mag;
        if mag == 0 {
            Signed2 { neg: false, mag: 0 }
        } else {
            Signed2 { neg: a.neg, mag }
        }
    } else {
        let mag: u128 = b.mag - a.mag;
        Signed2 { neg: b.neg, mag }
    }
}

/// Aggregate profit percentage in hundredths of a percent:
/// total profit / total capital * 100, truncated toward zero; undefined
/// (None) when the total capital is zero.
pub open spec fn spec_total_pct(total_cents: int, total_capital: u64) -> Option<int> {
    if total_capital == 0 {
        None
    } else {
        Some(trunc_div(total_cents * 100, total_capital as int))
    }
}

pub fn total_pct_centi(total_cents: Signed2, total_capital: u64) -> (r: Option<Signed2>)
    requires
        wf2(total_cents),
        total_cents.mag * 100 <= u128::MAX,
    ensures
        r is Some <==> total_capital != 0,
        r matches Some(v) ==> wf2(v) && val2(v) == spec_total_pct(
            val2(total_cents),
            total_capital,
        ).unwrap(),
{
    if total_capital == 0 {
        return None;
    }
    let mag: u128 = total_cents.mag * 100 / (total_capital as u128);
    proof {
        if total_cents.neg {
            let m = total_cents.mag as int;
            assert((-m) * 100 == -(m * 100)) by (nonlinear_arith);
            assert(val2(total_cents) * 100 == -((total_cents.mag as int) * 100));
        }
    }
    if mag == 0 {
        Some(Signed2 { neg: false, mag: 0 })
    } else {
        Some(Signed2 { neg: total_cents.neg, mag })
    }
}

/// A successful quote equal to the entry price gives exactly zero profit,
/// in percent and in dollars.
pub proof fn lemma_equal_quote_zero_profit(entry: u64, capital: u32)
    requires
        entry > 0,
    ensures
        spec_profit_pct(entry, entry) == 0,
        spec_profit_usd(spec_profit_pct(entry, entry), capital) == 0,
{
    assert(trunc_div(0, entry as int) == 0);
    assert(trunc_div(0, 100) == 0);
}

/// When the fetch fails, the rendered current price is exactly the entry
/// price, so the row shows zero profit.
pub proof fn lemma_failed_fetch_uses_entry_price(h: Holding, capital: u32)
    requires
        h.entry_price > 0,
    ensures
        spec_current_price(h, None::<u64>) == h.entry_price,
        spec_profit_pct(h.entry_price, spec_current_price(h, None::<u64>)) == 0,
{
    assert(trunc_div(0, h.entry_price as int) == 0);
}

} // verus!
