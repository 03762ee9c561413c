use vstd::prelude::*;
use vstd::string::{StrSliceExecFns, StringExecFns};

use crate::num::SCALE;
use crate::profit::{
    add_signed2, current_price, profit_pct_centi, profit_usd_cents, spec_current_price,
    spec_profit_pct, spec_profit_usd, total_pct_centi, pct_mag_bound, spec_total_pct, val2, wf2,
    Signed2,
};
use crate::symbols::{name_to_string, spec_display, Crypto};
use crate::portfolio::{distinct_syms, Portfolio};
use crate::Holding;

verus! {

/// The character for one decimal digit.
pub open spec fn digit_char(d: int) -> char {
    if d == 0 {
        '0'
    } else if d == 1 {
        '1'
    } else if d == 2 {
        '2'
    } else if d == 3 {
        '3'
    } else if d == 4 {
        '4'
    } else if d == 5 {
        '5'
    } else if d == 6 {
        '6'
    } else if d == 7 {
        '7'
    } else if d == 8 {
        '8'
    } else {
        '9'
    }
}

/// The decimal numeral of n, without leading zeros.
pub open spec fn spec_dec(n: nat) -> Seq<char>
    decreases n,
{
    if n < 10 {
        seq![digit_char(n as int)]
    } else {
        spec_dec(n / 10) + seq![digit_char((n % 10) as int)]
    }
}

/// The last w decimal digits of n, zero-padded to exactly w characters.
pub open spec fn spec_dec_pad(n: nat, w: nat) -> Seq<char>
    decreases w,
{
    if w == 0 {
        Seq::<char>::empty()
    } else {
        spec_dec_pad(n / 10, (w - 1) as nat) + seq![digit_char((n % 10) as int)]
    }
}

fn digit_str(d: u128) -> (r: &'static str)
    requires
        d < 10,
    ensures
        r@ == seq![digit_char(d as int)],
{
    let r: &'static str = if d == 0 {
        "0"
    } else if d == 1 {
        "1"
    } else if d == 2 {
        "2"
    } else if d == 3 {
        "3"
    } else if d == 4 {
        "4"
    } else if d == 5 {
        "5"
    } else if d == 6 {
        "6"
    } else if d == 7 {
        "7"
    } else if d == 8 {
        "8"
    } else {
        "9"
    };
    proof {
        reveal_strlit("0");
        reveal_strlit("1");
        reveal_strlit("2");
        reveal_strlit("3");
        reveal_strlit("4");
        reveal_strlit("5");
        reveal_strlit("6");
        reveal_strlit("7");
        reveal_strlit("8");
        reveal_strlit("9");
        assert(r@ =~= seq![digit_char(d as int)]);
    }
    r
}

/// Renders n in decimal.
pub fn dec_string(n: u128) -> (r: String)
    ensures
        r@ == spec_dec(n as nat),
    decreases n,
{
    if n < 10 {
        digit_str(n).to_owned()
    } else {
        let mut s = dec_string(n / 10);
        s.append(digit_str(n % 10));
        proof {
            assert(s@ =~= spec_dec(n as nat));
        }
        s
    }
}

/// Renders the last w digits of n, zero-padded to w characters.
pub fn dec_pad_string(n: u128, w: u64) -> (r: String)
    ensures
        r@ == spec_dec_pad(n as nat, w as nat),
    decreases w,
{
    if w == 0 {
        String::new()
    } else {
        let mut s = dec_pad_string(n / 10, w - 1);
        s.append(digit_str(n % 10));
        proof {
            assert(s@ =~= spec_dec_pad(n as nat, w as nat));
        }
        s
    }
}

/// n spaces.
pub open spec fn spaces(n: nat) -> Seq<char>
    decreases n,
{
    if n == 0 {
        Seq::<char>::empty()
    } else {
        spaces((n - 1) as nat) + seq![' ']
    }
}

/// s padded on the right with spaces to at least w characters.
pub open spec fn spec_pad_right(s: Seq<char>, w: nat) -> Seq<char> {
    if s.len() < w {
        s + spaces((w - s.len()) as nat)
    } else {
        s
    }
}

/// s padded on the left with spaces to at least w characters.
pub open spec fn spec_pad_left(s: Seq<char>, w: nat) -> Seq<char> {
    if s.len() < w {
        spaces((w - s.len()) as nat) + s
    } else {
        s
    }
}

pub fn pad_right(s: String, w: usize) -> (r: String)
    ensures
        r@ == spec_pad_right(s@, w as nat),
{
    let ghost orig = s@;
    let mut t = s;
    let mut l = t.as_str().unicode_len();
    if l >= w {
        return t;
    }
    proof {
        assert(spaces(0) =~= Seq::<char>::empty());
        assert(t@ =~= orig + spaces(0));
    }
    while l < w
        invariant
            l == t@.len(),
            l <= w,
            orig.len() <= l,
            t@ == orig + spaces((l - orig.len()) as nat),
        decreases w - l,
    {
        t.append(" ");
        l = l + 1;
        proof {
            reveal_strlit(" ");
            assert(" "@ =~= seq![' ']);
            assert(t@ =~= orig + spaces((l - orig.len()) as nat));
        }
    }
    t
}

pub fn pad_left(s: String, w: usize) -> (r: String)
    ensures
        r@ == spec_pad_left(s@, w as nat),
{
    let l = s.as_str().unicode_len();
    if l >= w {
        return s;
    }
    let mut t = String::new();
    let mut k: usize = 0;
    proof {
        assert(spaces(0) =~= Seq::<char>::empty());
        assert(t@ =~= spaces(0));
    }
    while k < w - l
        invariant
            l < w,
            k <= w - l,
            t@ == spaces(k as nat),
        decreases w - l - k,
    {
        t.append(" ");
        k = k + 1;
        proof {
            reveal_strlit(" ");
            assert(" "@ =~= seq![' ']);
            assert(t@ =~= spaces(k as nat));
        }
    }
    let r = t.concat(s.as_str());
    proof {
        assert(r@ == spec_pad_left(s@, w as nat));
    }
    r
}

/// A signed amount of hundredths rendered with two decimal places.
pub open spec fn spec_cents_str(v: int) -> Seq<char> {
    if v < 0 {
        "-"@ + spec_dec(((-v) / 100) as nat) + "."@ + spec_dec_pad(((-v) % 100) as nat, 2)
    } else {
        spec_dec((v / 100) as nat) + "."@ + spec_dec_pad((v % 100) as nat, 2)
    }
}

/// Renders an amount of hundredths with two decimal places.
pub fn cents_string(x: Signed2) -> (r: String)
    requires
        wf2(x),
    ensures
        r@ == spec_cents_str(val2(x)),
{
    let whole = dec_string(x.mag / 100);
    let frac = dec_pad_string(x.mag % 100, 2);
    if x.neg {
        let mut s = String::from_str("-");
        s.append(whole.as_str());
        s.append(".");
        s.append(frac.as_str());
        proof {
            assert((-val2(x)) == x.mag as int);
        }
        s
    } else {
        let mut s = whole;
        s.append(".");
        s.append(frac.as_str());
        s
    }
}

/// A fixed-point price rendered with all its fraction digits.
pub open spec fn spec_price_str(p: u64) -> Seq<char> {
    spec_dec((p / SCALE) as nat) + "."@ + spec_dec_pad((p % SCALE) as nat, 8)
}

/// Renders a fixed-point price.
pub fn price_string(p: u64) -> (r: String)
    ensures
        r@ == spec_price_str(p),
{
    let mut s = dec_string((p / SCALE) as u128);
    s.append(".");
    let frac = dec_pad_string((p % SCALE) as u128, 8);
    s.append(frac.as_str());
    s
}

/// The profit-percent cell of a row; a zero entry price leaves the
/// percentage undefined.
pub open spec fn spec_pct_cell(h: Holding, q: Option<u64>) -> Seq<char> {
    if h.entry_price == 0 {
        "N/A"@
    } else {
        spec_cents_str(spec_profit_pct(h.entry_price, spec_current_price(h, q)))
    }
}

/// The profit a row contributes to the total, in cents; zero when the
/// entry price is zero and the percentage is undefined.
pub open spec fn spec_row_cents(h: Holding, q: Option<u64>) -> int {
    if h.entry_price == 0 {
        0
    } else {
        spec_profit_usd(spec_profit_pct(h.entry_price, spec_current_price(h, q)), h.capital)
    }
}

/// The profit-in-dollars cell of a row.
pub open spec fn spec_usd_cell(h: Holding, q: Option<u64>) -> Seq<char> {
    if h.entry_price == 0 {
        "N/A"@
    } else {
        spec_cents_str(spec_row_cents(h, q))
    }
}

/// One table row: display name, capital, entry price, current price,
/// profit percent and profit in dollars, each padded to its column.
pub open spec fn spec_render_row(sym: Crypto, h: Holding, q: Option<u64>) -> Seq<char> {
    "| "@ + spec_pad_right(spec_display(sym), 8) + " | "@ + spec_pad_right(
        spec_dec(h.capital as nat),
        12,
    ) + " | "@ + spec_pad_right(spec_price_str(h.entry_price), 11) + " | "@ + spec_pad_right(
        spec_price_str(spec_current_price(h, q)),
        13,
    ) + " | "@ + spec_pad_right(spec_pct_cell(h, q), 9) + " | "@ + spec_pad_right(
        spec_usd_cell(h, q),
        11,
    ) + " |\n"@
}

/// Renders one row and returns it with the row's profit in cents.
pub fn render_row(sym: Crypto, h: &Holding, quote: &Option<u64>) -> (r: (String, Signed2))
    ensures
        r.0@ == spec_render_row(sym, *h, *quote),
        wf2(r.1),
        val2(r.1) == spec_row_cents(*h, *quote),
        r.1.mag <= pct_mag_bound() * u32::MAX,
{
    let cur = current_price(h, quote);
    let mut s = String::from_str("| ");
    let name = name_to_string(&sym);
    s.append(pad_right(name.to_owned(), 8).as_str());
    s.append(" | ");
    s.append(pad_right(dec_string(h.capital as u128), 12).as_str());
    s.append(" | ");
    s.append(pad_right(price_string(h.entry_price), 11).as_str());
    s.append(" | ");
    s.append(pad_right(price_string(cur), 13).as_str());
    s.append(" | ");
    let cents: Signed2;
    if h.entry_price == 0 {
        s.append(pad_right(String::from_str("N/A"), 9).as_str());
        s.append(" | ");
        s.append(pad_right(String::from_str("N/A"), 11).as_str());
        cents = Signed2 { neg: false, mag: 0 };
    } else {
        let pct = profit_pct_centi(h.entry_price, cur);
        let usd = profit_usd_cents(pct, h.capital);
        s.append(pad_right(cents_string(pct), 9).as_str());
        s.append(" | ");
        s.append(pad_right(cents_string(usd), 11).as_str());
        cents = usd;
    }
    s.append(" |\n");
    (s, cents)
}

/// The horizontal border of the table.
pub open spec fn border_line() -> Seq<char> {
    "|---------------------------------------------------------------------------------|\n"@
}

/// The heading block of the table.
pub open spec fn table_header() -> Seq<char> {
    border_line() + "|                                  PORTFOLIO                                      |\n"@
        + border_line()
        + "|  SYMBOL  | Capital(USD) | Entry Price | Current Price | Profit(%) | Profit(USD) |\n"@
        + border_line()
}

/// All rows of the table, in portfolio order.
pub open spec fn spec_rows(s: Seq<(Crypto, Holding)>, q: Seq<Option<u64>>) -> Seq<char>
    decreases s.len(),
{
    if s.len() == 0 {
        Seq::<char>::empty()
    } else {
        spec_rows(s.drop_last(), q.drop_last()) + spec_render_row(
            s.last().0,
            s.last().1,
            q.last(),
        )
    }
}

/// Sum of the capital of all holdings.
pub open spec fn spec_total_capital(s: Seq<(Crypto, Holding)>) -> int
    decreases s.len(),
{
    if s.len() == 0 {
        0
    } else {
        spec_total_capital(s.drop_last()) + s.last().1.capital
    }
}

/// Sum of the rows' profits in cents.
pub open spec fn spec_total_cents(s: Seq<(Crypto, Holding)>, q: Seq<Option<u64>>) -> int
    decreases s.len(),
{
    if s.len() == 0 {
        0
    } else {
        spec_total_cents(s.drop_last(), q.drop_last()) + spec_row_cents(s.last().1, q.last())
    }
}

/// The aggregate percentage cell; undefined when nothing is invested.
pub open spec fn spec_total_pct_cell(total_cap: u64, cents: int) -> Seq<char> {
    if total_cap == 0 {
        "N/A"@
    } else {
        spec_cents_str(spec_total_pct(cents, total_cap).unwrap())
    }
}

/// The closing block: border, totals line, border.
pub open spec fn spec_footer(total_cap: u64, cents: int) -> Seq<char> {
    border_line() + "| Total invested(USD): "@ + spec_pad_right(spec_dec(total_cap as nat), 8)
        + " | Profit(%): "@ + spec_pad_left(spec_total_pct_cell(total_cap, cents), 10)
        + " | Profit(USD): "@ + spec_pad_left(spec_cents_str(cents), 10) + " |\n"@ + border_line()
}

/// The whole report for a portfolio and the quotes fetched for its rows.
pub open spec fn spec_render_table(s: Seq<(Crypto, Holding)>, q: Seq<Option<u64>>) -> Seq<char> {
    table_header() + spec_rows(s, q) + spec_footer(
        spec_total_capital(s) as u64,
        spec_total_cents(s, q),
    )
}

/// Every symbol value.
pub open spec fn all_syms() -> Set<Crypto> {
    set![
        Crypto::BAN,
        Crypto::DYM,
        Crypto::SCRT,
        Crypto::CHILLGUY,
        Crypto::SUPRA,
        Crypto::Unknown,
    ]
}

/// A portfolio holds at most one entry per symbol, and there are only six
/// symbols.
pub proof fn lemma_distinct_syms_len(s: Seq<(Crypto, Holding)>)
    requires
        distinct_syms(s),
    ensures
        s.len() <= 6,
{
    broadcast use vstd::set::group_set_axioms;

    let syms = s.map_values(|e: (Crypto, Holding)| e.0);
    assert(syms.no_duplicates()) by {
        assert(forall|i: int, j: int|
            0 <= i < j < s.len() ==> #[trigger] syms[i] != #[trigger] syms[j]);
    }
    syms.unique_seq_to_set();
    assert(all_syms().len() <= 6);
    assert(syms.to_set().subset_of(all_syms())) by {
        assert forall|c: Crypto| #[trigger] syms.to_set().contains(c) implies all_syms().contains(
            c,
        ) by {
            match c {
                Crypto::BAN => {},
                Crypto::DYM => {},
                Crypto::SCRT => {},
                Crypto::CHILLGUY => {},
                Crypto::SUPRA => {},
                Crypto::Unknown => {},
            }
        }
    }
    vstd::set_lib::lemma_len_subset(syms.to_set(), all_syms());
}

/// Renders the full table: header, one row per holding in portfolio
/// order (each using its quote, or falling back to the entry price), and
/// the totals footer.
#[verifier::rlimit(50)]
pub fn render_table(p: &Portfolio, quotes: &Vec<Option<u64>>) -> (r: String)
    requires
        p.wf(),
        quotes@.len() == p@.len(),
    ensures
        r@ == spec_render_table(p@, quotes@),
{
    proof {
        lemma_distinct_syms_len(p@);
    }
    let border = "|---------------------------------------------------------------------------------|\n";
    let mut out = String::from_str(border);
    out.append("|                                  PORTFOLIO                                      |\n");
    out.append(border);
    out.append("|  SYMBOL  | Capital(USD) | Entry Price | Current Price | Profit(%) | Profit(USD) |\n");
    out.append(border);
    let n = p.len();
    let mut tc: u64 = 0;
    let mut cents = Signed2 { neg: false, mag: 0 };
    let ghost cb = pct_mag_bound() * u32::MAX;
    proof {
        assert(p@.take(0) =~= Seq::<(Crypto, Holding)>::empty());
        assert(quotes@.take(0) =~= Seq::<Option<u64>>::empty());
        assert(cb == 0xFFFF_FFFF_FFFF_FFFF * 10000 * 0xFFFF_FFFF);
    }
    let mut i: usize = 0;
    while i < n
        invariant
            i <= n,
            n == p@.len(),
            quotes@.len() == p@.len(),
            n <= 6,
            p.wf(),
            cb == pct_mag_bound() * u32::MAX,
            out@ == table_header() + spec_rows(p@.take(i as int), quotes@.take(i as int)),
            tc == spec_total_capital(p@.take(i as int)),
            tc <= i * 0x1_0000_0000,
            wf2(cents),
            val2(cents) == spec_total_cents(p@.take(i as int), quotes@.take(i as int)),
            cents.mag <= i * cb,
        decreases n - i,
    {
        proof {
            assert(p@.take(i + 1).drop_last() =~= p@.take(i as int));
            assert(quotes@.take(i + 1).drop_last() =~= quotes@.take(i as int));
            assert(p@.take(i + 1).last() == p@[i as int]);
            assert(quotes@.take(i + 1).last() == quotes@[i as int]);
            assert(i * cb <= 5 * cb) by (nonlinear_arith)
                requires
                    0 <= i <= 5,
                    cb >= 0,
            ;
            assert(cb == 0xFFFF_FFFF_FFFF_FFFF * 10000 * 0xFFFF_FFFF);
        }
        let sym = p.symbol_at(i);
        let h = p.holding_at(i);
        let row = render_row(sym, h, &quotes[i]);
        out.append(row.0.as_str());
        tc = tc + (h.capital as u64);
        cents = add_signed2(cents, row.1);
        proof {
            assert((i + 1) * cb == i * cb + cb) by (nonlinear_arith);
        }
        i = i + 1;
    }
    proof {
        assert(n * cb <= 6 * cb) by (nonlinear_arith)
            requires
                0 <= n <= 6,
                cb >= 0,
        ;
        assert(cb == 0xFFFF_FFFF_FFFF_FFFF * 10000 * 0xFFFF_FFFF);
        assert(cents.mag * 100 <= u128::MAX);
    }
    proof {
        assert(p@.take(n as int) =~= p@);
        assert(quotes@.take(n as int) =~= quotes@);
    }
    out.append(border);
    out.append("| Total invested(USD): ");
    out.append(pad_right(dec_string(tc as u128), 8).as_str());
    out.append(" | Profit(%): ");
    match total_pct_centi(cents, tc) {
        Some(v) => {
            out.append(pad_left(cents_string(v), 10).as_str());
        },
        None => {
            out.append(pad_left(String::from_str("N/A"), 10).as_str());
        },
    }
    out.append(" | Profit(USD): ");
    out.append(pad_left(cents_string(cents), 10).as_str());
    out.append(" |\n");
    out.append(border);
    out
}

} // verus!
