use vstd::prelude::*;
use vstd::pervasive::VecAdditionalExecFns;

use crate::num::{spec_parse_capital, spec_parse_price, parse_capital, parse_price};
use crate::parse::{spec_tokens, views_of, tokenize};
use crate::symbols::{spec_resolve, get_crypto_name, Crypto};
use crate::Holding;

verus! {

/// What one input line amounts to.
#[derive(PartialEq, Eq, Structural, Clone, Copy, Debug)]
pub enum ParsedLine {
    /// Exactly three tokens with valid numeric fields.
    Entry(Crypto, u64, u32),
    /// Not exactly three whitespace-separated tokens.
    WrongTokenCount,
    /// Three tokens, but the price or the capital does not parse.
    BadNumber,
}

/// The meaning of one input line: symbol, price and capital of a
/// well-formed line, or which way it is malformed.
pub open spec fn spec_parse_line(line: Seq<char>) -> ParsedLine {
    let ts = spec_tokens(line);
    if ts.len() != 3 {
        ParsedLine::WrongTokenCount
    } else {
        match (spec_parse_price(ts[1]), spec_parse_capital(ts[2])) {
            (Some(p), Some(c)) => ParsedLine::Entry(spec_resolve(ts[0]), p, c),
            _ => ParsedLine::BadNumber,
        }
    }
}

pub fn parse_line(line: &str) -> (r: ParsedLine)
    ensures
        r == spec_parse_line(line@),
{
    let ts = tokenize(line);
    proof {
        assert(views_of(ts@).len() == ts@.len());
    }
    if ts.len() != 3 {
        return ParsedLine::WrongTokenCount;
    }
    proof {
        assert(views_of(ts@)[0] == ts@[0]@);
        assert(views_of(ts@)[1] == ts@[1]@);
        assert(views_of(ts@)[2] == ts@[2]@);
    }
    let price = parse_price(ts[1].as_str());
    let capital = parse_capital(ts[2].as_str());
    match (price, capital) {
        (Some(p), Some(c)) => ParsedLine::Entry(get_crypto_name(ts[0].as_str()), p, c),
        _ => ParsedLine::BadNumber,
    }
}

/// The mapping an entry sequence denotes: later entries win.
pub open spec fn spec_map_of(s: Seq<(Crypto, Holding)>) -> Map<Crypto, Holding>
    decreases s.len(),
{
    if s.len() == 0 {
        Map::<Crypto, Holding>::empty()
    } else {
        spec_map_of(s.drop_last()).insert(s.last().0, s.last().1)
    }
}

/// The set of current holdings, keyed by symbol: at most one entry per
/// symbol, later inserts overwriting earlier ones in place.
pub struct Portfolio {
    entries: Vec<(Crypto, Holding)>,
}

impl View for Portfolio {
    type V = Seq<(Crypto, Holding)>;

    closed spec fn view(&self) -> Seq<(Crypto, Holding)> {
        self.entries@
    }
}

/// Entry sequences with pairwise distinct symbols.
pub open spec fn distinct_syms(s: Seq<(Crypto, Holding)>) -> bool {
    forall|i: int, j: int| 0 <= i < j < s.len() ==> s[i].0 != s[j].0
}

/// Updating the entry at a symbol's position updates the denoted mapping
/// at that symbol.
pub proof fn lemma_map_of_update(s: Seq<(Crypto, Holding)>, i: int, h: Holding)
    requires
        distinct_syms(s),
        0 <= i < s.len(),
    ensures
        spec_map_of(s.update(i, (s[i].0, h))) == spec_map_of(s).insert(s[i].0, h),
    decreases s.len(),
{
    let t = s.update(i, (s[i].0, h));
    if i == s.len() - 1 {
        assert(t.drop_last() =~= s.drop_last());
        assert(t.last() == (s[i].0, h));
    } else {
        assert(t.drop_last() =~= s.drop_last().update(i, (s[i].0, h)));
        assert(s.drop_last()[i] == s[i]);
        lemma_map_of_update(s.drop_last(), i, h);
        assert(t.last() == s.last());
        assert(s[i].0 != s.last().0);
        assert(spec_map_of(t) =~= spec_map_of(s).insert(s[i].0, h)) by {
            assert(spec_map_of(t) == spec_map_of(s.drop_last()).insert(s[i].0, h).insert(
                s.last().0,
                s.last().1,
            ));
            assert(spec_map_of(s.drop_last()).insert(s[i].0, h).insert(s.last().0, s.last().1)
                =~= spec_map_of(s.drop_last()).insert(s.last().0, s.last().1).insert(s[i].0, h));
        }
    }
}

/// A symbol that no entry carries is not in the denoted mapping.
pub proof fn lemma_map_of_absent(s: Seq<(Crypto, Holding)>, sym: Crypto)
    requires
        forall|i: int| 0 <= i < s.len() ==> s[i].0 != sym,
    ensures
        !spec_map_of(s).contains_key(sym),
    decreases s.len(),
{
    if s.len() > 0 {
        lemma_map_of_absent(s.drop_last(), sym);
    }
}

impl Portfolio {
    pub fn new() -> (r: Portfolio)
        ensures
            r@.len() == 0,
            distinct_syms(r@),
            spec_map_of(r@) == Map::<Crypto, Holding>::empty(),
    {
        Portfolio { entries: Vec::new() }
    }

    pub open spec fn wf(&self) -> bool {
        distinct_syms(self@)
    }

    /// The mapping from symbols to holdings that this portfolio denotes.
    pub open spec fn as_map(&self) -> Map<Crypto, Holding> {
        spec_map_of(self@)
    }

    pub fn len(&self) -> (r: usize)
        ensures
            r == self@.len(),
    {
        self.entries.len()
    }

    pub fn symbol_at(&self, i: usize) -> (r: Crypto)
        requires
            i < self@.len(),
        ensures
            r == self@[i as int].0,
    {
        self.entries[i].0
    }

    pub fn holding_at(&self, i: usize) -> (r: &Holding)
        requires
            i < self@.len(),
        ensures
            *r == self@[i as int].1,
    {
        &self.entries[i].1
    }

    /// Inserts a holding under a symbol: overwrites in place if the symbol
    /// is present, appends otherwise.
    pub fn insert(&mut self, sym: Crypto, h: Holding)
        requires
            old(self).wf(),
        ensures
            final(self).wf(),
            final(self).as_map() == old(self).as_map().insert(sym, h),
            final(self)@.len() == if spec_map_of(old(self)@).contains_key(sym) {
                old(self)@.len()
            } else {
                old(self)@.len() + 1
            },
    {
        let n = self.entries.len();
        let mut i: usize = 0;
        while i < n
            invariant
                i <= n,
                n == self@.len(),
                self@ == old(self)@,
                distinct_syms(self@),
                forall|k: int| 0 <= k < i ==> self@[k].0 != sym,
            decreases n - i,
        {
            if self.entries[i].0 == sym {
                proof {
                    lemma_map_of_update(self@, i as int, h);
                    lemma_map_of_present(self@, i as int);
                }
                let ghost before = self@;
                self.entries.set(i, (sym, h));
                proof {
                    assert(self@ == before.update(i as int, (before[i as int].0, h)));
                    assert forall|a: int, b: int| 0 <= a < b < self@.len() implies self@[a].0
                        != self@[b].0 by {
                        assert(self@[a].0 == before[a].0);
                        assert(self@[b].0 == before[b].0);
                    }
                }
                return ;
            }
            i = i + 1;
        }
        proof {
            lemma_map_of_absent(self@, sym);
            assert(self@.push((sym, h)).drop_last() =~= self@);
        }
        self.entries.push((sym, h));
    }
}

/// A symbol an entry carries is in the denoted mapping.
pub proof fn lemma_map_of_present(s: Seq<(Crypto, Holding)>, i: int)
    requires
        0 <= i < s.len(),
    ensures
        spec_map_of(s).contains_key(s[i].0),
    decreases s.len(),
{
    if i < s.len() - 1 {
        lemma_map_of_present(s.drop_last(), i);
    }
}

/// The mapping that loading a sequence of input lines produces: each
/// well-formed line inserts its holding under its resolved symbol, later
/// lines overwriting earlier ones; malformed lines change nothing.
pub open spec fn spec_load_map(lines: Seq<Seq<char>>) -> Map<Crypto, Holding>
    decreases lines.len(),
{
    if lines.len() == 0 {
        Map::<Crypto, Holding>::empty()
    } else {
        let m = spec_load_map(lines.drop_last());
        match spec_parse_line(lines.last()) {
            ParsedLine::Entry(sym, p, c) => m.insert(
                sym,
                (Holding { entry_price: p, capital: c }),
            ),
            _ => m,
        }
    }
}

/// The warnings that loading produces: the index and kind of each
/// malformed line, in order.
pub open spec fn spec_issues(lines: Seq<Seq<char>>) -> Seq<(int, ParsedLine)>
    decreases lines.len(),
{
    if lines.len() == 0 {
        Seq::<(int, ParsedLine)>::empty()
    } else {
        let rest = spec_issues(lines.drop_last());
        if spec_parse_line(lines.last()) is Entry {
            rest
        } else {
            rest + seq![(lines.len() - 1, spec_parse_line(lines.last()))]
        }
    }
}

pub open spec fn issue_views(s: Seq<(usize, ParsedLine)>) -> Seq<(int, ParsedLine)> {
    s.map_values(|q: (usize, ParsedLine)| (q.0 as int, q.1))
}

/// Builds the portfolio from the input lines. Returns the portfolio and
/// one warning per malformed line: its index and whether the token count
/// or a numeric field was at fault.
pub fn load_lines(lines: &Vec<String>) -> (r: (Portfolio, Vec<(usize, ParsedLine)>))
    ensures
        r.0.wf(),
        r.0.as_map() == spec_load_map(views_of(lines@)),
        issue_views(r.1@) == spec_issues(views_of(lines@)),
{
    let ghost vs = views_of(lines@);
    let mut p = Portfolio::new();
    let mut issues: Vec<(usize, ParsedLine)> = Vec::new();
    let n = lines.len();
    proof {
        assert(vs.take(0) =~= Seq::<Seq<char>>::empty());
        assert(issue_views(issues@) =~= spec_issues(vs.take(0)));
    }
    let mut i: usize = 0;
    while i < n
        invariant
            i <= n,
            n == lines@.len(),
            vs == views_of(lines@),
            p.wf(),
            p.as_map() == spec_load_map(vs.take(i as int)),
            issue_views(issues@) == spec_issues(vs.take(i as int)),
        decreases n - i,
    {
        proof {
            assert(vs.take(i + 1).drop_last() =~= vs.take(i as int));
            assert(vs.take(i + 1).last() == vs[i as int]);
            assert(vs[i as int] == lines@[i as int]@);
        }
        let outcome = parse_line(lines[i].as_str());
        match outcome {
            ParsedLine::Entry(sym, price, capital) => {
                p.insert(sym, Holding { entry_price: price, capital });
            },
            _ => {
                let ghost before = issues@;
                issues.push((i, outcome));
                proof {
                    assert(issue_views(issues@) =~= issue_views(before) + seq![
                        (i as int, outcome),
                    ]);
                }
            },
        }
        i = i + 1;
    }
    proof {
        assert(vs.take(n as int) =~= vs);
    }
    (p, issues)
}

/// Whether a line is well-formed and names the given symbol.
pub open spec fn line_inserts(line: Seq<char>, sym: Crypto) -> bool {
    match spec_parse_line(line) {
        ParsedLine::Entry(s2, p, c) => s2 == sym,
        _ => false,
    }
}

/// Last write wins: if line j is well-formed with a symbol, and no later
/// line inserts under that symbol, the loaded portfolio holds exactly the
/// values of line j for it.
pub proof fn lemma_last_write_wins(lines: Seq<Seq<char>>, j: int, sym: Crypto, p: u64, c: u32)
    requires
        0 <= j < lines.len(),
        spec_parse_line(lines[j]) == ParsedLine::Entry(sym, p, c),
        forall|k: int| j < k < lines.len() ==> !line_inserts(lines[k], sym),
    ensures
        spec_load_map(lines).contains_key(sym),
        spec_load_map(lines)[sym] == (Holding { entry_price: p, capital: c }),
    decreases lines.len(),
{
    if j == lines.len() - 1 {
    } else {
        assert(lines.drop_last()[j] == lines[j]);
        assert(forall|k: int|
            j < k < lines.drop_last().len() ==> !line_inserts(#[trigger] lines.drop_last()[k],
            sym)) by {
            assert(forall|k: int|
                j < k < lines.len() - 1 ==> lines.drop_last()[k] == #[trigger] lines[k]);
        }
        lemma_last_write_wins(lines.drop_last(), j, sym, p, c);
        assert(!line_inserts(lines.last(), sym));
    }
}

/// Every symbol in the loaded portfolio was put there by some well-formed
/// line naming it: loading inserts nothing else.
pub proof fn lemma_load_map_keys(lines: Seq<Seq<char>>, sym: Crypto)
    requires
        spec_load_map(lines).contains_key(sym),
    ensures
        exists|i: int| 0 <= i < lines.len() && line_inserts(#[trigger] lines[i], sym),
    decreases lines.len(),
{
    if lines.len() > 0 {
        if line_inserts(lines.last(), sym) {
            assert(0 <= lines.len() - 1 < lines.len() && line_inserts(
                lines[lines.len() - 1],
                sym,
            ));
        } else {
            assert(spec_load_map(lines.drop_last()).contains_key(sym));
            lemma_load_map_keys(lines.drop_last(), sym);
            let i = choose|i: int|
                0 <= i < lines.drop_last().len() && line_inserts(
                    #[trigger] lines.drop_last()[i],
                    sym,
                );
            assert(lines.drop_last()[i] == lines[i]);
        }
    }
}

/// Conversely, a symbol named by any well-formed line is in the loaded
/// portfolio.
pub proof fn lemma_inserting_line_is_loaded(lines: Seq<Seq<char>>, j: int, sym: Crypto)
    requires
        0 <= j < lines.len(),
        line_inserts(lines[j], sym),
    ensures
        spec_load_map(lines).contains_key(sym),
    decreases lines.len(),
{
    if j < lines.len() - 1 {
        assert(lines.drop_last()[j] == lines[j]);
        lemma_inserting_line_is_loaded(lines.drop_last(), j, sym);
    }
}

/// The set of symbols that some well-formed line inserts.
pub open spec fn inserted_syms(lines: Seq<Seq<char>>) -> Set<Crypto> {
    Set::new(
        |sym: Crypto|
            exists|i: int| 0 <= i < lines.len() && line_inserts(#[trigger] lines[i], sym),
    )
}

/// An entry sequence with distinct symbols has exactly one entry per key
/// of the mapping it denotes.
pub proof fn lemma_map_of_dom_len(s: Seq<(Crypto, Holding)>)
    requires
        distinct_syms(s),
    ensures
        spec_map_of(s).dom().finite(),
        spec_map_of(s).dom().len() == s.len(),
    decreases s.len(),
{
    broadcast use vstd::set::group_set_axioms;

    if s.len() > 0 {
        assert(distinct_syms(s.drop_last())) by {
            assert(forall|i: int, j: int|
                0 <= i < j < s.len() - 1 ==> #[trigger] s.drop_last()[i].0 != #[trigger] s.drop_last()[j].0);
        }
        lemma_map_of_dom_len(s.drop_last());
        assert(forall|i: int| 0 <= i < s.len() - 1 ==> #[trigger] s.drop_last()[i].0 != s.last().0);
        lemma_map_of_absent(s.drop_last(), s.last().0);
        assert(spec_map_of(s).dom() =~= spec_map_of(s.drop_last()).dom().insert(s.last().0));
    } else {
        assert(spec_map_of(s).dom() =~= Set::<Crypto>::empty());
    }
}

/// The count form of the loading law: the number of accepted holdings
/// equals the number of well-formed lines less the duplicate-symbol
/// overwrites, i.e. the number of distinct symbols the well-formed lines
/// insert.
pub proof fn lemma_accepted_count(p: Seq<(Crypto, Holding)>, lines: Seq<Seq<char>>)
    requires
        distinct_syms(p),
        spec_map_of(p) == spec_load_map(lines),
    ensures
        inserted_syms(lines).finite(),
        p.len() == inserted_syms(lines).len(),
{
    lemma_map_of_dom_len(p);
    assert(spec_load_map(lines).dom() =~= inserted_syms(lines)) by {
        assert forall|sym: Crypto|
            spec_load_map(lines).dom().contains(sym) implies inserted_syms(lines).contains(
            sym,
        ) by {
            lemma_load_map_keys(lines, sym);
        }
        assert forall|sym: Crypto|
            inserted_syms(lines).contains(sym) implies spec_load_map(lines).dom().contains(
            sym,
        ) by {
            let i = choose|i: int|
                0 <= i < lines.len() && line_inserts(#[trigger] lines[i], sym);
            lemma_inserting_line_is_loaded(lines, i, sym);
        }
    }
}

/// A malformed line leaves the loaded portfolio untouched, and exactly one
/// warning is recorded for it.
pub proof fn lemma_malformed_line(lines: Seq<Seq<char>>, l: Seq<char>)
    requires
        !(spec_parse_line(l) is Entry),
    ensures
        spec_load_map(lines.push(l)) == spec_load_map(lines),
        spec_issues(lines.push(l)) == spec_issues(lines) + seq![
            (lines.len() as int, spec_parse_line(l)),
        ],
{
    assert(lines.push(l).drop_last() =~= lines);
    assert(lines.push(l).last() == l);
}

} // verus!
