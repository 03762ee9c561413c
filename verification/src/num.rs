use vstd::prelude::*;

verus! {

/// Fixed-point scale for prices: one unit is 1/SCALE dollars.
pub const SCALE: u64 = 100_000_000;

/// Number of fractional digits a price carries.
pub const FRAC_DIGITS: u64 = 8;

pub open spec fn is_digit(c: char) -> bool {
    '0' <= c && c <= '9'
}

/// Numeric value of a digit character; zero for anything else.
pub open spec fn digit_val(c: char) -> int {
    if is_digit(c) {
        c as u32 - 48
    } else {
        0
    }
}

pub open spec fn all_digits(s: Seq<char>) -> bool {
    forall|i: int| 0 <= i < s.len() ==> is_digit(s[i])
}

/// The number a digit string denotes, most significant digit first.
pub open spec fn digits_val(s: Seq<char>) -> int
    decreases s.len(),
{
    if s.len() == 0 {
        0
    } else {
        digits_val(s.drop_last()) * 10 + digit_val(s.last())
    }
}

pub open spec fn pow10(n: nat) -> int
    decreases n,
{
    if n == 0 {
        1
    } else {
        10 * pow10((n - 1) as nat)
    }
}

pub proof fn lemma_digits_val_nonneg(s: Seq<char>)
    ensures
        digits_val(s) >= 0,
    decreases s.len(),
{
    if s.len() > 0 {
        lemma_digits_val_nonneg(s.drop_last());
    }
}

/// Extending a digit string on the right multiplies its value by ten and
/// adds the new digit.
pub proof fn lemma_digits_val_take_step(s: Seq<char>, i: int)
    requires
        0 <= i < s.len(),
    ensures
        digits_val(s.take(i + 1)) == digits_val(s.take(i)) * 10 + digit_val(s[i]),
{
    assert(s.take(i + 1).drop_last() =~= s.take(i));
    assert(s.take(i + 1).last() == s[i]);
}

/// A digit string is worth at least any of its prefixes.
pub proof fn lemma_digits_val_prefix(s: Seq<char>, k: int)
    requires
        0 <= k <= s.len(),
    ensures
        digits_val(s) >= digits_val(s.take(k)),
    decreases s.len() - k,
{
    if k < s.len() {
        lemma_digits_val_take_step(s, k);
        lemma_digits_val_nonneg(s.take(k));
        assert(digits_val(s.take(k + 1)) >= digits_val(s.take(k)));
        lemma_digits_val_prefix(s, k + 1);
        assert(s.take(s.len() as int) =~= s);
    } else {
        assert(s.take(k) =~= s);
    }
}

/// Parses a run of digit characters `s[from..to]` as an unsigned number.
/// Returns the value exactly when the run is non-empty, all digits, and
/// fits in a `u64`.
pub fn parse_digits(s: &str, from: usize, to: usize) -> (r: Option<u64>)
    requires
        from <= to <= s@.len(),
    ensures
        ({
            let part = s@.subrange(from as int, to as int);
            if part.len() > 0 && all_digits(part) && digits_val(part) <= u64::MAX {
                r == Some((digits_val(part)) as u64)
            } else {
                r is None
            }
        }),
{
    let ghost part = s@.subrange(from as int, to as int);
    if from == to {
        return None;
    }
    let mut acc: u64 = 0;
    let mut i: usize = from;
    while i < to
        invariant
            from <= i <= to <= s@.len(),
            part == s@.subrange(from as int, to as int),
            all_digits(part.take(i - from)),
            acc == digits_val(part.take(i - from)),
        decreases to - i,
    {
        let c = s.get_char(i);
        proof {
            assert(part[i - from] == s@[i as int]);
        }
        if c < '0' || c > '9' {
            proof {
                assert(!is_digit(part[i - from]));
            }
            return None;
        }
        let d: u64 = (c as u32 - 48) as u64;
        proof {
            lemma_digits_val_take_step(part, i - from);
        }
        if acc > (u64::MAX - d) / 10 {
            proof {
                let w = i - from + 1;
                assert(digits_val(part.take(w)) == acc * 10 + d);
                assert(acc * 10 + d > u64::MAX) by (nonlinear_arith)
                    requires
                        acc > (u64::MAX - d) / 10,
                        d <= 9,
                        acc <= u64::MAX,
                ;
                lemma_digits_val_prefix(part, w);
            }
            return None;
        }
        proof {
            assert(acc * 10 + d <= u64::MAX) by (nonlinear_arith)
                requires
                    acc <= (u64::MAX - d) / 10,
                    0 <= d <= 9,
            ;
        }
        acc = acc * 10 + d;
        i = i + 1;
    }
    proof {
        assert(part.take(to - from) =~= part);
    }
    Some(acc)
}

/// Value denoted by a capital token: a non-empty run of digits that fits
/// in a `u32`.
pub open spec fn spec_parse_capital(s: Seq<char>) -> Option<u32> {
    if s.len() > 0 && all_digits(s) && digits_val(s) <= u32::MAX {
        Some(digits_val(s) as u32)
    } else {
        None
    }
}

pub fn parse_capital(s: &str) -> (r: Option<u32>)
    ensures
        r == spec_parse_capital(s@),
{
    let len = s.unicode_len();
    proof {
        assert(s@.subrange(0, s@.len() as int) =~= s@);
        lemma_digits_val_nonneg(s@);
    }
    match parse_digits(s, 0, len) {
        Some(v) => {
            if v <= u32::MAX as u64 {
                Some(v as u32)
            } else {
                None
            }
        },
        None => None,
    }
}

/// Index of the first `.` in `s`, or -1 if there is none.
pub open spec fn find_dot(s: Seq<char>) -> int
    decreases s.len(),
{
    if s.len() == 0 {
        -1
    } else if s[0] == '.' {
        0
    } else if find_dot(s.drop_first()) == -1 {
        -1
    } else {
        1 + find_dot(s.drop_first())
    }
}

pub proof fn lemma_find_dot_chars(s: Seq<char>, j: int)
    requires
        0 <= j <= s.len(),
        forall|k: int| 0 <= k < j ==> s[k] != '.',
        j == s.len() || s[j] == '.',
    ensures
        find_dot(s) == if j == s.len() {
            -1
        } else {
            j
        },
    decreases s.len(),
{
    if s.len() > 0 {
        if j == 0 {
        } else {
            lemma_find_dot_chars(s.drop_first(), j - 1);
        }
    }
}

/// The fixed-point price a token denotes: decimal digits around an
/// optional dot, at least one digit in all and at most eight after the
/// dot, scaled by `SCALE`.
pub open spec fn spec_price_val(s: Seq<char>) -> Option<int> {
    let d = find_dot(s);
    if d == -1 {
        if s.len() > 0 && all_digits(s) {
            Some(digits_val(s) * SCALE)
        } else {
            None
        }
    } else {
        let ip = s.subrange(0, d);
        let fp = s.subrange(d + 1, s.len() as int);
        if (ip.len() > 0 || fp.len() > 0) && all_digits(ip) && fp.len() <= FRAC_DIGITS
            && all_digits(fp) {
            Some(digits_val(ip) * SCALE + digits_val(fp) * pow10((FRAC_DIGITS - fp.len()) as nat))
        } else {
            None
        }
    }
}

pub open spec fn spec_parse_price(s: Seq<char>) -> Option<u64> {
    match spec_price_val(s) {
        Some(v) => if 0 <= v <= u64::MAX {
            Some(v as u64)
        } else {
            None
        },
        None => None,
    }
}

fn pow10_u64(n: u64) -> (r: u64)
    requires
        n <= 8,
    ensures
        r == pow10(n as nat),
{
    proof {
        reveal_with_fuel(pow10, 9);
    }
    let mut r: u64 = 1;
    let mut i: u64 = 0;
    while i < n
        invariant
            i <= n <= 8,
            r == pow10(i as nat),
            r <= 100_000_000,
        decreases n - i,
    {
        r = r * 10;
        i = i + 1;
        proof {
            reveal_with_fuel(pow10, 9);
            assert(pow10(i as nat) == 10 * pow10((i - 1) as nat));
        }
    }
    r
}

/// Parses a price token into fixed-point units of 1/SCALE dollars.
pub fn parse_price(s: &str) -> (r: Option<u64>)
    ensures
        r == spec_parse_price(s@),
{
    let len = s.unicode_len();
    let mut dot: usize = len;
    let mut i: usize = 0;
    while i < len
        invariant
            i <= len,
            dot <= len,
            len == s@.len(),
            dot == len ==> forall|k: int| 0 <= k < i ==> s@[k] != '.',
            dot < len ==> dot < i && s@[dot as int] == '.' && (forall|k: int|
                0 <= k < dot ==> s@[k] != '.'),
        decreases len - i,
    {
        if s.get_char(i) == '.' && dot == len {
            dot = i;
        }
        i = i + 1;
    }
    proof {
        if dot == len {
            lemma_find_dot_chars(s@, len as int);
        } else {
            lemma_find_dot_chars(s@, dot as int);
        }
    }
    if dot == len {
        // no dot: a plain integer number of dollars
        proof {
            assert(s@.subrange(0, len as int) =~= s@);
        }
        match parse_digits(s, 0, len) {
            Some(v) => {
                proof {
                    lemma_digits_val_nonneg(s@);
                }
                if v <= u64::MAX / SCALE {
                    proof {
                        assert(v * SCALE <= u64::MAX) by (nonlinear_arith)
                            requires
                                v <= (u64::MAX as int) / (100_000_000 as int),
                        ;
                    }
                    Some(v * SCALE)
                } else {
                    proof {
                        assert(v * SCALE > u64::MAX) by (nonlinear_arith)
                            requires
                                v > (u64::MAX as int) / (100_000_000 as int),
                        ;
                    }
                    None
                }
            },
            None => {
                proof {
                    if s@.len() > 0 && all_digits(s@) {
                        lemma_digits_val_nonneg(s@);
                        assert(digits_val(s@) > u64::MAX);
                        assert(digits_val(s@) * SCALE > u64::MAX) by (nonlinear_arith)
                            requires
                                digits_val(s@) > u64::MAX,
                                SCALE >= 1,
                        ;
                    }
                }
                None
            },
        }
    } else {
        let ghost ip = s@.subrange(0, dot as int);
        let ghost fp = s@.subrange(dot as int + 1, len as int);
        let fplen = len - dot - 1;
        if (dot == 0 && fplen == 0) || fplen > 8 {
            return None;
        }
        let ipv = if dot == 0 {
            0u64
        } else {
            match parse_digits(s, 0, dot) {
            Some(v) => v,
            None => {
                proof {
                    if (ip.len() > 0 || fp.len() > 0) && all_digits(ip) && fp.len() <= FRAC_DIGITS
                        && all_digits(fp) {
                        // the integer part alone already exceeds u64::MAX
                        lemma_digits_val_nonneg(ip);
                        lemma_digits_val_nonneg(fp);
                        lemma_pow10_nonneg((FRAC_DIGITS - fp.len()) as nat);
                        assert(digits_val(ip) * SCALE > u64::MAX) by (nonlinear_arith)
                            requires
                                digits_val(ip) > u64::MAX,
                                SCALE >= 1,
                        ;
                        assert(digits_val(fp) * pow10((FRAC_DIGITS - fp.len()) as nat) >= 0)
                            by (nonlinear_arith)
                            requires
                                digits_val(fp) >= 0,
                                pow10((FRAC_DIGITS - fp.len()) as nat) >= 1,
                        ;
                    }
                }
                return None;
            },
            }
        };
        let fpv = if fplen == 0 {
            0u64
        } else {
            match parse_digits(s, dot + 1, len) {
                Some(v) => v,
                None => {
                    proof {
                        if all_digits(fp) {
                            lemma_digits_val_fits(fp);
                            lemma_pow10_le(fp.len() as nat, 8);
                            lemma_pow10_concrete();
                            lemma_digits_val_nonneg(fp);
                            assert(false);
                        }
                    }
                    return None;
                },
            }
        };
        let mult = pow10_u64(8 - fplen as u64);
        proof {
            lemma_digits_val_nonneg(ip);
            lemma_digits_val_nonneg(fp);
            lemma_digits_val_fits(fp);
            lemma_pow10_nonneg((8 - fp.len()) as nat);
            lemma_pow10_mul(fp.len() as nat, (8 - fp.len()) as nat);
            lemma_pow10_concrete();
            assert(fpv * mult < 100_000_000) by (nonlinear_arith)
                requires
                    fpv < pow10(fp.len() as nat),
                    mult == pow10((8 - fp.len()) as nat),
                    fpv >= 0,
                    mult >= 1,
                    pow10(fp.len() as nat) * pow10((8 - fp.len()) as nat) == 100_000_000,
            ;
        }
        let frac: u64 = fpv * mult;
        if ipv <= (u64::MAX - frac) / SCALE {
            proof {
                assert(ipv * SCALE + frac <= u64::MAX) by (nonlinear_arith)
                    requires
                        ipv <= (u64::MAX - frac) / (100_000_000 as int),
                        frac < 100_000_000,
                ;
            }
            Some(ipv * SCALE + frac)
        } else {
            proof {
                assert(ipv * SCALE + frac > u64::MAX) by (nonlinear_arith)
                    requires
                        ipv > (u64::MAX - frac) / (100_000_000 as int),
                        frac >= 0,
                ;
            }
            None
        }
    }
}

/// Concatenating digit strings: the left part is shifted by the length of
/// the right part.
pub proof fn lemma_digits_val_concat(a: Seq<char>, b: Seq<char>)
    ensures
        digits_val(a + b) == digits_val(a) * pow10(b.len()) + digits_val(b),
    decreases b.len(),
{
    if b.len() == 0 {
        assert(a + b =~= a);
    } else {
        lemma_digits_val_concat(a, b.drop_last());
        assert((a + b).drop_last() =~= a + b.drop_last());
        assert((a + b).last() == b.last());
        assert(digits_val(a) * (10 * pow10((b.len() - 1) as nat)) == (digits_val(a) * pow10(
            (b.len() - 1) as nat,
        )) * 10) by (nonlinear_arith);
    }
}

/// A run of zero digits is worth zero.
pub proof fn lemma_digits_val_zeros(b: Seq<char>)
    requires
        forall|i: int| 0 <= i < b.len() ==> b[i] == '0',
    ensures
        digits_val(b) == 0,
    decreases b.len(),
{
    if b.len() > 0 {
        lemma_digits_val_zeros(b.drop_last());
    }
}

/// Concrete values of pow10 up to the price scale.
pub proof fn lemma_pow10_concrete()
    ensures
        pow10(0) == 1,
        pow10(1) == 10,
        pow10(2) == 100,
        pow10(3) == 1000,
        pow10(4) == 10000,
        pow10(5) == 100000,
        pow10(6) == 1000000,
        pow10(7) == 10000000,
        pow10(8) == 100_000_000,
{
    reveal_with_fuel(pow10, 2);
    assert(pow10(0) == 1);
    assert(pow10(1) == 10 * pow10(0));
    assert(pow10(2) == 10 * pow10(1));
    assert(pow10(3) == 10 * pow10(2));
    assert(pow10(4) == 10 * pow10(3));
    assert(pow10(5) == 10 * pow10(4));
    assert(pow10(6) == 10 * pow10(5));
    assert(pow10(7) == 10 * pow10(6));
    assert(pow10(8) == 10 * pow10(7));
}

/// pow10 is monotone.
pub proof fn lemma_pow10_le(a: nat, b: nat)
    requires
        a <= b,
    ensures
        pow10(a) <= pow10(b),
    decreases b,
{
    if a < b {
        lemma_pow10_le(a, (b - 1) as nat);
        lemma_pow10_nonneg((b - 1) as nat);
    }
}

pub proof fn lemma_pow10_nonneg(n: nat)
    ensures
        pow10(n) >= 1,
    decreases n,
{
    if n > 0 {
        lemma_pow10_nonneg((n - 1) as nat);
    }
}

/// pow10(a) * pow10(b) == pow10(a + b)
pub proof fn lemma_pow10_mul(a: nat, b: nat)
    ensures
        pow10(a) * pow10(b) == pow10(a + b),
    decreases a,
{
    if a == 0 {
    } else {
        lemma_pow10_mul((a - 1) as nat, b);
        assert(pow10(a) * pow10(b) == 10 * (pow10((a - 1) as nat) * pow10(b)))
            by (nonlinear_arith)
            requires
                pow10(a) == 10 * pow10((a - 1) as nat),
        ;
    }
}

/// A digit string's value is below pow10 of its length.
pub proof fn lemma_digits_val_fits(s: Seq<char>)
    ensures
        digits_val(s) < pow10(s.len()),
    decreases s.len(),
{
    if s.len() == 0 {
    } else {
        lemma_digits_val_fits(s.drop_last());
        assert(digit_val(s.last()) <= 9);
        assert(digits_val(s.drop_last()) * 10 + 9 < pow10(s.len())) by (nonlinear_arith)
            requires
                digits_val(s.drop_last()) < pow10((s.len() - 1) as nat),
                pow10(s.len()) == 10 * pow10((s.len() - 1) as nat),
        ;
    }
}

} // verus!
