use vstd::prelude::*;
use vstd::string::{StrSliceExecFns, StringExecFns};

use crate::num::{
    digits_val, is_digit, lemma_digits_val_concat, lemma_digits_val_nonneg,
    lemma_digits_val_prefix, lemma_digits_val_take_step, lemma_digits_val_zeros, lemma_pow10_le,
    lemma_pow10_concrete, lemma_pow10_mul, lemma_pow10_nonneg, parse_digits, pow10,
};
use crate::symbols::str_eq;

verus! {

/// Why no quote came back: the request failed, the response body was not
/// of the expected shape (or its price does not fit the fixed-point
/// range), or the identifier had no entry in the decoded mapping.
#[derive(PartialEq, Eq, Structural, Clone, Copy, Debug)]
pub enum PriceError {
    Fetch,
    Decode,
    NotFound,
}

/// The price-service endpoint for one identifier, asking for USD.
pub open spec fn spec_quote_url(id: Seq<char>) -> Seq<char> {
    "https://api.coingecko.com/api/v3/simple/price?ids="@ + id + "&vs_currencies=usd"@
}

/// Builds the request URL for an identifier.
pub fn build_url(id: &str) -> (r: String)
    ensures
        r@ == spec_quote_url(id@),
{
    let mut s = String::from_str("https://api.coingecko.com/api/v3/simple/price?ids=");
    s.append(id);
    s.append("&vs_currencies=usd");
    s
}

// --- lexical layer: whitespace, digit runs, string bodies ---

pub open spec fn is_json_ws(c: char) -> bool {
    c == ' ' || c == '\t' || c == '\n' || c == '\r'
}

/// First index at or after i that holds no whitespace.
pub open spec fn sws(s: Seq<char>, i: int) -> int
    decreases s.len() - i,
{
    if 0 <= i < s.len() && is_json_ws(s[i]) {
        sws(s, i + 1)
    } else {
        i
    }
}

pub proof fn lemma_sws_at(s: Seq<char>, i: int, j: int)
    requires
        0 <= i <= j <= s.len(),
        forall|k: int| i <= k < j ==> is_json_ws(s[k]),
        j == s.len() || !is_json_ws(s[j]),
    ensures
        sws(s, i) == j,
    decreases j - i,
{
    if i < j {
        lemma_sws_at(s, i + 1, j);
    }
}

/// First index at or after i that holds no digit.
pub open spec fn digits_end(s: Seq<char>, i: int) -> int
    decreases s.len() - i,
{
    if 0 <= i < s.len() && is_digit(s[i]) {
        digits_end(s, i + 1)
    } else {
        i
    }
}

pub proof fn lemma_digits_end_at(s: Seq<char>, i: int, j: int)
    requires
        0 <= i <= j <= s.len(),
        forall|k: int| i <= k < j ==> is_digit(s[k]),
        j == s.len() || !is_digit(s[j]),
    ensures
        digits_end(s, i) == j,
    decreases j - i,
{
    if i < j {
        lemma_digits_end_at(s, i + 1, j);
    }
}

pub proof fn lemma_digits_end_props(s: Seq<char>, i: int)
    requires
        0 <= i <= s.len(),
    ensures
        i <= digits_end(s, i) <= s.len(),
        forall|k: int| i <= k < digits_end(s, i) ==> is_digit(s[k]),
    decreases s.len() - i,
{
    if i < s.len() && is_digit(s[i]) {
        lemma_digits_end_props(s, i + 1);
    }
}

/// Index of the closing quote of a string body starting at i, or -1 if
/// the string is unterminated or holds an escape.
pub open spec fn str_close(s: Seq<char>, i: int) -> int
    decreases s.len() - i,
{
    if !(0 <= i < s.len()) {
        -1
    } else if s[i] == '"' {
        i
    } else if s[i] == '\\' {
        -1
    } else {
        str_close(s, i + 1)
    }
}

pub proof fn lemma_str_close_at(s: Seq<char>, i: int, j: int)
    requires
        0 <= i <= j <= s.len(),
        forall|k: int| i <= k < j ==> s[k] != '"' && s[k] != '\\',
        j == s.len() || s[j] == '"' || s[j] == '\\',
    ensures
        str_close(s, i) == if j < s.len() && s[j] == '"' {
            j
        } else {
            -1int
        },
    decreases j - i,
{
    if i < j {
        lemma_str_close_at(s, i + 1, j);
    }
}

fn is_ws_char(c: char) -> (r: bool)
    ensures
        r == is_json_ws(c),
{
    c == ' ' || c == '\t' || c == '\n' || c == '\r'
}

fn skip_ws(s: &str, i: usize) -> (r: usize)
    requires
        i <= s@.len(),
    ensures
        r == sws(s@, i as int),
        i <= r <= s@.len(),
{
    let len = s.unicode_len();
    let mut j = i;
    let mut done = false;
    while j < len && !done
        invariant
            i <= j <= len,
            len == s@.len(),
            forall|k: int| i <= k < j ==> is_json_ws(s@[k]),
            done ==> j < len && !is_json_ws(s@[j as int]),
        decreases 2 * (len - j) + (if done {
            0int
        } else {
            1int
        }),
    {
        if is_ws_char(s.get_char(j)) {
            j = j + 1;
        } else {
            done = true;
        }
    }
    proof {
        lemma_sws_at(s@, i as int, j as int);
    }
    j
}

fn scan_digits(s: &str, i: usize) -> (r: usize)
    requires
        i <= s@.len(),
    ensures
        r == digits_end(s@, i as int),
        i <= r <= s@.len(),
{
    let len = s.unicode_len();
    let mut j = i;
    let mut done = false;
    while j < len && !done
        invariant
            i <= j <= len,
            len == s@.len(),
            forall|k: int| i <= k < j ==> is_digit(s@[k]),
            done ==> j < len && !is_digit(s@[j as int]),
        decreases 2 * (len - j) + (if done {
            0int
        } else {
            1int
        }),
    {
        let c = s.get_char(j);
        if c >= '0' && c <= '9' {
            j = j + 1;
        } else {
            done = true;
        }
    }
    proof {
        lemma_digits_end_at(s@, i as int, j as int);
    }
    j
}

/// Finds the closing quote of a string body. True with the index when the
/// string is terminated and escape-free, false otherwise.
fn find_close(s: &str, i: usize) -> (r: (bool, usize))
    requires
        i <= s@.len(),
    ensures
        r.0 ==> str_close(s@, i as int) == r.1 && i <= r.1 < s@.len() && s@[r.1 as int] == '"',
        !r.0 ==> str_close(s@, i as int) == -1,
{
    let len = s.unicode_len();
    let mut j = i;
    let mut done = false;
    while j < len && !done
        invariant
            i <= j <= len,
            len == s@.len(),
            forall|k: int| i <= k < j ==> s@[k] != '"' && s@[k] != '\\',
            done ==> j < len && (s@[j as int] == '"' || s@[j as int] == '\\'),
        decreases 2 * (len - j) + (if done {
            0int
        } else {
            1int
        }),
    {
        let c = s.get_char(j);
        if c == '"' || c == '\\' {
            done = true;
        } else {
            j = j + 1;
        }
    }
    proof {
        lemma_str_close_at(s@, i as int, j as int);
    }
    if j < len && s.get_char(j) == '"' {
        (true, j)
    } else {
        (false, 0)
    }
}

// --- numbers: JSON grammar, converted to the fixed-point price scale ---

pub open spec fn num_neg(s: Seq<char>, i: int) -> bool {
    0 <= i < s.len() && s[i] == '-'
}

pub open spec fn num_ip_start(s: Seq<char>, i: int) -> int {
    if num_neg(s, i) {
        i + 1
    } else {
        i
    }
}

pub open spec fn num_ip_end(s: Seq<char>, i: int) -> int {
    digits_end(s, num_ip_start(s, i))
}

/// A number token needs at least one integer digit.
pub open spec fn num_valid(s: Seq<char>, i: int) -> bool {
    num_ip_end(s, i) > num_ip_start(s, i)
}

pub open spec fn num_has_frac(s: Seq<char>, i: int) -> bool {
    let d1 = num_ip_end(s, i);
    0 <= d1 < s.len() && s[d1] == '.' && digits_end(s, d1 + 1) > d1 + 1
}

pub open spec fn num_fp_end(s: Seq<char>, i: int) -> int {
    if num_has_frac(s, i) {
        digits_end(s, num_ip_end(s, i) + 1)
    } else {
        num_ip_end(s, i)
    }
}

/// Index of the first exponent digit, or -1 when the token carries no
/// exponent part of one to three digits.
pub open spec fn num_exp_start(s: Seq<char>, i: int) -> int {
    let d2 = num_fp_end(s, i);
    if 0 <= d2 < s.len() && (s[d2] == 'e' || s[d2] == 'E') {
        let es = if d2 + 1 < s.len() && (s[d2 + 1] == '+' || s[d2 + 1] == '-') {
            d2 + 2
        } else {
            d2 + 1
        };
        if digits_end(s, es) > es && digits_end(s, es) - es <= 3 {
            es
        } else {
            -1
        }
    } else {
        -1
    }
}

pub open spec fn num_end(s: Seq<char>, i: int) -> int {
    if num_exp_start(s, i) >= 0 {
        digits_end(s, num_exp_start(s, i))
    } else {
        num_fp_end(s, i)
    }
}

/// The signed decimal exponent of the token (zero when absent).
pub open spec fn num_exp(s: Seq<char>, i: int) -> int {
    if num_exp_start(s, i) >= 0 {
        let es = num_exp_start(s, i);
        let v = digits_val(s.subrange(es, digits_end(s, es)));
        if s[es - 1] == '-' {
            -v
        } else {
            v
        }
    } else {
        0
    }
}

/// The token's significant digits: integer part then fraction part.
pub open spec fn num_ds(s: Seq<char>, i: int) -> Seq<char> {
    s.subrange(num_ip_start(s, i), num_ip_end(s, i)) + if num_has_frac(s, i) {
        s.subrange(num_ip_end(s, i) + 1, num_fp_end(s, i))
    } else {
        Seq::<char>::empty()
    }
}

pub open spec fn zeros(n: nat) -> Seq<char>
    decreases n,
{
    if n == 0 {
        Seq::<char>::empty()
    } else {
        zeros((n - 1) as nat) + seq!['0']
    }
}

pub proof fn lemma_zeros_props(n: nat)
    ensures
        zeros(n).len() == n,
        forall|i: int| 0 <= i < n ==> zeros(n)[i] == '0',
    decreases n,
{
    if n > 0 {
        lemma_zeros_props((n - 1) as nat);
    }
}

/// The first m digits of ds, extended with trailing zeros if ds is
/// shorter: the digit string of the value shifted to m integer places.
pub open spec fn scaled_digits(ds: Seq<char>, m: int) -> Seq<char> {
    if m <= ds.len() {
        ds.take(m)
    } else {
        ds + zeros((m - ds.len()) as nat)
    }
}

/// The number the token denotes, scaled to the price scale of eight
/// fraction digits and truncated toward zero: the value of its digit
/// string with the decimal point moved ip.len() + exponent + 8 places in.
/// None when the value is negative or exceeds u64::MAX.
pub open spec fn num_fixed(s: Seq<char>, i: int) -> Option<u64> {
    let m = num_ip_end(s, i) - num_ip_start(s, i) + num_exp(s, i) + 8;
    if m <= 0 {
        Some(0u64)
    } else {
        let v = digits_val(scaled_digits(num_ds(s, i), m));
        if num_neg(s, i) && v != 0 {
            None
        } else if v <= u64::MAX {
            Some(v as u64)
        } else {
            None
        }
    }
}

/// Parses a JSON number token at i. Returns its fixed-point value (None
/// inside when it does not fit the price range) and its end index.
#[verifier::rlimit(60)]
fn parse_number(s: &str, i: usize) -> (r: Option<(Option<u64>, usize)>)
    requires
        i <= s@.len(),
    ensures
        r is Some <==> num_valid(s@, i as int),
        r matches Some(t) ==> ({
            &&& t.1 == num_end(s@, i as int)
            &&& i < t.1 <= s@.len()
            &&& t.0 == num_fixed(s@, i as int)
        }),
{
    let len = s.unicode_len();
    let neg = i < len && s.get_char(i) == '-';
    let d0 = if neg {
        i + 1
    } else {
        i
    };
    proof {
        assert(d0 as int == num_ip_start(s@, i as int));
    }
    let d1 = scan_digits(s, d0);
    if d1 == d0 {
        return None;
    }
    let mut d2 = d1;
    if d1 < len && s.get_char(d1) == '.' {
        let f = scan_digits(s, d1 + 1);
        if f > d1 + 1 {
            d2 = f;
        }
    }
    proof {
        assert(d2 as int == num_fp_end(s@, i as int));
    }
    let mut endx = d2;
    let mut exp: i64 = 0;
    if d2 < len {
        let c = s.get_char(d2);
        if c == 'e' || c == 'E' {
            let mut es = d2 + 1;
            let mut eneg = false;
            if es < len {
                let sc = s.get_char(es);
                if sc == '+' {
                    es = es + 1;
                } else if sc == '-' {
                    es = es + 1;
                    eneg = true;
                }
            }
            if es <= len {
                let d3 = scan_digits(s, es);
                if d3 > es && d3 - es <= 3 {
                    proof {
                        assert(num_exp_start(s@, i as int) == es as int);
                        lemma_digits_end_props(s@, es as int);
                        lemma_digits_val_nonneg(s@.subrange(es as int, d3 as int));
                        crate::num::lemma_digits_val_fits(s@.subrange(es as int, d3 as int));
                        lemma_pow10_le(s@.subrange(es as int, d3 as int).len() as nat, 3);
                        lemma_pow10_concrete();
                    }
                    let ev = match parse_digits(s, es, d3) {
                        Some(v) => v,
                        None => 0,
                    };
                    exp = if eneg {
                        -(ev as i64)
                    } else {
                        ev as i64
                    };
                    endx = d3;
                } else {
                    proof {
                        assert(num_exp_start(s@, i as int) == -1);
                    }
                }
            }
        }
    }
    proof {
        assert(endx as int == num_end(s@, i as int));
        assert(exp as int == num_exp(s@, i as int));
    }
    let iplen = d1 - d0;
    let fplen = if d2 > d1 {
        d2 - d1 - 1
    } else {
        0
    };
    let dslen = iplen + fplen;
    let ghost ds = num_ds(s@, i as int);
    proof {
        assert(ds.len() == dslen);
    }
    let m128: i128 = iplen as i128 + exp as i128 + 8;
    proof {
        assert(m128 == num_ip_end(s@, i as int) - num_ip_start(s@, i as int) + num_exp(
            s@,
            i as int,
        ) + 8);
    }
    if m128 <= 0 {
        return Some((Some(0), endx));
    }
    let limit: usize = if m128 >= dslen as i128 {
        dslen
    } else {
        m128 as usize
    };
    let ghost scaled = scaled_digits(ds, m128 as int);
    proof {
        lemma_zeros_props((m128 - ds.len()) as nat);
        if m128 <= dslen {
            assert(scaled == ds.take(m128 as int));
        }
        assert(scaled.take(0) =~= Seq::<char>::empty());
        lemma_digits_end_props(s@, d0 as int);
        if d2 > d1 {
            lemma_digits_end_props(s@, d1 + 1);
        }
    }
    let mut v: u64 = 0;
    let mut t: usize = 0;
    while t < limit
        invariant
            num_valid(s@, i as int),
            neg == num_neg(s@, i as int),
            endx as int == num_end(s@, i as int),
            i < endx <= s@.len(),
            m128 == num_ip_end(s@, i as int) - num_ip_start(s@, i as int) + num_exp(s@, i as int)
                + 8,
            t <= limit,
            limit == (if m128 >= dslen as i128 {
                dslen as i128
            } else {
                m128
            }),
            0 < m128,
            dslen == iplen + fplen,
            iplen == d1 - d0,
            fplen == (if d2 > d1 {
                d2 - d1 - 1
            } else {
                0int
            }),
            i <= d0 <= d1 <= d2 <= s@.len(),
            ds == num_ds(s@, i as int),
            ds.len() == dslen,
            scaled == scaled_digits(ds, m128 as int),
            d1 as int == num_ip_end(s@, i as int),
            d0 as int == num_ip_start(s@, i as int),
            d2 as int == num_fp_end(s@, i as int),
            forall|k: int| 0 <= k < ds.len() ==> is_digit(ds[k]),
            v == digits_val(ds.take(t as int)),
        decreases limit - t,
    {
        let c = if t < iplen {
            s.get_char(d0 + t)
        } else {
            s.get_char(d1 + 1 + (t - iplen))
        };
        proof {
            if t < iplen {
                assert(ds[t as int] == s@[d0 + t]);
            } else {
                assert(ds[t as int] == s@[d1 + 1 + (t - iplen)]);
            }
            assert(is_digit(ds[t as int]));
            lemma_digits_val_take_step(ds, t as int);
            lemma_digits_val_nonneg(ds.take(t as int));
        }
        let d: u64 = (c as u32 - 48) as u64;
        if v > (u64::MAX - d) / 10 {
            proof {
                assert(v * 10 + d > u64::MAX) by (nonlinear_arith)
                    requires
                        v > (u64::MAX - d) / 10,
                        0 <= d <= 9,
                        v <= u64::MAX,
                ;
                assert(scaled.take(t + 1) =~= ds.take(t + 1));
                lemma_digits_val_prefix(scaled, t + 1);
            }
            return Some((None, endx));
        }
        proof {
            assert(v * 10 + d <= u64::MAX) by (nonlinear_arith)
                requires
                    v <= (u64::MAX - d) / 10,
                    0 <= d <= 9,
            ;
        }
        v = v * 10 + d;
        t = t + 1;
    }
    if m128 <= dslen as i128 {
        proof {
            assert(scaled =~= ds.take(m128 as int));
            assert(digits_val(scaled) == v);
        }
        if neg && v != 0 {
            return Some((None, endx));
        }
        return Some((Some(v), endx));
    }
    // the digits run out before the scaled decimal point: append zeros
    proof {
        assert(ds.take(dslen as int) =~= ds);
        assert(v == digits_val(ds));
        lemma_digits_val_nonneg(ds);
    }
    let k: usize = ((m128 - dslen as i128) as u64) as usize;
    proof {
        assert(m128 - dslen <= 8 + 999);
    }
    let ghost dv = digits_val(ds);
    let mut j: usize = 0;
    while j < k
        invariant
            num_valid(s@, i as int),
            neg == num_neg(s@, i as int),
            endx as int == num_end(s@, i as int),
            i < endx <= s@.len(),
            m128 == num_ip_end(s@, i as int) - num_ip_start(s@, i as int) + num_exp(s@, i as int)
                + 8,
            j <= k,
            dv == digits_val(ds),
            dv >= 0,
            v == dv * pow10(j as nat),
            ds == num_ds(s@, i as int),
            scaled == scaled_digits(ds, m128 as int),
            k == m128 - ds.len(),
            m128 > ds.len(),
        decreases k - j,
    {
        if v > u64::MAX / 10 {
            proof {
                lemma_pow10_nonneg(j as nat);
                lemma_pow10_nonneg((k - j - 1) as nat);
                lemma_pow10_mul((j + 1) as nat, (k - j - 1) as nat);
                assert(pow10((j + 1) as nat) == 10 * pow10(j as nat));
                assert(dv * pow10(k as nat) == (dv * pow10((j + 1) as nat)) * pow10(
                    (k - j - 1) as nat,
                )) by (nonlinear_arith)
                    requires
                        pow10((j + 1) as nat) * pow10((k - j - 1) as nat) == pow10(k as nat),
                ;
                assert(dv * pow10((j + 1) as nat) == v * 10) by (nonlinear_arith)
                    requires
                        v == dv * pow10(j as nat),
                        pow10((j + 1) as nat) == 10 * pow10(j as nat),
                ;
                assert(v * 10 > u64::MAX) by (nonlinear_arith)
                    requires
                        v > u64::MAX / 10,
                        v <= u64::MAX,
                ;
                assert(dv * pow10(k as nat) >= v * 10) by (nonlinear_arith)
                    requires
                        dv * pow10(k as nat) == (v * 10) * pow10((k - j - 1) as nat),
                        v * 10 >= 0,
                        pow10((k - j - 1) as nat) >= 1,
                ;
                lemma_digits_val_concat(ds, zeros((m128 - ds.len()) as nat));
                lemma_zeros_props((m128 - ds.len()) as nat);
                lemma_digits_val_zeros(zeros((m128 - ds.len()) as nat));
            }
            return Some((None, endx));
        }
        proof {
            assert(v * 10 <= u64::MAX) by (nonlinear_arith)
                requires
                    v <= u64::MAX / 10,
            ;
            assert(dv * pow10((j + 1) as nat) == v * 10) by (nonlinear_arith)
                requires
                    v == dv * pow10(j as nat),
                    pow10((j + 1) as nat) == 10 * pow10(j as nat),
            ;
        }
        v = v * 10;
        j = j + 1;
    }
    proof {
        lemma_digits_val_concat(ds, zeros((m128 - ds.len()) as nat));
        lemma_zeros_props((m128 - ds.len()) as nat);
        lemma_digits_val_zeros(zeros((m128 - ds.len()) as nat));
        assert(digits_val(scaled) == dv * pow10(k as nat));
    }
    if neg && v != 0 {
        return Some((None, endx));
    }
    Some((Some(v), endx))
}

// --- the response object: any set of keys, each a quote object that
// --- carries at least a "usd" number

/// End of the field list of a quote object, the key's field starting at
/// i, or -1 when the fields do not parse.
pub open spec fn ifs_end(s: Seq<char>, i: int) -> int
    decreases s.len() - i,
{
    if !(0 <= i < s.len() && s[i] == '"') {
        -1
    } else {
        let k = str_close(s, i + 1);
        if k < 0 {
            -1
        } else {
            let a = sws(s, k + 1);
            if !(a < s.len() && s[a] == ':') {
                -1
            } else {
                let b = sws(s, a + 1);
                if !num_valid(s, b) {
                    -1
                } else {
                    let c = sws(s, num_end(s, b));
                    if c < s.len() && s[c] == '}' {
                        c + 1
                    } else if c < s.len() && s[c] == ',' {
                        let n2 = sws(s, c + 1);
                        if i < n2 <= s.len() {
                            ifs_end(s, n2)
                        } else {
                            -1
                        }
                    } else {
                        -1
                    }
                }
            }
        }
    }
}

/// Whether the field list carries the key; a later duplicate wins.
pub open spec fn ifs_has(s: Seq<char>, i: int, key: Seq<char>) -> bool
    decreases s.len() - i,
{
    if !(0 <= i < s.len() && s[i] == '"') {
        false
    } else {
        let k = str_close(s, i + 1);
        if k < 0 {
            false
        } else {
            let a = sws(s, k + 1);
            if !(a < s.len() && s[a] == ':') {
                false
            } else {
                let b = sws(s, a + 1);
                if !num_valid(s, b) {
                    false
                } else {
                    let c = sws(s, num_end(s, b));
                    if c < s.len() && s[c] == '}' {
                        s.subrange(i + 1, k) == key
                    } else if c < s.len() && s[c] == ',' {
                        let n2 = sws(s, c + 1);
                        if i < n2 <= s.len() {
                            ifs_has(s, n2, key) || s.subrange(i + 1, k) == key
                        } else {
                            false
                        }
                    } else {
                        false
                    }
                }
            }
        }
    }
}

/// The key's number in the field list, as a fixed-point price.
pub open spec fn ifs_val(s: Seq<char>, i: int, key: Seq<char>) -> Option<u64>
    decreases s.len() - i,
{
    if !(0 <= i < s.len() && s[i] == '"') {
        None
    } else {
        let k = str_close(s, i + 1);
        if k < 0 {
            None
        } else {
            let a = sws(s, k + 1);
            if !(a < s.len() && s[a] == ':') {
                None
            } else {
                let b = sws(s, a + 1);
                if !num_valid(s, b) {
                    None
                } else {
                    let c = sws(s, num_end(s, b));
                    if c < s.len() && s[c] == '}' {
                        num_fixed(s, b)
                    } else if c < s.len() && s[c] == ',' {
                        let n2 = sws(s, c + 1);
                        if i < n2 <= s.len() {
                            if ifs_has(s, n2, key) {
                                ifs_val(s, n2, key)
                            } else {
                                num_fixed(s, b)
                            }
                        } else {
                            None
                        }
                    } else {
                        None
                    }
                }
            }
        }
    }
}

/// Walks a quote object's fields. Returns whether a "usd" field is
/// present, its value, and the index after the closing brace.
fn inner_fields(s: &str, i: usize) -> (r: Option<(bool, Option<u64>, usize)>)
    requires
        i <= s@.len(),
    ensures
        r is Some <==> ifs_end(s@, i as int) >= 0,
        r matches Some(t) ==> ({
            &&& t.2 == ifs_end(s@, i as int)
            &&& i < t.2 <= s@.len()
            &&& t.0 == ifs_has(s@, i as int, "usd"@)
            &&& (t.0 ==> t.1 == ifs_val(s@, i as int, "usd"@))
        }),
    decreases s@.len() - i,
{
    let len = s.unicode_len();
    if i >= len || s.get_char(i) != '"' {
        return None;
    }
    let (ok, k) = find_close(s, i + 1);
    if !ok {
        return None;
    }
    let a = skip_ws(s, k + 1);
    if a >= len || s.get_char(a) != ':' {
        return None;
    }
    let b = skip_ws(s, a + 1);
    let num = match parse_number(s, b) {
        Some(t) => t,
        None => {
            return None;
        },
    };
    let key_is_usd = str_eq(s.substring_char(i + 1, k), "usd");
    let c = skip_ws(s, num.1);
    if c < len && s.get_char(c) == '}' {
        Some((key_is_usd, num.0, c + 1))
    } else if c < len && s.get_char(c) == ',' {
        let n2 = skip_ws(s, c + 1);
        match inner_fields(s, n2) {
            None => None,
            Some(rest) => {
                let found = rest.0 || key_is_usd;
                let val = if rest.0 {
                    rest.1
                } else {
                    num.0
                };
                Some((found, val, rest.2))
            },
        }
    } else {
        None
    }
}

/// End of the field list of the outer object, the key's field starting at
/// i, or -1. Each value must be a quote object carrying a "usd" field.
pub open spec fn ofs_end(s: Seq<char>, i: int) -> int
    decreases s.len() - i,
{
    if !(0 <= i < s.len() && s[i] == '"') {
        -1
    } else {
        let k = str_close(s, i + 1);
        if k < 0 {
            -1
        } else {
            let a = sws(s, k + 1);
            if !(a < s.len() && s[a] == ':') {
                -1
            } else {
                let b = sws(s, a + 1);
                if !(b < s.len() && s[b] == '{') {
                    -1
                } else {
                    let bb = sws(s, b + 1);
                    let ie = ifs_end(s, bb);
                    if ie < 0 || !ifs_has(s, bb, "usd"@) {
                        -1
                    } else {
                        let c = sws(s, ie);
                        if c < s.len() && s[c] == '}' {
                            c + 1
                        } else if c < s.len() && s[c] == ',' {
                            let n2 = sws(s, c + 1);
                            if i < n2 <= s.len() {
                                ofs_end(s, n2)
                            } else {
                                -1
                            }
                        } else {
                            -1
                        }
                    }
                }
            }
        }
    }
}

/// Whether the outer field list carries the identifier as a key.
pub open spec fn ofs_has(s: Seq<char>, i: int, id: Seq<char>) -> bool
    decreases s.len() - i,
{
    if !(0 <= i < s.len() && s[i] == '"') {
        false
    } else {
        let k = str_close(s, i + 1);
        if k < 0 {
            false
        } else {
            let a = sws(s, k + 1);
            if !(a < s.len() && s[a] == ':') {
                false
            } else {
                let b = sws(s, a + 1);
                if !(b < s.len() && s[b] == '{') {
                    false
                } else {
                    let bb = sws(s, b + 1);
                    let ie = ifs_end(s, bb);
                    if ie < 0 || !ifs_has(s, bb, "usd"@) {
                        false
                    } else {
                        let c = sws(s, ie);
                        if c < s.len() && s[c] == '}' {
                            s.subrange(i + 1, k) == id
                        } else if c < s.len() && s[c] == ',' {
                            let n2 = sws(s, c + 1);
                            if i < n2 <= s.len() {
                                ofs_has(s, n2, id) || s.subrange(i + 1, k) == id
                            } else {
                                false
                            }
                        } else {
                            false
                        }
                    }
                }
            }
        }
    }
}

/// The identifier's "usd" price in the outer field list.
pub open spec fn ofs_val(s: Seq<char>, i: int, id: Seq<char>) -> Option<u64>
    decreases s.len() - i,
{
    if !(0 <= i < s.len() && s[i] == '"') {
        None
    } else {
        let k = str_close(s, i + 1);
        if k < 0 {
            None
        } else {
            let a = sws(s, k + 1);
            if !(a < s.len() && s[a] == ':') {
                None
            } else {
                let b = sws(s, a + 1);
                if !(b < s.len() && s[b] == '{') {
                    None
                } else {
                    let bb = sws(s, b + 1);
                    let ie = ifs_end(s, bb);
                    if ie < 0 || !ifs_has(s, bb, "usd"@) {
                        None
                    } else {
                        let c = sws(s, ie);
                        if c < s.len() && s[c] == '}' {
                            ifs_val(s, bb, "usd"@)
                        } else if c < s.len() && s[c] == ',' {
                            let n2 = sws(s, c + 1);
                            if i < n2 <= s.len() {
                                if ofs_has(s, n2, id) {
                                    ofs_val(s, n2, id)
                                } else {
                                    ifs_val(s, bb, "usd"@)
                                }
                            } else {
                                None
                            }
                        } else {
                            None
                        }
                    }
                }
            }
        }
    }
}

/// Walks the outer object's fields looking for the identifier.
fn outer_fields(s: &str, i: usize, id: &str) -> (r: Option<(bool, Option<u64>, usize)>)
    requires
        i <= s@.len(),
    ensures
        r is Some <==> ofs_end(s@, i as int) >= 0,
        r matches Some(t) ==> ({
            &&& t.2 == ofs_end(s@, i as int)
            &&& i < t.2 <= s@.len()
            &&& t.0 == ofs_has(s@, i as int, id@)
            &&& (t.0 ==> t.1 == ofs_val(s@, i as int, id@))
        }),
    decreases s@.len() - i,
{
    let len = s.unicode_len();
    if i >= len || s.get_char(i) != '"' {
        return None;
    }
    let (ok, k) = find_close(s, i + 1);
    if !ok {
        return None;
    }
    let a = skip_ws(s, k + 1);
    if a >= len || s.get_char(a) != ':' {
        return None;
    }
    let b = skip_ws(s, a + 1);
    if b >= len || s.get_char(b) != '{' {
        return None;
    }
    let bb = skip_ws(s, b + 1);
    let inner = match inner_fields(s, bb) {
        Some(t) => t,
        None => {
            return None;
        },
    };
    if !inner.0 {
        return None;
    }
    let key_is_id = str_eq(s.substring_char(i + 1, k), id);
    let c = skip_ws(s, inner.2);
    if c < len && s.get_char(c) == '}' {
        Some((key_is_id, inner.1, c + 1))
    } else if c < len && s.get_char(c) == ',' {
        let n2 = skip_ws(s, c + 1);
        match outer_fields(s, n2, id) {
            None => None,
            Some(rest) => {
                let found = rest.0 || key_is_id;
                let val = if rest.0 {
                    rest.1
                } else {
                    inner.1
                };
                Some((found, val, rest.2))
            },
        }
    } else {
        None
    }
}

/// Whether a response body decodes as the service's quote mapping:
/// optional whitespace around an object whose keys each map to an object
/// carrying at least a "usd" number.
pub open spec fn spec_decoded(body: Seq<char>) -> bool {
    let i = sws(body, 0);
    if !(i < body.len() && body[i] == '{') {
        false
    } else {
        let j = sws(body, i + 1);
        if j < body.len() && body[j] == '}' {
            sws(body, j + 1) == body.len()
        } else {
            ofs_end(body, j) >= 0 && sws(body, ofs_end(body, j)) == body.len()
        }
    }
}

/// Whether the decoded mapping carries the identifier as a key.
pub open spec fn spec_quote_has(body: Seq<char>, id: Seq<char>) -> bool {
    let i = sws(body, 0);
    let j = sws(body, i + 1);
    if j < body.len() && body[j] == '}' {
        false
    } else {
        ofs_has(body, j, id)
    }
}

/// The identifier's USD price in the decoded mapping, as a fixed-point
/// value; None when it does not fit the price range.
pub open spec fn spec_quote_usd(body: Seq<char>, id: Seq<char>) -> Option<u64> {
    let i = sws(body, 0);
    let j = sws(body, i + 1);
    ofs_val(body, j, id)
}

/// The quote a response body carries for an identifier: its "usd" number
/// when the body decodes and carries the identifier, NotFound when the
/// decoded mapping lacks it, Decode when the body does not decode or the
/// price does not fit the fixed-point range.
pub open spec fn spec_extract(body: Seq<char>, id: Seq<char>) -> Result<u64, PriceError> {
    if !spec_decoded(body) {
        Err(PriceError::Decode)
    } else if !spec_quote_has(body, id) {
        Err(PriceError::NotFound)
    } else {
        match spec_quote_usd(body, id) {
            Some(p) => Ok(p),
            None => Err(PriceError::Decode),
        }
    }
}

/// Reads the USD quote for an identifier out of a price-service response
/// body.
pub fn extract_usd(body: &str, id: &str) -> (r: Result<u64, PriceError>)
    ensures
        r == spec_extract(body@, id@),
{
    let len = body.unicode_len();
    let i = skip_ws(body, 0);
    if i >= len || body.get_char(i) != '{' {
        return Err(PriceError::Decode);
    }
    let j = skip_ws(body, i + 1);
    if j < len && body.get_char(j) == '}' {
        let t = skip_ws(body, j + 1);
        if t == len {
            return Err(PriceError::NotFound);
        } else {
            return Err(PriceError::Decode);
        }
    }
    match outer_fields(body, j, id) {
        None => Err(PriceError::Decode),
        Some(fields) => {
            let t = skip_ws(body, fields.2);
            if t != len {
                return Err(PriceError::Decode);
            }
            if !fields.0 {
                return Err(PriceError::NotFound);
            }
            match fields.1 {
                Some(p) => Ok(p),
                None => Err(PriceError::Decode),
            }
        },
    }
}

} // verus!
