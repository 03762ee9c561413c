use vstd::prelude::*;

verus! {

/// The whitespace characters a line is split on: the Unicode White_Space
/// code points, as the standard library's whitespace splitting uses.
pub open spec fn is_space(c: char) -> bool {
    let u = c as u32;
    (9 <= u <= 13) || u == 0x20 || u == 0x85 || u == 0xA0 || u == 0x1680 || (0x2000 <= u
        <= 0x200A) || u == 0x2028 || u == 0x2029 || u == 0x202F || u == 0x205F || u == 0x3000
}

pub fn is_space_char(c: char) -> (r: bool)
    ensures
        r == is_space(c),
{
    let u = c as u32;
    (9 <= u && u <= 13) || u == 0x20 || u == 0x85 || u == 0xA0 || u == 0x1680 || (0x2000 <= u
        && u <= 0x200A) || u == 0x2028 || u == 0x2029 || u == 0x202F || u == 0x205F || u == 0x3000
}

/// The leading run of non-space characters.
pub open spec fn token_of(s: Seq<char>) -> Seq<char>
    decreases s.len(),
{
    if s.len() == 0 || is_space(s[0]) {
        Seq::<char>::empty()
    } else {
        seq![s[0]] + token_of(s.drop_first())
    }
}

/// What is left after the leading run of non-space characters.
pub open spec fn rest_of(s: Seq<char>) -> Seq<char>
    decreases s.len(),
{
    if s.len() == 0 || is_space(s[0]) {
        s
    } else {
        rest_of(s.drop_first())
    }
}

/// The leading token and the rest reassemble to the whole string.
pub proof fn lemma_take_token_split(s: Seq<char>)
    ensures
        token_of(s) + rest_of(s) =~= s,
        token_of(s).len() + rest_of(s).len() == s.len(),
    decreases s.len(),
{
    if s.len() == 0 || is_space(s[0]) {
        assert(token_of(s) + rest_of(s) =~= s);
    } else {
        lemma_take_token_split(s.drop_first());
        assert(token_of(s) == seq![s[0]] + token_of(s.drop_first()));
        assert(rest_of(s) == rest_of(s.drop_first()));
        assert(token_of(s.drop_first()) + rest_of(s.drop_first()) == s.drop_first());
        assert forall|i: int| 0 <= i < token_of(s).len() + rest_of(s).len() implies (token_of(s)
            + rest_of(s))[i] == s[i] by {
            if i > 0 {
                assert((token_of(s) + rest_of(s))[i] == (token_of(s.drop_first()) + rest_of(
                    s.drop_first(),
                ))[i - 1]);
                assert(s.drop_first()[i - 1] == s[i]);
            }
        }
        assert(token_of(s) + rest_of(s) =~= s);
    }
}

/// The whitespace-separated tokens of a line, in order.
pub open spec fn spec_tokens(s: Seq<char>) -> Seq<Seq<char>>
    decreases s.len(),
    via spec_tokens_dec
{
    if s.len() == 0 {
        Seq::<Seq<char>>::empty()
    } else if is_space(s[0]) {
        spec_tokens(s.drop_first())
    } else {
        seq![token_of(s)] + spec_tokens(rest_of(s))
    }
}

#[via_fn]
proof fn spec_tokens_dec(s: Seq<char>) {
    if s.len() > 0 && !is_space(s[0]) {
        lemma_take_token_split(s);
        assert(token_of(s).len() >= 1);
    }
}

/// If the first j characters are non-space and the j-th is a space (or the
/// string ends there), the leading token is exactly those j characters.
pub proof fn lemma_take_token_at(s: Seq<char>, j: int)
    requires
        0 <= j <= s.len(),
        forall|k: int| 0 <= k < j ==> !is_space(s[k]),
        j == s.len() || is_space(s[j]),
        j > 0,
    ensures
        token_of(s) =~= s.subrange(0, j),
        rest_of(s) =~= s.subrange(j, s.len() as int),
    decreases j,
{
    if j == 1 {
        if s.len() > 1 {
            assert(is_space(s.drop_first()[0]));
        }
        assert(token_of(s.drop_first()) == Seq::<char>::empty());
        assert(rest_of(s.drop_first()) == s.drop_first());
        assert(token_of(s) =~= seq![s[0]]);
        assert(rest_of(s) =~= s.drop_first());
        assert(s.drop_first() =~= s.subrange(1, s.len() as int));
        assert(seq![s[0]] =~= s.subrange(0, 1));
    } else {
        lemma_take_token_at(s.drop_first(), j - 1);
        assert(token_of(s) =~= seq![s[0]] + s.drop_first().subrange(0, j - 1));
        assert(seq![s[0]] + s.drop_first().subrange(0, j - 1) =~= s.subrange(0, j));
        assert(s.drop_first().subrange(j - 1, s.drop_first().len() as int) =~= s.subrange(
            j,
            s.len() as int,
        ));
    }
}

/// The views of a vector of strings.
pub open spec fn views_of(ss: Seq<String>) -> Seq<Seq<char>> {
    ss.map_values(|t: String| t@)
}

fn tokenize_into(s: &str, out: &mut Vec<String>)
    ensures
        views_of(final(out)@) == views_of(old(out)@) + spec_tokens(s@),
    decreases s@.len(),
{
    let len = s.unicode_len();
    if len == 0 {
        proof {
            assert(views_of(out@) =~= views_of(out@) + spec_tokens(s@));
        }
        return ;
    }
    let c = s.get_char(0);
    if is_space_char(c) {
        let rest = s.substring_char(1, len);
        proof {
            assert(rest@ =~= s@.drop_first());
        }
        tokenize_into(rest, out);
    } else {
        let mut j: usize = 1;
        let mut done = false;
        while j < len && !done
            invariant
                1 <= j <= len,
                len == s@.len(),
                forall|k: int| 0 <= k < j ==> !is_space(s@[k]),
                done ==> j < len && is_space(s@[j as int]),
            decreases 2 * (len - j) + (if done {
                0int
            } else {
                1int
            }),
        {
            if is_space_char(s.get_char(j)) {
                done = true;
            } else {
                j = j + 1;
            }
        }
        proof {
            lemma_take_token_at(s@, j as int);
        }
        let tok = s.substring_char(0, j);
        let rest = s.substring_char(j, len);
        let ghost mid = out@;
        out.push(tok.to_owned());
        proof {
            assert(views_of(out@) =~= views_of(mid) + seq![token_of(s@)]);
            lemma_take_token_split(s@);
        }
        tokenize_into(rest, out);
        proof {
            assert(views_of(mid) + seq![token_of(s@)] + spec_tokens(rest_of(s@)) =~= views_of(mid)
                + spec_tokens(s@));
        }
    }
}

/// Splits a line into its whitespace-separated tokens.
pub fn tokenize(s: &str) -> (r: Vec<String>)
    ensures
        views_of(r@) == spec_tokens(s@),
{
    let mut out: Vec<String> = Vec::new();
    tokenize_into(s, &mut out);
    proof {
        assert(views_of(out@) =~= spec_tokens(s@));
    }
    out
}

} // verus!
