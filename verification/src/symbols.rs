use vstd::prelude::*;

verus! {

/// The closed set of assets the tracker knows, plus a sentinel for
/// anything else that appears in the input file.
#[derive(PartialEq, Eq, Structural, Clone, Copy, Debug)]
pub enum Crypto {
    BAN,
    DYM,
    SCRT,
    CHILLGUY,
    SUPRA,
    Unknown,
}

/// Which symbol a raw input token names.
pub open spec fn spec_resolve(s: Seq<char>) -> Crypto {
    if s == "BAN"@ {
        Crypto::BAN
    } else if s == "DYM"@ {
        Crypto::DYM
    } else if s == "SCRT"@ {
        Crypto::SCRT
    } else if s == "CHILLGUY"@ {
        Crypto::CHILLGUY
    } else if s == "SUPRA"@ {
        Crypto::SUPRA
    } else {
        Crypto::Unknown
    }
}

/// The canonical display string of a symbol; empty for the sentinel.
pub open spec fn spec_display(c: Crypto) -> Seq<char> {
    match c {
        Crypto::BAN => "BAN"@,
        Crypto::DYM => "DYM"@,
        Crypto::SCRT => "SCRT"@,
        Crypto::CHILLGUY => "CHILLGUY"@,
        Crypto::SUPRA => "SUPRA"@,
        Crypto::Unknown => Seq::<char>::empty(),
    }
}

/// The identifier the price service uses for a symbol; the sentinel maps
/// to a placeholder that matches no real price-service entry.
pub open spec fn spec_external_id(c: Crypto) -> Seq<char> {
    match c {
        Crypto::BAN => "comedian"@,
        Crypto::SUPRA => "supra"@,
        Crypto::DYM => "dymension"@,
        Crypto::SCRT => "secret"@,
        Crypto::CHILLGUY => "chill-guy"@,
        Crypto::Unknown => "none"@,
    }
}

/// Character-by-character equality of two string slices.
pub fn str_eq(a: &str, b: &str) -> (r: bool)
    ensures
        r == (a@ == b@),
{
    let alen = a.unicode_len();
    let blen = b.unicode_len();
    if alen != blen {
        proof {
            assert(a@.len() != b@.len());
        }
        return false;
    }
    let mut i: usize = 0;
    while i < alen
        invariant
            i <= alen,
            alen == a@.len(),
            alen == b@.len(),
            forall|k: int| 0 <= k < i ==> a@[k] == b@[k],
        decreases alen - i,
    {
        if a.get_char(i) != b.get_char(i) {
            return false;
        }
        i = i + 1;
    }
    proof {
        assert(a@ =~= b@);
    }
    true
}

pub fn get_crypto_name(name: &str) -> (r: Crypto)
    ensures
        r == spec_resolve(name@),
{
    if str_eq(name, "BAN") {
        Crypto::BAN
    } else if str_eq(name, "DYM") {
        Crypto::DYM
    } else if str_eq(name, "SCRT") {
        Crypto::SCRT
    } else if str_eq(name, "CHILLGUY") {
        Crypto::CHILLGUY
    } else if str_eq(name, "SUPRA") {
        Crypto::SUPRA
    } else {
        Crypto::Unknown
    }
}

pub fn name_to_string(name: &Crypto) -> (r: &str)
    ensures
        r@ == spec_display(*name),
{
    match name {
        Crypto::BAN => "BAN",
        Crypto::DYM => "DYM",
        Crypto::SCRT => "SCRT",
        Crypto::SUPRA => "SUPRA",
        Crypto::CHILLGUY => "CHILLGUY",
        Crypto::Unknown => {
            proof {
                reveal_strlit("");
            }
            ""
        },
    }
}

pub fn get_crypto_id(name: &Crypto) -> (r: &str)
    ensures
        r@ == spec_external_id(*name),
{
    match name {
        Crypto::BAN => "comedian",
        Crypto::SUPRA => "supra",
        Crypto::DYM => "dymension",
        Crypto::SCRT => "secret",
        Crypto::CHILLGUY => "chill-guy",
        Crypto::Unknown => "none",
    }
}

/// Resolving any of the five known symbol tokens and rendering the result
/// back to a display name returns the original token.
pub proof fn lemma_resolve_display_roundtrip(s: Seq<char>)
    requires
        s == "BAN"@ || s == "DYM"@ || s == "SCRT"@ || s == "CHILLGUY"@ || s == "SUPRA"@,
    ensures
        spec_display(spec_resolve(s)) == s,
{
    reveal_strlit("BAN");
    reveal_strlit("DYM");
    reveal_strlit("SCRT");
    reveal_strlit("CHILLGUY");
    reveal_strlit("SUPRA");
}

/// A token that names none of the five known symbols resolves to the
/// sentinel, whose display name is empty and whose external identifier is
/// the placeholder.
pub proof fn lemma_unrecognized_token(s: Seq<char>)
    requires
        s != "BAN"@ && s != "DYM"@ && s != "SCRT"@ && s != "CHILLGUY"@ && s != "SUPRA"@,
    ensures
        spec_resolve(s) == Crypto::Unknown,
        spec_display(spec_resolve(s)) == Seq::<char>::empty(),
        spec_external_id(spec_resolve(s)) == "none"@,
{
}

} // verus!
