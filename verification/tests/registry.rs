use portfolio::symbols::{get_crypto_id, get_crypto_name, name_to_string, Crypto};

#[test]
fn known_symbols_round_trip() {
    for token in ["BAN", "DYM", "SCRT", "CHILLGUY", "SUPRA"] {
        let sym = get_crypto_name(token);
        assert_ne!(sym, Crypto::Unknown);
        assert_eq!(name_to_string(&sym), token);
    }
}

#[test]
fn unknown_symbol_has_empty_name_and_placeholder_id() {
    let sym = get_crypto_name("XYZ");
    assert_eq!(sym, Crypto::Unknown);
    assert_eq!(name_to_string(&sym), "");
    assert_eq!(get_crypto_id(&sym), "none");
}

#[test]
fn resolution_is_case_sensitive() {
    assert_eq!(get_crypto_name("ban"), Crypto::Unknown);
    assert_eq!(get_crypto_name("Ban"), Crypto::Unknown);
}

#[test]
fn external_ids_match_the_price_service() {
    assert_eq!(get_crypto_id(&Crypto::BAN), "comedian");
    assert_eq!(get_crypto_id(&Crypto::DYM), "dymension");
    assert_eq!(get_crypto_id(&Crypto::SCRT), "secret");
    assert_eq!(get_crypto_id(&Crypto::CHILLGUY), "chill-guy");
    assert_eq!(get_crypto_id(&Crypto::SUPRA), "supra");
}
