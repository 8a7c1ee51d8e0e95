use evm_transfer::address::parse_address;
use evm_transfer::token::TokenDescriptor;
use evm_transfer::wallet::{Wallet, WalletError};

#[test]
fn known_mnemonic_derives_the_known_address() {
    // A published test mnemonic with a published index-0 address.
    let phrase = "test test test test test test test test test test test junk";
    let id = Wallet::build_signer(phrase, None, 0).unwrap();
    let expected = parse_address("0xf39Fd6e51aad88F6F4ce6aB8827279cffFb92266").unwrap();
    assert_eq!(id.address.bytes, expected.bytes);
}

#[test]
fn derivation_is_deterministic() {
    let phrase = "test test test test test test test test test test test junk";
    let a = Wallet::build_signer(phrase, Some("pw"), 0).unwrap();
    let b = Wallet::build_signer(phrase, Some("pw"), 0).unwrap();
    assert_eq!(a.address.bytes, b.address.bytes);
}

#[test]
fn different_indices_differ() {
    let phrase = "test test test test test test test test test test test junk";
    let a = Wallet::build_signer(phrase, None, 0).unwrap();
    let b = Wallet::build_signer(phrase, None, 1).unwrap();
    assert_ne!(a.address.bytes, b.address.bytes);
}

#[test]
fn password_changes_the_identity() {
    let phrase = "test test test test test test test test test test test junk";
    let plain = Wallet::build_signer(phrase, None, 0).unwrap();
    let salted = Wallet::build_signer(phrase, Some("pw"), 0).unwrap();
    assert_ne!(plain.address.bytes, salted.address.bytes);
}

#[test]
fn generated_wallet_rederives_to_the_same_identity() {
    let (secret, id) = Wallet::generate_wallet(24, 0, Some("pw")).unwrap();
    assert_eq!(secret.phrase().split(' ').count(), 24);
    let again = Wallet::build_signer(secret.phrase(), Some("pw"), 0).unwrap();
    let and_again = Wallet::build_signer(secret.phrase(), Some("pw"), 0).unwrap();
    assert_eq!(id.address.bytes, again.address.bytes);
    assert_eq!(again.address.bytes, and_again.address.bytes);
    assert_eq!(id.address.bytes.len(), 20);
}

#[test]
fn invalid_word_counts_are_rejected() {
    assert!(matches!(Wallet::generate_wallet(13, 0, None), Err(WalletError::Mnemonic)));
    assert!(matches!(Wallet::generate_wallet(0, 0, None), Err(WalletError::Mnemonic)));
}

#[test]
fn hardened_indices_are_rejected() {
    let phrase = "test test test test test test test test test test test junk";
    assert!(matches!(
        Wallet::build_signer(phrase, None, 0x8000_0000),
        Err(WalletError::Derivation)
    ));
    assert!(Wallet::build_signer(phrase, None, 0x7fff_ffff).is_ok());
    assert!(matches!(
        Wallet::generate_wallet(24, 0x8000_0000, None),
        Err(WalletError::Derivation)
    ));
}

#[test]
fn junk_phrase_fails_derivation() {
    assert!(matches!(
        Wallet::build_signer("definitely not a bip39 phrase", None, 0),
        Err(WalletError::Derivation)
    ));
}

#[test]
fn descriptor_records_the_fallback() {
    let read = TokenDescriptor::from_lookup(Some(6), "USDT");
    assert_eq!(read.decimals, 6);
    assert!(!read.fell_back);
    let fallen = TokenDescriptor::from_lookup(None, "USDT");
    assert_eq!(fallen.decimals, 18);
    assert!(fallen.fell_back);
}

#[test]
fn balance_display_joins_amount_and_symbol() {
    let d = TokenDescriptor::from_lookup(Some(18), "USDT");
    let amount = evm_transfer::codec::from_human("1.5", 18).unwrap();
    assert_eq!(d.balance_display(&amount), "1.5 USDT");
}
