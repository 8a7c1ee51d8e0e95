use evm_transfer::address::{
    checksum_string, default_allow_list, parse_address, usdt_mainnet, Address, AddressError,
};

const USDT_CANONICAL: &str = "0x55d398326f99059fF775485246999027B3197955";
const USDT_LOWER: &str = "0x55d398326f99059ff775485246999027b3197955";

#[test]
fn parses_with_and_without_prefix() {
    assert!(Address::is_valid_eth_address(USDT_CANONICAL));
    assert!(Address::is_valid_eth_address(USDT_LOWER));
    assert!(Address::is_valid_eth_address("55d398326f99059ff775485246999027b3197955"));
    assert!(Address::is_valid_eth_address("0x55D398326F99059FF775485246999027B3197955"));
}

#[test]
fn rejects_bad_syntax() {
    assert!(!Address::is_valid_eth_address(""));
    assert!(!Address::is_valid_eth_address("0x123"));
    assert!(!Address::is_valid_eth_address("0x55d398326f99059ff775485246999027b31979555"));
    assert!(!Address::is_valid_eth_address("0x55d398326f99059ff775485246999027b319795g"));
    assert!(!Address::is_valid_eth_address("0x55d398326f99059ff775485246999027b31979"));
}

#[test]
fn parsed_bytes_match_usdt_constant() {
    let a = parse_address(USDT_LOWER).unwrap();
    assert_eq!(a.bytes, usdt_mainnet().bytes);
}

#[test]
fn checksum_rendering_matches_known_form() {
    // Real keccak decides the casing; a wrapper echoing its input would
    // never produce this mixed-case form.
    let a = parse_address(USDT_LOWER).unwrap();
    assert_eq!(checksum_string(&a), USDT_CANONICAL);
}

#[test]
fn strict_checksum_accepts_only_canonical_casing() {
    assert!(Address::is_strict_checksum(USDT_CANONICAL));
    assert!(!Address::is_strict_checksum(USDT_LOWER));
    assert!(!Address::is_strict_checksum("0x55D398326F99059FF775485246999027B3197955"));
    assert!(!Address::is_strict_checksum("not an address"));
    // The canonical form carries the prefix; without it nothing is strict.
    assert!(!Address::is_strict_checksum("55d398326f99059fF775485246999027B3197955"));
}

#[test]
fn usdt_recognition_ignores_casing() {
    assert!(Address::is_usdt_mainnet(USDT_CANONICAL));
    assert!(Address::is_usdt_mainnet(USDT_LOWER));
    assert!(!Address::is_usdt_mainnet("0x0000000000000000000000000000000000000000"));
    assert!(!Address::is_usdt_mainnet("nonsense"));
}

#[test]
fn validate_token_accepts_canonical_usdt() {
    let a = Address::validate_token(USDT_CANONICAL).unwrap();
    assert_eq!(a.bytes, usdt_mainnet().bytes);
}

#[test]
fn validate_token_rejects_lowercase_of_same_bytes() {
    assert!(matches!(Address::validate_token(USDT_LOWER), Err(AddressError::ChecksumMismatch)));
}

#[test]
fn validate_token_rejects_bad_format() {
    assert!(matches!(Address::validate_token("0x123"), Err(AddressError::InvalidFormat)));
    assert!(matches!(Address::validate_token(""), Err(AddressError::InvalidFormat)));
}

#[test]
fn validate_token_rejects_unlisted_address() {
    // A correctly checksummed address that is not the allow-listed token.
    let other = parse_address("0x000000000000000000000000000000000000dead").unwrap();
    let canonical = checksum_string(&other);
    assert!(matches!(Address::validate_token(&canonical), Err(AddressError::NotAllowlisted)));
}

#[test]
fn validate_allowlisted_uses_the_table() {
    let list = default_allow_list();
    let a = Address::validate_allowlisted(USDT_CANONICAL, &list).unwrap();
    assert_eq!(a.bytes, usdt_mainnet().bytes);
    assert_eq!(list.entries[0].decimals, 18);
    assert_eq!(list.entries[0].symbol, "USDT");
}
