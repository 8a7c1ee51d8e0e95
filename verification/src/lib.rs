//! A verified core for transferring a single allow-listed fungible token on an
//! EVM-compatible chain: exact decimal amount conversion, address checksum and
//! allow-list validation, fee estimation, the transfer confirmation state
//! machine, inbound-transfer decoding, and mnemonic-based identity derivation.

pub mod amount;
pub mod codec;
pub mod address;
pub mod fees;
pub mod engine;
pub mod monitor;
pub mod wallet;
pub mod token;
