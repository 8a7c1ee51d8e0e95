//! Mnemonic-based signing identities.
//!
//! Generation draws a BIP-39 phrase from OS entropy and holds it in
//! zero-on-drop memory; derivation is the deterministic BIP-32/BIP-44 path
//! from phrase, optional password and account index to an identity, named
//! here by its twenty address bytes.  Both steps run in the outside signer
//! library behind trusted wrappers; everything around them is verified,
//! and both say exactly when they succeed: generation for the five BIP-39
//! word counts, derivation for a valid phrase at an index below the BIP-32
//! harden bit.

use vstd::prelude::*;
use crate::address::Address;

verus! {

/// Failures of identity generation and derivation.
#[derive(Clone, Copy, Debug, PartialEq, Eq, Structural)]
pub enum WalletError {
    /// The requested word count is not a BIP-39 count.
    Mnemonic,
    /// The phrase, password or index yields no signer.
    Derivation,
}

/// The first index BIP-32 reserves for hardened derivation; the account
/// index must stay below it.
pub const HARDEN_BIT: u32 = 0x8000_0000;

/// The number of space-separated words in a phrase.
pub open spec fn word_count(s: Seq<char>) -> nat
    decreases s.len(),
{
    if s.len() == 0 {
        0
    } else {
        let rest = word_count(s.drop_last());
        if s.last() != ' ' && (s.len() == 1 || s[s.len() - 2] == ' ') {
            rest + 1
        } else {
            rest
        }
    }
}

/// Whether BIP-39/32/44 derivation yields a signer, named: success is a
/// function of the phrase, the optional password and the account index
/// alone — the phrase must be a valid mnemonic and the index below the
/// harden bit.
pub uninterp spec fn derivation_ok(
    phrase: Seq<char>,
    password: Option<Seq<char>>,
    index: u32,
) -> bool;

/// The address of the signing identity that BIP-39/BIP-32/BIP-44
/// derivation yields, named: it too is a function of the phrase, the
/// optional password and the account index alone.
pub uninterp spec fn derived_address(
    phrase: Seq<char>,
    password: Option<Seq<char>>,
    index: u32,
) -> Seq<u8>;

/// A mnemonic phrase held in a zero-on-drop memory region: it is erased
/// when this value drops, on every exit path, and leaves only as a
/// borrowed phrase.  The zeroizing wrapper's unsized-bounded type
/// parameter cannot be declared to the verifier, so the region is held
/// opaquely and what it holds is named by `secret_phrase`.
#[verifier::external_body]
pub struct WalletSecret {
    phrase: zeroize::Zeroizing<String>,
}

/// The characters of the phrase a secret holds, named.
pub uninterp spec fn secret_phrase(s: WalletSecret) -> Seq<char>;

impl View for WalletSecret {
    type V = Seq<char>;

    open spec fn view(&self) -> Seq<char> {
        secret_phrase(*self)
    }
}

impl WalletSecret {
    /// Relies on `Zeroizing`'s deref and `String::as_str`: the borrowed
    /// phrase is exactly what the region holds, not copied out of it.
    #[verifier::external_body]
    pub fn phrase(&self) -> (r: &str)
        ensures
            r@ == secret_phrase(*self),
    {
        self.phrase.as_str()
    }
}

/// A derived signing identity, known to the verified core by its address.
#[derive(Debug)]
pub struct SigningIdentity {
    pub address: Address,
}

/// Relies on coins-bip39's `Mnemonic::new_with_count` over OS entropy and
/// its `to_phrase`: it succeeds exactly for the five BIP-39 word counts
/// (the entropy draw itself panics rather than erring), and the phrase it
/// renders has that many space-separated wordlist words with a valid
/// checksum, so BIP-32/44 derivation from it succeeds at every account
/// index below the harden bit.  Nothing more is promised of the phrase:
/// it is random.
#[verifier::external_body]
fn generate_mnemonic(size: usize) -> (r: Result<WalletSecret, WalletError>)
    ensures
        r is Ok <==> (size == 12 || size == 15 || size == 18 || size == 21 || size == 24),
        (r matches Err(e) ==> e == WalletError::Mnemonic),
        (r matches Ok(s) ==> word_count(secret_phrase(s)) == size && (forall|
            pw: Option<Seq<char>>,
            idx: u32,
        |
            idx < HARDEN_BIT ==> #[trigger] derivation_ok(secret_phrase(s), pw, idx))),
{
    let mut rng = rand::rngs::OsRng;
    let mnemonic = alloy::signers::local::coins_bip39::Mnemonic::<
        alloy::signers::local::coins_bip39::English,
    >::new_with_count(&mut rng, size).map_err(|_| WalletError::Mnemonic)?;
    Ok(WalletSecret { phrase: zeroize::Zeroizing::new(mnemonic.to_phrase()) })
}

/// Relies on alloy's `MnemonicBuilder`: `index` rejects exactly the
/// indices at or above the harden bit, and `build` parses the phrase and
/// derives deterministically from phrase, password and index alone; the
/// signer's address is twenty bytes.
#[verifier::external_body]
fn derive_address_raw(phrase: &str, password: Option<&str>, index: u32) -> (r: Result<
    Vec<u8>,
    WalletError,
>)
    ensures
        r is Ok <==> derivation_ok(phrase@, password.deep_view(), index),
        r is Ok ==> index < HARDEN_BIT,
        (r matches Err(e) ==> e == WalletError::Derivation),
        (r matches Ok(a) ==> a@ == derived_address(phrase@, password.deep_view(), index)
            && a@.len() == 20),
{
    let mut builder = alloy::signers::local::MnemonicBuilder::<
        alloy::signers::local::coins_bip39::English,
    >::default().phrase(phrase).index(index).map_err(|_| WalletError::Derivation)?;
    if let Some(pwd) = password {
        builder = builder.password(pwd);
    }
    let signer = builder.build().map_err(|_| WalletError::Derivation)?;
    Ok(signer.address().0.0.to_vec())
}

/// The wallet factory.
pub struct Wallet;

impl Wallet {
    /// Derive the signing identity at `derivation_index` from a phrase and
    /// optional password.  Deterministic: the same inputs always yield the
    /// same identity, and success itself depends on the inputs alone — a
    /// valid mnemonic and an index below the harden bit.
    pub fn build_signer(phrase: &str, password: Option<&str>, derivation_index: u32) -> (r: Result<
        SigningIdentity,
        WalletError,
    >)
        ensures
            r is Ok <==> derivation_ok(phrase@, password.deep_view(), derivation_index),
            r is Ok ==> derivation_index < HARDEN_BIT,
            (r matches Err(e) ==> e == WalletError::Derivation),
            (r matches Ok(id) ==> id.address@ == derived_address(
                phrase@,
                password.deep_view(),
                derivation_index,
            ) && id.address@.len() == 20),
    {
        match derive_address_raw(phrase, password, derivation_index) {
            Ok(bytes) => Ok(SigningIdentity { address: Address { bytes } }),
            Err(e) => Err(e),
        }
    }

    /// Generate a fresh wallet: a mnemonic of `size` words from OS entropy,
    /// kept in zero-on-drop memory, and the identity derived from it at
    /// `index` under the optional password.  Succeeds exactly when `size`
    /// is a BIP-39 word count and `index` is below the harden bit, and the
    /// identity is then exactly the derivation of the returned secret.
    pub fn generate_wallet(size: usize, index: u32, password: Option<&str>) -> (r: Result<
        (WalletSecret, SigningIdentity),
        WalletError,
    >)
        ensures
            r is Ok <==> ((size == 12 || size == 15 || size == 18 || size == 21 || size == 24)
                && index < HARDEN_BIT),
            r == Err::<(WalletSecret, SigningIdentity), WalletError>(WalletError::Mnemonic)
                <==> !(size == 12 || size == 15 || size == 18 || size == 21 || size == 24),
            r == Err::<(WalletSecret, SigningIdentity), WalletError>(WalletError::Derivation)
                <==> ((size == 12 || size == 15 || size == 18 || size == 21 || size == 24) && index
                >= HARDEN_BIT),
            (r matches Ok(p) ==> {
                &&& word_count(p.0@) == size
                &&& p.1.address@ == derived_address(p.0@, password.deep_view(), index)
                &&& p.1.address@.len() == 20
            }),
    {
        let secret = match generate_mnemonic(size) {
            Ok(p) => p,
            Err(e) => {
                return Err(e);
            },
        };
        let identity = match Self::build_signer(secret.phrase(), password, index) {
            Ok(id) => id,
            Err(e) => {
                proof {
                    if index < HARDEN_BIT {
                        assert(derivation_ok(secret@, password.deep_view(), index));
                    }
                }
                return Err(e);
            },
        };
        Ok((secret, identity))
    }
}

/// Law: derivation is deterministic.  Two derivations from the same phrase,
/// password and index name the same identity; that they succeed together
/// is the success contract itself, a single predicate of the same inputs.
pub proof fn lemma_derivation_deterministic(
    phrase: Seq<char>,
    password: Option<Seq<char>>,
    index: u32,
    a1: Seq<u8>,
    a2: Seq<u8>,
)
    requires
        a1 == derived_address(phrase, password, index),
        a2 == derived_address(phrase, password, index),
    ensures
        a1 == a2,
{
}

} // verus!
