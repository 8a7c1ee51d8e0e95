//! Address syntax, checksum and allow-list validation.
//!
//! An address is twenty bytes.  Its canonical string form is `0x` followed
//! by forty hex digits whose letters are upper- or lower-case according to
//! the keccak-256 digest of the all-lowercase rendering.  Only the keccak
//! digest itself comes from outside; parsing and the case rule are verified.

use vstd::prelude::*;
use vstd::string::StrSliceExecFns;
use crate::codec::{digit_char, push_char};

verus! {

/// A hexadecimal digit character, either case.
pub open spec fn is_hex_digit(c: char) -> bool {
    (48 <= c as int <= 57) || (97 <= c as int <= 102) || (65 <= c as int <= 70)
}

/// The numeric value of a hexadecimal digit character.
pub open spec fn hex_val(c: char) -> nat {
    if 48 <= c as int <= 57 {
        (c as int - 48) as nat
    } else if 97 <= c as int <= 102 {
        (c as int - 87) as nat
    } else {
        (c as int - 55) as nat
    }
}

/// The address text with an optional `0x` prefix removed.
pub open spec fn strip_hex_prefix(s: Seq<char>) -> Seq<char> {
    if s.len() >= 2 && s[0] == '0' && s[1] == 'x' {
        s.subrange(2, s.len() as int)
    } else {
        s
    }
}

/// Exactly forty hex digits.
pub open spec fn valid_address_chars(h: Seq<char>) -> bool {
    h.len() == 40 && forall|i: int| 0 <= i < 40 ==> is_hex_digit(#[trigger] h[i])
}

/// The text parses as a twenty-byte address, in any casing.
pub open spec fn is_valid_address_str(s: Seq<char>) -> bool {
    valid_address_chars(strip_hex_prefix(s))
}

/// The twenty bytes denoted by forty hex digits.
pub open spec fn addr_bytes_of(h: Seq<char>) -> Seq<u8> {
    Seq::new(20, |i: int| (16 * hex_val(h[2 * i]) + hex_val(h[2 * i + 1])) as u8)
}

/// What keccak-256 returns, named: the digest is a function of the input
/// bytes alone.
pub uninterp spec fn keccak256_of(input: Seq<u8>) -> Seq<u8>;

/// Relies on alloy's `keccak256`: a 32-byte digest computed from the input
/// bytes alone.
#[verifier::external_body]
pub(crate) fn keccak256_bytes(input: &Vec<u8>) -> (r: Vec<u8>)
    ensures
        r@ == keccak256_of(input@),
        r@.len() == 32,
{
    alloy::primitives::keccak256(input.as_slice()).to_vec()
}

/// The ASCII code of the lower-case hex digit for a value below sixteen.
pub open spec fn hex_lower_byte(n: nat) -> u8 {
    if n < 10 {
        (48 + n) as u8
    } else {
        (87 + n) as u8
    }
}

/// The `i`-th hex digit value of a byte string, high nibble first.
pub open spec fn nibble(b: Seq<u8>, i: int) -> nat {
    if i % 2 == 0 {
        (b[i / 2] as nat) / 16
    } else {
        (b[i / 2] as nat) % 16
    }
}

/// The all-lowercase hex rendering of a byte string, as ASCII bytes.
pub open spec fn lower_hex_bytes(b: Seq<u8>) -> Seq<u8> {
    Seq::new(2 * b.len(), |i: int| hex_lower_byte(nibble(b, i)))
}

/// The lower-case hex digit character for a value below sixteen.
pub open spec fn lower_hex_char(n: nat) -> char {
    if n < 10 {
        digit_char(n)
    } else if n == 10 {
        'a'
    } else if n == 11 {
        'b'
    } else if n == 12 {
        'c'
    } else if n == 13 {
        'd'
    } else if n == 14 {
        'e'
    } else {
        'f'
    }
}

/// The upper-case hex digit character for a value below sixteen.
pub open spec fn upper_hex_char(n: nat) -> char {
    if n < 10 {
        digit_char(n)
    } else if n == 10 {
        'A'
    } else if n == 11 {
        'B'
    } else if n == 12 {
        'C'
    } else if n == 13 {
        'D'
    } else if n == 14 {
        'E'
    } else {
        'F'
    }
}

/// The checksum casing rule: letters are upper-case exactly where the
/// digest nibble at the same position is eight or more.
pub open spec fn checksum_char(n: nat, hash_nibble: nat) -> char {
    if n < 10 {
        digit_char(n)
    } else if hash_nibble >= 8 {
        upper_hex_char(n)
    } else {
        lower_hex_char(n)
    }
}

/// The canonical checksummed rendering of twenty address bytes.
pub open spec fn checksum_render(b: Seq<u8>) -> Seq<char> {
    let hash = keccak256_of(lower_hex_bytes(b));
    seq!['0', 'x'] + Seq::new(40, |i: int| checksum_char(nibble(b, i), nibble(hash, i)))
}

/// Why an address string is rejected.
#[derive(Clone, Copy, Debug, PartialEq, Eq, Structural)]
pub enum AddressError {
    /// Not `0x` plus forty hex digits.
    InvalidFormat,
    /// Parses, but the casing is not the canonical checksum rendering.
    ChecksumMismatch,
    /// Canonical, but not an allow-listed token contract.
    NotAllowlisted,
}

/// A twenty-byte account or contract address.
#[derive(Debug)]
pub struct Address {
    pub bytes: Vec<u8>,
}

impl View for Address {
    type V = Seq<u8>;

    open spec fn view(&self) -> Seq<u8> {
        self.bytes@
    }
}

fn hex_digit(c: char) -> (r: Option<u8>)
    ensures
        r is Some <==> is_hex_digit(c),
        (r matches Some(x) ==> x == hex_val(c) && x < 16),
{
    let u = c as u32;
    if 48 <= u && u <= 57 {
        Some((u - 48) as u8)
    } else if 97 <= u && u <= 102 {
        Some((u - 87) as u8)
    } else if 65 <= u && u <= 70 {
        Some((u - 55) as u8)
    } else {
        None
    }
}

fn str_eq(a: &str, b: &str) -> (r: bool)
    ensures
        r == (a@ == b@),
{
    let na = a.unicode_len();
    let nb = b.unicode_len();
    if na != nb {
        proof {
            assert(a@ != b@) by {
                if a@ == b@ {
                    assert(a@.len() == b@.len());
                }
            }
        }
        return false;
    }
    let mut i: usize = 0;
    while i < na
        invariant
            0 <= i <= na,
            na == a@.len(),
            na == b@.len(),
            forall|j: int| 0 <= j < i ==> a@[j] == b@[j],
        decreases na - i,
    {
        if a.get_char(i) != b.get_char(i) {
            proof {
                assert(a@[i as int] != b@[i as int]);
            }
            return false;
        }
        i = i + 1;
    }
    proof {
        assert(a@ =~= b@);
    }
    true
}

pub(crate) fn bytes_eq(a: &Vec<u8>, b: &Vec<u8>) -> (r: bool)
    ensures
        r == (a@ == b@),
{
    if a.len() != b.len() {
        proof {
            assert(a@ != b@) by {
                if a@ == b@ {
                    assert(a@.len() == b@.len());
                }
            }
        }
        return false;
    }
    let mut i: usize = 0;
    while i < a.len()
        invariant
            0 <= i <= a@.len(),
            a@.len() == b@.len(),
            forall|j: int| 0 <= j < i ==> a@[j] == b@[j],
        decreases a@.len() - i,
    {
        if a[i] != b[i] {
            proof {
                assert(a@[i as int] != b@[i as int]);
            }
            return false;
        }
        i = i + 1;
    }
    proof {
        assert(a@ =~= b@);
    }
    true
}

/// Parse an address string (with or without `0x`, any casing) into its
/// twenty bytes.
pub fn parse_address(s: &str) -> (r: Option<Address>)
    ensures
        r is Some <==> is_valid_address_str(s@),
        (r matches Some(a) ==> a@.len() == 20 && a@ == addr_bytes_of(strip_hex_prefix(s@))),
{
    let n = s.unicode_len();
    let has_prefix = n >= 2 && s.get_char(0) == '0' && s.get_char(1) == 'x';
    let start: usize = if has_prefix {
        2
    } else {
        0
    };
    let ghost h = strip_hex_prefix(s@);
    proof {
        if has_prefix {
            assert(h =~= s@.subrange(2, s@.len() as int));
        } else {
            assert(h =~= s@);
        }
        assert(forall|j: int| 0 <= j < h.len() ==> h[j] == s@[start + j]);
    }
    if n - start != 40 {
        return None;
    }
    let mut bytes: Vec<u8> = Vec::new();
    let mut i: usize = 0;
    while i < 20
        invariant
            0 <= i <= 20,
            n == s@.len(),
            start + 40 == n,
            start == 0 || start == 2,
            h == strip_hex_prefix(s@),
            h.len() == 40,
            forall|j: int| 0 <= j < h.len() ==> h[j] == s@[start + j],
            bytes@.len() == i,
            forall|j: int| 0 <= j < 2 * i ==> is_hex_digit(#[trigger] h[j]),
            forall|j: int|
                0 <= j < i ==> bytes@[j] == (16 * hex_val(h[2 * j]) + hex_val(h[2 * j + 1])) as u8,
        decreases 20 - i,
    {
        let c1 = s.get_char(start + 2 * i);
        let c2 = s.get_char(start + 2 * i + 1);
        let x1 = match hex_digit(c1) {
            Some(x) => x,
            None => {
                proof {
                    assert(!is_hex_digit(h[2 * i as int]));
                }
                return None;
            },
        };
        let x2 = match hex_digit(c2) {
            Some(x) => x,
            None => {
                proof {
                    assert(!is_hex_digit(h[2 * i as int + 1]));
                }
                return None;
            },
        };
        bytes.push(16 * x1 + x2);
        i = i + 1;
    }
    proof {
        assert(valid_address_chars(h)) by {
            assert(forall|j: int| 0 <= j < 40 ==> is_hex_digit(#[trigger] h[j]));
        }
        assert(bytes@ =~= addr_bytes_of(h));
    }
    Some(Address { bytes })
}

fn hex_lower_ascii(n: u8) -> (r: u8)
    requires
        n < 16,
    ensures
        r == hex_lower_byte(n as nat),
{
    if n < 10 {
        48 + n
    } else {
        87 + n
    }
}

fn checksum_char_exec(n: u8, hash_nibble: u8) -> (c: char)
    requires
        n < 16,
        hash_nibble < 16,
    ensures
        c == checksum_char(n as nat, hash_nibble as nat),
{
    if n < 10 {
        crate::codec::digit_to_char(n as u64)
    } else if hash_nibble >= 8 {
        if n == 10 {
            'A'
        } else if n == 11 {
            'B'
        } else if n == 12 {
            'C'
        } else if n == 13 {
            'D'
        } else if n == 14 {
            'E'
        } else {
            'F'
        }
    } else {
        if n == 10 {
            'a'
        } else if n == 11 {
            'b'
        } else if n == 12 {
            'c'
        } else if n == 13 {
            'd'
        } else if n == 14 {
            'e'
        } else {
            'f'
        }
    }
}

/// Render an address in its canonical checksummed form.
pub fn checksum_string(addr: &Address) -> (r: String)
    requires
        addr@.len() == 20,
    ensures
        r@ == checksum_render(addr@),
{
    // The all-lowercase hex rendering, as ASCII bytes, for the digest.
    let mut lower: Vec<u8> = Vec::new();
    let mut i: usize = 0;
    while i < 20
        invariant
            0 <= i <= 20,
            addr@.len() == 20,
            lower@.len() == 2 * i,
            forall|j: int| 0 <= j < 2 * i ==> lower@[j] == hex_lower_byte(nibble(addr@, j)),
        decreases 20 - i,
    {
        let b = addr.bytes[i];
        lower.push(hex_lower_ascii(b / 16));
        lower.push(hex_lower_ascii(b % 16));
        proof {
            assert(nibble(addr@, 2 * i as int) == (addr@[i as int] as nat) / 16);
            assert(nibble(addr@, 2 * i as int + 1) == (addr@[i as int] as nat) % 16);
        }
        i = i + 1;
    }
    proof {
        assert(lower@ =~= lower_hex_bytes(addr@));
    }
    let hash = keccak256_bytes(&lower);
    let ghost hs = keccak256_of(lower_hex_bytes(addr@));
    let mut out = String::new();
    push_char(&mut out, '0');
    push_char(&mut out, 'x');
    let ghost body = Seq::new(40, |j: int| checksum_char(nibble(addr@, j), nibble(hs, j)));
    proof {
        assert(out@ =~= seq!['0', 'x'] + body.subrange(0, 0));
    }
    let mut k: usize = 0;
    while k < 40
        invariant
            0 <= k <= 40,
            addr@.len() == 20,
            hash@.len() == 32,
            hash@ == hs,
            body == Seq::new(40, |j: int| checksum_char(nibble(addr@, j), nibble(hs, j))),
            out@ == seq!['0', 'x'] + body.subrange(0, k as int),
        decreases 40 - k,
    {
        let ab = addr.bytes[k / 2];
        let an: u8 = if k % 2 == 0 {
            ab / 16
        } else {
            ab % 16
        };
        let hb = hash[k / 2];
        let hn: u8 = if k % 2 == 0 {
            hb / 16
        } else {
            hb % 16
        };
        proof {
            assert(an == nibble(addr@, k as int));
            assert(hn == nibble(hs, k as int));
        }
        let c = checksum_char_exec(an, hn);
        push_char(&mut out, c);
        proof {
            assert(body[k as int] == c);
            assert(body.subrange(0, k as int + 1) =~= body.subrange(0, k as int).push(
                body[k as int],
            ));
            assert(out@ =~= seq!['0', 'x'] + body.subrange(0, k as int + 1));
        }
        k = k + 1;
    }
    proof {
        assert(body.subrange(0, 40) =~= body);
        assert(out@ =~= checksum_render(addr@));
    }
    out
}

/// One allow-listed token: contract address, decimals, display symbol.
#[derive(Debug)]
pub struct AllowListEntry {
    pub address: Address,
    pub decimals: u8,
    pub symbol: String,
}

/// The fixed table of token contracts the system may operate on.
#[derive(Debug)]
pub struct AllowList {
    pub entries: Vec<AllowListEntry>,
}

/// The bytes appear among the allow-listed contract addresses.
pub open spec fn in_allow_list(list: &AllowList, b: Seq<u8>) -> bool {
    exists|i: int| 0 <= i < list.entries@.len() && list.entries@[i].address@ == b
}

/// The twenty bytes of the USDT contract on the BNB chain.
pub open spec fn usdt_mainnet_bytes() -> Seq<u8> {
    seq![
        0x55u8, 0xd3u8, 0x98u8, 0x32u8, 0x6fu8, 0x99u8, 0x05u8, 0x9fu8, 0xf7u8, 0x75u8, 0x48u8,
        0x52u8, 0x46u8, 0x99u8, 0x90u8, 0x27u8, 0xb3u8, 0x19u8, 0x79u8, 0x55u8,
    ]
}

/// The USDT contract address as a value.
pub fn usdt_mainnet() -> (a: Address)
    ensures
        a@ == usdt_mainnet_bytes(),
        a@.len() == 20,
{
    let mut bytes: Vec<u8> = Vec::new();
    bytes.push(0x55);
    bytes.push(0xd3);
    bytes.push(0x98);
    bytes.push(0x32);
    bytes.push(0x6f);
    bytes.push(0x99);
    bytes.push(0x05);
    bytes.push(0x9f);
    bytes.push(0xf7);
    bytes.push(0x75);
    bytes.push(0x48);
    bytes.push(0x52);
    bytes.push(0x46);
    bytes.push(0x99);
    bytes.push(0x90);
    bytes.push(0x27);
    bytes.push(0xb3);
    bytes.push(0x19);
    bytes.push(0x79);
    bytes.push(0x55);
    proof {
        assert(bytes@ =~= usdt_mainnet_bytes());
    }
    Address { bytes }
}

/// The default allow list: the single USDT contract, eighteen decimals.
pub fn default_allow_list() -> (list: AllowList)
    ensures
        list.entries@.len() == 1,
        list.entries@[0].address@ == usdt_mainnet_bytes(),
        list.entries@[0].decimals == 18,
{
    let mut entries: Vec<AllowListEntry> = Vec::new();
    entries.push(
        AllowListEntry {
            address: usdt_mainnet(),
            decimals: 18,
            symbol: "USDT".to_owned(),
        },
    );
    AllowList { entries }
}

impl Address {
    /// The text parses as a twenty-byte address, in any casing.
    pub fn is_valid_eth_address(addr: &str) -> (b: bool)
        ensures
            b == is_valid_address_str(addr@),
    {
        parse_address(addr).is_some()
    }

    /// The text parses and is exactly the canonical checksummed rendering
    /// of its own bytes; any other casing, lowercase included, is refused.
    pub fn is_strict_checksum(addr: &str) -> (b: bool)
        ensures
            b == (is_valid_address_str(addr@) && addr@ == checksum_render(
                addr_bytes_of(strip_hex_prefix(addr@)),
            )),
    {
        match parse_address(addr) {
            None => false,
            Some(a) => {
                let canonical = checksum_string(&a);
                str_eq(addr, canonical.as_str())
            },
        }
    }

    /// The text parses to exactly the allow-listed USDT contract bytes, in
    /// any casing.
    pub fn is_usdt_mainnet(addr: &str) -> (b: bool)
        ensures
            b == (is_valid_address_str(addr@) && addr_bytes_of(strip_hex_prefix(addr@))
                == usdt_mainnet_bytes()),
    {
        match parse_address(addr) {
            None => false,
            Some(a) => {
                let usdt = usdt_mainnet();
                bytes_eq(&a.bytes, &usdt.bytes)
            },
        }
    }

    /// Validate a token contract address against an allow list: it must
    /// parse, carry the canonical checksum casing, and be listed.  Each
    /// error names the most specific failed stage.
    pub fn validate_allowlisted(input: &str, list: &AllowList) -> (r: Result<
        Address,
        AddressError,
    >)
        ensures
            (r matches Ok(a) ==> a@ == addr_bytes_of(strip_hex_prefix(input@)) && a@.len() == 20),
            r is Ok <==> (is_valid_address_str(input@) && input@ == checksum_render(
                addr_bytes_of(strip_hex_prefix(input@)),
            ) && in_allow_list(list, addr_bytes_of(strip_hex_prefix(input@)))),
            r == Err::<Address, AddressError>(AddressError::InvalidFormat)
                <==> !is_valid_address_str(input@),
            r == Err::<Address, AddressError>(AddressError::ChecksumMismatch) <==> (
            is_valid_address_str(input@) && input@ != checksum_render(
                addr_bytes_of(strip_hex_prefix(input@)),
            )),
            r == Err::<Address, AddressError>(AddressError::NotAllowlisted) <==> (
            is_valid_address_str(input@) && input@ == checksum_render(
                addr_bytes_of(strip_hex_prefix(input@)),
            ) && !in_allow_list(list, addr_bytes_of(strip_hex_prefix(input@)))),
    {
        let a = match parse_address(input) {
            Some(a) => a,
            None => {
                return Err(AddressError::InvalidFormat);
            },
        };
        let canonical = checksum_string(&a);
        if !str_eq(input, canonical.as_str()) {
            return Err(AddressError::ChecksumMismatch);
        }
        let mut i: usize = 0;
        while i < list.entries.len()
            invariant
                0 <= i <= list.entries@.len(),
                a@ == addr_bytes_of(strip_hex_prefix(input@)),
                a@.len() == 20,
                is_valid_address_str(input@),
                input@ == checksum_render(addr_bytes_of(strip_hex_prefix(input@))),
                forall|j: int| 0 <= j < i ==> list.entries@[j].address@ != a@,
            decreases list.entries@.len() - i,
        {
            if bytes_eq(&list.entries[i].address.bytes, &a.bytes) {
                proof {
                    assert(list.entries@[i as int].address@ == a@);
                    assert(in_allow_list(list, a@));
                }
                return Ok(a);
            }
            i = i + 1;
        }
        proof {
            assert(!in_allow_list(list, a@));
        }
        Err(AddressError::NotAllowlisted)
    }

    /// Validate against the default allow list: the single USDT contract.
    pub fn validate_token(input: &str) -> (r: Result<Address, AddressError>)
        ensures
            (r matches Ok(a) ==> a@ == addr_bytes_of(strip_hex_prefix(input@)) && a@
                == usdt_mainnet_bytes() && a@.len() == 20),
            r is Ok <==> (is_valid_address_str(input@) && input@ == checksum_render(
                addr_bytes_of(strip_hex_prefix(input@)),
            ) && addr_bytes_of(strip_hex_prefix(input@)) == usdt_mainnet_bytes()),
            r == Err::<Address, AddressError>(AddressError::InvalidFormat)
                <==> !is_valid_address_str(input@),
            r == Err::<Address, AddressError>(AddressError::ChecksumMismatch) <==> (
            is_valid_address_str(input@) && input@ != checksum_render(
                addr_bytes_of(strip_hex_prefix(input@)),
            )),
            r == Err::<Address, AddressError>(AddressError::NotAllowlisted) <==> (
            is_valid_address_str(input@) && input@ == checksum_render(
                addr_bytes_of(strip_hex_prefix(input@)),
            ) && addr_bytes_of(strip_hex_prefix(input@)) != usdt_mainnet_bytes()),
    {
        let list = default_allow_list();
        let r = Self::validate_allowlisted(input, &list);
        proof {
            let b = addr_bytes_of(strip_hex_prefix(input@));
            assert(in_allow_list(&list, b) <==> b == usdt_mainnet_bytes()) by {
                if b == usdt_mainnet_bytes() {
                    assert(list.entries@[0].address@ == b);
                }
            }
        }
        r
    }
}

} // verus!
