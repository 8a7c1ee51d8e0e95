//! Inbound-transfer watching: the log filter and the event decoder.
//!
//! A log entry is reported only when it carries the transfer event
//! signature, was emitted by the watched token contract, and names the
//! watched destination in its second indexed topic.  The amount is decoded
//! exactly from the 32-byte big-endian payload.

use vstd::prelude::*;
use crate::address::{bytes_eq, keccak256_bytes, keccak256_of, Address};
use crate::amount::{p128, p192, p256, p64, Amount};
use crate::codec::{human_render, to_human};

verus! {

/// The value of a byte string read as a big-endian integer.
pub open spec fn be_bytes_val(b: Seq<u8>) -> nat
    decreases b.len(),
{
    if b.len() == 0 {
        0
    } else {
        be_bytes_val(b.drop_last()) * 256 + b.last() as nat
    }
}

/// 256 to the power `n`.
pub open spec fn pow256e(n: nat) -> nat
    decreases n,
{
    if n == 0 {
        1
    } else {
        256 * pow256e((n - 1) as nat)
    }
}

proof fn lemma_pow256e_pos(n: nat)
    ensures
        pow256e(n) >= 1,
    decreases n,
{
    if n > 0 {
        lemma_pow256e_pos((n - 1) as nat);
    }
}

proof fn lemma_pow256e_mono(a: nat, b: nat)
    requires
        a <= b,
    ensures
        pow256e(a) <= pow256e(b),
    decreases b,
{
    if a < b {
        lemma_pow256e_mono(a, (b - 1) as nat);
        lemma_pow256e_pos((b - 1) as nat);
        assert(pow256e((b - 1) as nat) <= 256 * pow256e((b - 1) as nat)) by (nonlinear_arith)
            requires
                pow256e((b - 1) as nat) >= 1,
        ;
    }
}

proof fn lemma_pow256e_adds(a: nat, b: nat)
    ensures
        pow256e(a) * pow256e(b) == pow256e(a + b),
    decreases a,
{
    if a == 0 {
        assert(pow256e(0) * pow256e(b) == pow256e(b)) by (nonlinear_arith)
            requires
                pow256e(0) == 1,
        ;
    } else {
        lemma_pow256e_adds((a - 1) as nat, b);
        assert((256 * pow256e((a - 1) as nat)) * pow256e(b) == 256 * (pow256e((a - 1) as nat)
            * pow256e(b))) by (nonlinear_arith);
    }
}

proof fn lemma_be_bytes_val_bound(b: Seq<u8>)
    ensures
        be_bytes_val(b) < pow256e(b.len()),
    decreases b.len(),
{
    if b.len() == 0 {
    } else {
        lemma_be_bytes_val_bound(b.drop_last());
        assert(be_bytes_val(b.drop_last()) * 256 + b.last() < 256 * pow256e((b.len() - 1) as nat))
            by (nonlinear_arith)
            requires
                be_bytes_val(b.drop_last()) < pow256e((b.len() - 1) as nat),
                b.last() < 256,
        ;
    }
}

/// 256^32 is exactly 2^256.
proof fn lemma_pow256e_32()
    ensures
        pow256e(32) == p256(),
{
    reveal_with_fuel(pow256e, 9);
    assert(pow256e(8) == 0x1_0000_0000_0000_0000);
    lemma_pow256e_adds(8, 8);
    lemma_pow256e_adds(16, 8);
    lemma_pow256e_adds(24, 8);
    assert(pow256e(16) == p128()) by (nonlinear_arith)
        requires
            pow256e(16) == pow256e(8) * pow256e(8),
            pow256e(8) == 0x1_0000_0000_0000_0000,
            p64() == 0x1_0000_0000_0000_0000,
            p128() == p64() * p64(),
    ;
    assert(pow256e(24) == p192()) by (nonlinear_arith)
        requires
            pow256e(24) == pow256e(16) * pow256e(8),
            pow256e(16) == p128(),
            pow256e(8) == 0x1_0000_0000_0000_0000,
            p64() == 0x1_0000_0000_0000_0000,
            p192() == p128() * p64(),
    ;
    assert(pow256e(32) == p256()) by (nonlinear_arith)
        requires
            pow256e(32) == pow256e(24) * pow256e(8),
            pow256e(24) == p192(),
            pow256e(8) == 0x1_0000_0000_0000_0000,
            p64() == 0x1_0000_0000_0000_0000,
            p256() == p192() * p64(),
    ;
}

/// Decode exactly 32 big-endian bytes into an amount.
pub fn amount_from_be_bytes(b: &Vec<u8>) -> (r: Amount)
    requires
        b@.len() == 32,
    ensures
        r.val() == be_bytes_val(b@),
{
    let mut acc = Amount::zero();
    let mut i: usize = 0;
    proof {
        assert(b@.subrange(0, 0) =~= Seq::<u8>::empty());
    }
    while i < 32
        invariant
            0 <= i <= 32,
            b@.len() == 32,
            acc.val() == be_bytes_val(b@.subrange(0, i as int)),
        decreases 32 - i,
    {
        let ghost before = b@.subrange(0, i as int);
        let ghost after = b@.subrange(0, i as int + 1);
        proof {
            assert(after.drop_last() =~= before);
            assert(after.last() == b@[i as int]);
            lemma_be_bytes_val_bound(after);
            lemma_pow256e_mono((i + 1) as nat, 32);
            lemma_pow256e_32();
            assert(be_bytes_val(after) == acc.val() * 256 + b@[i as int]);
            assert(acc.val() * 256 + b@[i as int] < p256());
        }
        let byte = b[i];
        acc = match acc.mul_add_small(256, byte as u64) {
            Some(v) => v,
            None => unreached(),
        };
        i = i + 1;
    }
    proof {
        assert(b@.subrange(0, 32) =~= b@);
    }
    acc
}

/// The ASCII bytes of the transfer event's canonical signature text,
/// `Transfer(address,address,uint256)`.
pub open spec fn transfer_signature_bytes() -> Seq<u8> {
    seq![
        0x54u8, 0x72u8, 0x61u8, 0x6eu8, 0x73u8, 0x66u8, 0x65u8, 0x72u8, 0x28u8, 0x61u8, 0x64u8,
        0x64u8, 0x72u8, 0x65u8, 0x73u8, 0x73u8, 0x2cu8, 0x61u8, 0x64u8, 0x64u8, 0x72u8, 0x65u8,
        0x73u8, 0x73u8, 0x2cu8, 0x75u8, 0x69u8, 0x6eu8, 0x74u8, 0x32u8, 0x35u8, 0x36u8, 0x29u8,
    ]
}

/// The event-signature topic: the keccak-256 digest of the signature text.
pub open spec fn transfer_signature_hash() -> Seq<u8> {
    keccak256_of(transfer_signature_bytes())
}

/// Compute the transfer event's topic hash.
pub fn transfer_topic0() -> (r: Vec<u8>)
    ensures
        r@ == transfer_signature_hash(),
        r@.len() == 32,
{
    let mut text: Vec<u8> = Vec::new();
    text.push(0x54);
    text.push(0x72);
    text.push(0x61);
    text.push(0x6e);
    text.push(0x73);
    text.push(0x66);
    text.push(0x65);
    text.push(0x72);
    text.push(0x28);
    text.push(0x61);
    text.push(0x64);
    text.push(0x64);
    text.push(0x72);
    text.push(0x65);
    text.push(0x73);
    text.push(0x73);
    text.push(0x2c);
    text.push(0x61);
    text.push(0x64);
    text.push(0x64);
    text.push(0x72);
    text.push(0x65);
    text.push(0x73);
    text.push(0x73);
    text.push(0x2c);
    text.push(0x75);
    text.push(0x69);
    text.push(0x6e);
    text.push(0x74);
    text.push(0x32);
    text.push(0x35);
    text.push(0x36);
    text.push(0x29);
    proof {
        assert(text@ =~= transfer_signature_bytes());
    }
    keccak256_bytes(&text)
}

/// A chain log entry, as plain values: the emitting contract's bytes, the
/// indexed topics, and the payload.
#[derive(Debug)]
pub struct LogEntry {
    pub address: Vec<u8>,
    pub topics: Vec<Vec<u8>>,
    pub data: Vec<u8>,
}

/// What one watch session matches: the token contract, the destination,
/// and the event-signature topic.  Immutable for the session's life.
#[derive(Debug)]
pub struct MonitorFilter {
    pub contract: Address,
    pub destination: Address,
    pub event_signature: Vec<u8>,
}

impl MonitorFilter {
    pub open spec fn wf(&self) -> bool {
        &&& self.contract@.len() == 20
        &&& self.destination@.len() == 20
        &&& self.event_signature@ == transfer_signature_hash()
    }

    /// A filter for transfers of the given token into the given wallet.
    pub fn new(contract: Address, destination: Address) -> (r: MonitorFilter)
        requires
            contract@.len() == 20,
            destination@.len() == 20,
        ensures
            r.wf(),
            r.contract@ == contract@,
            r.destination@ == destination@,
    {
        let event_signature = transfer_topic0();
        MonitorFilter { contract, destination, event_signature }
    }
}

/// The log is a transfer event of the watched contract into the watched
/// destination, with a well-formed payload.
pub open spec fn log_matches(filter: &MonitorFilter, log: &LogEntry) -> bool {
    &&& log.address@ == filter.contract@
    &&& log.topics@.len() == 3
    &&& log.topics@[0]@ == filter.event_signature@
    &&& log.topics@[1]@.len() == 32
    &&& log.topics@[2]@.len() == 32
    &&& log.topics@[2]@.subrange(12, 32) == filter.destination@
    &&& log.data@.len() == 32
}

/// One decoded inbound transfer: the sender and the base-unit amount.
#[derive(Debug)]
pub struct DecodedTransfer {
    pub from: Address,
    pub value: Amount,
}

impl DecodedTransfer {
    /// The amount as a decimal numeral at the token's decimals.
    pub fn human_amount(&self, decimals: u8) -> (r: String)
        ensures
            r@ == human_render(self.value.val(), decimals as nat),
    {
        to_human(&self.value, decimals)
    }
}

fn copy_range(v: &Vec<u8>, from: usize, to: usize) -> (r: Vec<u8>)
    requires
        from <= to <= v@.len(),
    ensures
        r@ == v@.subrange(from as int, to as int),
{
    let mut out: Vec<u8> = Vec::new();
    let mut i: usize = from;
    while i < to
        invariant
            from <= i <= to <= v@.len(),
            out@.len() == i - from,
            forall|j: int| 0 <= j < out@.len() ==> out@[j] == v@[from + j],
        decreases to - i,
    {
        out.push(v[i]);
        i = i + 1;
    }
    proof {
        assert(out@ =~= v@.subrange(from as int, to as int));
    }
    out
}

/// Decode one log entry against the filter.  A transfer is reported exactly
/// when the log matches the filter; anything else — another contract,
/// another destination, another event, or a malformed entry — is skipped.
pub fn process_log(filter: &MonitorFilter, log: &LogEntry) -> (r: Option<DecodedTransfer>)
    ensures
        r is Some <==> log_matches(filter, log),
        (r matches Some(t) ==> {
            &&& t.from@ == log.topics@[1]@.subrange(12, 32)
            &&& t.value.val() == be_bytes_val(log.data@)
        }),
{
    if !bytes_eq(&log.address, &filter.contract.bytes) {
        return None;
    }
    if log.topics.len() != 3 {
        return None;
    }
    if !bytes_eq(&log.topics[0], &filter.event_signature) {
        return None;
    }
    if log.topics[1].len() != 32 {
        return None;
    }
    if log.topics[2].len() != 32 {
        return None;
    }
    let to_tail = copy_range(&log.topics[2], 12, 32);
    if !bytes_eq(&to_tail, &filter.destination.bytes) {
        return None;
    }
    if log.data.len() != 32 {
        return None;
    }
    let from_bytes = copy_range(&log.topics[1], 12, 32);
    let value = amount_from_be_bytes(&log.data);
    Some(DecodedTransfer { from: Address { bytes: from_bytes }, value })
}

/// Law: the watcher reports a transfer only for logs whose destination
/// topic carries exactly the watched destination; an event to any other
/// address is never emitted.
pub proof fn lemma_monitor_filters_destination(filter: &MonitorFilter, log: &LogEntry)
    ensures
        log_matches(filter, log) ==> log.topics@[2]@.subrange(12, 32) == filter.destination@,
{
}

} // verus!
