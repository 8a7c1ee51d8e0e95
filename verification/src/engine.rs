//! The transfer lifecycle state machine: a record is created at broadcast
//! time in the pending state, and the confirmation poller drives it to
//! exactly one terminal state.  A receipt always decides before the timeout
//! bound is consulted.

use vstd::prelude::*;
use crate::address::Address;
use crate::amount::Amount;

verus! {

/// The lifecycle states of a transfer.
#[derive(Clone, Copy, Debug, PartialEq, Eq, Structural)]
pub enum TransferStatus {
    Pending,
    Confirmed,
    TimedOut,
    Reverted,
}

/// A terminal status never changes again.
pub open spec fn is_terminal(st: TransferStatus) -> bool {
    st != TransferStatus::Pending
}

/// An immutable transfer request: destination and base-unit amount.
#[derive(Debug)]
pub struct TransferRequest {
    pub to: Address,
    pub amount: Amount,
}

impl TransferRequest {
    pub open spec fn wf(&self) -> bool {
        self.to@.len() == 20
    }

    pub fn new(to: Address, amount: Amount) -> (r: TransferRequest)
        requires
            to@.len() == 20,
        ensures
            r.wf(),
            r.to@ == to@,
            r.amount == amount,
    {
        TransferRequest { to, amount }
    }
}

/// What broadcasting returned: the transaction hash and the block height
/// recorded at submission.
#[derive(Debug)]
pub struct BroadcastedTransaction {
    pub hash: Vec<u8>,
    pub submitted_block: u64,
}

impl BroadcastedTransaction {
    pub open spec fn wf(&self) -> bool {
        self.hash@.len() == 32
    }

    pub fn new(hash: Vec<u8>, submitted_block: u64) -> (r: BroadcastedTransaction)
        requires
            hash@.len() == 32,
        ensures
            r.wf(),
            r.hash == hash,
            r.submitted_block == submitted_block,
    {
        BroadcastedTransaction { hash, submitted_block }
    }
}

/// The record of one submitted transfer, driven by the confirmation poller.
#[derive(Debug)]
pub struct TransferRecord {
    pub hash: Vec<u8>,
    pub submitted_block: u64,
    pub status: TransferStatus,
}

impl TransferRecord {
    pub open spec fn wf(&self) -> bool {
        self.hash@.len() == 32
    }

    /// A freshly broadcast transfer is pending.
    pub fn from_broadcast(b: &BroadcastedTransaction) -> (r: TransferRecord)
        requires
            b.wf(),
        ensures
            r.wf(),
            r.hash@ == b.hash@,
            r.submitted_block == b.submitted_block,
            r.status == TransferStatus::Pending,
    {
        let mut hash: Vec<u8> = Vec::new();
        let mut i: usize = 0;
        while i < b.hash.len()
            invariant
                0 <= i <= b.hash@.len(),
                hash@.len() == i,
                forall|j: int| 0 <= j < i ==> hash@[j] == b.hash@[j],
            decreases b.hash@.len() - i,
        {
            hash.push(b.hash[i]);
            i = i + 1;
        }
        proof {
            assert(hash@ =~= b.hash@);
        }
        TransferRecord { hash, submitted_block: b.submitted_block, status: TransferStatus::Pending }
    }
}

/// What one confirmation poll decides.
#[derive(Clone, Copy, Debug, PartialEq, Eq, Structural)]
pub enum PollDecision {
    /// A receipt reports successful execution: the transfer is confirmed.
    Confirm,
    /// A receipt reports failed execution: the transfer reverted, fatally.
    Revert,
    /// No receipt, and the chain has advanced past the wait bound: the
    /// transfer is presumed stuck and times out.
    TimeOut,
    /// No receipt and the bound is not yet exceeded: poll again.
    KeepWaiting,
}

/// The decision rule of one poll: a receipt, if any, decides first; only
/// with no receipt is the block bound consulted, with saturating
/// subtraction of the heights.
pub open spec fn spec_confirm_step(
    receipt_success: Option<bool>,
    current_block: u64,
    submitted_block: u64,
    max_blocks_wait: u64,
) -> PollDecision {
    match receipt_success {
        Some(true) => PollDecision::Confirm,
        Some(false) => PollDecision::Revert,
        None => if current_block > submitted_block && current_block - submitted_block
            > max_blocks_wait {
            PollDecision::TimeOut
        } else {
            PollDecision::KeepWaiting
        },
    }
}

/// One poll of the confirmation loop.  `receipt_success` is the receipt's
/// execution status when a receipt exists.
pub fn confirm_step(
    record: &TransferRecord,
    receipt_success: Option<bool>,
    current_block: u64,
    max_blocks_wait: u64,
) -> (r: PollDecision)
    ensures
        r == spec_confirm_step(
            receipt_success,
            current_block,
            record.submitted_block,
            max_blocks_wait,
        ),
{
    match receipt_success {
        Some(true) => PollDecision::Confirm,
        Some(false) => PollDecision::Revert,
        None => {
            let waited = if current_block > record.submitted_block {
                current_block - record.submitted_block
            } else {
                0
            };
            if waited > max_blocks_wait {
                PollDecision::TimeOut
            } else {
                PollDecision::KeepWaiting
            }
        },
    }
}

/// The status a pending record moves to under a poll decision; waiting
/// leaves it pending.
pub open spec fn spec_status_after(d: PollDecision) -> TransferStatus {
    match d {
        PollDecision::Confirm => TransferStatus::Confirmed,
        PollDecision::Revert => TransferStatus::Reverted,
        PollDecision::TimeOut => TransferStatus::TimedOut,
        PollDecision::KeepWaiting => TransferStatus::Pending,
    }
}

/// Apply one poll's outcome to a pending record.  Only the poller moves a
/// record, only out of the pending state, and the hash and submission
/// anchor never change.
pub fn apply_poll(record: TransferRecord, decision: PollDecision) -> (r: TransferRecord)
    requires
        record.status == TransferStatus::Pending,
    ensures
        r.hash@ == record.hash@,
        r.submitted_block == record.submitted_block,
        r.status == spec_status_after(decision),
{
    let status = match decision {
        PollDecision::Confirm => TransferStatus::Confirmed,
        PollDecision::Revert => TransferStatus::Reverted,
        PollDecision::TimeOut => TransferStatus::TimedOut,
        PollDecision::KeepWaiting => TransferStatus::Pending,
    };
    TransferRecord { hash: record.hash, submitted_block: record.submitted_block, status }
}

/// Law: a receipt always decides before the timeout bound.  A successful
/// receipt confirms and a failed one reverts, however far the chain has
/// advanced; only with no receipt at all does the poll time out, and then
/// exactly when the blocks waited exceed the bound.
pub proof fn lemma_receipt_precedes_timeout(
    current_block: u64,
    submitted_block: u64,
    max_blocks_wait: u64,
)
    ensures
        spec_confirm_step(Some(true), current_block, submitted_block, max_blocks_wait)
            == PollDecision::Confirm,
        spec_confirm_step(Some(false), current_block, submitted_block, max_blocks_wait)
            == PollDecision::Revert,
        spec_confirm_step(None, current_block, submitted_block, max_blocks_wait)
            == PollDecision::TimeOut <==> (current_block > submitted_block && current_block
            - submitted_block > max_blocks_wait),
        spec_confirm_step(None, current_block, submitted_block, max_blocks_wait)
            == PollDecision::TimeOut || spec_confirm_step(
            None,
            current_block,
            submitted_block,
            max_blocks_wait,
        ) == PollDecision::KeepWaiting,
{
}

/// Law: one poll of a pending record reaches a terminal state only through
/// its own decision, and a record that times out or settles never reports
/// the pending state again.
pub proof fn lemma_poll_terminal(d: PollDecision)
    ensures
        d != PollDecision::KeepWaiting ==> is_terminal(spec_status_after(d)),
        d == PollDecision::KeepWaiting ==> spec_status_after(d) == TransferStatus::Pending,
{
}

} // verus!
