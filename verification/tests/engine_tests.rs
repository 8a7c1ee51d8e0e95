use evm_transfer::amount::Amount;
use evm_transfer::codec::from_human;
use evm_transfer::engine::{
    apply_poll, confirm_step, BroadcastedTransaction, PollDecision, TransferRecord,
    TransferStatus,
};
use evm_transfer::fees::{estimate_eip1559_fees, FeeError, PreparedTransfer, PRIORITY_FEE_WEI};

fn pending_record(submitted_block: u64) -> TransferRecord {
    let b = BroadcastedTransaction::new(vec![0u8; 32], submitted_block);
    TransferRecord::from_broadcast(&b)
}

#[test]
fn times_out_when_six_blocks_pass_without_receipt() {
    let record = pending_record(10);
    // current - submitted == 6 > 5: presumed stuck.
    assert_eq!(confirm_step(&record, None, 16, 5), PollDecision::TimeOut);
}

#[test]
fn keeps_waiting_at_the_bound() {
    let record = pending_record(10);
    // current - submitted == 5 is not yet beyond the bound.
    assert_eq!(confirm_step(&record, None, 15, 5), PollDecision::KeepWaiting);
    assert_eq!(confirm_step(&record, None, 10, 5), PollDecision::KeepWaiting);
    // A chain reporting an older height never underflows.
    assert_eq!(confirm_step(&record, None, 3, 5), PollDecision::KeepWaiting);
}

#[test]
fn receipt_confirms_even_past_the_timeout_threshold() {
    let record = pending_record(10);
    assert_eq!(confirm_step(&record, Some(true), 1000, 5), PollDecision::Confirm);
}

#[test]
fn failed_receipt_reverts_fatally() {
    let record = pending_record(10);
    assert_eq!(confirm_step(&record, Some(false), 11, 5), PollDecision::Revert);
    assert_eq!(confirm_step(&record, Some(false), 1000, 5), PollDecision::Revert);
}

#[test]
fn poll_decisions_drive_the_record() {
    let record = pending_record(7);
    let confirmed = apply_poll(record, PollDecision::Confirm);
    assert_eq!(confirmed.status, TransferStatus::Confirmed);
    assert_eq!(confirmed.submitted_block, 7);

    let reverted = apply_poll(pending_record(7), PollDecision::Revert);
    assert_eq!(reverted.status, TransferStatus::Reverted);

    let timed_out = apply_poll(pending_record(7), PollDecision::TimeOut);
    assert_eq!(timed_out.status, TransferStatus::TimedOut);

    let still = apply_poll(pending_record(7), PollDecision::KeepWaiting);
    assert_eq!(still.status, TransferStatus::Pending);
}

#[test]
fn broadcast_starts_pending() {
    let record = pending_record(42);
    assert_eq!(record.status, TransferStatus::Pending);
    assert_eq!(record.submitted_block, 42);
    assert_eq!(record.hash.len(), 32);
}

#[test]
fn priority_fees_follow_the_headroom_rule() {
    let (max_fee, priority) = estimate_eip1559_fees(Some(1_000_000_000)).unwrap();
    assert_eq!(max_fee, Amount::from_u64(4_000_000_000));
    assert_eq!(priority, Amount::from_u64(PRIORITY_FEE_WEI));
}

#[test]
fn missing_base_fee_is_unsupported_fee_model() {
    assert_eq!(estimate_eip1559_fees(None), Err(FeeError::UnsupportedFeeModel));
}

#[test]
fn total_cost_is_gas_times_price() {
    // 21000 gas at 5 gwei: 105000 gwei.
    let quote = PreparedTransfer {
        gas_estimate: 21_000,
        max_fee_per_gas: Amount::from_u64(5_000_000_000),
        max_priority_fee_per_gas: Amount::from_u64(PRIORITY_FEE_WEI),
    };
    let (fee, human) = quote.calculate_fee(None).unwrap();
    assert_eq!(fee, Amount::from_u128(105_000_000_000_000));
    assert_eq!(human, "0.000105");
    assert_eq!(quote.get_gas_units(), 21_000);
    assert_eq!(quote.get_max_fee_per_gas(), Amount::from_u64(5_000_000_000));
    assert_eq!(quote.get_max_priority_fee_per_gas(), Amount::from_u64(PRIORITY_FEE_WEI));
}

#[test]
fn total_cost_overflow_is_an_error_not_a_panic() {
    let near_max = from_human(
        "115792089237316195423570985008687907853269984665640564039457584007913129639935",
        0,
    )
    .unwrap();
    let quote = PreparedTransfer {
        gas_estimate: 2,
        max_fee_per_gas: near_max,
        max_priority_fee_per_gas: Amount::from_u64(PRIORITY_FEE_WEI),
    };
    assert_eq!(quote.calculate_fee(None), Err(FeeError::Overflow));
}

#[test]
fn quote_from_estimates_composes_the_parts() {
    let quote = PreparedTransfer::from_estimates(30_000, Some(7_000_000_000)).unwrap();
    assert_eq!(quote.gas_estimate, 30_000);
    assert_eq!(quote.max_fee_per_gas, Amount::from_u64(16_000_000_000));
    assert_eq!(quote.max_priority_fee_per_gas, Amount::from_u64(PRIORITY_FEE_WEI));
    assert!(matches!(
        PreparedTransfer::from_estimates(30_000, None),
        Err(FeeError::UnsupportedFeeModel)
    ));
}

#[test]
fn legacy_quote_costs_gas_times_price() {
    let quote = PreparedTransfer::from_legacy_price(21_000, 5_000_000_000);
    let (fee, human) = quote.calculate_fee(None).unwrap();
    assert_eq!(fee, Amount::from_u128(105_000_000_000_000));
    assert_eq!(human, "0.000105");
    assert_eq!(quote.max_priority_fee_per_gas, Amount::from_u64(5_000_000_000));
}

#[test]
fn transfer_request_is_kept_as_given() {
    let to = evm_transfer::address::usdt_mainnet();
    let amount = from_human("1.5", 18).unwrap();
    let req = evm_transfer::engine::TransferRequest::new(to, amount);
    assert_eq!(req.amount, from_human("1.5", 18).unwrap());
    assert_eq!(req.to.bytes, evm_transfer::address::usdt_mainnet().bytes);
}

#[test]
fn fee_caps_fit_u128_exactly_when_small_enough() {
    let quote = PreparedTransfer {
        gas_estimate: 1,
        max_fee_per_gas: Amount::from_u128(u128::MAX),
        max_priority_fee_per_gas: Amount::from_u64(PRIORITY_FEE_WEI),
    };
    assert_eq!(quote.fee_caps_as_u128(), Some((u128::MAX, PRIORITY_FEE_WEI as u128)));
    let too_big = PreparedTransfer {
        gas_estimate: 1,
        max_fee_per_gas: Amount { l0: 0, l1: 0, l2: 1, l3: 0 },
        max_priority_fee_per_gas: Amount::from_u64(PRIORITY_FEE_WEI),
    };
    assert_eq!(too_big.fee_caps_as_u128(), None);
}
