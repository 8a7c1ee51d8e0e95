use evm_transfer::address::parse_address;
use evm_transfer::amount::Amount;
use evm_transfer::monitor::{
    amount_from_be_bytes, process_log, transfer_topic0, LogEntry, MonitorFilter,
};

const TOKEN: &str = "0x55d398326f99059ff775485246999027b3197955";
const MINE: &str = "0x1111111111111111111111111111111111111111";
const OTHER: &str = "0x2222222222222222222222222222222222222222";
const SENDER: &str = "0x3333333333333333333333333333333333333333";

fn topic_for(addr: &str) -> Vec<u8> {
    let mut t = vec![0u8; 12];
    t.extend_from_slice(&parse_address(addr).unwrap().bytes);
    t
}

fn value_data(value: u128) -> Vec<u8> {
    let mut d = vec![0u8; 16];
    d.extend_from_slice(&value.to_be_bytes());
    d
}

fn transfer_log(token: &str, from: &str, to: &str, value: u128) -> LogEntry {
    LogEntry {
        address: parse_address(token).unwrap().bytes,
        topics: vec![transfer_topic0(), topic_for(from), topic_for(to)],
        data: value_data(value),
    }
}

fn usdt_filter() -> MonitorFilter {
    MonitorFilter::new(parse_address(TOKEN).unwrap(), parse_address(MINE).unwrap())
}

#[test]
fn event_signature_hash_is_the_known_topic() {
    // keccak-256 of "Transfer(address,address,uint256)"; an echoing keccak
    // wrapper or a typo in the signature text would fail this.
    let expected: [u8; 32] = [
        0xdd, 0xf2, 0x52, 0xad, 0x1b, 0xe2, 0xc8, 0x9b, 0x69, 0xc2, 0xb0, 0x68, 0xfc, 0x37, 0x8d,
        0xaa, 0x95, 0x2b, 0xa7, 0xf1, 0x63, 0xc4, 0xa1, 0x16, 0x28, 0xf5, 0x5a, 0x4d, 0xf5, 0x23,
        0xb3, 0xef,
    ];
    assert_eq!(transfer_topic0(), expected.to_vec());
}

#[test]
fn decodes_a_matching_transfer() {
    let log = transfer_log(TOKEN, SENDER, MINE, 1_500_000_000_000_000_000);
    let decoded = process_log(&usdt_filter(), &log).unwrap();
    assert_eq!(decoded.from.bytes, parse_address(SENDER).unwrap().bytes);
    assert_eq!(decoded.value, Amount::from_u128(1_500_000_000_000_000_000));
    assert_eq!(decoded.human_amount(18), "1.5");
}

#[test]
fn skips_transfers_to_another_destination() {
    let log = transfer_log(TOKEN, SENDER, OTHER, 1_500_000_000_000_000_000);
    assert!(process_log(&usdt_filter(), &log).is_none());
}

#[test]
fn skips_logs_of_another_contract() {
    let log = transfer_log(OTHER, SENDER, MINE, 42);
    assert!(process_log(&usdt_filter(), &log).is_none());
}

#[test]
fn skips_logs_with_another_event_signature() {
    let mut log = transfer_log(TOKEN, SENDER, MINE, 42);
    log.topics[0] = vec![0u8; 32];
    assert!(process_log(&usdt_filter(), &log).is_none());
}

#[test]
fn skips_malformed_logs_without_stopping() {
    let filter = usdt_filter();
    let mut short_data = transfer_log(TOKEN, SENDER, MINE, 42);
    short_data.data = vec![1, 2, 3];
    assert!(process_log(&filter, &short_data).is_none());

    let mut few_topics = transfer_log(TOKEN, SENDER, MINE, 42);
    few_topics.topics.pop();
    assert!(process_log(&filter, &few_topics).is_none());

    // The well-formed entry after them still decodes.
    let good = transfer_log(TOKEN, SENDER, MINE, 42);
    assert!(process_log(&filter, &good).is_some());
}

#[test]
fn big_endian_decode_is_exact() {
    let mut data = vec![0u8; 32];
    data[31] = 1;
    assert_eq!(amount_from_be_bytes(&data), Amount::from_u64(1));
    let max = vec![0xffu8; 32];
    assert_eq!(
        amount_from_be_bytes(&max),
        Amount {
            l0: u64::MAX,
            l1: u64::MAX,
            l2: u64::MAX,
            l3: u64::MAX,
        }
    );
    let mut high_byte = vec![0u8; 32];
    high_byte[0] = 0x80;
    assert_eq!(amount_from_be_bytes(&high_byte), Amount { l0: 0, l1: 0, l2: 0, l3: 0x8000_0000_0000_0000 });
}
