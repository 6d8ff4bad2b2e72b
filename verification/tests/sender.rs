use oms::auth::{cluster_key, verify, ClusterKey};
use oms::environment::{Environment, Fixed};
use oms::orders::{order_frame, random_order, OrderWire};
use oms::sending::pacing::{
    load_pacing, offers_again, pace_wait, SendBatch, FLUSH_BYTES, MAX_BACKPRESSURE_RETRIES,
    RECORD_ESTIMATE,
};
use oms::sending::replay::{channel_of, ReplayCursor, MAX_ORDERS_PER_REQUEST};
use oms::sending::wal::{body_len, read_record, SenderWal};
use oms::wire::{decode_order, encode_order};

fn sample(order_id: u64) -> OrderWire {
    OrderWire { order_id, symbol: 0, side: true, qty: 5, ts_ms: 1000 }
}

fn env(vars: &[(&str, &str)]) -> Environment {
    Environment { vars: vars.iter().map(|(k, v)| (k.to_string(), v.to_string())).collect() }
}

fn key() -> ClusterKey {
    let hex = "000102030405060708090a0b0c0d0e0f101112131415161718191a1b1c1d1e1f";
    cluster_key(&mut Fixed::new(), &env(&[("CLUSTER_HMAC_KEY", hex)])).unwrap().clone()
}

fn append(wal: &mut SenderWal, file: &mut Vec<u8>, orders: &[OrderWire]) {
    let orders = orders.to_vec();
    file.extend_from_slice(&wal.plan_batch(&orders));
    wal.append_batch(&orders, true);
}

#[test]
fn append_then_get_round_trips() {
    let mut file = Vec::new();
    let mut wal = SenderWal::open_in(&file);
    append(&mut wal, &mut file, &[sample(1)]);
    append(&mut wal, &mut file, &[sample(2)]);
    append(&mut wal, &mut file, &[sample(3)]);

    assert_eq!(wal.last_order_id(), 3);
    let got = wal.get(&file, 2).unwrap();
    assert_eq!(got.order_id, 2);
    assert_eq!(got.qty, 5);
    assert!(wal.get(&file, 999).is_none());
}

#[test]
fn reopen_resumes_last_order_id() {
    let mut file = Vec::new();
    {
        let mut wal = SenderWal::open_in(&file);
        append(&mut wal, &mut file, &[sample(1)]);
        append(&mut wal, &mut file, &[sample(2)]);
    }
    let wal = SenderWal::open_in(&file);
    assert_eq!(wal.last_order_id(), 2);
    assert_eq!(wal.get(&file, 1).unwrap().order_id, 1);
}

#[test]
fn reopening_drops_a_truncated_record() {
    let mut file = Vec::new();
    let mut wal = SenderWal::open_in(&file);
    append(&mut wal, &mut file, &[sample(1), sample(2)]);
    let whole = file.len();
    file.extend_from_slice(&[22, 0, 0, 0, 9]);
    let reopened = SenderWal::open_in(&file);
    assert_eq!(reopened.last_order_id(), 2);
    assert_eq!(reopened.next_offset(), whole as u64);
    assert_eq!(reopened.locate(2), Some((whole / 2) as u64));
    assert_eq!(reopened.locate(3), None);
}

#[test]
fn failed_write_leaves_the_record_alone() {
    let mut file = Vec::new();
    let mut wal = SenderWal::open_in(&file);
    append(&mut wal, &mut file, &[sample(1), sample(2)]);
    let end = wal.next_offset();
    let lost = vec![OrderWire { qty: 9, ..sample(2) }, sample(7)];
    wal.append_batch(&lost, false);
    assert_eq!(wal.last_order_id(), 2);
    assert_eq!(wal.next_offset(), end);
    assert_eq!(wal.get(&file, 2), Some(sample(2)));
    assert_eq!(wal.get(&file, 7), None);
    append(&mut wal, &mut file, &[sample(3)]);
    assert_eq!(wal.get(&file, 3), Some(sample(3)));
}

#[test]
fn orders_are_found_behind_a_torn_record() {
    let mut file = Vec::new();
    let mut wal = SenderWal::open_in(&file);
    append(&mut wal, &mut file, &[sample(1), sample(2)]);
    file.extend_from_slice(&[22, 0, 0, 0, 9]);
    let mut wal = SenderWal::open_in(&file);
    file.truncate(wal.next_offset() as usize);
    append(&mut wal, &mut file, &[sample(3)]);
    assert_eq!(wal.get(&file, 3), Some(sample(3)));
    let again = SenderWal::open_in(&file);
    assert_eq!(again.last_order_id(), 3);
    assert_eq!(again.get(&file, 3), Some(sample(3)));
    assert_eq!(again.get(&file, 1), Some(sample(1)));
}

#[test]
fn order_has_its_exact_binary_form() {
    let order = OrderWire { order_id: 0x0102, symbol: 2, side: false, qty: 7, ts_ms: 5 };
    let bytes = encode_order(&order);
    assert_eq!(bytes, vec![2, 1, 0, 0, 0, 0, 0, 0, 2, 0, 7, 0, 0, 0, 5, 0, 0, 0, 0, 0, 0, 0]);
    assert_eq!(decode_order(&bytes), Some(order));
    assert_eq!(decode_order(&bytes[..21]), None);
    let mut bad = bytes;
    bad[9] = 2;
    assert_eq!(decode_order(&bad), None);
}

#[test]
fn record_is_read_behind_its_length() {
    let mut file = Vec::new();
    let mut wal = SenderWal::open_in(&file);
    append(&mut wal, &mut file, &[sample(6)]);
    assert_eq!(file[..4], [22, 0, 0, 0]);
    assert_eq!(body_len(&file), 22);
    assert_eq!(body_len(&[1, 2, 0, 0, 9]), 513);
    assert_eq!(read_record(&file), Some(sample(6)));
    assert_eq!(read_record(&file[..10]), None);
}

#[test]
fn names_of_symbols_and_sides() {
    let names: Vec<&str> =
        (0..4).map(|symbol| OrderWire { symbol, ..sample(1) }.symbol_str()).collect();
    assert_eq!(names, vec!["BTC-USDT", "ETH-USDT", "SOL-USDT", "UNKNOWN"]);
    assert_eq!(sample(1).side_str(), "BUY");
    assert_eq!(OrderWire { side: false, ..sample(1) }.side_str(), "SELL");
}

#[test]
fn random_orders_stay_within_their_bounds() {
    let mut symbols = [false; 3];
    let mut quantities = [false; 11];
    for id in 0..2000 {
        let order = random_order(id, true, 77);
        assert_eq!((order.order_id, order.side, order.ts_ms), (id, true, 77));
        symbols[order.symbol as usize] = true;
        assert!(1 <= order.qty && order.qty <= 10);
        quantities[order.qty as usize] = true;
    }
    assert_eq!(symbols, [true; 3]);
    assert!(quantities[1..].iter().all(|seen| *seen));
}

#[test]
fn order_frame_verifies() {
    let frame = order_frame(&sample(3), &key());
    assert_eq!(frame.len(), 4 + 22 + 32);
    assert_eq!(decode_order(verify(&frame, &key()).unwrap()), Some(sample(3)));
}

#[test]
fn pacing_defaults_and_bounds() {
    let p = load_pacing(&env(&[]));
    assert_eq!((p.target_tps, p.threads, p.channel_capacity), (5000, 8, 10_000));
    let p = load_pacing(&env(&[("TARGET_TPS", "300000"), ("SENDER_THREADS", "x")]));
    assert_eq!((p.target_tps, p.threads, p.channel_capacity), (300_000, 8, 300_000));
}

#[test]
fn pacing_waits_until_the_order_is_due() {
    assert_eq!(pace_wait(3, 1_000, 1_200), 1_800);
    assert_eq!(pace_wait(3, 1_000, 3_000), 0);
    assert_eq!(pace_wait(3, 1_000, 9_000), 0);
    assert_eq!(pace_wait(7, 0, 0), 0);
}

#[test]
fn offers_are_repeated_up_to_the_limit() {
    assert!(offers_again(true, MAX_BACKPRESSURE_RETRIES - 1));
    assert!(!offers_again(true, MAX_BACKPRESSURE_RETRIES));
    assert!(!offers_again(false, 0));
    assert_eq!(MAX_BACKPRESSURE_RETRIES, 100_000);
}

#[test]
fn batch_is_given_away_once_heavy_enough() {
    let mut batch = SendBatch::new();
    assert!(batch.flush().is_none());
    let limit = (FLUSH_BYTES / RECORD_ESTIMATE) as u64;
    assert_eq!(limit, 2048);
    for id in 1..limit {
        assert!(batch.push(sample(id)).is_none());
    }
    let full = batch.push(sample(limit)).unwrap();
    assert_eq!(full.len() as u64, limit);
    assert_eq!(full[0].order_id, 1);
    assert!(batch.push(sample(9)).is_none());
    assert_eq!(batch.flush().unwrap(), vec![sample(9)]);
    assert!(batch.flush().is_none());
}

#[test]
fn requesters_have_channels() {
    assert_eq!(channel_of(1, 3), Some(0));
    assert_eq!(channel_of(3, 3), Some(2));
    assert_eq!(channel_of(0, 3), Some(0));
    assert_eq!(channel_of(4, 3), None);
}

fn serve(wal: &SenderWal, ranges: Vec<(u64, u64)>) -> Vec<u64> {
    let mut cursor = ReplayCursor::new(ranges);
    let mut ids = Vec::new();
    while let Some(id) = cursor.next_id(wal) {
        ids.push(id);
        cursor.served_one();
    }
    assert_eq!(cursor.served(), ids.len() as u64);
    ids
}

#[test]
fn replay_serves_what_is_known_range_by_range() {
    let mut file = Vec::new();
    let mut wal = SenderWal::open_in(&file);
    append(&mut wal, &mut file, &[sample(1), sample(2), sample(4), sample(5)]);
    assert_eq!(serve(&wal, vec![(4, u64::MAX), (1, 3)]), vec![4, 5, 1, 2]);
    assert_eq!(serve(&wal, vec![(3, 3), (6, 9), (5, 4)]), Vec::<u64>::new());
    assert_eq!(serve(&wal, vec![]), Vec::<u64>::new());
}

#[test]
fn replay_is_capped() {
    let mut file = Vec::new();
    let mut wal = SenderWal::open_in(&file);
    let orders: Vec<OrderWire> = (1..=MAX_ORDERS_PER_REQUEST + 5).map(sample).collect();
    append(&mut wal, &mut file, &orders);
    let ids = serve(&wal, vec![(1, u64::MAX)]);
    assert_eq!(ids.len() as u64, MAX_ORDERS_PER_REQUEST);
    assert_eq!(*ids.last().unwrap(), 20_000);
}
