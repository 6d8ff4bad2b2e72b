use oms::auth::{cluster_key, sign, ClusterKey};
use oms::environment::{Environment, Fixed};
use oms::orders::{
    ingest_order, order_frame, outcome_of, process_orders_batch_as_leader, Ingest, OrderWire, Status,
    BATCH_LIMIT,
};
use oms::process::config::load_from_env;
use oms::process::log_entry::ReplicatedCommand;
use oms::process::results::result_frame;
use oms::receiver::checkpoint::{load, CheckpointWriter, CHECKPOINT_INTERVAL_MS};
use oms::receiver::results::{receive_result, result_line, LogBuffer, Received, FLUSH_BYTES};
use oms::replay::{
    open_request, request_frame, startup_ranges, Incoming, ReplaySchedule, RECEIVER_ID,
};
use oms::sequence_tracker::SequenceTracker;
use oms::wire::{decode_command, encode_command};

const MS: u128 = 1_000_000;

fn env() -> Environment {
    let vars = [
        ("NODE1_HOST", "10.0.0.1"),
        ("NODE2_HOST", "10.0.0.2"),
        ("NODE3_HOST", "10.0.0.3"),
        ("S3_HOST", "10.0.0.9"),
        ("S1_HOST", "10.0.0.8"),
        ("CLUSTER_HMAC_KEY", "000102030405060708090a0b0c0d0e0f101112131415161718191a1b1c1d1e1f"),
    ];
    Environment { vars: vars.iter().map(|(k, v)| (k.to_string(), v.to_string())).collect() }
}

fn key() -> ClusterKey {
    cluster_key(&mut Fixed::new(), &env()).unwrap().clone()
}

fn order(order_id: u64) -> OrderWire {
    OrderWire { order_id, symbol: 1, side: false, qty: 4, ts_ms: 9 }
}

fn result(order_id: u64) -> ReplicatedCommand {
    outcome_of(&order(order_id), "Amit", 2, 7, Status::PartiallyFilled, 3)
}

#[test]
fn orders_are_forwarded_once() {
    let key = key();
    let mut tracker = SequenceTracker::new();
    let frame = order_frame(&order(1), &key);
    assert_eq!(ingest_order(&frame, &key, &mut tracker), Ingest::Forward(order(1)));
    assert_eq!(ingest_order(&frame, &key, &mut tracker), Ingest::Duplicate);
    assert_eq!(ingest_order(&frame[1..], &key, &mut tracker), Ingest::BadTag);
    assert_eq!(ingest_order(&sign(b"abc", &key), &key, &mut tracker), Ingest::NoOrder);
    assert_eq!(
        ingest_order(&order_frame(&order(4), &key), &key, &mut tracker),
        Ingest::Forward(order(4))
    );
    assert_eq!(tracker.missing_ranges(), vec![(2, 3)]);
    assert_eq!(BATCH_LIMIT, 20_000);
}

#[test]
fn outcome_names_order_leader_and_quantity() {
    let c = result(12);
    assert_eq!(
        (c.order_id, c.symbol.as_str(), c.side.as_str(), c.qty, c.status.as_str(), c.filled_qty),
        (12, "ETH-USDT", "SELL", 4, "PARTIALLY_FILLED", 3)
    );
    assert_eq!((c.processed_by.as_str(), c.term), ("Amit (S2-2)", 7));
    let rejected = outcome_of(&order(1), "Amit", 2, 7, Status::Rejected, 3);
    assert_eq!((rejected.status.as_str(), rejected.filled_qty), ("REJECTED", 0));
    assert_eq!(outcome_of(&order(1), "Amit", 2, 7, Status::Filled, 4).status, "FILLED");
}

#[test]
fn every_order_of_a_batch_has_a_possible_outcome() {
    let config = load_from_env(&env()).unwrap();
    let orders: Vec<OrderWire> = (1..=300).map(order).collect();
    let commands = process_orders_batch_as_leader(&config, 3, 5, &orders);
    assert_eq!(commands.len(), 300);
    let mut seen = [false; 3];
    for (c, o) in commands.iter().zip(&orders) {
        assert_eq!((c.order_id, c.qty, c.term), (o.order_id, 4, 5));
        assert_eq!(c.processed_by, "Yousuf (S2-3)");
        match c.status.as_str() {
            "FILLED" => seen[0] = true,
            "PARTIALLY_FILLED" => seen[1] = true,
            "REJECTED" => {
                seen[2] = true;
                assert_eq!(c.filled_qty, 0);
                continue;
            }
            other => panic!("{other}"),
        }
        assert!(1 <= c.filled_qty && c.filled_qty <= 4);
    }
    assert_eq!(seen, [true; 3]);
}

#[test]
fn results_are_logged_once() {
    let key = key();
    let mut tracker = SequenceTracker::with_watermark(11);
    let frame = result_frame(&result(12), &key);
    match receive_result(&frame, &key, &mut tracker, 1234) {
        Received::Line(line) => {
            assert_eq!(line, "12 ETH-USDT SELL 4 PARTIALLY_FILLED 3 Amit (S2-2) 7 1234")
        }
        other => panic!("{other:?}"),
    }
    assert!(matches!(receive_result(&frame, &key, &mut tracker, 1), Received::Duplicate));
    assert!(matches!(receive_result(&frame[..9], &key, &mut tracker, 1), Received::BadTag));
    let other = sign(b"abc", &key);
    assert!(matches!(receive_result(&other, &key, &mut tracker, 1), Received::NoResult));
    assert_eq!(tracker.last_contiguous(), 12);
    assert_eq!(result_line(&result(1), 0), "1 ETH-USDT SELL 4 PARTIALLY_FILLED 3 Amit (S2-2) 7 0");
}

#[test]
fn command_round_trips() {
    let bytes = encode_command(&result(3));
    let back = decode_command(&bytes).unwrap();
    assert_eq!(format!("{back:?}"), format!("{:?}", result(3)));
    assert_eq!(bytes[..8], 3u64.to_le_bytes());
    assert_eq!(bytes[8..16], 8u64.to_le_bytes());
    assert_eq!(&bytes[16..24], b"ETH-USDT");
    let mut longer = bytes.clone();
    longer.push(7);
    assert!(decode_command(&longer).is_some());
    assert!(decode_command(&bytes[..bytes.len() - 1]).is_none());
    let mut not_text = bytes;
    not_text[16] = 0xff;
    assert!(decode_command(&not_text).is_none());
}

#[test]
fn log_is_given_away_once_long_enough() {
    let mut buffer = LogBuffer::new();
    assert!(buffer.flush().is_none());
    assert!(buffer.push("first").is_none());
    assert_eq!(buffer.flush().unwrap(), "first\n");
    let long = "x".repeat(FLUSH_BYTES - 2);
    assert!(buffer.push(&long).is_none());
    let full = buffer.push("").unwrap();
    assert_eq!(full.len(), FLUSH_BYTES);
    assert!(full.ends_with("x\n\n"));
    assert!(buffer.flush().is_none());
}

#[test]
fn checkpoint_round_trips() {
    let mut writer = CheckpointWriter::new();
    assert!(writer.save(0).is_none());
    assert_eq!(writer.save(70_125).unwrap(), "70125");
    assert!(writer.save(70_125).is_none());
    assert_eq!(load(Some("70125")), 70_125);
    assert_eq!(load(Some("  42\n")), 42);
    assert_eq!(load(Some("nonsense")), 0);
    assert_eq!(load(Some("18446744073709551615")), u64::MAX);
    assert_eq!(load(Some("18446744073709551616")), 0);
    assert_eq!(load(None), 0);
    assert_eq!(CHECKPOINT_INTERVAL_MS, 200);
}

#[test]
fn replay_requests_round_trip() {
    let key = key();
    let frame = request_frame(2, &vec![(3, 4), (9, 9)], &key);
    match open_request(&frame, &key) {
        Incoming::Request(r) => assert_eq!((r.requester_id, r.ranges), (2, vec![(3, 4), (9, 9)])),
        other => panic!("{other:?}"),
    }
    let mut payload = vec![2, 2, 0, 0, 0, 0, 0, 0, 0];
    for n in [3u64, 4, 9, 9] {
        payload.extend_from_slice(&n.to_le_bytes());
    }
    assert_eq!(frame, sign(&payload, &key));
    assert!(matches!(open_request(&frame[1..], &key), Incoming::BadTag));
    assert!(matches!(open_request(&sign(&[2, 1], &key), &key), Incoming::NoRequest));
    assert_eq!(startup_ranges(41), vec![(42, u64::MAX)]);
    assert_eq!(RECEIVER_ID, 0);
}

#[test]
fn gaps_are_asked_for_after_a_while_and_ever_more_rarely() {
    let mut schedule = ReplaySchedule::new();
    let gap = vec![(3, 4)];
    assert!(schedule.tick(&gap, 0).is_empty());
    assert!(schedule.tick(&gap, 49 * MS).is_empty());
    let mut asked = Vec::new();
    for ms in (50..20_000u128).step_by(50) {
        if !schedule.tick(&gap, ms * MS).is_empty() {
            asked.push(ms);
        }
    }
    assert_eq!(asked, vec![50, 150, 350, 750, 1550, 3150, 6350, 11350, 16350]);
}

#[test]
fn closed_gaps_are_forgotten() {
    let mut schedule = ReplaySchedule::new();
    schedule.tick(&vec![(1, 2), (5, 6)], 0);
    assert_eq!(schedule.tick(&vec![(1, 2), (5, 6)], 60 * MS), vec![(1, 2), (5, 6)]);
    assert!(schedule.tick(&vec![(5, 5)], 70 * MS).is_empty());
    assert!(schedule.tick(&vec![(5, 6)], 80 * MS).is_empty());
    assert_eq!(schedule.tick(&vec![(5, 6)], 130 * MS), vec![(5, 6)]);
}
