use oms::process::frames::{complete_records, framed, read_framed_entries, write_framed_entry};
use oms::process::leader_election::entries_within_budget;
use oms::process::log_entry::{LogEntry, ReplicatedCommand};
use oms::process::wal::{AppendStep, Wal};
use oms::wire::{decode_entry, encode_entry, entry_size};

fn command(order_id: u64, qty: u32) -> ReplicatedCommand {
    ReplicatedCommand {
        order_id,
        symbol: "BTC-USDT".to_string(),
        side: "BUY".to_string(),
        qty,
        status: "FILLED".to_string(),
        filled_qty: qty,
        processed_by: "Nitin (S2-1)".to_string(),
        term: 1,
    }
}

fn sample_entry(index: u64) -> LogEntry {
    LogEntry { index, term: 1, command: command(index, 5) }
}

fn small_entry(index: u64) -> LogEntry {
    LogEntry { index, term: 1, command: command(index, 1) }
}

fn entry_of_term(index: u64, term: u64) -> LogEntry {
    LogEntry { index, term, command: command(index, 5) }
}

fn indexes_and_terms(wal: &Wal) -> Vec<(u64, u64)> {
    wal.entries_from(0).iter().map(|e| (e.index, e.term)).collect()
}

/// Takes over an append request, and gives what was written.
fn take_over(wal: &mut Wal, prev: (u64, u64), incoming: Vec<LogEntry>, file: &mut Vec<u8>) -> bool {
    let Some(mut progress) = wal.begin_append(prev.0, prev.1, incoming) else {
        return false;
    };
    loop {
        match wal.append_entries_from_leader(&mut progress) {
            AppendStep::Write { bytes } => {
                file.extend_from_slice(&bytes);
                wal.record_written(&mut progress);
            }
            AppendStep::Rewrite { bytes } => {
                *file = bytes;
                wal.record_rewritten(&mut progress);
            }
            AppendStep::Done => return true,
        }
    }
}

#[test]
fn framed_entries_round_trip() {
    let mut buf = Vec::new();
    write_framed_entry(&mut buf, &sample_entry(7));
    write_framed_entry(&mut buf, &sample_entry(8));

    let decoded = read_framed_entries(&buf);

    assert_eq!(decoded.len(), 2);
    assert_eq!(decoded[0].index, 7);
    assert_eq!(decoded[0].command.order_id, 7);
    assert_eq!(decoded[1].index, 8);
}

#[test]
fn read_framed_entries_stops_at_truncated_trailing_record() {
    let mut buf = Vec::new();
    write_framed_entry(&mut buf, &sample_entry(1));
    buf.extend_from_slice(&999u32.to_le_bytes());

    let decoded = read_framed_entries(&buf);

    assert_eq!(decoded.len(), 1, "must not panic or return garbage for a truncated trailing record");
}

#[test]
fn entries_within_budget_stops_before_exceeding_but_always_makes_progress() {
    let entries: Vec<LogEntry> = (1..=1000).map(small_entry).collect();
    let one_entry_size = entry_size(&entries[0]) as usize;
    assert_eq!(one_entry_size, encode_entry(&entries[0]).len());

    let budget = one_entry_size * 5;
    let batch = entries_within_budget(entries.clone(), budget);
    assert!(!batch.is_empty());
    assert!(
        batch.len() <= 6,
        "expected roughly 5 entries for a 5x-single-entry budget, got {}",
        batch.len()
    );
    assert_eq!(batch.len(), 5);

    let tiny_budget = entries_within_budget(entries, 1);
    assert_eq!(
        tiny_budget.len(),
        1,
        "must always take at least one entry so replication keeps making progress"
    );
}

#[test]
fn entry_has_its_exact_binary_form() {
    let entry = sample_entry(7);
    let bytes = encode_entry(&entry);
    let mut expected: Vec<u8> = Vec::new();
    expected.extend_from_slice(&7u64.to_le_bytes());
    expected.extend_from_slice(&1u64.to_le_bytes());
    expected.extend_from_slice(&7u64.to_le_bytes());
    for (text, number) in
        [("BTC-USDT", None), ("BUY", Some(5u32)), ("FILLED", Some(5)), ("Nitin (S2-1)", None)]
    {
        expected.extend_from_slice(&(text.len() as u64).to_le_bytes());
        expected.extend_from_slice(text.as_bytes());
        if let Some(n) = number {
            expected.extend_from_slice(&n.to_le_bytes());
        }
    }
    expected.extend_from_slice(&1u64.to_le_bytes());
    assert_eq!(bytes, expected);
    assert_eq!(entry_size(&entry), expected.len() as u64);
    let back = decode_entry(&bytes).unwrap();
    assert_eq!((back.index, back.term, back.command.qty), (7, 1, 5));
    assert_eq!(back.command.processed_by, "Nitin (S2-1)");
    assert!(decode_entry(&bytes[..bytes.len() - 1]).is_none());
}

#[test]
fn record_that_holds_no_entry_is_skipped() {
    let mut buf = Vec::new();
    buf.extend_from_slice(&3u32.to_le_bytes());
    buf.extend_from_slice(&[1, 2, 3]);
    write_framed_entry(&mut buf, &sample_entry(4));
    let decoded = read_framed_entries(&buf);
    assert_eq!(decoded.len(), 1);
    assert_eq!(decoded[0].index, 4);
}

#[test]
fn loading_sorts_by_index() {
    let bytes = framed(&vec![sample_entry(3), sample_entry(1), sample_entry(2)]);
    let wal = Wal::load_entries(&bytes);
    assert_eq!(wal.len(), 3);
    assert_eq!(indexes_and_terms(&wal), vec![(1, 1), (2, 1), (3, 1)]);
    assert_eq!(wal.last_index(), 3);
    assert_eq!(wal.last_term(), 1);
}

#[test]
fn empty_log_has_no_last_entry() {
    let wal = Wal::load_entries(&[]);
    assert_eq!(wal.len(), 0);
    assert_eq!(wal.last_index(), 0);
    assert_eq!(wal.last_term(), 0);
    assert_eq!(wal.get_term_at(0), Some(0));
    assert_eq!(wal.get_term_at(1), None);
    assert!(wal.entry_at(0).is_none());
}

#[test]
fn lookups_find_entries_by_index() {
    let wal = Wal::load_entries(&framed(&vec![
        entry_of_term(1, 1),
        entry_of_term(2, 1),
        entry_of_term(4, 3),
    ]));
    assert_eq!(wal.get_term_at(4), Some(3));
    assert_eq!(wal.get_term_at(3), None);
    assert_eq!(wal.entry_at(2).unwrap().index, 2);
    assert!(wal.has_entry(4));
    assert!(!wal.has_entry(5));
    assert_eq!(wal.entries_from(3).len(), 1);
    assert_eq!(wal.entries_from(5).len(), 0);
    assert_eq!(wal.highest_order_id(), 4);
    let found = wal.entries_with_order_id_range(2, 4);
    assert_eq!(found.iter().map(|e| e.index).collect::<Vec<_>>(), vec![2, 4]);
}

#[test]
fn leader_plans_then_appends() {
    let mut wal = Wal::load_entries(&framed(&vec![sample_entry(1)]));
    let (entry, record) = wal.leader_entry(2, command(9, 5));
    assert_eq!((entry.index, entry.term), (2, 2));
    assert_eq!(read_framed_entries(&record).len(), 1);
    assert_eq!(wal.len(), 1);
    wal.append_leader_entry(entry);
    assert_eq!(wal.last_index(), 2);

    let batch = wal.leader_batch(3, vec![command(10, 5), command(11, 5)]);
    let records = read_framed_entries(&batch.bytes);
    assert_eq!(records.iter().map(|e| (e.index, e.term)).collect::<Vec<_>>(), vec![(3, 3), (4, 3)]);
    let appended = wal.append_leader_batch(batch);
    assert_eq!(appended.len(), 2);
    assert_eq!(indexes_and_terms(&wal), vec![(1, 1), (2, 2), (3, 3), (4, 3)]);
}

#[test]
fn follower_takes_over_missing_entries() {
    let mut wal = Wal::load_entries(&[]);
    let mut file = Vec::new();
    assert!(take_over(&mut wal, (0, 0), vec![sample_entry(1), sample_entry(2)], &mut file));
    assert_eq!(indexes_and_terms(&wal), vec![(1, 1), (2, 1)]);
    assert_eq!(indexes_and_terms(&Wal::load_entries(&file)), vec![(1, 1), (2, 1)]);

    let before = file.clone();
    assert!(take_over(&mut wal, (0, 0), vec![sample_entry(1), sample_entry(2)], &mut file));
    assert_eq!(file, before);
}

#[test]
fn follower_replaces_entries_of_another_term() {
    let mut file = framed(&vec![entry_of_term(1, 1), entry_of_term(2, 1), entry_of_term(3, 1)]);
    let mut wal = Wal::load_entries(&file);
    assert!(take_over(&mut wal, (1, 1), vec![entry_of_term(2, 2)], &mut file));
    assert_eq!(indexes_and_terms(&wal), vec![(1, 1), (2, 2)]);
    assert_eq!(indexes_and_terms(&Wal::load_entries(&file)), vec![(1, 1), (2, 2)]);
}

#[test]
fn follower_refuses_a_log_that_does_not_continue_its_own() {
    let mut wal = Wal::load_entries(&framed(&vec![sample_entry(1)]));
    let mut file = Vec::new();
    assert!(!take_over(&mut wal, (5, 1), vec![sample_entry(6)], &mut file));
    assert!(!take_over(&mut wal, (1, 2), vec![sample_entry(2)], &mut file));
    assert_eq!(wal.len(), 1);
    assert!(file.is_empty());
}

#[test]
fn taking_over_in_parts_gives_the_same_log() {
    let all: Vec<LogEntry> =
        vec![entry_of_term(1, 1), entry_of_term(2, 2), entry_of_term(3, 2), entry_of_term(4, 2)];
    let start = framed(&vec![entry_of_term(1, 1), entry_of_term(2, 1)]);
    let mut once = Wal::load_entries(&start);
    let mut parts = Wal::load_entries(&start);
    let mut file = start.clone();
    assert!(take_over(&mut once, (0, 0), all.clone(), &mut file));
    let mut file = start;
    assert!(take_over(&mut parts, (0, 0), all[..2].to_vec(), &mut file));
    assert!(take_over(&mut parts, (2, 2), all[2..].to_vec(), &mut file));
    assert_eq!(indexes_and_terms(&once), indexes_and_terms(&parts));
    assert_eq!(indexes_and_terms(&once), vec![(1, 1), (2, 2), (3, 2), (4, 2)]);
}

#[test]
fn complete_records_end_before_a_torn_one() {
    let mut file = framed(&vec![sample_entry(1), sample_entry(2)]);
    let whole = file.len();
    assert_eq!(complete_records(&file), whole);
    file.extend_from_slice(&[9, 0, 0, 0, 1, 2]);
    assert_eq!(complete_records(&file), whole);
    assert_eq!(complete_records(&file[..whole - 1]), whole / 2);
    assert_eq!(complete_records(&[]), 0);

    let wal = Wal::load_entries(&file);
    file.truncate(complete_records(&file));
    let (entry, bytes) = wal.leader_entry(1, command(3, 5));
    assert_eq!(entry.index, 3);
    file.extend_from_slice(&bytes);
    assert_eq!(indexes_and_terms(&Wal::load_entries(&file)), vec![(1, 1), (2, 1), (3, 1)]);
}

#[test]
fn taken_over_entries_load_back_and_again_change_nothing() {
    let start = vec![entry_of_term(1, 1), entry_of_term(2, 1), entry_of_term(3, 1)];
    let mut file = framed(&start);
    let mut wal = Wal::load_entries(&file);
    let incoming = || vec![entry_of_term(2, 1), entry_of_term(3, 2)];
    assert!(take_over(&mut wal, (1, 1), incoming(), &mut file));
    let expected = vec![(1, 1), (2, 1), (3, 2)];
    assert_eq!(indexes_and_terms(&wal), expected);
    assert_eq!(indexes_and_terms(&Wal::load_entries(&file)), expected);
    let before = file.clone();
    assert!(take_over(&mut wal, (1, 1), incoming(), &mut file));
    assert_eq!(indexes_and_terms(&wal), expected);
    assert_eq!(file, before);

    assert!(take_over(&mut wal, (0, 0), vec![entry_of_term(1, 1)], &mut file));
    assert_eq!(indexes_and_terms(&wal), expected);
}

#[test]
fn failed_rewrite_leaves_the_log_alone() {
    let start = vec![entry_of_term(1, 1), entry_of_term(2, 1)];
    let wal = Wal::load_entries(&framed(&start));
    let mut progress = wal.begin_append(1, 1, vec![entry_of_term(2, 2)]).unwrap();
    assert!(matches!(
        wal.append_entries_from_leader(&mut progress),
        AppendStep::Rewrite { .. }
    ));
    assert_eq!(indexes_and_terms(&wal), vec![(1, 1), (2, 1)]);
    let mut again = wal.begin_append(1, 1, vec![entry_of_term(2, 2)]).unwrap();
    assert!(matches!(wal.append_entries_from_leader(&mut again), AppendStep::Rewrite { .. }));
}
