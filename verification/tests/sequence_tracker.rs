use oms::sequence_tracker::{SequenceTracker, WINDOW};

#[test]
fn contiguous_arrivals_advance_watermark_with_no_gaps() {
    let mut t = SequenceTracker::new();
    for id in 1..=1000u64 {
        assert!(t.mark(id));
    }
    assert_eq!(t.last_contiguous(), 1000);
    assert_eq!(t.highest_seen(), 1000);
    assert!(t.missing_ranges().is_empty());
}

#[test]
fn duplicate_is_reported_and_does_not_advance() {
    let mut t = SequenceTracker::new();
    assert!(t.mark(1));
    assert!(!t.mark(1));
    assert_eq!(t.last_contiguous(), 1);
}

#[test]
fn out_of_order_arrival_detects_gap_then_closes_it() {
    let mut t = SequenceTracker::new();
    assert!(t.mark(1));
    assert!(t.mark(2));
    assert!(t.mark(5)); // 3,4 missing
    assert_eq!(t.last_contiguous(), 2);
    assert_eq!(t.highest_seen(), 5);
    assert_eq!(t.missing_ranges(), vec![(3, 4)]);

    assert!(t.mark(3));
    assert_eq!(t.missing_ranges(), vec![(4, 4)]);
    assert!(t.mark(4));
    assert_eq!(t.last_contiguous(), 5);
    assert!(t.missing_ranges().is_empty());

    // Replaying 3 again after the gap closed is a duplicate, not new.
    assert!(!t.mark(3));
}

#[test]
fn multiple_disjoint_gaps_are_all_reported() {
    let mut t = SequenceTracker::new();
    for id in [1, 2, 5, 6, 10] {
        t.mark(id);
    }
    assert_eq!(t.missing_ranges(), vec![(3, 4), (7, 9)]);
}

#[test]
fn watermark_checkpoint_start_treats_prior_ids_as_already_seen() {
    let mut t = SequenceTracker::with_watermark(100);
    assert!(!t.mark(50)); // already covered by the checkpoint
    assert!(t.mark(101));
    assert_eq!(t.last_contiguous(), 101);
}

#[test]
fn sequence_tracker_contiguous_arrivals_advance_watermark_with_no_gaps() {
    let mut t = SequenceTracker::new();
    for id in 1..=1000u64 {
        assert!(t.mark(id));
    }
    assert_eq!(t.last_contiguous(), 1000);
    assert!(t.missing_ranges().is_empty());
}

#[test]
fn sequence_tracker_watermark_checkpoint_start_treats_prior_ids_as_already_seen() {
    let mut t = SequenceTracker::with_watermark(100);
    assert!(!t.mark(50));
    assert!(t.mark(101));
    assert_eq!(t.last_contiguous(), 101);
}

#[test]
fn sequence_tracker_duplicate_is_reported_and_does_not_advance() {
    let mut t = SequenceTracker::new();
    assert!(t.mark(1));
    assert!(!t.mark(1));
}

#[test]
fn out_of_order_arrival_detects_and_closes_gap() {
    let mut t = SequenceTracker::new();
    t.mark(1);
    t.mark(2);
    t.mark(5);
    assert_eq!(t.missing_ranges(), vec![(3, 4)]);
    t.mark(3);
    t.mark(4);
    assert_eq!(t.last_contiguous(), 5);
    assert!(t.missing_ranges().is_empty());
}

#[test]
fn the_default_tracker_has_seen_nothing() {
    let mut t = SequenceTracker::default();
    assert_eq!(t.last_contiguous(), 0);
    assert_eq!(t.highest_seen(), 0);
    assert!(!t.mark(0));
    assert!(t.mark(1));
}

#[test]
fn an_id_beyond_the_window_is_accepted_once_even_after_the_window_reaches_it() {
    let mut t = SequenceTracker::new();
    let far = WINDOW + 5;
    assert!(t.mark(far));
    assert!(!t.mark(far));
    for id in 1..=10u64 {
        assert!(t.mark(id));
    }
    // The window now covers `far`, which is still a duplicate and no gap.
    assert!(!t.mark(far));
    assert_eq!(t.missing_ranges(), vec![(11, far - 1)]);
    for id in 11..far {
        assert!(t.mark(id));
    }
    assert_eq!(t.last_contiguous(), far);
    assert!(!t.mark(far));
    assert!(t.missing_ranges().is_empty());
}

#[test]
fn the_last_id_ends_the_sequence() {
    let mut t = SequenceTracker::with_watermark(u64::MAX - 2);
    assert!(t.mark(u64::MAX));
    assert_eq!(t.missing_ranges(), vec![(u64::MAX - 1, u64::MAX - 1)]);
    assert!(t.mark(u64::MAX - 1));
    assert_eq!(t.last_contiguous(), u64::MAX);
    assert!(!t.mark(u64::MAX));
}

#[test]
fn every_id_of_a_shuffled_run_is_accepted_exactly_once() {
    let mut t = SequenceTracker::new();
    let arrivals = [4u64, 2, 4, 1, 3, 2, 5, 1, 5];
    let accepted: Vec<bool> = arrivals.iter().map(|id| t.mark(*id)).collect();
    assert_eq!(
        accepted,
        vec![true, true, false, true, true, false, true, false, false]
    );
    assert_eq!(t.last_contiguous(), 5);
}
