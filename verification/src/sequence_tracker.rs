//! Deduplication and gap tracking for a stream of order ids.
//!
//! A tracker knows which order ids have arrived, how far the arrivals are
//! contiguous, and which ranges below the highest arrival are still missing.
//! Ids close to the contiguous prefix live in a ring of bits, so recording one
//! neither allocates nor scans; ids further ahead fall back to a hash set.

use std::collections::HashSet;
use vstd::prelude::*;

verus! {

broadcast use vstd::std_specs::hash::group_hash_axioms;

/// Number of order ids ahead of the watermark that the ring covers.
pub const WINDOW: u64 = 1_048_576;

/// 64-bit words that hold one bit per id of the window.
const WORDS: usize = 16_384;

/// Bit `i` of `word`.
spec fn bit_at(word: u64, i: u64) -> bool {
    word & (1u64 << i) != 0
}

/// The ring bit that stands for `id`.
spec fn ring_bit(words: Seq<u64>, id: u64) -> bool {
    bit_at(words[(id % WINDOW) as int / 64], (id % WINDOW) % 64)
}

proof fn lemma_bit_set(word: u64, i: u64, j: u64)
    by (bit_vector)
    requires
        i < 64,
        j < 64,
    ensures
        ((word | (1u64 << i)) & (1u64 << j) != 0) == (i == j || word & (1u64 << j) != 0),
{
}

proof fn lemma_bit_clear(word: u64, i: u64, j: u64)
    by (bit_vector)
    requires
        i < 64,
        j < 64,
    ensures
        ((word & !(1u64 << i)) & (1u64 << j) != 0) == (i != j && word & (1u64 << j) != 0),
{
}

proof fn lemma_bit_zero(j: u64)
    by (bit_vector)
    requires
        j < 64,
    ensures
        0u64 & (1u64 << j) == 0,
{
}

/// Ids of one window share no ring slot.
proof fn lemma_slots_differ(a: u64, b: u64)
    requires
        a < b,
        b - a < WINDOW,
    ensures
        a % WINDOW != b % WINDOW,
{
}

/// Ids a whole window apart share their ring slot.
proof fn lemma_slot_repeats(a: u64, b: u64)
    requires
        b == a + WINDOW,
    ensures
        a % WINDOW == b % WINDOW,
{
}

/// Whether the seen ids are contiguous up to `end` and no further.
pub open spec fn is_prefix_end(seen: Set<u64>, end: u64) -> bool {
    &&& forall|id: u64| id <= end ==> #[trigger] seen.contains(id)
    &&& end < u64::MAX ==> !seen.contains((end + 1) as u64)
}

/// Whether `ranges` lists exactly the maximal runs of ids in `lo ..= hi` that
/// are absent from `seen`, in ascending order.
pub open spec fn lists_gaps(ranges: Seq<(u64, u64)>, seen: Set<u64>, lo: int, hi: int) -> bool {
    &&& forall|i: int|
        0 <= i < ranges.len() ==> lo <= (#[trigger] ranges[i]).0 <= ranges[i].1 <= hi
    &&& forall|i: int, id: u64|
        0 <= i < ranges.len() && (#[trigger] ranges[i]).0 <= id <= ranges[i].1
            ==> !(#[trigger] seen.contains(id))
    &&& forall|i: int, j: int|
        0 <= i < j < ranges.len() ==> (#[trigger] ranges[i]).1 + 1 < (#[trigger] ranges[j]).0
    &&& forall|id: u64|
        lo <= id <= hi && !(#[trigger] seen.contains(id)) ==> in_some_range(ranges, id)
}

/// Whether one of `ranges` holds `id`.
pub open spec fn in_some_range(ranges: Seq<(u64, u64)>, id: u64) -> bool {
    exists|i: int| 0 <= i < ranges.len() && (#[trigger] ranges[i]).0 <= id <= ranges[i].1
}

/// Which order ids have arrived, and how far they are contiguous.
pub struct SequenceTracker {
    last_contiguous: u64,
    highest_seen: u64,
    bits: Vec<u64>,
    overflow: HashSet<u64>,
}

impl View for SequenceTracker {
    type V = Set<u64>;

    /// The ids that count as seen: those up to the watermark, the id 0 among
    /// them, and those that were recorded beyond it.
    closed spec fn view(&self) -> Set<u64> {
        Set::new(|id: u64| self.has(id))
    }
}

impl SequenceTracker {
    spec fn has(self, id: u64) -> bool {
        ||| id <= self.last_contiguous
        ||| id - self.last_contiguous - 1 < WINDOW && ring_bit(self.bits@, id)
        ||| self.overflow@.contains(id)
    }

    /// The highest id up to which every id has been seen.
    pub closed spec fn watermark(self) -> u64 {
        self.last_contiguous
    }

    /// The highest id that has been seen.
    pub closed spec fn highest(self) -> u64 {
        self.highest_seen
    }

    /// The watermark is the end of the contiguous prefix of the seen ids, and
    /// nothing beyond `highest` has been seen.
    pub closed spec fn wf(self) -> bool {
        &&& self.bits@.len() == WORDS
        &&& self.last_contiguous <= self.highest_seen
        &&& self.has(self.highest_seen)
        &&& forall|id: u64| id > self.highest_seen ==> !#[trigger] self.has(id)
        &&& self.last_contiguous < u64::MAX ==> !self.has((self.last_contiguous + 1) as u64)
    }

    /// Whatever a tracker has recorded, its watermark is the end of the contiguous
    /// prefix of the ids that it has seen, and nothing beyond its highest id is
    /// among them.
    pub proof fn law_watermark_ends_the_prefix(self)
        requires
            self.wf(),
        ensures
            self.watermark() <= self.highest(),
            self@.contains(self.highest()),
            is_prefix_end(self@, self.watermark()),
            forall|id: u64| id > self.highest() ==> !#[trigger] self@.contains(id),
    {
    }

    pub fn new() -> (t: Self)
        ensures
            t.wf(),
            t.watermark() == 0,
            t.highest() == 0,
            t@ == Set::new(|id: u64| id <= 0),
    {
        Self::with_watermark(0)
    }

    /// Starts with every id up to `watermark` counted as seen.
    pub fn with_watermark(watermark: u64) -> (t: Self)
        ensures
            t.wf(),
            t.watermark() == watermark,
            t.highest() == watermark,
            t@ == Set::new(|id: u64| id <= watermark),
    {
        let t = SequenceTracker {
            last_contiguous: watermark,
            highest_seen: watermark,
            bits: vec![0u64; WORDS],
            overflow: HashSet::new(),
        };
        proof {
            assert forall|id: u64| #[trigger] t.has(id) implies id <= watermark by {
                lemma_bit_zero((id % WINDOW) % 64);
            }
            assert(t@ =~= Set::new(|id: u64| id <= watermark));
        }
        t
    }

    /// Whether `id`, which lies beyond the watermark, has been seen.
    fn is_seen(&self, id: u64) -> (seen: bool)
        requires
            self.bits@.len() == WORDS,
            id > self.last_contiguous,
        ensures
            seen == self.has(id),
    {
        let slot: u64 = id % WINDOW;
        let word: u64 = self.bits[(slot / 64) as usize];
        (id - self.last_contiguous - 1 < WINDOW && word & (1u64 << (slot % 64)) != 0)
            || self.overflow.contains(&id)
    }

    /// Records `order_id`. True the first time that id is recorded; false for a
    /// duplicate, for the id 0 and for an id at or below the watermark.
    pub fn mark(&mut self, order_id: u64) -> (fresh: bool)
        requires
            old(self).wf(),
        ensures
            final(self).wf(),
            marked(*old(self), *final(self), order_id, fresh),
    {
        if order_id == 0 || order_id <= self.last_contiguous {
            proof {
                assert(self@.contains(order_id));
                assert(self@ =~= old(self)@.insert(order_id));
            }
            return false;
        }
        let fresh = !self.is_seen(order_id);
        if fresh {
            self.record(order_id);
        }
        let ghost recorded = *self;
        if order_id > self.highest_seen {
            self.highest_seen = order_id;
        }
        let ghost raised = *self;
        assert(forall|id: u64| #[trigger] raised.has(id) == recorded.has(id));
        assert(forall|id: u64|
            #[trigger] recorded.has(id) == (id == order_id || old(self).has(id)));
        self.advance();
        proof {
            assert forall|id: u64| self@.contains(id) == old(self)@.insert(order_id).contains(
                id,
            ) by {
                assert(self.has(id) == raised.has(id));
            }
            assert(self@ =~= old(self)@.insert(order_id));
        }
        fresh
    }

    /// Adds an unseen `id` beyond the watermark to the ring, or to the fallback
    /// where the ring does not reach it.
    fn record(&mut self, id: u64)
        requires
            old(self).bits@.len() == WORDS,
            id > old(self).last_contiguous,
            !old(self).has(id),
        ensures
            final(self).bits@.len() == WORDS,
            final(self).last_contiguous == old(self).last_contiguous,
            final(self).highest_seen == old(self).highest_seen,
            forall|other: u64|
                #[trigger] final(self).has(other) == (other == id || old(self).has(other)),
    {
        if id - self.last_contiguous - 1 < WINDOW {
            let slot: u64 = id % WINDOW;
            let at: usize = (slot / 64) as usize;
            let word: u64 = self.bits[at];
            let set: u64 = word | (1u64 << (slot % 64));
            self.bits[at] = set;
            proof {
                assert forall|other: u64|
                    #[trigger] self.has(other) == (other == id || old(self).has(other)) by {
                    let slot2 = other % WINDOW;
                    lemma_bit_set(word, slot % 64, slot2 % 64);
                    if other > self.last_contiguous && other - self.last_contiguous - 1 < WINDOW {
                        if other < id {
                            lemma_slots_differ(other, id);
                        } else if id < other {
                            lemma_slots_differ(id, other);
                        }
                    }
                }
            }
        } else {
            self.overflow.insert(id);
        }
    }

    /// Moves the watermark over every id that now continues it.
    fn advance(&mut self)
        requires
            old(self).bits@.len() == WORDS,
            old(self).last_contiguous <= old(self).highest_seen,
            forall|id: u64| id > old(self).highest_seen ==> !#[trigger] old(self).has(id),
            old(self).has(old(self).highest_seen),
        ensures
            final(self).wf(),
            final(self).highest_seen == old(self).highest_seen,
            final(self).last_contiguous >= old(self).last_contiguous,
            forall|id: u64| #[trigger] final(self).has(id) == old(self).has(id),
    {
        while self.last_contiguous < u64::MAX
            invariant_except_break
                self.bits@.len() == WORDS,
                self.last_contiguous <= self.highest_seen,
                self.highest_seen == old(self).highest_seen,
                self.last_contiguous >= old(self).last_contiguous,
                forall|id: u64| id > old(self).highest_seen ==> !#[trigger] old(self).has(id),
                old(self).has(old(self).highest_seen),
                forall|id: u64| #[trigger] self.has(id) == old(self).has(id),
            ensures
                self.wf(),
                self.highest_seen == old(self).highest_seen,
                self.last_contiguous >= old(self).last_contiguous,
                forall|id: u64| #[trigger] self.has(id) == old(self).has(id),
            decreases u64::MAX - self.last_contiguous,
        {
            let ghost before = *self;
            let next: u64 = self.last_contiguous + 1;
            let slot: u64 = next % WINDOW;
            let at: usize = (slot / 64) as usize;
            let word: u64 = self.bits[at];
            if word & (1u64 << (slot % 64)) != 0 {
                assert(self.has(next));
                let cleared: u64 = word & !(1u64 << (slot % 64));
                self.bits[at] = cleared;
                self.last_contiguous = next;
                proof {
                    assert forall|id: u64| #[trigger] self.has(id) == before.has(id) by {
                        lemma_bit_clear(word, slot % 64, (id % WINDOW) % 64);
                        if id > next {
                            if id - next < WINDOW {
                                lemma_slots_differ(next, id);
                            } else if id - next == WINDOW {
                                lemma_slot_repeats(next, id);
                            }
                        }
                    }
                }
            } else if self.overflow.contains(&next) {
                assert(self.has(next));
                self.overflow.remove(&next);
                self.last_contiguous = next;
                proof {
                    assert forall|id: u64| #[trigger] self.has(id) == before.has(id) by {
                        if id > next && id - next == WINDOW {
                            lemma_slot_repeats(next, id);
                        }
                    }
                }
            } else {
                break;
            }
        }
    }

    pub fn last_contiguous(&self) -> (watermark: u64)
        ensures
            watermark == self.watermark(),
    {
        self.last_contiguous
    }

    pub fn highest_seen(&self) -> (highest: u64)
        ensures
            highest == self.highest(),
    {
        self.highest_seen
    }

    /// The ranges of ids, both ends inclusive, that are missing between the
    /// watermark and the highest id seen.
    pub fn missing_ranges(&self) -> (ranges: Vec<(u64, u64)>)
        requires
            self.wf(),
        ensures
            gaps_reported(*self, ranges@),
    {
        let mut ranges: Vec<(u64, u64)> = Vec::new();
        let mut start: Option<u64> = None;
        let mut id: u64 = self.last_contiguous;
        while id < self.highest_seen
            invariant
                self.wf(),
                self.last_contiguous <= id <= self.highest_seen,
                start matches Some(s) ==> self.last_contiguous < s <= id,
                start is None ==> lists_gaps(
                    ranges@,
                    self@,
                    self.last_contiguous + 1,
                    id as int,
                ),
                start is None ==> self.has(id),
                start matches Some(s) ==> lists_gaps(
                    ranges@,
                    self@,
                    self.last_contiguous + 1,
                    s - 1,
                ) && self.has((s - 1) as u64) && (forall|k: u64|
                    s <= k <= id ==> !#[trigger] self@.contains(k)),
                forall|i: int|
                    0 <= i < ranges@.len() ==> (#[trigger] ranges@[i]).1 < id,
                start matches Some(s) ==> forall|i: int|
                    0 <= i < ranges@.len() ==> (#[trigger] ranges@[i]).1 + 1 < s,
            decreases self.highest_seen - id,
        {
            let ghost before = ranges@;
            id = id + 1;
            let seen = self.is_seen(id);
            assert(seen == self@.contains(id));
            match start {
                None => {
                    if !seen {
                        start = Some(id);
                    }
                },
                Some(s) => {
                    if seen {
                        ranges.push((s, id - 1));
                        start = None;
                        proof {
                            assert(ranges@ == before.push((s, (id - 1) as u64)));
                            assert forall|k: u64|
                                self.last_contiguous + 1 <= k <= id
                                    && !(#[trigger] self@.contains(k)) implies in_some_range(
                                ranges@,
                                k,
                            ) by {
                                if k < s {
                                    let i = choose|i: int|
                                        0 <= i < before.len() && (#[trigger] before[i]).0 <= k
                                            <= before[i].1;
                                    assert(ranges@[i] == before[i]);
                                } else {
                                    assert(ranges@[before.len() as int].0 <= k);
                                }
                            }
                        }
                    }
                },
            }
        }
        proof {
            assert(self@.contains(self.highest_seen));
        }
        ranges
    }
}

/// How an id is recorded, and whether it is fresh.
pub open spec fn marked(
    before: SequenceTracker,
    after: SequenceTracker,
    order_id: u64,
    fresh: bool,
) -> bool {
    &&& fresh == !before@.contains(order_id)
    &&& after@ == before@.insert(order_id)
    &&& after.highest() == (if order_id > before.highest() {
        order_id
    } else {
        before.highest()
    })
    &&& is_prefix_end(after@, after.watermark())
    &&& after.watermark() >= before.watermark()
}

/// Whether these are the ranges that a tracker misses.
pub open spec fn gaps_reported(tracker: SequenceTracker, ranges: Seq<(u64, u64)>) -> bool {
    lists_gaps(ranges, tracker@, tracker.watermark() + 1, tracker.highest() as int)
}

impl Default for SequenceTracker {
    fn default() -> (t: Self)
        ensures
            t.wf(),
            t.watermark() == 0,
            t.highest() == 0,
            t@ == Set::new(|id: u64| id <= 0),
    {
        Self::new()
    }
}

/// The ids seen once each of `ids` has been recorded, in order, on top of `seen`.
pub open spec fn seen_after(seen: Set<u64>, ids: Seq<u64>) -> Set<u64>
    decreases ids.len(),
{
    if ids.len() == 0 {
        seen
    } else {
        seen_after(seen, ids.drop_last()).insert(ids.last())
    }
}

/// Whether recording the arrival `ids[k]` reports it as fresh.
pub open spec fn accepted(seen: Set<u64>, ids: Seq<u64>, k: int) -> bool {
    !seen_after(seen, ids.take(k)).contains(ids[k])
}

/// What has been seen does not depend on the order of the arrivals, nor on how
/// often each of them is repeated.
pub proof fn law_seen_ids_ignore_order(seen: Set<u64>, ids: Seq<u64>)
    ensures
        seen_after(seen, ids) == seen.union(ids.to_set()),
    decreases ids.len(),
{
    if ids.len() == 0 {
        assert(seen.union(ids.to_set()) =~= seen);
    } else {
        law_seen_ids_ignore_order(seen, ids.drop_last());
        assert forall|id: u64| ids.to_set().contains(id) == (ids.drop_last().to_set().contains(id)
            || id == ids.last()) by {
            if ids.contains(id) {
                let i = choose|i: int| 0 <= i < ids.len() && ids[i] == id;
                if i < ids.len() - 1 {
                    assert(ids.drop_last()[i] == id);
                }
            }
            if ids.drop_last().contains(id) {
                let i = choose|i: int| 0 <= i < ids.drop_last().len() && ids.drop_last()[i] == id;
                assert(ids[i] == id);
            }
            assert(ids[ids.len() - 1] == ids.last());
        }
        assert(seen_after(seen, ids) =~= seen.union(ids.to_set()));
    }
}

/// Each id is accepted exactly once: an arrival is accepted if and only if its
/// id had not been seen before the run and none of the earlier arrivals had it.
pub proof fn law_accepted_once(seen: Set<u64>, ids: Seq<u64>, k: int)
    requires
        0 <= k < ids.len(),
    ensures
        accepted(seen, ids, k) <==> (!seen.contains(ids[k]) && forall|i: int|
            0 <= i < k ==> ids[i] != ids[k]),
{
    law_seen_ids_ignore_order(seen, ids.take(k));
    assert forall|i: int| 0 <= i < k implies ids.take(k)[i] == ids[i] by {}
    if forall|i: int| 0 <= i < k ==> ids[i] != ids[k] {
        assert(!ids.take(k).contains(ids[k]));
    } else {
        let i = choose|i: int| 0 <= i < k && ids[i] == ids[k];
        assert(ids.take(k)[i] == ids[k]);
    }
}

/// The watermark follows from the seen ids alone.
pub proof fn law_watermark_is_unique(seen: Set<u64>, a: u64, b: u64)
    requires
        is_prefix_end(seen, a),
        is_prefix_end(seen, b),
    ensures
        a == b,
{
    if a < b {
        assert(seen.contains((a + 1) as u64));
    } else if b < a {
        assert(seen.contains((b + 1) as u64));
    }
}

/// Once every id up to `n` has arrived, in whatever order, the watermark has
/// reached `n` and no gap is left at or below it.
pub proof fn law_complete_arrivals_close_gaps(
    seen: Set<u64>,
    n: u64,
    watermark: u64,
    highest: u64,
    ranges: Seq<(u64, u64)>,
)
    requires
        forall|id: u64| id <= n ==> seen.contains(id),
        is_prefix_end(seen, watermark),
        lists_gaps(ranges, seen, watermark + 1, highest as int),
    ensures
        watermark >= n,
        forall|i: int| 0 <= i < ranges.len() ==> (#[trigger] ranges[i]).0 > n,
{
    if watermark < n {
        assert(seen.contains((watermark + 1) as u64));
    }
}

/// An id is fresh when it is first recorded, never again, and changes nothing of
/// what is known of other ids. Both the highest id and the watermark only grow, and
/// no id beyond both is made up.
pub proof fn law_ids_are_fresh_once(
    first: SequenceTracker,
    second: SequenceTracker,
    third: SequenceTracker,
    a: u64,
    b: u64,
    fresh: bool,
    again: bool,
)
    requires
        marked(first, second, a, fresh),
        marked(second, third, b, again),
    ensures
        fresh <==> !first@.contains(a),
        again <==> !first@.contains(b) && a != b,
        forall|id: u64| #[trigger]
            third@.contains(id) <==> first@.contains(id) || id == a || id == b,
        third.highest() >= first.highest() && third.highest() >= a && third.highest() >= b,
        third.highest() == first.highest() || third.highest() == a || third.highest() == b,
        third.watermark() >= second.watermark() >= first.watermark(),
        forall|id: u64| id <= third.watermark() ==> #[trigger] third@.contains(id),
        third.watermark() < u64::MAX ==> !third@.contains((third.watermark() + 1) as u64),
{
}

/// The ranges that a tracker reports hold exactly the ids below its highest one
/// that have not been seen, and no two of them could be one: an id that was seen
/// lies between them.
pub proof fn law_gaps_are_what_is_missing(
    tracker: SequenceTracker,
    ranges: Seq<(u64, u64)>,
    id: u64,
    i: int,
)
    requires
        tracker.wf(),
        gaps_reported(tracker, ranges),
        0 <= i < ranges.len() - 1,
    ensures
        in_some_range(ranges, id) <==> id < tracker.highest() && !tracker@.contains(id),
        ranges[i].0 <= ranges[i].1 && ranges[i].1 + 1 < ranges[i + 1].0,
        tracker@.contains((ranges[i].1 + 1) as u64),
{
    lemma_gaps(tracker, ranges, id);
    let next = (ranges[i].1 + 1) as u64;
    assert(ranges[i].1 + 1 < ranges[i + 1].0);
    lemma_gaps(tracker, ranges, next);
    if !tracker@.contains(next) {
        assert(ranges[i + 1].0 <= tracker.highest());
        assert(in_some_range(ranges, next));
        let k = choose|k: int|
            0 <= k < ranges.len() && (#[trigger] ranges[k]).0 <= next <= ranges[k].1;
        assert(k != i && k != i + 1);
        if k < i {
            assert(ranges[k].1 + 1 < ranges[i].0);
        } else {
            assert(ranges[i].1 + 1 < ranges[k].0);
        }
    }
}

proof fn lemma_gaps(tracker: SequenceTracker, ranges: Seq<(u64, u64)>, id: u64)
    requires
        tracker.wf(),
        gaps_reported(tracker, ranges),
    ensures
        in_some_range(ranges, id) <==> id < tracker.highest() && !tracker@.contains(id),
{
    tracker.law_watermark_ends_the_prefix();
    if in_some_range(ranges, id) {
        let k = choose|k: int|
            0 <= k < ranges.len() && (#[trigger] ranges[k]).0 <= id <= ranges[k].1;
        assert(!tracker@.contains(id));
        assert(id != tracker.highest());
    }
    if id < tracker.highest() && !tracker@.contains(id) {
        assert(id > tracker.watermark());
    }
}

/// A tracker that misses nothing reports nothing, and one that reports nothing has
/// seen every id up to its highest one.
pub proof fn law_no_gaps_no_ranges(tracker: SequenceTracker, ranges: Seq<(u64, u64)>, id: u64)
    requires
        tracker.wf(),
        gaps_reported(tracker, ranges),
    ensures
        in_some_range(ranges, id) <==> id < tracker.highest() && !tracker@.contains(id),
        ranges.len() == 0 && id <= tracker.highest() ==> tracker@.contains(id),
        tracker.watermark() == tracker.highest() ==> ranges.len() == 0,
{
    lemma_gaps(tracker, ranges, id);
    tracker.law_watermark_ends_the_prefix();
    if tracker.watermark() == tracker.highest() && ranges.len() > 0 {
        assert(ranges[0].0 <= ranges[0].1);
    }
}

} // verus!
