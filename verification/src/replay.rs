//! Replay: asking for the ranges of order ids that are missing.
//!
//! A range is asked for once it has been missing for a short while, since most
//! gaps are arrivals out of order that close by themselves. While it stays
//! missing it is asked for again, at intervals that double up to a limit.

use crate::auth::{frame_of, payload_of, sign, verify, ClusterKey};
use crate::clock::{elapsed, millis, nanos_of, time_since};
use crate::sequence_tracker::lists_gaps;
use crate::wire;
use crate::wire::{law_request_round_trip, lemma_request_in, request_in, request_layout};
use vstd::prelude::*;

verus! {

/// A request to publish the orders of some ranges again. The ends of a range
/// are inclusive.
#[derive(Debug)]
pub struct ReplayRequest {
    pub requester_id: u8,
    pub ranges: Vec<(u64, u64)>,
}

impl View for ReplayRequest {
    type V = (u8, Seq<(u64, u64)>);

    open spec fn view(&self) -> (u8, Seq<(u64, u64)>) {
        (self.requester_id, self.ranges@)
    }
}

/// The requester id of the receiver, which is no node of the cluster.
pub const RECEIVER_ID: u8 = 0;

/// The pause between two looks at the missing ranges.
pub const TICK_MS: u64 = 50;

/// How long a range has to be missing before it is asked for.
pub const DEBOUNCE_MS: u64 = 50;

/// The pause after a range was first asked for.
pub const INITIAL_BACKOFF_MS: u64 = 100;

/// The longest pause between two requests for a range.
pub const MAX_BACKOFF_MS: u64 = 5000;

/// The signed request for some ranges. Whoever has the key finds the request in
/// it.
pub fn request_frame(requester_id: u8, ranges: &Vec<(u64, u64)>, key: &ClusterKey) -> (frame: Vec<u8>)
    ensures
        frame@ == frame_of(request_layout(requester_id, ranges@), key@),
        request_layout(requester_id, ranges@).len() < 0x1_0000_0000 ==> {
            &&& payload_of(frame@, key@) == Some(request_layout(requester_id, ranges@))
            &&& request_in(request_layout(requester_id, ranges@)) == Some((requester_id, ranges@))
        },
{
    proof {
        let layout = request_layout(requester_id, ranges@);
        if layout.len() < 0x1_0000_0000 {
            law_request_round_trip(requester_id, ranges@, Seq::empty());
            assert(layout + Seq::<u8>::empty() =~= layout);
        }
    }
    let encoded = wire::serialize_request(requester_id, ranges);
    sign(encoded.as_slice(), key)
}

/// The ranges of everything behind a watermark.
pub open spec fn all_behind(watermark: u64) -> Seq<(u64, u64)> {
    seq![((watermark + 1) as u64, u64::MAX)]
}

/// The ranges that are asked for once at the start: everything behind what is
/// already there, so that a restart catches up even if nothing new arrives.
pub fn startup_ranges(watermark: u64) -> (ranges: Vec<(u64, u64)>)
    requires
        watermark < u64::MAX,
    ensures
        ranges@ == all_behind(watermark),
{
    let mut ranges: Vec<(u64, u64)> = Vec::new();
    ranges.push((watermark + 1, u64::MAX));
    proof {
        assert(ranges@ =~= seq![((watermark + 1) as u64, u64::MAX)]);
    }
    ranges
}

/// What a packet on a replay channel holds.
#[derive(Debug)]
pub enum Incoming {
    /// Its tag is wrong.
    BadTag,
    /// Its tag is right, but it holds no request.
    NoRequest,
    Request(ReplayRequest),
}

/// What a packet on a replay channel comes to.
pub open spec fn opens_to(frame: Seq<u8>, key: Seq<u8>, incoming: Incoming) -> bool {
    match payload_of(frame, key) {
        None => incoming is BadTag,
        Some(payload) => match request_in(payload) {
            None => incoming is NoRequest,
            Some(request) => incoming matches Incoming::Request(r) && r@ == request,
        },
    }
}

/// Opens a packet on a replay channel.
pub fn open_request(frame: &[u8], key: &ClusterKey) -> (incoming: Incoming)
    ensures
        opens_to(frame@, key@, incoming),
{
    match verify(frame, key) {
        None => Incoming::BadTag,
        Some(payload) => {
            let decoded = wire::deserialize_request(payload);
            proof {
                assert(payload@.len() == payload.len());
            }
            match decoded {
                None => {
                    proof {
                        lemma_request_in(payload@, None);
                    }
                    Incoming::NoRequest
                },
                Some((requester_id, ranges)) => {
                    proof {
                        lemma_request_in(payload@, Some((requester_id, ranges@)));
                    }
                    Incoming::Request(ReplayRequest { requester_id, ranges })
                },
            }
        },
    }
}

/// A missing range, and when it was asked for.
#[derive(Clone, Copy, Debug)]
pub struct Gap {
    pub range: (u64, u64),
    pub first_seen: u128,
    /// When the range was last asked for, and how long to wait after that in
    /// nanoseconds; none if it was not asked for yet.
    pub asked: Option<(u128, u128)>,
}

/// Which missing ranges are known, and when each was asked for.
pub struct ReplaySchedule {
    gaps: Vec<Gap>,
}

/// Whether ranges stand in ascending order and do not overlap.
pub open spec fn ranges_ascend(ranges: Seq<(u64, u64)>) -> bool {
    &&& forall|i: int| 0 <= i < ranges.len() ==> (#[trigger] ranges[i]).0 <= ranges[i].1
    &&& forall|i: int, j: int|
        0 <= i < j < ranges.len() ==> (#[trigger] ranges[i]).1 < (#[trigger] ranges[j]).0
}

/// The ranges of gaps.
pub open spec fn ranges_of(gaps: Seq<Gap>) -> Seq<(u64, u64)> {
    Seq::new(gaps.len(), |i: int| gaps[i].range)
}

/// What is known of a range: the first gap with exactly that range.
pub open spec fn gap_of(gaps: Seq<Gap>, range: (u64, u64)) -> Option<Gap>
    decreases gaps.len(),
{
    if gaps.len() == 0 {
        None
    } else if gaps[0].range == range {
        Some(gaps[0])
    } else {
        gap_of(gaps.skip(1), range)
    }
}

/// When a range was first seen to be missing.
pub open spec fn seen_since(gaps: Seq<Gap>, range: (u64, u64), now: u128) -> u128 {
    match gap_of(gaps, range) {
        Some(gap) => gap.first_seen,
        None => now,
    }
}

/// When a range was last asked for.
pub open spec fn asked_since(gaps: Seq<Gap>, range: (u64, u64)) -> Option<(u128, u128)> {
    match gap_of(gaps, range) {
        Some(gap) => gap.asked,
        None => None,
    }
}

/// Whether a missing range is to be asked for now: it has been missing for a
/// while, and the pause after the last request is over.
pub open spec fn is_due(gaps: Seq<Gap>, range: (u64, u64), now: u128) -> bool {
    &&& time_since(seen_since(gaps, range, now), now) >= nanos_of(DEBOUNCE_MS)
    &&& match asked_since(gaps, range) {
        None => true,
        Some((at, pause)) => time_since(at, now) >= pause,
    }
}

/// The pause after a request: twice the one before it, within the bounds.
pub open spec fn next_pause(asked: Option<(u128, u128)>) -> nat {
    match asked {
        None => nanos_of(INITIAL_BACKOFF_MS),
        Some((_, pause)) => if 2 * pause > nanos_of(MAX_BACKOFF_MS) {
            nanos_of(MAX_BACKOFF_MS)
        } else {
            2 * pause as nat
        },
    }
}

/// What is known of a missing range after a look at it.
pub open spec fn gap_after(gaps: Seq<Gap>, range: (u64, u64), now: u128) -> Gap {
    Gap {
        range,
        first_seen: seen_since(gaps, range, now),
        asked: if is_due(gaps, range, now) {
            Some((now, next_pause(asked_since(gaps, range)) as u128))
        } else {
            asked_since(gaps, range)
        },
    }
}

/// The ranges that are to be asked for now, in order.
pub open spec fn due_ranges(gaps: Seq<Gap>, ranges: Seq<(u64, u64)>, now: u128) -> Seq<(u64, u64)>
    decreases ranges.len(),
{
    if ranges.len() == 0 {
        Seq::empty()
    } else if is_due(gaps, ranges.last(), now) {
        due_ranges(gaps, ranges.drop_last(), now).push(ranges.last())
    } else {
        due_ranges(gaps, ranges.drop_last(), now)
    }
}

/// What a look at the missing ranges comes to: what is known of each of them
/// afterwards, and which of them are to be asked for.
pub open spec fn looked_at(
    before: Seq<Gap>,
    ranges: Seq<(u64, u64)>,
    now: u128,
    after: Seq<Gap>,
    due: Seq<(u64, u64)>,
) -> bool {
    &&& after == Seq::new(ranges.len(), |i: int| gap_after(before, ranges[i], now))
    &&& due == due_ranges(before, ranges, now)
}

impl View for ReplaySchedule {
    type V = Seq<Gap>;

    closed spec fn view(&self) -> Seq<Gap> {
        self.gaps@
    }
}

proof fn lemma_gap_behind(gaps: Seq<Gap>, range: (u64, u64), p: int)
    requires
        0 <= p <= gaps.len(),
        forall|i: int| 0 <= i < p ==> (#[trigger] gaps[i]).range != range,
    ensures
        gap_of(gaps, range) == gap_of(gaps.skip(p), range),
    decreases p,
{
    if p == 0 {
        assert(gaps.skip(0) =~= gaps);
    } else {
        assert(gaps[0].range != range);
        let rest = gaps.skip(1);
        assert forall|i: int| 0 <= i < p - 1 implies (#[trigger] rest[i]).range != range by {
            assert(rest[i] == gaps[i + 1]);
        }
        lemma_gap_behind(rest, range, p - 1);
        assert(rest.skip(p - 1) =~= gaps.skip(p));
    }
}

proof fn lemma_gap_beyond(gaps: Seq<Gap>, range: (u64, u64))
    requires
        forall|i: int| 0 <= i < gaps.len() ==> (#[trigger] gaps[i]).range != range,
    ensures
        gap_of(gaps, range) is None,
    decreases gaps.len(),
{
    if gaps.len() > 0 {
        assert(gaps[0].range != range);
        let rest = gaps.skip(1);
        assert forall|i: int| 0 <= i < rest.len() implies (#[trigger] rest[i]).range != range by {
            assert(rest[i] == gaps[i + 1]);
        }
        lemma_gap_beyond(rest, range);
    }
}

impl ReplaySchedule {
    pub closed spec fn wf(self) -> bool {
        &&& ranges_ascend(ranges_of(self.gaps@))
        &&& forall|i: int|
            0 <= i < self.gaps@.len() ==> ((#[trigger] self.gaps@[i]).asked matches Some((_, pause))
                ==> nanos_of(INITIAL_BACKOFF_MS) <= pause <= nanos_of(MAX_BACKOFF_MS))
    }

    /// Whatever a schedule has seen, the ranges that it knows ascend, and its pauses
    /// last from a tenth of a second to five seconds.
    pub proof fn law_schedule_keeps_its_bounds(self, k: int)
        requires
            self.wf(),
            0 <= k < self@.len(),
        ensures
            ranges_ascend(ranges_of(self@)),
            self@[k].asked matches Some((_, pause)) ==> 100_000_000 <= pause <= 5_000_000_000,
    {
    }

    pub fn new() -> (schedule: Self)
        ensures
            schedule.wf(),
            schedule@ == Seq::<Gap>::empty(),
    {
        let schedule = ReplaySchedule { gaps: Vec::new() };
        proof {
            assert(schedule@ =~= Seq::<Gap>::empty());
        }
        schedule
    }

    /// Looks at the ranges that are missing now, and gives those that are to be
    /// asked for. Ranges that are no longer missing are forgotten.
    pub fn tick(&mut self, ranges: &Vec<(u64, u64)>, now: u128) -> (due: Vec<(u64, u64)>)
        requires
            old(self).wf(),
            ranges_ascend(ranges@),
        ensures
            final(self).wf(),
            looked_at(old(self)@, ranges@, now, final(self)@, due@),
    {
        let ghost before = self.gaps@;
        let ghost target = Seq::new(ranges@.len(), |i: int| gap_after(before, ranges@[i], now));
        let mut gaps: Vec<Gap> = Vec::new();
        let mut due: Vec<(u64, u64)> = Vec::new();
        let mut known: usize = 0;
        let mut i: usize = 0;
        while i < ranges.len()
            invariant
                self.gaps@ == before,
                self.wf(),
                ranges_ascend(ranges@),
                i <= ranges@.len(),
                known <= before.len(),
                target == Seq::new(ranges@.len(), |k: int| gap_after(before, ranges@[k], now)),
                gaps@ == target.take(i as int),
                due@ == due_ranges(before, ranges@.take(i as int), now),
                forall|k: int|
                    0 <= k < known ==> i < ranges@.len() ==> (#[trigger] before[k]).range.0
                        < ranges@[i as int].0,
                forall|k: int|
                    0 <= k < gaps@.len() ==> ((#[trigger] gaps@[k]).asked matches Some((_, pause))
                        ==> nanos_of(INITIAL_BACKOFF_MS) <= pause <= nanos_of(MAX_BACKOFF_MS)),
            decreases ranges@.len() - i,
        {
            let range = ranges[i];
            while known < self.gaps.len() && self.gaps[known].range.0 < range.0
                invariant
                    self.gaps@ == before,
                    known <= before.len(),
                    forall|k: int| 0 <= k < known ==> (#[trigger] before[k]).range.0 < range.0,
                decreases before.len() - known,
            {
                known = known + 1;
            }
            let held = known < self.gaps.len() && self.gaps[known].range.0 == range.0
                && self.gaps[known].range.1 == range.1;
            proof {
                lemma_gap_behind(before, range, known as int);
                let rest = before.skip(known as int);
                if held {
                    assert(rest[0] == before[known as int]);
                } else {
                    assert forall|k: int| 0 <= k < rest.len() implies (#[trigger] rest[k]).range
                        != range by {
                        assert(rest[k] == before[known + k]);
                        if k > 0 {
                            let all = ranges_of(before);
                            assert(all[known as int].1 < all[known + k].0);
                            assert(all[known as int].0 <= all[known as int].1);
                        }
                    }
                    lemma_gap_beyond(rest, range);
                }
            }
            let first_seen: u128 = if held {
                self.gaps[known].first_seen
            } else {
                now
            };
            let asked: Option<(u128, u128)> = if held {
                self.gaps[known].asked
            } else {
                None
            };
            let debounced = elapsed(first_seen, now) >= millis(DEBOUNCE_MS);
            let over = match asked {
                None => true,
                Some((at, pause)) => elapsed(at, now) >= pause,
            };
            let mut gap = Gap { range, first_seen, asked };
            if debounced && over {
                let longest: u128 = millis(MAX_BACKOFF_MS);
                let pause: u128 = match asked {
                    None => millis(INITIAL_BACKOFF_MS),
                    Some((_, last)) => if 2 * last > longest {
                        longest
                    } else {
                        2 * last
                    },
                };
                gap.asked = Some((now, pause));
                due.push(range);
            }
            proof {
                assert(gap == gap_after(before, range, now));
            }
            gaps.push(gap);
            i = i + 1;
            proof {
                assert(gaps@ =~= target.take(i as int));
                let done = ranges@.take(i as int);
                assert(done.drop_last() =~= ranges@.take(i - 1));
                assert(done.last() == range);
                if i < ranges@.len() {
                    assert(ranges@[i - 1].1 < ranges@[i as int].0);
                    assert(ranges@[i - 1].0 <= ranges@[i - 1].1);
                }
            }
        }
        self.gaps = gaps;
        proof {
            assert(target.take(i as int) =~= target);
            assert(ranges@.take(i as int) =~= ranges@);
            assert(ranges_of(self.gaps@) =~= ranges@);
        }
        due
    }
}

impl Default for ReplaySchedule {
    fn default() -> (schedule: Self)
        ensures
            schedule.wf(),
            schedule@ == Seq::<Gap>::empty(),
    {
        Self::new()
    }
}

/// The ranges that a tracker reports fit the schedule.
pub proof fn law_missing_ranges_ascend(
    ranges: Seq<(u64, u64)>,
    seen: Set<u64>,
    lo: int,
    hi: int,
)
    requires
        lists_gaps(ranges, seen, lo, hi),
    ensures
        ranges_ascend(ranges),
{
}

/// The pauses between requests grow from the first one to the longest and never
/// beyond it.
pub proof fn law_pauses_are_bounded(asked: Option<(u128, u128)>)
    requires
        asked matches Some((_, pause)) ==> nanos_of(INITIAL_BACKOFF_MS) <= pause <= nanos_of(
            MAX_BACKOFF_MS,
        ),
    ensures
        nanos_of(INITIAL_BACKOFF_MS) <= next_pause(asked) <= nanos_of(MAX_BACKOFF_MS),
        asked matches Some((_, pause)) ==> next_pause(asked) >= pause,
{
}

/// A range is not asked for before it has been missing for a while, nor again
/// before the pause after the last request is over.
pub proof fn law_requests_are_paced(gaps: Seq<Gap>, range: (u64, u64), now: u128)
    ensures
        gap_of(gaps, range) is None ==> !is_due(gaps, range, now),
        gap_of(gaps, range) matches Some(gap) ==> {
            &&& time_since(gap.first_seen, now) < nanos_of(DEBOUNCE_MS) ==> !is_due(
                gaps,
                range,
                now,
            )
            &&& gap.asked matches Some((at, pause)) ==> time_since(at, now) < pause ==> !is_due(
                gaps,
                range,
                now,
            )
        },
{
}

/// What is known of a range is the gap that has it, if one has, and nothing
/// otherwise.
pub proof fn law_known_gaps(gaps: Seq<Gap>, range: (u64, u64), k: int)
    requires
        ranges_ascend(ranges_of(gaps)),
    ensures
        0 <= k < gaps.len() && gaps[k].range == range ==> gap_of(gaps, range) == Some(gaps[k]),
        (forall|i: int| 0 <= i < gaps.len() ==> (#[trigger] gaps[i]).range != range) ==> gap_of(
            gaps,
            range,
        ) is None,
{
    if 0 <= k < gaps.len() && gaps[k].range == range {
        let all = ranges_of(gaps);
        assert forall|i: int| 0 <= i < k implies (#[trigger] gaps[i]).range != range by {
            assert(all[i].1 < all[k].0);
            assert(all[i].0 <= all[i].1);
        }
        lemma_gap_behind(gaps, range, k);
        assert(gaps.skip(k)[0] == gaps[k]);
    }
    if forall|i: int| 0 <= i < gaps.len() ==> (#[trigger] gaps[i]).range != range {
        lemma_gap_beyond(gaps, range);
    }
}

proof fn lemma_due_ranges(gaps: Seq<Gap>, ranges: Seq<(u64, u64)>, now: u128)
    ensures
        due_ranges(gaps, ranges, now) == ranges.filter(
            |range: (u64, u64)| is_due(gaps, range, now),
        ),
    decreases ranges.len(),
{
    reveal(Seq::filter);
    if ranges.len() > 0 {
        lemma_due_ranges(gaps, ranges.drop_last(), now);
    }
}

/// Whether a known gap is to be asked for: it has been missing for 50
/// milliseconds, and the pause after the last request for it is over.
pub open spec fn ripe(gap: Gap, now: u128) -> bool {
    &&& now - gap.first_seen >= 50_000_000
    &&& gap.asked matches Some((at, pause)) ==> now - at >= pause
}

/// Whether a gap is known with this range and is to be asked for.
pub open spec fn ripens(gaps: Seq<Gap>, range: (u64, u64), now: u128) -> bool {
    exists|k: int| 0 <= k < gaps.len() && (#[trigger] gaps[k]).range == range && ripe(gaps[k], now)
}

/// No missing range is forgotten: a look asks for exactly those that have been
/// known to be missing for 50 milliseconds and whose pause is over, in order and
/// once each.
pub proof fn law_missing_ranges_are_asked_for(
    before: Seq<Gap>,
    ranges: Seq<(u64, u64)>,
    now: u128,
    after: Seq<Gap>,
    due: Seq<(u64, u64)>,
)
    requires
        ranges_ascend(ranges_of(before)),
        forall|k: int|
            0 <= k < before.len() ==> ((#[trigger] before[k]).asked matches Some((_, pause))
                ==> pause > 0),
        looked_at(before, ranges, now, after, due),
    ensures
        due == ranges.filter(|range: (u64, u64)| ripens(before, range, now)),
{
    lemma_due_ranges(before, ranges, now);
    let a = |range: (u64, u64)| is_due(before, range, now);
    let b = |range: (u64, u64)| ripens(before, range, now);
    assert forall|range: (u64, u64)| #[trigger] a(range) == b(range) by {
        if exists|k: int| 0 <= k < before.len() && (#[trigger] before[k]).range == range {
            let k = choose|k: int| 0 <= k < before.len() && (#[trigger] before[k]).range == range;
            law_known_gaps(before, range, k);
            if b(range) {
                let j = choose|j: int|
                    0 <= j < before.len() && (#[trigger] before[j]).range == range && ripe(
                        before[j],
                        now,
                    );
                law_known_gaps(before, range, j);
            }
        } else {
            law_known_gaps(before, range, -1);
        }
    }
    assert(a =~= b);
}

/// After a look exactly the missing ranges are known, each since it was first
/// seen. One that was asked for is not asked for again before its pause is over:
/// a tenth of a second after the first request, then twice as long each time, up
/// to five seconds. One that was not keeps its pause.
pub proof fn law_pauses_double(
    before: Seq<Gap>,
    ranges: Seq<(u64, u64)>,
    now: u128,
    after: Seq<Gap>,
    due: Seq<(u64, u64)>,
    i: int,
    k: int,
)
    requires
        ranges_ascend(ranges_of(before)),
        forall|j: int|
            0 <= j < before.len() ==> ((#[trigger] before[j]).asked matches Some((_, pause)) ==> 0
                < pause <= 5_000_000_000),
        looked_at(before, ranges, now, after, due),
        0 <= i < ranges.len(),
    ensures
        after.len() == ranges.len(),
        after[i].range == ranges[i],
        0 <= k < before.len() && before[k].range == ranges[i] ==> {
            &&& after[i].first_seen == before[k].first_seen
            &&& !ripe(before[k], now) ==> after[i].asked == before[k].asked
            &&& ripe(before[k], now) ==> {
                &&& after[i].asked matches Some((at, pause))
                &&& at == now
                &&& before[k].asked is None ==> pause == 100_000_000
                &&& before[k].asked matches Some((_, last)) ==> pause <= 5_000_000_000 && pause
                    <= 2 * last && (pause == 5_000_000_000 || pause == 2 * last)
            }
        },
        (forall|j: int| 0 <= j < before.len() ==> (#[trigger] before[j]).range != ranges[i]) ==> {
            after[i].first_seen == now && after[i].asked is None
        },
{
    law_known_gaps(before, ranges[i], k);
}

/// A range that is missing at two looks, 50 milliseconds or more apart, and was
/// not known before the first, is asked for at the second.
pub proof fn law_lasting_gaps_are_asked_for(
    before: Seq<Gap>,
    middle: Seq<Gap>,
    after: Seq<Gap>,
    first: Seq<(u64, u64)>,
    second: Seq<(u64, u64)>,
    now: u128,
    later: u128,
    due: Seq<(u64, u64)>,
    more_due: Seq<(u64, u64)>,
    range: (u64, u64),
)
    requires
        ranges_ascend(ranges_of(before)),
        ranges_ascend(first),
        looked_at(before, first, now, middle, due),
        looked_at(middle, second, later, after, more_due),
        first.contains(range),
        second.contains(range),
        forall|j: int| 0 <= j < before.len() ==> (#[trigger] before[j]).range != range,
        later >= now + 50_000_000,
    ensures
        !due.contains(range),
        more_due.contains(range),
{
    law_known_gaps(before, range, -1);
    lemma_due_ranges(before, first, now);
    lemma_due_ranges(middle, second, later);
    let i = choose|i: int| 0 <= i < first.len() && first[i] == range;
    assert(ranges_of(middle) =~= first);
    assert(middle[i].range == range);
    law_known_gaps(middle, range, i);
    let f = |r: (u64, u64)| is_due(before, r, now);
    let g = |r: (u64, u64)| is_due(middle, r, later);
    assert(!f(range));
    assert(g(range));
    broadcast use vstd::seq_lib::group_filter_ensures;

    let j = choose|j: int| 0 <= j < second.len() && second[j] == range;
    assert(g(second[j]));
    assert(second.filter(g).contains(second[j]));
    if due.contains(range) {
        let m = choose|m: int| 0 <= m < due.len() && due[m] == range;
        assert(f(first.filter(f)[m]));
    }
}

/// The range that is asked for at the start holds every id behind the watermark,
/// and no other.
pub proof fn law_start_asks_for_everything(watermark: u64, id: u64)
    requires
        watermark < u64::MAX,
    ensures
        crate::sequence_tracker::in_some_range(all_behind(watermark), id) <==> id > watermark,
{
    assert(all_behind(watermark)[0] == ((watermark + 1) as u64, u64::MAX));
}

/// A request that arrives as it was signed is taken for that request. A packet
/// whose tag is wrong is never taken for one.
pub proof fn law_requests_arrive(
    requester_id: u8,
    ranges: Seq<(u64, u64)>,
    key: Seq<u8>,
    frame: Seq<u8>,
    incoming: Incoming,
)
    requires
        opens_to(frame, key, incoming),
        request_layout(requester_id, ranges).len() <= u64::MAX,
    ensures
        payload_of(frame, key) == Some(request_layout(requester_id, ranges)) ==> (
        incoming matches Incoming::Request(request) && request.requester_id == requester_id
            && request.ranges@ == ranges),
        payload_of(frame, key) is None ==> incoming is BadTag,
        incoming is BadTag ==> payload_of(frame, key) is None,
{
    law_request_round_trip(requester_id, ranges, Seq::empty());
    assert(request_layout(requester_id, ranges) + Seq::<u8>::empty() =~= request_layout(
        requester_id,
        ranges,
    ));
}

} // verus!
