//! Serving replay requests from the durable record.

use crate::sending::wal::SenderWal;
use vstd::prelude::*;

verus! {

/// The most orders that one request is answered with. The requester asks again
/// for what remains.
pub const MAX_ORDERS_PER_REQUEST: u64 = 20_000;

/// The channel to a requester, if there is one.
pub open spec fn channel_at(requester_id: u8, channels: usize) -> Option<usize> {
    let at = if requester_id == 0 {
        0
    } else {
        requester_id - 1
    };
    if at < channels {
        Some(at as usize)
    } else {
        None
    }
}

/// The channel to a requester, of which the first belongs to the node with the
/// id 1.
pub fn channel_of(requester_id: u8, channels: usize) -> (channel: Option<usize>)
    ensures
        channel == channel_at(requester_id, channels),
{
    let at: usize = requester_id.saturating_sub(1) as usize;
    if at < channels {
        Some(at)
    } else {
        None
    }
}

/// The ids that are still to be served: from the id `at` of the range number
/// `i` on, those that were sent and are known, range by range and in ascending
/// order.
pub open spec fn ids_left(
    ranges: Seq<(u64, u64)>,
    known: Set<u64>,
    last: u64,
    i: int,
    at: int,
) -> Seq<u64>
    decreases ranges.len() - i, last + 1 - at,
{
    if i < 0 || i >= ranges.len() {
        Seq::empty()
    } else if at > ranges[i].1 || at > last || at < 0 {
        if i + 1 < ranges.len() {
            ids_left(ranges, known, last, i + 1, ranges[i + 1].0 as int)
        } else {
            Seq::empty()
        }
    } else if known.contains(at as u64) {
        seq![at as u64] + ids_left(ranges, known, last, i, at + 1)
    } else {
        ids_left(ranges, known, last, i, at + 1)
    }
}

/// Which id is served next, and what is then left: the first one of those left,
/// unless enough has been served.
pub open spec fn id_given(left: Seq<u64>, count: u64, after: Seq<u64>, id: Option<u64>) -> bool {
    if count >= MAX_ORDERS_PER_REQUEST {
        id is None && after == left
    } else if left.len() == 0 {
        id is None && after == Seq::<u64>::empty()
    } else {
        id == Some(left[0]) && after == left.skip(1)
    }
}

/// How far a replay request has been served.
pub struct ReplayCursor {
    ranges: Vec<(u64, u64)>,
    range: usize,
    at: u128,
    served: u64,
}

impl ReplayCursor {
    /// The ids that are still to be served.
    pub closed spec fn left(self, wal: SenderWal) -> Seq<u64> {
        ids_left(self.ranges@, wal.index().dom(), wal.last(), self.range as int, self.at as int)
    }

    /// How many orders have been served.
    pub closed spec fn count(self) -> u64 {
        self.served
    }

    /// Starts to serve a request.
    pub fn new(ranges: Vec<(u64, u64)>) -> (cursor: ReplayCursor)
        ensures
            cursor.count() == 0,
            forall|wal: SenderWal|
                #![trigger cursor.left(wal)]
                cursor.left(wal) == (if ranges@.len() > 0 {
                    ids_left(ranges@, wal.index().dom(), wal.last(), 0, ranges@[0].0 as int)
                } else {
                    Seq::empty()
                }),
    {
        let at: u128 = if ranges.len() > 0 {
            ranges[0].0 as u128
        } else {
            0
        };
        ReplayCursor { ranges, range: 0, at, served: 0 }
    }

    /// The next id to serve; none once nothing is left or enough has been
    /// served.
    pub fn next_id(&mut self, wal: &SenderWal) -> (id: Option<u64>)
        ensures
            final(self).count() == old(self).count(),
            id_given(
                old(self).left(*wal),
                old(self).count(),
                final(self).left(*wal),
                id,
            ),
            old(self).count() >= MAX_ORDERS_PER_REQUEST ==> *final(self) == *old(self),
    {
        if self.served >= MAX_ORDERS_PER_REQUEST {
            return None;
        }
        let last: u128 = wal.last_order_id() as u128;
        let ghost left = self.left(*wal);
        while self.range < self.ranges.len()
            invariant
                self.ranges@ == old(self).ranges@,
                self.served == old(self).served,
                self.served < MAX_ORDERS_PER_REQUEST,
                last == wal.last(),
                left == old(self).left(*wal),
                self.left(*wal) == left,
            decreases self.ranges@.len() - self.range, last + 1 - self.at,
        {
            let to: u128 = self.ranges[self.range].1 as u128;
            if self.at > to || self.at > last {
                self.range = self.range + 1;
                if self.range < self.ranges.len() {
                    self.at = self.ranges[self.range].0 as u128;
                }
            } else {
                let id: u64 = self.at as u64;
                self.at = self.at + 1;
                if wal.locate(id).is_some() {
                    proof {
                        assert(left.skip(1) =~= self.left(*wal));
                    }
                    return Some(id);
                }
            }
        }
        None
    }

    /// Notes that an order has been served.
    pub fn served_one(&mut self)
        requires
            old(self).count() < u64::MAX,
        ensures
            final(self).count() == old(self).count() + 1,
            forall|wal: SenderWal|
                #![trigger final(self).left(wal)]
                final(self).left(wal) == old(self).left(wal),
    {
        self.served = self.served + 1;
    }

    /// How many orders have been served.
    pub fn served(&self) -> (n: u64)
        ensures
            n == self.count(),
    {
        self.served
    }
}

/// Whether an id is asked for from the id `at` of the range number `i` on.
pub open spec fn asked_from(ranges: Seq<(u64, u64)>, i: int, at: int, id: u64) -> bool {
    ||| 0 <= i < ranges.len() && at <= id <= ranges[i].1
    ||| exists|k: int| i < k < ranges.len() && (#[trigger] ranges[k]).0 <= id <= ranges[k].1
}

/// A request is served with every order that it asks for and that is known, and
/// with no other.
pub proof fn law_what_is_asked_is_served(
    ranges: Seq<(u64, u64)>,
    known: Set<u64>,
    last: u64,
    i: int,
    at: int,
    id: u64,
)
    requires
        0 <= i,
        0 <= at,
    ensures
        ids_left(ranges, known, last, i, at).contains(id) <==> known.contains(id) && id <= last
            && asked_from(ranges, i, at, id),
    decreases ranges.len() - i, last + 1 - at,
{
    let left = ids_left(ranges, known, last, i, at);
    if i >= ranges.len() {
        assert(!asked_from(ranges, i, at, id));
    } else if at > ranges[i].1 || at > last {
        if i + 1 < ranges.len() {
            let next = ranges[i + 1].0 as int;
            law_what_is_asked_is_served(ranges, known, last, i + 1, next, id);
            if id <= last {
                if asked_from(ranges, i, at, id) {
                    let k = choose|k: int|
                        i < k < ranges.len() && (#[trigger] ranges[k]).0 <= id <= ranges[k].1;
                    assert(i + 1 == k || i + 1 < k);
                }
                if asked_from(ranges, i + 1, next, id) && next <= id <= ranges[i + 1].1 {
                    assert(ranges[i + 1].0 <= id);
                }
            }
        } else {
            assert(id <= last ==> !asked_from(ranges, i, at, id));
        }
    } else {
        let rest = ids_left(ranges, known, last, i, at + 1);
        law_what_is_asked_is_served(ranges, known, last, i, at + 1, id);
        if known.contains(at as u64) {
            assert(left == seq![at as u64] + rest);
            if rest.contains(id) {
                let k = choose|k: int| 0 <= k < rest.len() && rest[k] == id;
                assert(left[k + 1] == id);
            }
            assert(left[0] == at as u64);
            if left.contains(id) && id != at as u64 {
                let k = choose|k: int| 0 <= k < left.len() && left[k] == id;
                assert(rest[k - 1] == id);
            }
        }
    }
}

/// What is left of a request is served from the front, one id at a time, until
/// nothing is left or 20,000 orders have been served.
pub proof fn law_requests_are_served(left: Seq<u64>, count: u64, after: Seq<u64>, id: Option<u64>)
    requires
        id_given(left, count, after, id),
    ensures
        id is Some <==> count < 20_000 && left.len() > 0,
        id matches Some(first) ==> left == seq![first] + after,
        id is None ==> after == left,
{
    if let Some(first) = id {
        assert(left =~= seq![first] + after);
    }
    if id is None && left.len() == 0 {
        assert(after =~= left);
    }
}

/// The orders of a request whose ranges ascend are served in ascending order,
/// and so none of them twice.
pub proof fn law_orders_are_served_in_order(
    ranges: Seq<(u64, u64)>,
    known: Set<u64>,
    last: u64,
    i: int,
    at: int,
)
    requires
        forall|j: int, k: int|
            0 <= j < k < ranges.len() ==> (#[trigger] ranges[j]).1 < (#[trigger] ranges[k]).0,
        forall|j: int| 0 <= j < ranges.len() ==> (#[trigger] ranges[j]).0 <= ranges[j].1,
        0 <= i < ranges.len(),
        ranges[i].0 <= at,
    ensures
        ({
            let left = ids_left(ranges, known, last, i, at);
            &&& forall|k: int| 0 <= k < left.len() ==> at <= #[trigger] left[k]
            &&& forall|j: int, k: int|
                0 <= j < k < left.len() ==> #[trigger] left[j] < #[trigger] left[k]
        }) || at > ranges[i].1 + 1,
    decreases ranges.len() - i, last + 1 - at,
{
    if at > ranges[i].1 || at > last {
        if i + 1 < ranges.len() {
            let next = ranges[i + 1].0 as int;
            assert(ranges[i].1 < ranges[i + 1].0);
            law_orders_are_served_in_order(ranges, known, last, i + 1, next);
            if at > last && at <= ranges[i].1 {
                lemma_nothing_beyond(ranges, known, last, i + 1);
            }
        }
    } else {
        law_orders_are_served_in_order(ranges, known, last, i, at + 1);
        let left = ids_left(ranges, known, last, i, at);
        let rest = ids_left(ranges, known, last, i, at + 1);
        if known.contains(at as u64) {
            assert(left == seq![at as u64] + rest);
            assert forall|k: int| 0 <= k < left.len() implies at <= #[trigger] left[k] by {
                if k > 0 {
                    assert(left[k] == rest[k - 1]);
                }
            }
            assert forall|j: int, k: int| 0 <= j < k < left.len() implies #[trigger] left[j]
                < #[trigger] left[k] by {
                assert(left[k] == rest[k - 1]);
                if j > 0 {
                    assert(left[j] == rest[j - 1]);
                }
            }
        }
    }
}

proof fn lemma_nothing_beyond(ranges: Seq<(u64, u64)>, known: Set<u64>, last: u64, i: int)
    requires
        forall|j: int, k: int|
            0 <= j < k < ranges.len() ==> (#[trigger] ranges[j]).1 < (#[trigger] ranges[k]).0,
        forall|j: int| 0 <= j < ranges.len() ==> (#[trigger] ranges[j]).0 <= ranges[j].1,
        0 <= i < ranges.len(),
        ranges[i].0 > last,
    ensures
        ids_left(ranges, known, last, i, ranges[i].0 as int).len() == 0,
    decreases ranges.len() - i,
{
    if i + 1 < ranges.len() {
        assert(ranges[i].0 <= ranges[i].1 < ranges[i + 1].0);
        lemma_nothing_beyond(ranges, known, last, i + 1);
    }
}

/// The node with the id 1 has the first channel, and each further node the next
/// one. The receiver, whose id is 0, shares the first. There is none for an id
/// beyond the channels.
pub proof fn law_channels(requester_id: u8, channels: usize)
    ensures
        requester_id > 0 ==> (channel_at(requester_id, channels) is Some <==> requester_id
            <= channels),
        requester_id > 0 ==> (channel_at(requester_id, channels) matches Some(at) ==> at + 1
            == requester_id),
        channel_at(0, channels) == (if channels > 0 {
            Some(0usize)
        } else {
            None
        }),
{
}

} // verus!
