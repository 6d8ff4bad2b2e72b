//! Publishing the results of committed orders.
//!
//! Only the leader publishes. It sends the result of every entry that it
//! applies, in order, and answers replay requests in between. While it does not
//! lead, its position follows what it applies, so that it does not publish old
//! results again when it leads once more.

use crate::auth::{frame_of, payload_of, sign, ClusterKey};
use crate::process::leader_election::LeaderElection;
use crate::process::log_entry::{LogEntry, ReplicatedCommand};
use crate::process::raft_model::{RaftView, Role};
use crate::process::wal::{entry_of, lemma_entry_of, with_order_ids};
use crate::wire;
use crate::wire::{command_in, command_layout, law_command_round_trip};
use vstd::prelude::*;

verus! {

/// How far the results have been published.
pub struct ResultPublisher {
    pub last_published: u64,
}

/// What the publisher does next.
pub enum PublishStep {
    /// This replica does not lead: drop the queued replay requests, and wait
    /// for this many milliseconds.
    StandBy { pause_ms: u64 },
    /// Publish these frames, which answer a replay request.
    Replay { frames: Vec<Vec<u8>> },
    /// Publish this frame, the next result.
    Publish { frame: Vec<u8> },
    /// Wait for this many milliseconds.
    Wait { pause_ms: u64 },
}

/// The pause of a replica that does not lead.
pub const STAND_BY_MS: u64 = 5;

/// The pause while there is nothing to publish.
pub const WAIT_MS: u64 = 1;

/// The frame of a result.
pub open spec fn result_frame_of(entry: LogEntry, key: Seq<u8>) -> Seq<u8> {
    frame_of(command_layout(entry.command@), key)
}

/// The contents of frames.
pub open spec fn frame_views(frames: Seq<Vec<u8>>) -> Seq<Seq<u8>> {
    Seq::new(frames.len(), |i: int| frames[i]@)
}

/// The frames of results, in order.
pub open spec fn result_frames_of(entries: Seq<LogEntry>, key: Seq<u8>) -> Seq<Seq<u8>> {
    Seq::new(entries.len(), |i: int| result_frame_of(entries[i], key))
}

/// The entries that have been applied.
pub open spec fn applied_of(entries: Seq<LogEntry>, applied: u64) -> Seq<LogEntry> {
    entries.filter(|e: LogEntry| e.index <= applied)
}

/// The entries whose results answer a replay request: the applied ones that
/// carry the orders `from ..= to`, in log order.
pub open spec fn replayed(r: RaftView, from: u64, to: u64) -> Seq<LogEntry> {
    applied_of(with_order_ids(r.log, from, to), r.last_applied)
}

/// The signed frame of a result. Whoever has the key finds the result in it.
pub fn result_frame(command: &ReplicatedCommand, key: &ClusterKey) -> (frame: Vec<u8>)
    ensures
        frame@ == frame_of(command_layout(command@), key@),
        command_layout(command@).len() < 0x1_0000_0000 ==> {
            &&& payload_of(frame@, key@) == Some(command_layout(command@))
            &&& command_in(command_layout(command@)) == Some(command@)
        },
{
    proof {
        let layout = command_layout(command@);
        if layout.len() < 0x1_0000_0000 {
            law_command_round_trip(command@, Seq::empty());
            assert(layout + Seq::<u8>::empty() =~= layout);
        }
    }
    let encoded = wire::encode_command(command);
    sign(encoded.as_slice(), key)
}

/// What the publisher does in a state of the replica, and how far it has then
/// published.
pub open spec fn publish_step(
    r: RaftView,
    last_published: u64,
    request: Option<(u64, u64)>,
    key: Seq<u8>,
    step: PublishStep,
    after: u64,
) -> bool {
    if r.role != Role::Leader {
        step == (PublishStep::StandBy { pause_ms: STAND_BY_MS }) && after == r.last_applied
    } else {
        match request {
            Some((from, to)) => {
                &&& step matches PublishStep::Replay { frames }
                &&& frame_views(frames@) == result_frames_of(replayed(r, from, to), key)
                &&& after == last_published
            },
            None => if last_published >= r.last_applied {
                step == (PublishStep::Wait { pause_ms: WAIT_MS }) && after == last_published
            } else {
                match entry_of(r.log, (last_published + 1) as u64) {
                    Some(entry) => {
                        &&& step matches PublishStep::Publish { frame }
                        &&& frame@ == result_frame_of(entry, key)
                        &&& after == last_published + 1
                    },
                    None => step == (PublishStep::Wait { pause_ms: WAIT_MS }) && after
                        == last_published,
                }
            },
        }
    }
}

impl ResultPublisher {
    pub fn new() -> (publisher: Self)
        ensures
            publisher.last_published == 0,
    {
        ResultPublisher { last_published: 0 }
    }

    /// What to do next, given the oldest replay request if there is one.
    pub fn step(
        &mut self,
        election: &LeaderElection,
        request: Option<(u64, u64)>,
        key: &ClusterKey,
    ) -> (step: PublishStep)
        requires
            election.wf(),
        ensures
            publish_step(
                election.raft(),
                old(self).last_published,
                request,
                key@,
                step,
                final(self).last_published,
            ),
    {
        if !election.is_leader() {
            self.last_published = election.last_applied();
            return PublishStep::StandBy { pause_ms: STAND_BY_MS };
        }
        let log = election.log();
        if let Some((from, to)) = request {
            let entries = log.entries_with_order_id_range(from, to);
            let applied: u64 = election.last_applied();
            let mut frames: Vec<Vec<u8>> = Vec::new();
            let mut i: usize = 0;
            proof {
                reveal(Seq::filter);
                assert(frame_views(frames@) =~= result_frames_of(
                    applied_of(entries@.take(0), applied),
                    key@,
                ));
            }
            while i < entries.len()
                invariant
                    i <= entries@.len(),
                    frame_views(frames@) == result_frames_of(
                        applied_of(entries@.take(i as int), applied),
                        key@,
                    ),
                decreases entries@.len() - i,
            {
                let ghost before = frame_views(frames@);
                let ghost done = applied_of(entries@.take(i as int), applied);
                if entries[i].index <= applied {
                    frames.push(result_frame(&entries[i].command, key));
                    proof {
                        assert(frame_views(frames@) =~= before.push(
                            result_frame_of(entries@[i as int], key@),
                        ));
                        assert(result_frames_of(done.push(entries@[i as int]), key@)
                            =~= result_frames_of(done, key@).push(
                            result_frame_of(entries@[i as int], key@),
                        ));
                    }
                }
                proof {
                    reveal(Seq::filter);
                    let next = entries@.take(i + 1);
                    assert(next.drop_last() =~= entries@.take(i as int));
                    assert(next.last() == entries@[i as int]);
                }
                i = i + 1;
            }
            proof {
                assert(entries@.take(i as int) =~= entries@);
            }
            return PublishStep::Replay { frames };
        }
        if self.last_published >= election.last_applied() {
            return PublishStep::Wait { pause_ms: WAIT_MS };
        }
        let next: u64 = self.last_published + 1;
        match log.entry_at(next) {
            Some(entry) => {
                let frame = result_frame(&entry.command, key);
                self.last_published = next;
                PublishStep::Publish { frame }
            },
            None => PublishStep::Wait { pause_ms: WAIT_MS },
        }
    }
}

/// A replica that does not lead publishes nothing, whatever is asked of it.
pub proof fn law_followers_stay_silent(
    r: RaftView,
    last_published: u64,
    request: Option<(u64, u64)>,
    key: Seq<u8>,
    step: PublishStep,
    after: u64,
)
    requires
        publish_step(r, last_published, request, key, step, after),
        r.role != Role::Leader,
    ensures
        !(step is Publish),
        !(step is Replay),
{
}

/// Every result that is published, live or on request, is that of an applied
/// entry of the leader's log. Live results come in the order of the log, without
/// a gap.
pub proof fn law_published_results_are_applied(
    r: RaftView,
    last_published: u64,
    request: Option<(u64, u64)>,
    key: Seq<u8>,
    step: PublishStep,
    after: u64,
)
    requires
        publish_step(r, last_published, request, key, step, after),
    ensures
        step is Publish ==> {
            &&& r.role == Role::Leader
            &&& after == last_published + 1
            &&& after <= r.last_applied
            &&& entry_of(r.log, after) is Some
            &&& step->frame@ == result_frame_of(entry_of(r.log, after)->0, key)
        },
        step matches PublishStep::Replay { frames } ==> {
            &&& r.role == Role::Leader
            &&& request matches Some((from, to))
            &&& forall|i: int|
                0 <= i < frames@.len() ==> answers_with_applied(
                    r,
                    from,
                    to,
                    key,
                    (#[trigger] frames@[i])@,
                )
        },
{
    broadcast use vstd::seq_lib::group_filter_ensures;

    if let PublishStep::Replay { frames } = step {
        let (from, to) = request->0;
        let found = with_order_ids(r.log, from, to);
        let entries = replayed(r, from, to);
        let in_range = |e: LogEntry| from <= e.command.order_id <= to;
        let is_applied = |e: LogEntry| e.index <= r.last_applied;
        let sent = frame_views(frames@);
        assert(sent == result_frames_of(entries, key));
        assert(sent.len() == entries.len());
        assert forall|i: int| 0 <= i < frames@.len() implies answers_with_applied(
            r,
            from,
            to,
            key,
            (#[trigger] frames@[i])@,
        ) by {
            assert(sent[i] == result_frame_of(entries[i], key));
            assert(entries.contains(entries[i]));
            found.lemma_filter_contains_rev(is_applied, entries[i]);
            r.log.lemma_filter_contains_rev(in_range, entries[i]);
        }
    }
}

/// Where the elements for which `f` holds stand in a sequence.
proof fn lemma_filter_positions<A>(all: Seq<A>, f: spec_fn(A) -> bool) -> (at: Seq<int>)
    ensures
        at.len() == all.filter(f).len(),
        forall|i: int, j: int| 0 <= i < j < at.len() ==> #[trigger] at[i] < #[trigger] at[j],
        forall|i: int|
            0 <= i < at.len() ==> 0 <= #[trigger] at[i] < all.len() && all[at[i]] == all.filter(
                f,
            )[i],
        forall|k: int|
            0 <= k < all.len() ==> (f(#[trigger] all[k]) <==> exists|i: int|
                0 <= i < at.len() && #[trigger] at[i] == k),
    decreases all.len(),
{
    reveal(Seq::filter);
    if all.len() == 0 {
        Seq::empty()
    } else {
        let init = all.drop_last();
        let head = lemma_filter_positions(init, f);
        let last = all.len() - 1;
        if f(all.last()) {
            let at = head.push(last);
            assert forall|k: int| 0 <= k < all.len() implies (f(#[trigger] all[k])
                <==> exists|i: int| 0 <= i < at.len() && #[trigger] at[i] == k) by {
                if k < last {
                    assert(init[k] == all[k]);
                    if f(all[k]) {
                        let i = choose|i: int| 0 <= i < head.len() && #[trigger] head[i] == k;
                        assert(at[i] == k);
                    }
                    if exists|i: int| 0 <= i < at.len() && #[trigger] at[i] == k {
                        let i = choose|i: int| 0 <= i < at.len() && #[trigger] at[i] == k;
                        assert(head[i] == k);
                    }
                } else {
                    assert(at[head.len() as int] == k);
                }
            }
            at
        } else {
            assert forall|k: int| 0 <= k < all.len() implies (f(#[trigger] all[k])
                <==> exists|i: int| 0 <= i < head.len() && #[trigger] head[i] == k) by {
                if k < last {
                    assert(init[k] == all[k]);
                }
            }
            head
        }
    }
}

/// A replay is complete: the answer to the request for the orders `from ..= to`
/// holds the result of every entry of the leader's log that is applied and
/// carries one of them, in the order of the log, once each, and no other. `at`
/// says where in the log the entry of each frame stands.
pub proof fn law_replays_are_complete(
    r: RaftView,
    last_published: u64,
    from: u64,
    to: u64,
    key: Seq<u8>,
    step: PublishStep,
    after: u64,
) -> (at: Seq<int>)
    requires
        r.role == Role::Leader,
        publish_step(r, last_published, Some((from, to)), key, step, after),
    ensures
        step is Replay,
        at.len() == step->frames@.len(),
        forall|i: int, j: int| 0 <= i < j < at.len() ==> #[trigger] at[i] < #[trigger] at[j],
        forall|i: int|
            0 <= i < at.len() ==> 0 <= #[trigger] at[i] < r.log.len() && step->frames@[i]@
                == frame_of(command_layout(r.log[at[i]].command@), key),
        forall|k: int|
            0 <= k < r.log.len() ==> (((#[trigger] r.log[k]).index <= r.last_applied && from
                <= r.log[k].command.order_id <= to) <==> exists|i: int|
                0 <= i < at.len() && #[trigger] at[i] == k),
        after == last_published,
{
    let in_range = |e: LogEntry| from <= e.command.order_id <= to;
    let is_applied = |e: LogEntry| e.index <= r.last_applied;
    let found = with_order_ids(r.log, from, to);
    let inner = lemma_filter_positions(r.log, in_range);
    let outer = lemma_filter_positions(found, is_applied);
    let at = Seq::new(outer.len(), |i: int| inner[outer[i]]);
    let sent = frame_views(step->frames@);
    assert(sent == result_frames_of(replayed(r, from, to), key));
    assert forall|i: int| 0 <= i < at.len() implies 0 <= #[trigger] at[i] < r.log.len()
        && step->frames@[i]@ == frame_of(command_layout(r.log[at[i]].command@), key) by {
        assert(0 <= outer[i] < found.len());
        assert(0 <= inner[outer[i]] < r.log.len());
        assert(sent[i] == result_frame_of(replayed(r, from, to)[i], key));
    }
    assert forall|i: int, j: int| 0 <= i < j < at.len() implies #[trigger] at[i]
        < #[trigger] at[j] by {
        assert(outer[i] < outer[j]);
        assert(0 <= outer[i] < found.len());
        assert(0 <= outer[j] < found.len());
        assert(inner[outer[i]] < inner[outer[j]]);
    }
    assert forall|k: int| 0 <= k < r.log.len() implies (((#[trigger] r.log[k]).index
        <= r.last_applied && from <= r.log[k].command.order_id <= to) <==> exists|i: int|
        0 <= i < at.len() && #[trigger] at[i] == k) by {
        if r.log[k].index <= r.last_applied && from <= r.log[k].command.order_id <= to {
            assert(in_range(r.log[k]));
            let m = choose|m: int| 0 <= m < inner.len() && #[trigger] inner[m] == k;
            assert(found[m] == r.log[k]);
            assert(is_applied(found[m]));
            let i = choose|i: int| 0 <= i < outer.len() && #[trigger] outer[i] == m;
            assert(at[i] == k);
        }
        if exists|i: int| 0 <= i < at.len() && #[trigger] at[i] == k {
            let i = choose|i: int| 0 <= i < at.len() && #[trigger] at[i] == k;
            let m = outer[i];
            assert(0 <= m < found.len());
            assert(is_applied(found[m]));
            assert(inner[m] == k);
            assert(in_range(r.log[k]));
        }
    }
    at
}

/// No result is left out: a leader that is asked for no replay publishes the
/// applied entry behind the last one that it has published, if its log holds
/// one, and goes on from there. It waits only when there is none.
pub proof fn law_live_results_are_complete(
    r: RaftView,
    last_published: u64,
    key: Seq<u8>,
    step: PublishStep,
    after: u64,
)
    requires
        r.role == Role::Leader,
        publish_step(r, last_published, None, key, step, after),
    ensures
        step is Publish <==> last_published < r.last_applied && exists|k: int|
            0 <= k < r.log.len() && (#[trigger] r.log[k]).index == last_published + 1,
        step matches PublishStep::Publish { frame } ==> after == last_published + 1 && exists|
            k: int,
        |
            0 <= k < r.log.len() && (#[trigger] r.log[k]).index == after && frame@ == frame_of(
                command_layout(r.log[k].command@),
                key,
            ),
        !(step is Publish) ==> step == (PublishStep::Wait { pause_ms: 1 }) && after
            == last_published,
{
    if last_published < r.last_applied {
        lemma_entry_of(r.log, (last_published + 1) as u64);
    }
}

/// A replica that does not lead takes everything that it has applied as
/// published, so that it does not publish it again when it leads.
pub proof fn law_followers_keep_up(
    r: RaftView,
    last_published: u64,
    request: Option<(u64, u64)>,
    key: Seq<u8>,
    step: PublishStep,
    after: u64,
)
    requires
        r.role != Role::Leader,
        publish_step(r, last_published, request, key, step, after),
    ensures
        step == (PublishStep::StandBy { pause_ms: 5 }),
        after == r.last_applied,
{
}

/// Whether a frame holds the result of an applied entry of the log that carries
/// one of the orders `from ..= to`.
pub open spec fn answers_with_applied(
    r: RaftView,
    from: u64,
    to: u64,
    key: Seq<u8>,
    frame: Seq<u8>,
) -> bool {
    exists|e: LogEntry| #[trigger]
        r.log.contains(e) && e.index <= r.last_applied && from <= e.command.order_id <= to && frame
            == result_frame_of(e, key)
}

} // verus!
