//! What a replica owes to its cluster: whom it votes for, how long it waits for
//! its leader, and how a leader finds what a follower lacks.
//!
//! Each law speaks of the state, the log and the clock themselves: instants are
//! nanoseconds, so a number of milliseconds counts a million times.

use crate::clock::passed;
use crate::process::config::{node_of, S2Node};
use crate::process::log_entry::LogEntry;
use crate::process::message::{Message, MessageView};
use crate::process::isolation::{law_isolation, marked_down, silent};
use crate::process::raft_laws::lemma_lease_ignores_contact;
use crate::process::raft_model::{
    answer_append_step, append_request, fence_step, has_id, has_quorum_lease, initial_raft,
    looks_isolated, message_step, met, other_nodes, peers_unreachable, quorum, refresh_step,
    tick_step, win_step, OutputView, RaftView, Role, Site,
};
use crate::process::wal::accepts_append;
use crate::process::witness_client::CachedVerdict;
use vstd::prelude::*;

verus! {

/// A cluster has a node with an id if one of its nodes bears it.
proof fn lemma_node_of(nodes: Seq<S2Node>, id: u8)
    ensures
        node_of(nodes, id) is Some <==> exists|i: int|
            0 <= i < nodes.len() && (#[trigger] nodes[i]).id == id,
    decreases nodes.len(),
{
    if nodes.len() > 0 {
        let rest = nodes.skip(1);
        lemma_node_of(rest, id);
        if nodes[0].id != id {
            if node_of(rest, id) is Some {
                let i = choose|i: int| 0 <= i < rest.len() && (#[trigger] rest[i]).id == id;
                assert(nodes[i + 1].id == id);
            }
            if exists|i: int| 0 <= i < nodes.len() && (#[trigger] nodes[i]).id == id {
                let i = choose|i: int| 0 <= i < nodes.len() && (#[trigger] nodes[i]).id == id;
                assert(rest[i - 1].id == id);
            }
        }
    }
}

/// Whether a log that ends with this term and index is at least as far as
/// `log`: its last entry has a higher term, or the same term and no lower index.
/// An empty log ends with term 0 and index 0.
pub open spec fn reaches_as_far(last_term: u64, last_index: u64, log: Seq<LogEntry>) -> bool {
    if log.len() == 0 {
        true
    } else {
        last_term > log.last().term || (last_term == log.last().term && last_index
            >= log.last().index)
    }
}

/// A vote is granted if and only if the request's term is not behind, the vote
/// of that term is free or already the candidate's, and the candidate's log
/// reaches at least as far as the own one. The one exception is a leader that
/// a majority still acknowledges: it keeps its vote. Whoever grants a vote waits
/// for the winner from then on; whoever does not sends nothing.
pub proof fn law_votes_go_to_current_logs(
    s: Site,
    r: RaftView,
    now: u128,
    timeout_ms: u64,
    term: u64,
    candidate_id: u8,
    last_log_index: u64,
    last_log_term: u64,
)
    requires
        exists|i: int|
            0 <= i < s.config.nodes@.len() && (#[trigger] s.config.nodes@[i]).id == candidate_id,
    ensures
        ({
            let step = message_step(
                s,
                r,
                now,
                timeout_ms,
                Message::RequestVote { term, candidate_id, last_log_index, last_log_term },
            );
            let vote = OutputView::Send {
                to: candidate_id,
                message: MessageView::VoteGranted { term, voter_id: s.self_id },
            };
            let free = term > r.term || (term == r.term && (r.voted_for is None || r.voted_for
                == Some(candidate_id)));
            let reigns = r.role == Role::Leader && term > r.term && has_quorum_lease(s, r, now)
                && candidate_id != s.self_id;
            &&& step.outputs.contains(vote) <==> free && reaches_as_far(
                last_log_term,
                last_log_index,
                r.log,
            ) && !reigns
            &&& step.outputs.contains(vote) ==> {
                &&& step.raft.voted_for == Some(candidate_id)
                &&& step.raft.term == term
                &&& step.raft.last_heartbeat == now
                &&& step.raft.election_timeout_ms == timeout_ms
            }
            &&& !step.outputs.contains(vote) ==> forall|i: int|
                0 <= i < step.outputs.len() ==> (#[trigger] step.outputs[i]) is Announce
        }),
{
    lemma_node_of(s.config.nodes@, candidate_id);
    lemma_lease_ignores_contact(s, r, candidate_id, now);
    let step = message_step(
        s,
        r,
        now,
        timeout_ms,
        Message::RequestVote { term, candidate_id, last_log_index, last_log_term },
    );
    let vote = OutputView::Send {
        to: candidate_id,
        message: MessageView::VoteGranted { term, voter_id: s.self_id },
    };
    let n = step.outputs.len();
    if n > 0 && step.outputs[n - 1] == vote {
        assert(step.outputs.contains(vote));
    }
}

/// The term and the index with which a log ends; both are 0 for an empty one.
pub open spec fn end_of(log: Seq<LogEntry>) -> (u64, u64) {
    if log.len() == 0 {
        (0, 0)
    } else {
        (log.last().term, log.last().index)
    }
}

/// Of two replicas that have not voted in a term, at least one grants its vote
/// of that term to the other, whatever their logs hold.
pub proof fn law_one_of_two_can_be_elected(
    a: Site,
    ra: RaftView,
    b: Site,
    rb: RaftView,
    now: u128,
    timeout_ms: u64,
    term: u64,
)
    requires
        ra.role != Role::Leader,
        rb.role != Role::Leader,
        term > ra.term || (term == ra.term && ra.voted_for is None),
        term > rb.term || (term == rb.term && rb.voted_for is None),
        exists|i: int|
            0 <= i < a.config.nodes@.len() && (#[trigger] a.config.nodes@[i]).id == b.self_id,
        exists|i: int|
            0 <= i < b.config.nodes@.len() && (#[trigger] b.config.nodes@[i]).id == a.self_id,
    ensures
        ({
            let asked_by_a = Message::RequestVote {
                term,
                candidate_id: a.self_id,
                last_log_index: end_of(ra.log).1,
                last_log_term: end_of(ra.log).0,
            };
            let asked_by_b = Message::RequestVote {
                term,
                candidate_id: b.self_id,
                last_log_index: end_of(rb.log).1,
                last_log_term: end_of(rb.log).0,
            };
            let vote_for_a = OutputView::Send {
                to: a.self_id,
                message: MessageView::VoteGranted { term, voter_id: b.self_id },
            };
            let vote_for_b = OutputView::Send {
                to: b.self_id,
                message: MessageView::VoteGranted { term, voter_id: a.self_id },
            };
            ||| message_step(b, rb, now, timeout_ms, asked_by_a).outputs.contains(vote_for_a)
            ||| message_step(a, ra, now, timeout_ms, asked_by_b).outputs.contains(vote_for_b)
        }),
{
    law_votes_go_to_current_logs(
        b,
        rb,
        now,
        timeout_ms,
        term,
        a.self_id,
        end_of(ra.log).1,
        end_of(ra.log).0,
    );
    law_votes_go_to_current_logs(
        a,
        ra,
        now,
        timeout_ms,
        term,
        b.self_id,
        end_of(rb.log).1,
        end_of(rb.log).0,
    );
}

/// A replica that has heard of its leader at the instant `at` stays with it for
/// the election timeout: no tick before that instant makes it stand for
/// election. Its role, its term and its leader stay as they are, it asks for no
/// vote, and the wait goes on as it was, so that this holds of the next tick
/// too. It holds before the entries of the request are taken over and after.
pub proof fn law_heartbeats_keep_followers(
    s: Site,
    r: RaftView,
    at: u128,
    timeout_ms: u64,
    message: Message,
    log: Seq<LogEntry>,
    end: u64,
    success: bool,
    later: u128,
    next_timeout_ms: u64,
)
    requires
        message matches Message::AppendEntries { term, .. } && term >= r.term,
        ({
            let wait_ms = if message->AppendEntries_term > r.term {
                timeout_ms
            } else {
                r.election_timeout_ms
            };
            wait_ms > 0 && later < at + wait_ms * 1_000_000
        }),
    ensures
        message matches Message::AppendEntries { term, leader_id, leader_commit, .. } && {
            let followed = message_step(s, r, at, timeout_ms, message).raft;
            let answered = answer_append_step(
                s,
                RaftView { log, ..followed },
                term,
                leader_id,
                leader_commit,
                end,
                success,
            ).raft;
            let early = tick_step(s, followed, later, next_timeout_ms);
            let late = tick_step(s, answered, later, next_timeout_ms);
            &&& follows_on(followed, term, leader_id, followed)
            &&& follows_on(followed, term, leader_id, early.raft)
            &&& follows_on(followed, term, leader_id, late.raft)
            &&& followed.last_heartbeat == at
            &&& forall|i: int|
                0 <= i < early.outputs.len() ==> (#[trigger] early.outputs[i]) is Announce
            &&& forall|i: int|
                0 <= i < late.outputs.len() ==> (#[trigger] late.outputs[i]) is Announce
        },
{
    if let Message::AppendEntries { term, leader_id, leader_commit, .. } = message {
        let followed = message_step(s, r, at, timeout_ms, message).raft;
        assert(followed.last_heartbeat == at);
        let answered = answer_append_step(
            s,
            RaftView { log, ..followed },
            term,
            leader_id,
            leader_commit,
            end,
            success,
        ).raft;
        law_waiting_goes_on(s, followed, later, next_timeout_ms);
        law_waiting_goes_on(s, answered, later, next_timeout_ms);
    }
}

/// A follower whose wait is not over goes on waiting: a tick changes nothing of it
/// but which peers it marks as available, and sends nothing.
pub proof fn law_waiting_goes_on(s: Site, r: RaftView, now: u128, timeout_ms: u64)
    requires
        r.role == Role::Follower,
        r.election_timeout_ms > 0,
        now < r.last_heartbeat + r.election_timeout_ms * 1_000_000,
    ensures
        ({
            let step = tick_step(s, r, now, timeout_ms);
            &&& step.raft == (RaftView { peer_available: step.raft.peer_available, ..r })
            &&& forall|i: int|
                0 <= i < step.outputs.len() ==> (#[trigger] step.outputs[i]) is Announce
        }),
{
}

/// Whether a replica follows this leader, and waits for it as before.
pub open spec fn follows_on(before: RaftView, term: u64, leader_id: u8, after: RaftView) -> bool {
    &&& after.role == Role::Follower
    &&& after.term == term
    &&& after.leader_id == Some(leader_id)
    &&& after.last_heartbeat == before.last_heartbeat
    &&& after.election_timeout_ms == before.election_timeout_ms
}

/// Each rejected append request of the leader's term lowers the next index of
/// that follower while it is above 1, by one or to one above the last index
/// that the follower reported. It is never raised, never below 1, and the other
/// followers keep theirs.
pub proof fn law_rejects_back_off(
    s: Site,
    r: RaftView,
    now: u128,
    timeout_ms: u64,
    follower_id: u8,
    last: u64,
)
    requires
        r.role == Role::Leader,
        r.next_index.dom().contains(follower_id),
        r.next_index[follower_id] >= 1,
    ensures
        ({
            let after = message_step(
                s,
                r,
                now,
                timeout_ms,
                Message::AppendAck {
                    term: r.term,
                    follower_id,
                    success: false,
                    match_index: last,
                },
            ).raft;
            let before = r.next_index[follower_id];
            let next = after.next_index[follower_id];
            &&& after.next_index.dom().contains(follower_id)
            &&& before > 1 ==> next < before
            &&& 1 <= next <= before
            &&& next <= last + 1
            &&& next == before - 1 || next == last + 1 || next == 1
            &&& forall|id: u8|
                id != follower_id ==> (after.next_index.dom().contains(id)
                    <==> r.next_index.dom().contains(id)) && #[trigger] after.next_index[id]
                    == r.next_index[id]
            &&& after.match_index == r.match_index
            &&& after.role == Role::Leader
            &&& after.term == r.term
            &&& after.log == r.log
            &&& after.commit_index == r.commit_index
        }),
{
}

/// The state of a leader once a follower has rejected its append requests, one
/// after the other, each time reporting how far its log reaches.
pub open spec fn after_rejects(
    s: Site,
    r: RaftView,
    now: u128,
    timeout_ms: u64,
    follower_id: u8,
    reported: Seq<u64>,
) -> RaftView
    decreases reported.len(),
{
    if reported.len() == 0 {
        r
    } else {
        message_step(
            s,
            after_rejects(s, r, now, timeout_ms, follower_id, reported.drop_last()),
            now,
            timeout_ms,
            Message::AppendAck {
                term: r.term,
                follower_id,
                success: false,
                match_index: reported.last(),
            },
        ).raft
    }
}

/// A leader finds what it shares with a follower after finitely many rejects,
/// whatever the follower reports: with each of them the next index has gone
/// down by one at least, and in the end the request stands behind no entry at
/// all, which every log accepts.
pub proof fn law_rejects_end(
    s: Site,
    r: RaftView,
    now: u128,
    timeout_ms: u64,
    follower_id: u8,
    reported: Seq<u64>,
    log: Seq<LogEntry>,
)
    requires
        r.role == Role::Leader,
        r.next_index.dom().contains(follower_id),
        r.next_index[follower_id] >= 1,
    ensures
        ({
            let after = after_rejects(s, r, now, timeout_ms, follower_id, reported);
            &&& after.role == Role::Leader
            &&& after.term == r.term
            &&& after.next_index.dom().contains(follower_id)
            &&& 1 <= after.next_index[follower_id]
            &&& after.next_index[follower_id] == 1 || after.next_index[follower_id]
                <= r.next_index[follower_id] - reported.len()
            &&& reported.len() >= r.next_index[follower_id] - 1 ==> {
                &&& append_request(s, after, follower_id) matches MessageView::AppendEntries {
                    prev_log_index,
                    prev_log_term,
                    ..
                }
                &&& prev_log_index == 0
                &&& accepts_append(log, prev_log_index, prev_log_term)
            }
        }),
    decreases reported.len(),
{
    if reported.len() > 0 {
        let shorter = reported.drop_last();
        law_rejects_end(s, r, now, timeout_ms, follower_id, shorter, log);
        let before = after_rejects(s, r, now, timeout_ms, follower_id, shorter);
        law_rejects_back_off(s, before, now, timeout_ms, follower_id, reported.last());
    }
}

/// Whether a message is this candidate's request for votes: it bears the
/// candidate's id and the end of its log.
pub open spec fn asks_for_votes(
    message: MessageView,
    term: u64,
    candidate_id: u8,
    log: Seq<LogEntry>,
) -> bool {
    message == (MessageView::RequestVote {
        term,
        candidate_id,
        last_log_index: end_of(log).1,
        last_log_term: end_of(log).0,
    })
}

/// Whether each of the nodes is sent one message for which `f` holds, in order,
/// and no one is sent anything else.
pub open spec fn sends_to_each(
    outputs: Seq<OutputView>,
    nodes: Seq<S2Node>,
    f: spec_fn(u8, MessageView) -> bool,
) -> bool {
    let first = outputs.len() - nodes.len();
    &&& first >= 0
    &&& forall|i: int| 0 <= i < first ==> (#[trigger] outputs[i]) is Announce
    &&& forall|i: int|
        0 <= i < nodes.len() ==> {
            &&& #[trigger] outputs[first + i] matches OutputView::Send { to, message }
            &&& to == nodes[i].id
            &&& f(to, message)
        }
}

/// A follower that has waited for its leader for the election timeout stands for
/// election: it enters the next term, votes for itself, forgets its leader,
/// starts a new wait, and asks every peer for its vote. The request says how
/// far its log reaches.
pub proof fn law_waiting_ends(s: Site, r: RaftView, now: u128, timeout_ms: u64)
    requires
        r.role == Role::Follower,
        r.term < u64::MAX,
        passed(r.last_heartbeat, now, r.election_timeout_ms),
    ensures
        ({
            let step = tick_step(s, r, now, timeout_ms);
            &&& stands(s, r, now, timeout_ms, step.raft)
            &&& sends_to_each(
                step.outputs,
                s.peers,
                |to: u8, message: MessageView|
                    asks_for_votes(message, step.raft.term, s.self_id, r.log),
            )
        }),
{
    lemma_stands(s, r, now, timeout_ms);
}

/// Whether a replica has just begun to stand for election.
pub open spec fn stands(s: Site, r: RaftView, now: u128, timeout_ms: u64, after: RaftView) -> bool {
    &&& after.role == Role::Candidate
    &&& after.term == r.term + 1
    &&& after.voted_for == Some(s.self_id)
    &&& forall|id: u8| #[trigger] after.votes.contains(id) <==> id == s.self_id
    &&& after.leader_id is None
    &&& after.last_heartbeat == now
    &&& after.election_timeout_ms == timeout_ms
    &&& after.log == r.log
    &&& after.commit_index == r.commit_index
    &&& after.last_applied == r.last_applied
}

proof fn lemma_stands(s: Site, r: RaftView, now: u128, timeout_ms: u64)
    requires
        r.role != Role::Leader,
        r.term < u64::MAX,
        passed(r.last_heartbeat, now, r.election_timeout_ms),
        r.role == Role::Candidate ==> {
            let marked = refresh_step(s, r, now).raft;
            r.votes.len() < quorum(s, marked, now) && !peers_unreachable(s, marked, now)
        },
    ensures
        ({
            let step = tick_step(s, r, now, timeout_ms);
            &&& stands(s, r, now, timeout_ms, step.raft)
            &&& sends_to_each(
                step.outputs,
                s.peers,
                |to: u8, message: MessageView|
                    asks_for_votes(message, step.raft.term, s.self_id, r.log),
            )
        }),
{
    let step = tick_step(s, r, now, timeout_ms);
    let first = refresh_step(s, r, now).outputs.len() as int;
    assert(step.outputs.len() == first + s.peers.len());
    assert(forall|i: int| 0 <= i < first ==> (#[trigger] step.outputs[i]) is Announce);
    let f = |to: u8, message: MessageView|
        asks_for_votes(message, step.raft.term, s.self_id, r.log);
    assert(forall|i: int|
        0 <= i < s.peers.len() ==> {
            &&& #[trigger] step.outputs[first + i] matches OutputView::Send { to, message }
            &&& to == s.peers[i].id
            &&& f(to, message)
        });
}

/// Whether a replica may lead alone: that is allowed, it has been up for as
/// long as a peer may be silent, every peer is silent, and the monitoring
/// service has confirmed it or need not.
pub open spec fn may_lead_alone(s: Site, r: RaftView, now: u128) -> bool {
    &&& s.config.allow_single_node_leader
    &&& s.config.require_monitoring_for_single_node_leader ==> s.verdict
        == CachedVerdict::SafeToPromote
    &&& passed(s.started_at, now, s.config.peer_silent_ms)
    &&& forall|i: int| 0 <= i < s.peers.len() ==> silent(s, r, (#[trigger] s.peers[i]).id, now)
}

proof fn lemma_alone(s: Site, r: RaftView, now: u128)
    ensures
        peers_unreachable(s, refresh_step(s, r, now).raft, now) == may_lead_alone(s, r, now),
{
    let marked = refresh_step(s, r, now).raft;
    law_isolation(s, marked, now);
    assert forall|i: int| 0 <= i < s.peers.len() implies (silent(
        s,
        marked,
        (#[trigger] s.peers[i]).id,
        now,
    ) || marked_down(marked, s.peers[i].id)) == silent(s, r, s.peers[i].id, now) by {
        assert(has_id(s.peers, s.peers[i].id));
    }
}

/// A candidate whose wait is over wins if it has the votes of more than half of
/// the cluster or may lead alone, and stands again in the next term otherwise.
/// One whose wait is not over goes on waiting.
pub proof fn law_candidates_go_on(s: Site, r: RaftView, now: u128, timeout_ms: u64)
    requires
        r.role == Role::Candidate,
        r.term < u64::MAX,
    ensures
        ({
            let step = tick_step(s, r, now, timeout_ms);
            let over = passed(r.last_heartbeat, now, r.election_timeout_ms);
            let wins = 2 * r.votes.len() > s.peers.len() + 1 || may_lead_alone(s, r, now);
            &&& over && wins ==> step.raft.role == Role::Leader && step.raft.term == r.term
            &&& over && !wins ==> stands(s, r, now, timeout_ms, step.raft) && sends_to_each(
                step.outputs,
                s.peers,
                |to: u8, message: MessageView|
                    asks_for_votes(message, step.raft.term, s.self_id, r.log),
            )
            &&& !over ==> {
                &&& step.raft == (RaftView { peer_available: step.raft.peer_available, ..r })
                &&& forall|i: int|
                    0 <= i < step.outputs.len() ==> (#[trigger] step.outputs[i]) is Announce
            }
        }),
{
    lemma_alone(s, r, now);
    let marked = refresh_step(s, r, now).raft;
    let over = passed(r.last_heartbeat, now, r.election_timeout_ms);
    let wins = 2 * r.votes.len() > s.peers.len() + 1 || may_lead_alone(s, r, now);
    assert(wins <==> r.votes.len() >= quorum(s, marked, now) || peers_unreachable(s, marked, now));
    if over && !wins {
        lemma_stands(s, r, now, timeout_ms);
    }
}

/// A candidate that a peer of its own term votes for wins if and only if it then
/// has the votes of more than half of the cluster. Otherwise it counts the vote
/// and waits on. Votes of an earlier term are not counted.
pub proof fn law_votes_are_counted(
    s: Site,
    r: RaftView,
    now: u128,
    timeout_ms: u64,
    term: u64,
    voter_id: u8,
)
    requires
        r.role == Role::Candidate,
        s.config.peer_silent_ms > 0,
        voter_id != s.self_id,
        exists|i: int| 0 <= i < s.peers.len() && (#[trigger] s.peers[i]).id == voter_id,
    ensures
        ({
            let after = message_step(
                s,
                r,
                now,
                timeout_ms,
                Message::VoteGranted { term, voter_id },
            ).raft;
            let votes = r.votes.insert(voter_id);
            &&& term == r.term ==> {
                &&& after.term == r.term
                &&& after.votes == votes
                &&& after.last_heartbeat == now
                &&& after.role == (if 2 * votes.len() > s.peers.len() + 1 {
                    Role::Leader
                } else {
                    Role::Candidate
                })
            }
            &&& term < r.term ==> {
                &&& after.role == Role::Candidate
                &&& after.votes == r.votes
                &&& after.last_heartbeat == r.last_heartbeat
            }
        }),
{
    let marked = met(s, r, voter_id, now);
    let counted = RaftView { votes: r.votes.insert(voter_id), last_heartbeat: now, ..marked };
    law_isolation(s, counted, now);
    let k = choose|i: int| 0 <= i < s.peers.len() && (#[trigger] s.peers[i]).id == voter_id;
    assert(!silent(s, counted, s.peers[k].id, now));
    assert(!marked_down(counted, s.peers[k].id));
    assert(!looks_isolated(s, counted, now));
}

/// Whether a replica has just taken over the leadership: it takes every peer to
/// hold its whole log until one says otherwise, and knows of no log but its own
/// what it holds.
pub open spec fn takes_over(s: Site, r: RaftView, now: u128, after: RaftView) -> bool {
    let last = end_of(r.log).1;
    &&& after.role == Role::Leader
    &&& after.leader_id == Some(s.self_id)
    &&& after.leader_since_term == after.term
    &&& after.last_heartbeat == now
    &&& forall|id: u8| #[trigger]
        after.next_index.dom().contains(id) <==> exists|i: int|
            0 <= i < s.peers.len() && (#[trigger] s.peers[i]).id == id
    &&& forall|i: int|
        0 <= i < s.peers.len() ==> after.next_index[(#[trigger] s.peers[i]).id] == last + 1
    &&& forall|id: u8| #[trigger] after.match_index.dom().contains(id) <==> id == s.self_id
    &&& after.match_index[s.self_id] == last
    &&& after.log == r.log
}

/// Whether a message is an append request of this leader.
pub open spec fn appends(message: MessageView, term: u64, self_id: u8) -> bool {
    message matches MessageView::AppendEntries { term: its, leader_id, .. } && its == term
        && leader_id == self_id
}

proof fn lemma_takes_over(s: Site, r: RaftView, now: u128)
    requires
        end_of(r.log).1 < u64::MAX,
    ensures
        ({
            let step = win_step(s, r, now);
            &&& takes_over(s, r, now, step.raft)
            &&& step.outputs.len() == 1 + s.peers.len()
            &&& step.outputs[0] is Announce
            &&& forall|i: int|
                0 <= i < s.peers.len() ==> {
                    &&& #[trigger] step.outputs[1 + i] matches OutputView::Send { to, message }
                    &&& to == s.peers[i].id
                    &&& appends(message, r.term, s.self_id)
                }
        }),
{
    let step = win_step(s, r, now);
    assert forall|i: int| 0 <= i < s.peers.len() implies step.raft.next_index[(
    #[trigger] s.peers[i]).id] == end_of(r.log).1 + 1 by {
        assert(has_id(s.peers, s.peers[i].id));
    }
}

/// Whoever wins an election, by a vote or when its wait is over, takes over the
/// leadership and sends an append request of its term to every peer at once.
pub proof fn law_winners_take_over(
    s: Site,
    r: RaftView,
    now: u128,
    timeout_ms: u64,
    message: Message,
)
    requires
        r.role != Role::Leader,
        end_of(r.log).1 < u64::MAX,
    ensures
        ({
            let step = message_step(s, r, now, timeout_ms, message);
            step.raft.role == Role::Leader ==> takes_over(s, r, now, step.raft) && sends_to_each(
                step.outputs,
                s.peers,
                |to: u8, sent: MessageView| appends(sent, step.raft.term, s.self_id),
            )
        }),
        ({
            let step = tick_step(s, r, now, timeout_ms);
            step.raft.role == Role::Leader ==> takes_over(s, r, now, step.raft) && sends_to_each(
                step.outputs,
                s.peers,
                |to: u8, sent: MessageView| appends(sent, step.raft.term, s.self_id),
            )
        }),
{
    let step = message_step(s, r, now, timeout_ms, message);
    if step.raft.role == Role::Leader {
        let marked = met(s, r, message.spec_sender(), now);
        let fenced = fence_step(s, marked, now, timeout_ms, message);
        let counted = RaftView {
            votes: fenced.raft.votes.insert(message.spec_sender()),
            last_heartbeat: now,
            ..fenced.raft
        };
        lemma_takes_over(s, counted, now);
        let won = win_step(s, counted, now);
        assert(fenced.outputs.len() == 0);
        assert(step.outputs =~= won.outputs);
        lemma_sends_to_each(
            step.outputs,
            won.outputs,
            s.peers,
            |to: u8, sent: MessageView| appends(sent, step.raft.term, s.self_id),
        );
    }
    let step = tick_step(s, r, now, timeout_ms);
    if step.raft.role == Role::Leader {
        let refresh = refresh_step(s, r, now);
        lemma_takes_over(s, refresh.raft, now);
        let won = win_step(s, refresh.raft, now);
        assert(step.outputs =~= refresh.outputs + won.outputs);
        lemma_sends_to_each(
            step.outputs,
            won.outputs,
            s.peers,
            |to: u8, sent: MessageView| appends(sent, step.raft.term, s.self_id),
        );
    }
}

proof fn lemma_sends_to_each(
    outputs: Seq<OutputView>,
    won: Seq<OutputView>,
    nodes: Seq<S2Node>,
    f: spec_fn(u8, MessageView) -> bool,
)
    requires
        won.len() == 1 + nodes.len(),
        outputs.len() >= won.len(),
        won =~= outputs.skip(outputs.len() - won.len()),
        forall|i: int|
            0 <= i < outputs.len() - nodes.len() ==> (#[trigger] outputs[i]) is Announce,
        forall|i: int|
            0 <= i < nodes.len() ==> {
                &&& #[trigger] won[1 + i] matches OutputView::Send { to, message }
                &&& to == nodes[i].id
                &&& f(to, message)
            },
    ensures
        sends_to_each(outputs, nodes, f),
{
    let first = outputs.len() - nodes.len();
    assert forall|i: int| 0 <= i < nodes.len() implies {
        &&& #[trigger] outputs[first + i] matches OutputView::Send { to, message }
        &&& to == nodes[i].id
        &&& f(to, message)
    } by {
        assert(outputs[first + i] == won[1 + i]);
    }
}

/// At each tick a leader sends an append request of its term to every peer, and
/// goes on as it is.
pub proof fn law_leaders_replicate(s: Site, r: RaftView, now: u128, timeout_ms: u64)
    requires
        r.role == Role::Leader,
    ensures
        ({
            let step = tick_step(s, r, now, timeout_ms);
            &&& step.raft == (RaftView { peer_available: step.raft.peer_available, ..r })
            &&& sends_to_each(
                step.outputs,
                s.peers,
                |to: u8, sent: MessageView|
                    appends(sent, r.term, s.self_id) && sent == append_request(s, r, to),
            )
        }),
{
    let step = tick_step(s, r, now, timeout_ms);
    let refresh = refresh_step(s, r, now);
    let first = refresh.outputs.len() as int;
    let f = |to: u8, sent: MessageView|
        appends(sent, r.term, s.self_id) && sent == append_request(s, r, to);
    assert(step.outputs.len() == first + s.peers.len());
    assert(forall|i: int| 0 <= i < first ==> (#[trigger] step.outputs[i]) is Announce);
    assert forall|i: int| 0 <= i < s.peers.len() implies {
        &&& #[trigger] step.outputs[first + i] matches OutputView::Send { to, message }
        &&& to == s.peers[i].id
        &&& f(to, message)
    } by {
        let id = s.peers[i].id;
        assert(append_request(s, refresh.raft, id) == append_request(s, r, id));
    }
}

/// A message of an earlier term tells a replica no more than that its sender is
/// there: the state that it does not owe to that stays, and nothing is sent.
pub proof fn law_stale_messages_change_nothing(
    s: Site,
    r: RaftView,
    now: u128,
    timeout_ms: u64,
    message: Message,
)
    requires
        message.spec_term() < r.term,
    ensures
        ({
            let step = message_step(s, r, now, timeout_ms, message);
            &&& step.outputs.len() == 0
            &&& step.raft == (RaftView {
                last_peer_contact: step.raft.last_peer_contact,
                peer_last_contact: step.raft.peer_last_contact,
                peer_available: step.raft.peer_available,
                ..r
            })
        }),
{
}

/// A message of a later term makes a replica follow in that term, without a vote
/// unless it is granted there and then, and with a new wait. The one exception
/// is a leader that is asked for its vote and keeps leading.
pub proof fn law_later_terms_are_adopted(
    s: Site,
    r: RaftView,
    now: u128,
    timeout_ms: u64,
    message: Message,
)
    requires
        message.spec_term() > r.term,
        !(r.role == Role::Leader && message is RequestVote),
    ensures
        ({
            let after = message_step(s, r, now, timeout_ms, message).raft;
            &&& after.role == Role::Follower
            &&& after.term == message.spec_term()
            &&& after.last_heartbeat == now
            &&& after.election_timeout_ms == timeout_ms
            &&& after.votes.len() == 0
            &&& forall|id: u8| !(#[trigger] after.next_index.dom().contains(id))
            &&& forall|id: u8| !(#[trigger] after.match_index.dom().contains(id))
            &&& message is RequestVote || after.voted_for is None
            &&& after.voted_for is None || after.voted_for == Some(message.spec_sender())
            &&& after.log == r.log
            &&& after.commit_index == r.commit_index
            &&& after.last_applied == r.last_applied
        }),
{
}

/// Nothing but a tick makes a replica stand for election, and nothing but a vote
/// request makes it vote.
pub proof fn law_messages_start_no_election(
    s: Site,
    r: RaftView,
    now: u128,
    timeout_ms: u64,
    message: Message,
)
    ensures
        ({
            let after = message_step(s, r, now, timeout_ms, message).raft;
            &&& after.role == Role::Candidate ==> r.role == Role::Candidate && after.term == r.term
            &&& !(message is RequestVote) && after.term == r.term ==> after.voted_for == r.voted_for
        }),
{
}

/// A replica that has just started follows no one in term 0, has voted for no
/// one, has committed nothing, and has until `timeout_ms` from now to hear of a
/// leader. It takes its peers to be down until it hears of them, and counts
/// their silence from now on.
pub proof fn law_new_replicas(
    nodes: Seq<S2Node>,
    id: u8,
    log: Seq<LogEntry>,
    now: u128,
    timeout_ms: u64,
    k: int,
)
    requires
        0 <= k < nodes.len(),
    ensures
        ({
            let peers = other_nodes(nodes, id);
            let r = initial_raft(peers, log, now, timeout_ms);
            &&& r.role == Role::Follower && r.term == 0 && r.voted_for is None
            &&& r.leader_id is None && r.votes.len() == 0
            &&& r.commit_index == 0 && r.last_applied == 0 && r.log == log
            &&& r.last_heartbeat == now && r.election_timeout_ms == timeout_ms
            &&& r.last_peer_contact == now && r.leader_since_term == 0
            &&& peers.contains(nodes[k]) <==> nodes[k].id != id
            &&& nodes[k].id != id ==> {
                &&& marked_down(r, nodes[k].id)
                &&& r.peer_last_contact.dom().contains(nodes[k].id)
                &&& r.peer_last_contact[nodes[k].id] == now
            }
            &&& !r.peer_last_contact.dom().contains(id)
            &&& peers == nodes.filter(|n: S2Node| n.id != id)
        }),
{
    lemma_other_nodes(nodes, id);
    let f = |n: S2Node| n.id != id;
    let peers = other_nodes(nodes, id);
    broadcast use vstd::seq_lib::group_filter_ensures;

    if nodes[k].id != id {
        assert(f(nodes[k]));
        assert(peers.contains(nodes[k]));
        let i = choose|i: int| 0 <= i < peers.len() && peers[i] == nodes[k];
        assert(peers[i].id == nodes[k].id);
        assert(has_id(peers, nodes[k].id));
    }
    if peers.contains(nodes[k]) {
        let i = choose|i: int| 0 <= i < peers.len() && peers[i] == nodes[k];
        assert(f(peers[i]));
    }
    if has_id(peers, id) {
        let i = choose|i: int| 0 <= i < peers.len() && (#[trigger] peers[i]).id == id;
        assert(f(peers[i]));
    }
}

proof fn lemma_other_nodes(nodes: Seq<S2Node>, id: u8)
    ensures
        other_nodes(nodes, id) == nodes.filter(|n: S2Node| n.id != id),
    decreases nodes.len(),
{
    reveal(Seq::filter);
    if nodes.len() > 0 {
        lemma_other_nodes(nodes.drop_last(), id);
    }
}

/// A candidate that is no node of the cluster is sent nothing.
pub proof fn law_strangers_get_no_vote(
    s: Site,
    r: RaftView,
    now: u128,
    timeout_ms: u64,
    term: u64,
    candidate_id: u8,
    last_log_index: u64,
    last_log_term: u64,
)
    requires
        forall|i: int|
            0 <= i < s.config.nodes@.len() ==> (#[trigger] s.config.nodes@[i]).id != candidate_id,
    ensures
        ({
            let step = message_step(
                s,
                r,
                now,
                timeout_ms,
                Message::RequestVote { term, candidate_id, last_log_index, last_log_term },
            );
            forall|i: int|
                0 <= i < step.outputs.len() ==> (#[trigger] step.outputs[i]) is Announce
        }),
{
    lemma_node_of(s.config.nodes@, candidate_id);
}

/// A vote of the own term tells a replica that does not stand for election no more
/// than that its sender is there, and so does an acknowledgement one that does not
/// lead.
pub proof fn law_answers_are_for_the_asker(
    s: Site,
    r: RaftView,
    now: u128,
    timeout_ms: u64,
    message: Message,
)
    requires
        message.spec_term() == r.term,
        (message is VoteGranted && r.role != Role::Candidate) || (message is AppendAck && r.role
            != Role::Leader),
    ensures
        ({
            let step = message_step(s, r, now, timeout_ms, message);
            &&& step.outputs.len() == 0
            &&& step.raft == (RaftView {
                last_peer_contact: step.raft.last_peer_contact,
                peer_last_contact: step.raft.peer_last_contact,
                peer_available: step.raft.peer_available,
                ..r
            })
        }),
{
}

/// A follower of which the leader knows nothing is taken to hold the whole log
/// until it rejects a request. It is then sent what lies behind the entry before
/// the last one that it reported, or the log from its first entry on.
pub proof fn law_unknown_followers(
    s: Site,
    r: RaftView,
    now: u128,
    timeout_ms: u64,
    follower_id: u8,
    last: u64,
)
    requires
        r.role == Role::Leader,
        !r.next_index.dom().contains(follower_id),
        end_of(r.log).1 < u64::MAX,
        last < u64::MAX,
    ensures
        ({
            let after = message_step(
                s,
                r,
                now,
                timeout_ms,
                Message::AppendAck { term: r.term, follower_id, success: false, match_index: last },
            ).raft;
            &&& append_request(s, r, follower_id) matches MessageView::AppendEntries {
                prev_log_index,
                entries,
                ..
            }
            &&& prev_log_index == end_of(r.log).1
            &&& entries.len() == 0
            &&& after.next_index.dom().contains(follower_id)
            &&& after.next_index[follower_id] == (if last > 1 {
                last
            } else {
                1
            })
        }),
{
}

} // verus!
