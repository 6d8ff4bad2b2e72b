//! What holds of a replica whatever happens to it.

use crate::clock::{nanos_of, time_since};
use crate::process::config::S2Node;
use crate::process::log_entry::LogEntry;
use crate::process::message::{Message, MessageView};
use crate::process::raft_model::{
    alive_node_count, answer_append_step, append_requests, applicable, budget_count, can_tick,
    committable, committed, fence_step, has_quorum_lease, highest_committable, log_is_current,
    majority, matched_index, message_step, met, propose_step, quorum, refresh_step, stays_leader,
    tick_step, total_size, win_step, within_budget, OutputView, RaftView, Role, Site,
};
use crate::process::wal::{entry_of, last_index_of};
use crate::process::witness_client::CachedVerdict;
use vstd::prelude::*;

verus! {

proof fn lemma_applicable(log: Seq<LogEntry>, from: u64, commit: u64)
    ensures
        applicable(log, from, commit) >= from,
        from <= commit ==> applicable(log, from, commit) <= commit,
    decreases commit - from,
{
    if from < commit && entry_of(log, (from + 1) as u64) is Some {
        lemma_applicable(log, (from + 1) as u64, commit);
    }
}

proof fn lemma_highest(s: Site, r: RaftView, needed: nat, index: u64)
    ensures
        ({
            let h = highest_committable(s, r, needed, index);
            &&& h >= r.commit_index
            &&& h > r.commit_index ==> h <= index && committable(s, r, needed, h)
            &&& forall|k: u64|
                h < k <= index && k > r.commit_index ==> !#[trigger] committable(s, r, needed, k)
        }),
    decreases index,
{
    if index > r.commit_index && !committable(s, r, needed, index) {
        lemma_highest(s, r, needed, (index - 1) as u64);
    }
}

/// Committing raises the commit index to the highest entry that a quorum has
/// acknowledged and that was made in one of the terms of the present leadership, and leaves
/// it where there is none.
pub proof fn law_commit_needs_quorum(s: Site, r: RaftView, now: u128)
    ensures
        ({
            let after = committed(s, r, now).commit_index;
            let needed = quorum(s, r, now);
            &&& after >= r.commit_index
            &&& after > r.commit_index ==> {
                &&& after <= last_index_of(r.log)
                &&& committable(s, r, needed, after)
            }
            &&& forall|k: u64|
                after < k <= last_index_of(r.log) ==> !#[trigger] committable(s, r, needed, k)
        }),
{
    lemma_highest(s, r, quorum(s, r, now), last_index_of(r.log));
}

/// Committing changes nothing but how far the log is committed and applied.
pub proof fn lemma_committed(s: Site, r: RaftView, now: u128)
    requires
        r.last_applied <= r.commit_index,
    ensures
        ({
            let after = committed(s, r, now);
            &&& after.commit_index >= r.commit_index
            &&& after.last_applied >= r.last_applied
            &&& after.last_applied <= after.commit_index
            &&& after.term == r.term
            &&& after.role == r.role
            &&& after.voted_for == r.voted_for
            &&& after.votes == r.votes
            &&& after.leader_since_term == r.leader_since_term
            &&& after.log == r.log
        }),
{
    let needed = quorum(s, r, now);
    lemma_highest(s, r, needed, last_index_of(r.log));
    lemma_applicable(
        r.log,
        r.last_applied,
        highest_committable(s, r, needed, last_index_of(r.log)),
    );
}

/// What no step of a replica undoes.
pub open spec fn never_goes_back(before: RaftView, after: RaftView) -> bool {
    &&& after.term >= before.term
    &&& after.commit_index >= before.commit_index
    &&& after.last_applied >= before.last_applied
    &&& after.last_applied <= after.commit_index
}

/// Whatever message comes, the term, the commit index and the applied index
/// never go back, and nothing is applied that is not committed. The log stays
/// as it is.
pub proof fn law_messages_never_go_back(
    s: Site,
    r: RaftView,
    now: u128,
    timeout_ms: u64,
    message: Message,
)
    requires
        r.last_applied <= r.commit_index,
    ensures
        never_goes_back(r, message_step(s, r, now, timeout_ms, message).raft),
        message_step(s, r, now, timeout_ms, message).raft.log == r.log,
{
    let marked = met(s, r, message.spec_sender(), now);
    let fenced = fence_step(s, marked, now, timeout_ms, message).raft;
    match message {
        Message::VoteGranted { term, voter_id } => {
            let counted = RaftView {
                votes: fenced.votes.insert(voter_id),
                last_heartbeat: now,
                ..fenced
            };
            lemma_win(s, counted, now);
        },
        Message::AppendAck { term, follower_id, success, match_index } => {
            lemma_committed(
                s,
                RaftView {
                    match_index: fenced.match_index.insert(follower_id, match_index),
                    next_index: fenced.next_index.insert(follower_id, (match_index + 1) as u64),
                    peer_last_ack: fenced.peer_last_ack.insert(follower_id, now),
                    ..fenced
                },
                now,
            );
        },
        _ => {},
    }
}

/// What taking over the leadership leaves as it is.
pub proof fn lemma_win(s: Site, r: RaftView, now: u128)
    requires
        r.last_applied <= r.commit_index,
    ensures
        ({
            let after = win_step(s, r, now).raft;
            &&& never_goes_back(r, after)
            &&& after.term == r.term
            &&& after.role == Role::Leader
            &&& after.voted_for == r.voted_for
            &&& after.votes == r.votes
            &&& after.log == r.log
        }),
{
    let lead = crate::process::raft_model::leading(s, r, now);
    lemma_committed(s, lead, now);
}

/// Whatever the clock brings, the term, the commit index and the applied index
/// never go back, and nothing is applied that is not committed. The log stays
/// as it is.
pub proof fn law_ticks_never_go_back(s: Site, r: RaftView, now: u128, timeout_ms: u64)
    requires
        r.last_applied <= r.commit_index,
        can_tick(r),
    ensures
        never_goes_back(r, tick_step(s, r, now, timeout_ms).raft),
        tick_step(s, r, now, timeout_ms).raft.log == r.log,
{
    lemma_win(s, refresh_step(s, r, now).raft, now);
}

/// Answering an append request never goes back either, and commits no further
/// than the leader has and the own log is known to match the leader's.
pub proof fn law_answers_never_go_back(
    s: Site,
    r: RaftView,
    term: u64,
    leader_id: u8,
    leader_commit: u64,
    end: u64,
    success: bool,
)
    requires
        r.last_applied <= r.commit_index,
    ensures
        ({
            let after = answer_append_step(
                s,
                r,
                term,
                leader_id,
                leader_commit,
                end,
                success,
            ).raft;
            &&& never_goes_back(r, after)
            &&& after.commit_index > r.commit_index ==> success && after.commit_index
                <= leader_commit && after.commit_index <= matched_index(r.log, end)
        }),
{
    let matched = matched_index(r.log, end);
    let known = if leader_commit < matched {
        leader_commit
    } else {
        matched
    };
    if success && known > r.commit_index {
        lemma_applicable(r.log, r.last_applied, known);
    } else {
        lemma_applicable(r.log, r.last_applied, r.commit_index);
    }
}

/// Proposing never goes back, and only adds to the log.
pub proof fn law_proposals_never_go_back(
    s: Site,
    r: RaftView,
    now: u128,
    entries: Seq<LogEntry>,
)
    requires
        r.last_applied <= r.commit_index,
    ensures
        never_goes_back(r, propose_step(s, r, now, entries).raft),
        propose_step(s, r, now, entries).raft.log == r.log + entries,
{
    let grown = RaftView {
        log: r.log + entries,
        match_index: r.match_index.insert(s.self_id, entries.last().index),
        ..r
    };
    lemma_committed(s, grown, now);
}

/// A replica votes once in a term: whoever has its vote keeps it until the term
/// is over, whatever messages come and whatever the clock brings.
pub proof fn law_one_vote_per_term(
    s: Site,
    r: RaftView,
    now: u128,
    timeout_ms: u64,
    message: Message,
    candidate: u8,
)
    requires
        r.voted_for == Some(candidate),
        r.last_applied <= r.commit_index,
    ensures
        ({
            let after = message_step(s, r, now, timeout_ms, message).raft;
            after.term == r.term ==> after.voted_for == Some(candidate)
        }),
        can_tick(r) ==> {
            let after = tick_step(s, r, now, timeout_ms).raft;
            after.term == r.term ==> after.voted_for == Some(candidate)
        },
{
    let marked = met(s, r, message.spec_sender(), now);
    let fenced = fence_step(s, marked, now, timeout_ms, message).raft;
    match message {
        Message::VoteGranted { term, voter_id } => {
            let counted = RaftView {
                votes: fenced.votes.insert(voter_id),
                last_heartbeat: now,
                ..fenced
            };
            lemma_win(s, counted, now);
        },
        Message::AppendAck { term, follower_id, success, match_index } => {
            lemma_committed(
                s,
                RaftView {
                    match_index: fenced.match_index.insert(follower_id, match_index),
                    next_index: fenced.next_index.insert(follower_id, (match_index + 1) as u64),
                    peer_last_ack: fenced.peer_last_ack.insert(follower_id, now),
                    ..fenced
                },
                now,
            );
        },
        _ => {},
    }
    if can_tick(r) {
        lemma_win(s, refresh_step(s, r, now).raft, now);
    }
}

/// Whether a replica that stands for election or leads has voted for itself.
pub open spec fn backs_itself(s: Site, r: RaftView) -> bool {
    r.role != Role::Follower ==> r.voted_for == Some(s.self_id)
}

/// Whoever stands for election or leads has voted for itself, whatever messages
/// come and whatever the clock brings, and so grants its vote to no other
/// replica in that term.
pub proof fn law_own_vote(
    s: Site,
    r: RaftView,
    now: u128,
    timeout_ms: u64,
    message: Message,
    to: u8,
    voter_id: u8,
)
    requires
        backs_itself(s, r),
        r.last_applied <= r.commit_index,
    ensures
        backs_itself(s, message_step(s, r, now, timeout_ms, message).raft),
        can_tick(r) ==> backs_itself(s, tick_step(s, r, now, timeout_ms).raft),
        r.role != Role::Follower && to != s.self_id ==> !message_step(
            s,
            r,
            now,
            timeout_ms,
            message,
        ).outputs.contains(
            OutputView::Send { to, message: MessageView::VoteGranted { term: r.term, voter_id } },
        ),
{
    let marked = met(s, r, message.spec_sender(), now);
    let fenced = fence_step(s, marked, now, timeout_ms, message).raft;
    match message {
        Message::VoteGranted { term, voter_id } => {
            let counted = RaftView {
                votes: fenced.votes.insert(voter_id),
                last_heartbeat: now,
                ..fenced
            };
            lemma_win(s, counted, now);
        },
        Message::AppendAck { term, follower_id, success, match_index } => {
            lemma_committed(
                s,
                RaftView {
                    match_index: fenced.match_index.insert(follower_id, match_index),
                    next_index: fenced.next_index.insert(follower_id, (match_index + 1) as u64),
                    peer_last_ack: fenced.peer_last_ack.insert(follower_id, now),
                    ..fenced
                },
                now,
            );
        },
        _ => {},
    }
    if can_tick(r) {
        lemma_win(s, refresh_step(s, r, now).raft, now);
    }
    let vote = OutputView::Send {
        to,
        message: MessageView::VoteGranted { term: r.term, voter_id },
    };
    if r.role != Role::Follower && to != s.self_id && message_step(
        s,
        r,
        now,
        timeout_ms,
        message,
    ).outputs.contains(vote) {
        law_votes_are_bound(s, r, now, timeout_ms, message, to, r.term, voter_id);
        law_one_vote_per_term(s, r, now, timeout_ms, message, s.self_id);
    }
}

/// A vote that is handed out is the replica's vote of its present term, goes to
/// the candidate that it voted for, and that candidate's log is at least as far
/// as its own.
pub proof fn law_votes_are_bound(
    s: Site,
    r: RaftView,
    now: u128,
    timeout_ms: u64,
    message: Message,
    to: u8,
    term: u64,
    voter_id: u8,
)
    requires
        message_step(s, r, now, timeout_ms, message).outputs.contains(
            OutputView::Send { to, message: MessageView::VoteGranted { term, voter_id } },
        ),
    ensures
        ({
            let after = message_step(s, r, now, timeout_ms, message).raft;
            &&& voter_id == s.self_id
            &&& after.term == term
            &&& after.voted_for == Some(to)
            &&& message matches Message::RequestVote { candidate_id, last_log_index, last_log_term, .. }
            &&& candidate_id == to
            &&& log_is_current(r.log, last_log_term, last_log_index)
        }),
{
    let vote = OutputView::Send { to, message: MessageView::VoteGranted { term, voter_id } };
    let marked = met(s, r, message.spec_sender(), now);
    let first = fence_step(s, marked, now, timeout_ms, message);
    let fenced = first.raft;
    let all = message_step(s, r, now, timeout_ms, message).outputs;
    let k = choose|k: int| 0 <= k < all.len() && all[k] == vote;
    assert(forall|i: int| 0 <= i < first.outputs.len() ==> first.outputs[i] is Announce);
    match message {
        Message::RequestVote { .. } => {},
        Message::VoteGranted { term, voter_id } => {
            let counted = RaftView {
                votes: fenced.votes.insert(voter_id),
                last_heartbeat: now,
                ..fenced
            };
            let won = win_step(s, counted, now);
            let lead = crate::process::raft_model::lead_step(s, counted, now);
            let requests = append_requests(s, lead.raft);
            assert(forall|i: int|
                0 <= i < requests.len() ==> (#[trigger] requests[i])->message is AppendEntries);
            assert(forall|i: int|
                0 <= i < won.outputs.len() ==> #[trigger] won.outputs[i] != vote);
        },
        Message::AppendEntries { .. } => {},
        Message::AppendAck { .. } => {},
    }
}

/// A replica takes over the leadership only as a candidate of its term, and only
/// with the votes of a quorum or where it may win alone. It may win alone only
/// if that is allowed, it looks isolated, and, unless that is waived, the
/// monitoring service has confirmed that its peers are down. Otherwise it has
/// the votes of a majority of the whole cluster.
pub proof fn law_leadership_is_won(
    s: Site,
    r: RaftView,
    now: u128,
    timeout_ms: u64,
    message: Message,
)
    requires
        r.role != Role::Leader,
        r.last_applied <= r.commit_index,
    ensures
        ({
            let after = message_step(s, r, now, timeout_ms, message).raft;
            after.role == Role::Leader ==> {
                &&& r.role == Role::Candidate
                &&& after.term == r.term
                &&& after.votes.len() >= majority(s) || alone_is_confirmed(s)
            }
        }),
        can_tick(r) ==> {
            let after = tick_step(s, r, now, timeout_ms).raft;
            after.role == Role::Leader ==> {
                &&& r.role == Role::Candidate
                &&& after.term == r.term
                &&& after.votes.len() >= majority(s) || alone_is_confirmed(s)
            }
        },
{
    let marked = met(s, r, message.spec_sender(), now);
    let fenced = fence_step(s, marked, now, timeout_ms, message).raft;
    match message {
        Message::VoteGranted { term, voter_id } => {
            let counted = RaftView {
                votes: fenced.votes.insert(voter_id),
                last_heartbeat: now,
                ..fenced
            };
            lemma_win(s, counted, now);
        },
        _ => {},
    }
    if can_tick(r) {
        lemma_win(s, refresh_step(s, r, now).raft, now);
    }
}

/// Whether the configuration and the monitoring service let a replica lead alone.
pub open spec fn alone_is_confirmed(s: Site) -> bool {
    &&& s.config.allow_single_node_leader
    &&& s.config.require_monitoring_for_single_node_leader ==> s.verdict
        == CachedVerdict::SafeToPromote
}

/// A leader that a majority still acknowledges, or whose log is further than the
/// candidate's, keeps leading when it is asked for its vote in a higher term. It
/// adopts the term, and its vote in it is its own.
pub proof fn law_stale_candidate_cannot_displace(
    s: Site,
    r: RaftView,
    now: u128,
    timeout_ms: u64,
    term: u64,
    candidate_id: u8,
    last_log_index: u64,
    last_log_term: u64,
)
    requires
        r.role == Role::Leader,
        term > r.term,
        candidate_id != s.self_id,
        has_quorum_lease(s, r, now) || !log_is_current(r.log, last_log_term, last_log_index),
    ensures
        ({
            let message = Message::RequestVote {
                term,
                candidate_id,
                last_log_index,
                last_log_term,
            };
            let step = message_step(s, r, now, timeout_ms, message);
            &&& step.raft.role == Role::Leader
            &&& step.raft.term == term
            &&& step.raft.voted_for == Some(s.self_id)
            &&& step.raft.leader_since_term == r.leader_since_term
            &&& step.outputs == Seq::<OutputView>::empty()
        }),
{
    let message = Message::RequestVote { term, candidate_id, last_log_index, last_log_term };
    let marked = met(s, r, candidate_id, now);
    lemma_lease_ignores_contact(s, r, candidate_id, now);
    assert(stays_leader(s, marked, now, message));
    let step = message_step(s, r, now, timeout_ms, message);
    assert(step.outputs =~= Seq::<OutputView>::empty());
}

pub proof fn lemma_lease_ignores_contact(s: Site, r: RaftView, id: u8, now: u128)
    ensures
        has_quorum_lease(s, met(s, r, id, now), now) == has_quorum_lease(s, r, now),
{
    lemma_same_acks(s, s.peers, r, met(s, r, id, now), now);
}

proof fn lemma_same_acks(s: Site, nodes: Seq<S2Node>, r1: RaftView, r2: RaftView, now: u128)
    requires
        r1.peer_last_ack == r2.peer_last_ack,
    ensures
        crate::process::raft_model::count_ids(
            nodes,
            crate::process::raft_model::has_acked(s, r1, now),
        ) == crate::process::raft_model::count_ids(
            nodes,
            crate::process::raft_model::has_acked(s, r2, now),
        ),
    decreases nodes.len(),
{
    if nodes.len() > 0 {
        lemma_same_acks(s, nodes.drop_last(), r1, r2, now);
    }
}

/// A replica follows whoever sends an append request of its own term or of a
/// higher one, even if it leads itself; one of a lower term changes nothing but
/// that its sender was heard of, and is not answered.
pub proof fn law_append_requests_fence_leaders(
    s: Site,
    r: RaftView,
    now: u128,
    timeout_ms: u64,
    message: Message,
)
    requires
        message is AppendEntries,
    ensures
        ({
            let step = message_step(s, r, now, timeout_ms, message);
            if message.spec_term() >= r.term {
                &&& step.raft.role == Role::Follower
                &&& step.raft.term == message.spec_term()
                &&& step.raft.leader_id == Some(message.spec_sender())
            } else {
                &&& step.raft == met(s, r, message.spec_sender(), now)
                &&& step.outputs == Seq::<OutputView>::empty()
            }
        }),
{
    let step = message_step(s, r, now, timeout_ms, message);
    if message.spec_term() < r.term {
        assert(step.outputs =~= Seq::<OutputView>::empty());
    }
}

/// Two majorities of one cluster share a replica.
pub proof fn law_majorities_intersect(s: Site, cluster: Set<u8>, a: Set<u8>, b: Set<u8>)
    requires
        cluster.finite(),
        cluster.len() == s.peers.len() + 1,
        a.subset_of(cluster),
        b.subset_of(cluster),
        a.len() >= majority(s),
        b.len() >= majority(s),
    ensures
        exists|id: u8| a.contains(id) && b.contains(id),
{
    vstd::set_lib::lemma_len_subset(a, cluster);
    vstd::set_lib::lemma_len_subset(b, cluster);
    if forall|id: u8| !(a.contains(id) && b.contains(id)) {
        assert(a.disjoint(b));
        vstd::set_lib::lemma_set_disjoint_lens(a, b);
        assert((a + b).subset_of(cluster));
        vstd::set_lib::lemma_len_subset(a + b, cluster);
    }
}

/// Fewer than a majority are enough only for a replica that may lead alone, has
/// been up for as long as a peer may be silent, hears of no peer, and, unless
/// that is waived, has it confirmed by the monitoring service that its peers
/// are down. Where leading alone is not allowed, it always takes a majority.
pub proof fn law_lone_quorum_is_guarded(s: Site, r: RaftView, now: u128)
    ensures
        quorum(s, r, now) < majority(s) ==> {
            &&& alone_is_confirmed(s)
            &&& time_since(s.started_at, now) >= nanos_of(s.config.peer_silent_ms)
            &&& alive_node_count(s, r, now) == 1
        },
        !s.config.allow_single_node_leader ==> quorum(s, r, now) == majority(s),
        s.peers.len() > 0 ==> majority(s) > 1,
{
}

proof fn lemma_budget(entries: Seq<LogEntry>, budget: nat, n: nat)
    requires
        n <= entries.len(),
        n > 1 ==> total_size(entries.take(n as int)) <= budget,
    ensures
        ({
            let k = budget_count(entries, budget, n);
            &&& n <= k <= entries.len()
            &&& k > 1 ==> total_size(entries.take(k as int)) <= budget
            &&& entries.len() > 0 ==> k >= 1
            &&& k == entries.len() || total_size(entries.take(k as int + 1)) > budget
        }),
    decreases entries.len() - n,
{
    if n < entries.len() && (n == 0 || total_size(entries.take(n as int + 1)) <= budget) {
        lemma_budget(entries, budget, n + 1);
    }
}

/// Replication always makes progress: of a log that is not empty at least one
/// entry is sent. More than one are sent only as far as they fit the budget
/// together, and then as many as do.
pub proof fn law_replication_makes_progress(entries: Seq<LogEntry>, budget: nat)
    ensures
        ({
            let sent = within_budget(entries, budget);
            &&& entries.len() > 0 ==> sent.len() >= 1
            &&& sent.len() > 1 ==> total_size(sent) <= budget
            &&& sent.is_prefix_of(entries)
            &&& sent.len() < entries.len() ==> total_size(entries.take(sent.len() as int + 1))
                > budget
        }),
{
    lemma_budget(entries, budget, 0);
    let k = budget_count(entries, budget, 0);
    assert(within_budget(entries, budget) =~= entries.subrange(0, k as int));
}

} // verus!
