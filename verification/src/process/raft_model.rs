//! What a replica does, as functions from one state to the next.

use crate::clock::{nanos_of, time_since};
use crate::process::config::{name_of, node_of, role_line, ClusterConfig, S2Node};
use crate::process::log_entry::{views, LogEntry, ReplicatedCommand};
use crate::process::message::{Message, MessageView};
use crate::process::wal::{entry_of, from_index_of, last_index_of, last_term_of, term_of};
use crate::process::witness_client::{CachedVerdict, CorroborationOutcome};
use crate::text::decimal;
use crate::wire::entry_layout;
use vstd::prelude::*;

verus! {

/// What a replica is in its term.
#[derive(Clone, Copy, PartialEq, Eq, Structural, Debug)]
pub enum Role {
    Follower,
    Candidate,
    Leader,
}

/// The state of one replica.
#[verifier::ext_equal]
pub struct RaftView {
    pub term: u64,
    pub role: Role,
    pub voted_for: Option<u8>,
    pub leader_id: Option<u8>,
    pub votes: Set<u8>,
    pub next_index: Map<u8, u64>,
    pub match_index: Map<u8, u64>,
    pub commit_index: u64,
    pub last_applied: u64,
    pub last_heartbeat: u128,
    pub election_timeout_ms: u64,
    pub last_peer_contact: u128,
    pub peer_last_contact: Map<u8, u128>,
    pub peer_available: Map<u8, bool>,
    pub peer_last_ack: Map<u8, u128>,
    pub leader_since_term: u64,
    pub log: Seq<LogEntry>,
}

/// What a replica knows of its surroundings.
pub struct Site {
    pub self_id: u8,
    pub peers: Seq<S2Node>,
    pub config: ClusterConfig,
    pub started_at: u128,
    pub verdict: CachedVerdict,
}

/// What a replica hands to the outside.
#[verifier::ext_equal]
pub enum OutputView {
    Send { to: u8, message: MessageView },
    Announce { line: Seq<char> },
}

/// A state, and what was handed out on the way to it.
#[verifier::ext_equal]
pub struct Step {
    pub raft: RaftView,
    pub outputs: Seq<OutputView>,
}

/// The byte budget of one append request, which keeps its datagram under the
/// usual size of an Ethernet frame.
pub const APPEND_BATCH_BYTE_BUDGET: usize = 1400;

// ---- the peers ----

/// How many of the nodes have an id for which `f` holds.
pub open spec fn count_ids(nodes: Seq<S2Node>, f: spec_fn(u8) -> bool) -> nat
    decreases nodes.len(),
{
    if nodes.len() == 0 {
        0
    } else {
        count_ids(nodes.drop_last(), f) + (if f(nodes.last().id) {
            1nat
        } else {
            0nat
        })
    }
}

/// The ids of the nodes for which `f` holds, in order.
pub open spec fn filter_ids(nodes: Seq<S2Node>, f: spec_fn(u8) -> bool) -> Seq<u8>
    decreases nodes.len(),
{
    if nodes.len() == 0 {
        Seq::empty()
    } else if f(nodes.last().id) {
        filter_ids(nodes.drop_last(), f).push(nodes.last().id)
    } else {
        filter_ids(nodes.drop_last(), f)
    }
}

/// Whether one of the nodes has this id.
pub open spec fn has_id(nodes: Seq<S2Node>, id: u8) -> bool {
    exists|i: int| 0 <= i < nodes.len() && (#[trigger] nodes[i]).id == id
}

/// How long ago a peer was heard of. One that was never heard of counts as
/// heard of just now.
pub open spec fn contact_age(r: RaftView, id: u8, now: u128) -> nat {
    if r.peer_last_contact.dom().contains(id) {
        time_since(r.peer_last_contact[id], now)
    } else {
        0
    }
}

/// Whether a peer was last taken to be available.
pub open spec fn available_flag(r: RaftView, id: u8) -> bool {
    r.peer_available.dom().contains(id) ==> r.peer_available[id]
}

/// Whether a peer has been heard of recently.
pub open spec fn heard_recently(s: Site, r: RaftView, id: u8, now: u128) -> bool {
    contact_age(r, id, now) < nanos_of(s.config.peer_silent_ms)
}

pub open spec fn peer_is_available(s: Site, r: RaftView, id: u8, now: u128) -> bool {
    heard_recently(s, r, id, now) && available_flag(r, id)
}

/// The peers that are available.
pub open spec fn is_available(s: Site, r: RaftView, now: u128) -> spec_fn(u8) -> bool {
    |id: u8| peer_is_available(s, r, id, now)
}

/// The peers that are not.
pub open spec fn is_unavailable(s: Site, r: RaftView, now: u128) -> spec_fn(u8) -> bool {
    |id: u8| !peer_is_available(s, r, id, now)
}

/// The number of nodes, this one among them, that are available.
pub open spec fn alive_node_count(s: Site, r: RaftView, now: u128) -> nat {
    1 + count_ids(s.peers, is_available(s, r, now))
}

/// The peers that are not available.
pub open spec fn unavailable_peers(s: Site, r: RaftView, now: u128) -> Seq<u8> {
    filter_ids(s.peers, is_unavailable(s, r, now))
}

/// Whether the replica has been up for long enough, and alone, to look isolated.
pub open spec fn looks_isolated(s: Site, r: RaftView, now: u128) -> bool {
    &&& time_since(s.started_at, now) >= nanos_of(s.config.peer_silent_ms)
    &&& alive_node_count(s, r, now) == 1
}

/// Whether the replica may win with its own vote: it looks isolated, and the
/// monitoring service has confirmed it unless that is waived.
pub open spec fn peers_unreachable(s: Site, r: RaftView, now: u128) -> bool {
    &&& s.config.allow_single_node_leader
    &&& looks_isolated(s, r, now)
    &&& s.config.require_monitoring_for_single_node_leader ==> s.verdict
        == CachedVerdict::SafeToPromote
}

/// A majority of the whole cluster.
pub open spec fn majority(s: Site) -> nat {
    (s.peers.len() + 1) / 2 + 1
}

/// How many replicas it takes to win an election or to commit.
pub open spec fn quorum(s: Site, r: RaftView, now: u128) -> nat {
    if peers_unreachable(s, r, now) {
        1
    } else {
        majority(s)
    }
}

/// Whether a follower has acknowledged within four heartbeats.
pub open spec fn acked_recently(s: Site, r: RaftView, id: u8, now: u128) -> bool {
    &&& r.peer_last_ack.dom().contains(id)
    &&& time_since(r.peer_last_ack[id], now) < 4 * nanos_of(s.config.heartbeat_interval_ms)
}

/// The followers that have.
pub open spec fn has_acked(s: Site, r: RaftView, now: u128) -> spec_fn(u8) -> bool {
    |id: u8| acked_recently(s, r, id, now)
}

/// Whether a majority, this replica among it, has acknowledged recently.
pub open spec fn has_quorum_lease(s: Site, r: RaftView, now: u128) -> bool {
    1 + count_ids(s.peers, has_acked(s, r, now)) >= majority(s)
}

/// Notes that a peer was heard of.
pub open spec fn met(s: Site, r: RaftView, id: u8, now: u128) -> RaftView {
    if id == s.self_id {
        r
    } else {
        RaftView {
            last_peer_contact: now,
            peer_last_contact: r.peer_last_contact.insert(id, now),
            peer_available: r.peer_available.insert(id, true),
            ..r
        }
    }
}

/// Whether a peer has fallen silent, or come back, since that was last noted.
pub open spec fn availability_changed(s: Site, r: RaftView, id: u8, now: u128) -> bool {
    has_id(s.peers, id) && available_flag(r, id) != heard_recently(s, r, id, now)
}

/// Notes which peers have fallen silent or come back.
pub open spec fn refreshed(s: Site, r: RaftView, now: u128) -> RaftView {
    RaftView {
        peer_available: Map::new(
            |id: u8| r.peer_available.dom().contains(id) || availability_changed(s, r, id, now),
            |id: u8|
                if availability_changed(s, r, id, now) {
                    heard_recently(s, r, id, now)
                } else {
                    r.peer_available[id]
                },
        ),
        ..r
    }
}

/// The leader that the replica knows of.
pub open spec fn known_leader(s: Site, r: RaftView) -> Option<u8> {
    if r.role == Role::Leader {
        Some(s.self_id)
    } else {
        r.leader_id
    }
}

/// The line that says what each node is.
pub open spec fn summary_line(s: Site, r: RaftView, leader: Option<u8>, now: u128) -> Seq<char> {
    role_line(s.config.nodes@, leader, unavailable_peers(s, r, now))
}

/// Notes which peers have fallen silent or come back, and says so.
pub open spec fn refresh_step(s: Site, r: RaftView, now: u128) -> Step {
    let after = refreshed(s, r, now);
    Step {
        raft: after,
        outputs: if exists|id: u8| availability_changed(s, r, id, now) {
            seq![OutputView::Announce { line: summary_line(s, after, known_leader(s, r), now) }]
        } else {
            Seq::empty()
        },
    }
}

// ---- elections ----

/// Whether a log that ends with this term and index is at least as far as ours.
pub open spec fn log_is_current(log: Seq<LogEntry>, last_log_term: u64, last_log_index: u64) -> bool {
    ||| last_log_term > last_term_of(log)
    ||| last_log_term == last_term_of(log) && last_log_index >= last_index_of(log)
}

/// The line that announces a new leader.
pub open spec fn leader_line(s: Site, r: RaftView, now: u128) -> Seq<char> {
    if peers_unreachable(s, r, now) {
        name_of(s.config.nodes@, s.self_id)
            + " is LEADER (single-node: other machines unreachable, "@ + (
        if s.config.require_monitoring_for_single_node_leader {
            "monitoring-corroborated"@
        } else {
            "legacy blind timeout"@
        }) + ")"@
    } else {
        summary_line(s, r, Some(s.self_id), now)
    }
}

/// Takes over the leadership: every peer is assumed to hold the whole log, and
/// nothing is known to be replicated but the own log.
pub open spec fn leading(s: Site, r: RaftView, now: u128) -> RaftView {
    RaftView {
        role: Role::Leader,
        leader_id: Some(s.self_id),
        next_index: Map::new(
            |id: u8| has_id(s.peers, id),
            |id: u8| (last_index_of(r.log) + 1) as u64,
        ),
        match_index: map![s.self_id => last_index_of(r.log)],
        last_heartbeat: now,
        leader_since_term: r.term,
        ..r
    }
}

/// Takes over the leadership, and says so.
pub open spec fn lead_step(s: Site, r: RaftView, now: u128) -> Step {
    let after = leading(s, r, now);
    Step { raft: after, outputs: seq![OutputView::Announce { line: leader_line(s, after, now) }] }
}

/// Stands for election in the next term.
pub open spec fn standing(s: Site, r: RaftView, now: u128, timeout_ms: u64) -> RaftView {
    RaftView {
        term: (r.term + 1) as u64,
        role: Role::Candidate,
        voted_for: Some(s.self_id),
        votes: set![s.self_id],
        leader_id: None,
        last_heartbeat: now,
        election_timeout_ms: timeout_ms,
        ..r
    }
}

/// The vote requests of a candidate, one to each of its peers.
pub open spec fn vote_requests(s: Site, r: RaftView) -> Seq<OutputView> {
    Seq::new(
        s.peers.len(),
        |i: int|
            OutputView::Send {
                to: s.peers[i].id,
                message: MessageView::RequestVote {
                    term: r.term,
                    candidate_id: s.self_id,
                    last_log_index: last_index_of(r.log),
                    last_log_term: last_term_of(r.log),
                },
            },
    )
}

/// Stands for election, and asks for votes.
pub open spec fn stand_step(s: Site, r: RaftView, now: u128, timeout_ms: u64) -> Step {
    let after = standing(s, r, now, timeout_ms);
    Step { raft: after, outputs: vote_requests(s, after) }
}

/// Whether the replica has waited for its leader or for votes for too long.
pub open spec fn election_due(r: RaftView, now: u128) -> bool {
    time_since(r.last_heartbeat, now) >= nanos_of(r.election_timeout_ms)
}

// ---- replication ----

/// The bytes that entries take.
pub open spec fn total_size(entries: Seq<LogEntry>) -> nat
    decreases entries.len(),
{
    if entries.len() == 0 {
        0
    } else {
        total_size(entries.drop_last()) + entry_layout(entries.last()@).len()
    }
}

/// How many of the entries fit the budget; the first one always does.
pub open spec fn budget_count(entries: Seq<LogEntry>, budget: nat, n: nat) -> nat
    decreases entries.len() - n,
{
    if n < entries.len() && (n == 0 || total_size(entries.take(n as int + 1)) <= budget) {
        budget_count(entries, budget, n + 1)
    } else {
        n
    }
}

/// The longest run of entries from the first on that fits the budget, or the
/// first entry alone.
pub open spec fn within_budget(entries: Seq<LogEntry>, budget: nat) -> Seq<LogEntry> {
    entries.take(budget_count(entries, budget, 0) as int)
}

/// The index of the next entry to send to a peer.
pub open spec fn next_for(r: RaftView, id: u8) -> u64 {
    if r.next_index.dom().contains(id) {
        r.next_index[id]
    } else {
        (last_index_of(r.log) + 1) as u64
    }
}

/// The index before the next entry to send to a peer.
pub open spec fn prev_for(r: RaftView, id: u8) -> u64 {
    if next_for(r, id) == 0 {
        0
    } else {
        (next_for(r, id) - 1) as u64
    }
}

/// The append request for one peer: what it lacks of the log, as far as it
/// fits one datagram, or a bare heartbeat.
pub open spec fn append_request(s: Site, r: RaftView, id: u8) -> MessageView {
    MessageView::AppendEntries {
        term: r.term,
        leader_id: s.self_id,
        prev_log_index: prev_for(r, id),
        prev_log_term: match term_of(r.log, prev_for(r, id)) {
            Some(term) => term,
            None => 0,
        },
        entries: if next_for(r, id) <= last_index_of(r.log) {
            views(
                within_budget(
                    from_index_of(r.log, next_for(r, id)),
                    APPEND_BATCH_BYTE_BUDGET as nat,
                ),
            )
        } else {
            Seq::empty()
        },
        leader_commit: r.commit_index,
    }
}

/// The append requests of a leader, one to each of its peers.
pub open spec fn append_requests(s: Site, r: RaftView) -> Seq<OutputView> {
    if r.role == Role::Leader {
        Seq::new(
            s.peers.len(),
            |i: int|
                OutputView::Send {
                    to: s.peers[i].id,
                    message: append_request(s, r, s.peers[i].id),
                },
        )
    } else {
        Seq::empty()
    }
}

/// Whether a peer has acknowledged the leader's log up to this index.
pub open spec fn acknowledged(r: RaftView, id: u8, index: u64) -> bool {
    r.match_index.dom().contains(id) && r.match_index[id] >= index
}

/// The peers that have.
pub open spec fn has_acknowledged(r: RaftView, index: u64) -> spec_fn(u8) -> bool {
    |id: u8| acknowledged(r, id, index)
}

/// How many replicas, this one among them, have the log up to this index, as
/// far as they have acknowledged it.
pub open spec fn replica_count(s: Site, r: RaftView, index: u64) -> nat {
    1 + count_ids(s.peers, has_acknowledged(r, index))
}

/// Whether an entry may be committed: enough replicas have acknowledged it, and
/// it was made in one of the terms of the present leadership.
pub open spec fn committable(s: Site, r: RaftView, needed: nat, index: u64) -> bool {
    &&& replica_count(s, r, index) >= needed
    &&& r.leader_since_term <= entry_term(r.log, index) <= r.term
}

/// The term of the entry with this index, or 0.
pub open spec fn entry_term(log: Seq<LogEntry>, index: u64) -> u64 {
    match term_of(log, index) {
        Some(term) => term,
        None => 0,
    }
}

/// The highest index up to `index` that may be committed, or the commit index
/// if none above it may.
pub open spec fn highest_committable(s: Site, r: RaftView, needed: nat, index: u64) -> u64
    decreases index,
{
    if index <= r.commit_index {
        r.commit_index
    } else if committable(s, r, needed, index) {
        index
    } else {
        highest_committable(s, r, needed, (index - 1) as u64)
    }
}

/// How far the log can be applied: up to the commit index, or to the first
/// entry that is missing.
pub open spec fn applicable(log: Seq<LogEntry>, applied: u64, commit: u64) -> u64
    decreases commit - applied,
{
    if applied < commit && entry_of(log, (applied + 1) as u64) is Some {
        applicable(log, (applied + 1) as u64, commit)
    } else {
        applied
    }
}

/// Applies what has been committed.
pub open spec fn applied(r: RaftView) -> RaftView {
    RaftView { last_applied: applicable(r.log, r.last_applied, r.commit_index), ..r }
}

/// Commits what enough replicas have acknowledged, and applies it.
pub open spec fn committed(s: Site, r: RaftView, now: u128) -> RaftView {
    applied(
        RaftView {
            commit_index: highest_committable(s, r, quorum(s, r, now), last_index_of(r.log)),
            ..r
        },
    )
}

// ---- messages ----

/// Whether a leader that is asked for its vote in a higher term keeps leading:
/// the candidate's log lags behind, or a majority still acknowledges.
pub open spec fn stays_leader(s: Site, r: RaftView, now: u128, message: Message) -> bool {
    &&& r.role == Role::Leader
    &&& message matches Message::RequestVote { last_log_index, last_log_term, .. }
    &&& (!log_is_current(r.log, last_log_term, last_log_index) || has_quorum_lease(s, r, now))
}

/// Adopts the term of a message if it is higher than the own one. A leader that
/// does not keep leading, and any other replica, becomes a follower that has
/// not voted.
pub open spec fn fence_step(
    s: Site,
    r: RaftView,
    now: u128,
    timeout_ms: u64,
    message: Message,
) -> Step {
    let term = message.spec_term();
    if term <= r.term {
        Step { raft: r, outputs: Seq::empty() }
    } else if stays_leader(s, r, now, message) {
        Step {
            raft: RaftView { term, voted_for: Some(s.self_id), ..r },
            outputs: Seq::empty(),
        }
    } else {
        let after = RaftView {
            term,
            role: Role::Follower,
            voted_for: None,
            votes: Set::empty(),
            next_index: Map::empty(),
            match_index: Map::empty(),
            last_heartbeat: now,
            election_timeout_ms: timeout_ms,
            ..r
        };
        Step {
            raft: after,
            outputs: if r.role == Role::Leader {
                seq![OutputView::Announce { line: summary_line(s, after, None, now) }]
            } else {
                Seq::empty()
            },
        }
    }
}

/// Whether the replica votes for a candidate: its term is not behind, no one
/// else has the vote of this term, and its log is current.
pub open spec fn grants_vote(
    r: RaftView,
    term: u64,
    candidate_id: u8,
    last_log_index: u64,
    last_log_term: u64,
) -> bool {
    &&& term >= r.term
    &&& r.voted_for is None || r.voted_for == Some(candidate_id)
    &&& log_is_current(r.log, last_log_term, last_log_index)
}

/// A message to a node, if the cluster has that node.
pub open spec fn send_to_node(s: Site, id: u8, message: MessageView) -> Seq<OutputView> {
    if node_of(s.config.nodes@, id) is Some {
        seq![OutputView::Send { to: id, message }]
    } else {
        Seq::empty()
    }
}

/// Answers a vote request.
pub open spec fn vote_request_step(
    s: Site,
    r: RaftView,
    now: u128,
    timeout_ms: u64,
    term: u64,
    candidate_id: u8,
    last_log_index: u64,
    last_log_term: u64,
) -> Step {
    if grants_vote(r, term, candidate_id, last_log_index, last_log_term) {
        Step {
            raft: RaftView {
                voted_for: Some(candidate_id),
                term,
                last_heartbeat: now,
                election_timeout_ms: timeout_ms,
                ..r
            },
            outputs: send_to_node(
                s,
                candidate_id,
                MessageView::VoteGranted { term, voter_id: s.self_id },
            ),
        }
    } else {
        Step { raft: r, outputs: Seq::empty() }
    }
}

/// Takes over the leadership, sends the log to the peers and commits what a
/// quorum has acknowledged.
pub open spec fn win_step(s: Site, r: RaftView, now: u128) -> Step {
    let lead = lead_step(s, r, now);
    Step {
        raft: committed(s, lead.raft, now),
        outputs: lead.outputs + append_requests(s, lead.raft),
    }
}

/// Counts a vote.
pub open spec fn vote_step(s: Site, r: RaftView, now: u128, term: u64, voter_id: u8) -> Step {
    if r.role == Role::Candidate && term == r.term {
        let counted = RaftView { votes: r.votes.insert(voter_id), last_heartbeat: now, ..r };
        if counted.votes.len() >= quorum(s, counted, now) {
            win_step(s, counted, now)
        } else {
            Step { raft: counted, outputs: Seq::empty() }
        }
    } else {
        Step { raft: r, outputs: Seq::empty() }
    }
}

/// Follows the leader of an append request, unless its term is behind.
pub open spec fn follow_step(s: Site, r: RaftView, now: u128, term: u64, leader_id: u8) -> Step {
    if term < r.term {
        Step { raft: r, outputs: Seq::empty() }
    } else {
        let after = RaftView {
            leader_id: Some(leader_id),
            last_heartbeat: now,
            term,
            role: Role::Follower,
            ..r
        };
        Step {
            raft: after,
            outputs: if r.role == Role::Leader || r.leader_id != Some(leader_id) {
                seq![OutputView::Announce { line: summary_line(s, after, Some(leader_id), now) }]
            } else {
                Seq::empty()
            },
        }
    }
}

/// The index of the last entry of an append request: that of the entry before
/// its entries, and one more for each of them.
pub open spec fn request_end(prev_log_index: u64, count: nat) -> u64 {
    if prev_log_index + count > u64::MAX {
        u64::MAX
    } else {
        (prev_log_index + count) as u64
    }
}

/// How far a log is known to match the leader's once an append request that
/// ends at `end` has been taken over. What lies behind that may stem from an
/// earlier leader.
pub open spec fn matched_index(log: Seq<LogEntry>, end: u64) -> u64 {
    if end < last_index_of(log) {
        end
    } else {
        last_index_of(log)
    }
}

/// Answers an append request whose entries, up to the index `end`, have been
/// taken over, or not. Where they have, the log is committed as far as the
/// leader has committed it and it is known to match the leader's, and the
/// answer says how far it matches. Where they have not, the answer says how far
/// the log reaches.
pub open spec fn answer_append_step(
    s: Site,
    r: RaftView,
    term: u64,
    leader_id: u8,
    leader_commit: u64,
    end: u64,
    success: bool,
) -> Step {
    let matched = matched_index(r.log, end);
    let known = if leader_commit < matched {
        leader_commit
    } else {
        matched
    };
    Step {
        raft: applied(
            if success && known > r.commit_index {
                RaftView { commit_index: known, ..r }
            } else {
                r
            },
        ),
        outputs: send_to_node(
            s,
            leader_id,
            MessageView::AppendAck {
                term,
                follower_id: s.self_id,
                success,
                match_index: if success {
                    matched
                } else {
                    last_index_of(r.log)
                },
            },
        ),
    }
}

/// The next index to try for a follower that has rejected an append request
/// and says how far its log reaches.
pub open spec fn backed_off(r: RaftView, follower_id: u8, follower_last: u64) -> u64 {
    let hinted = if follower_last == u64::MAX {
        u64::MAX
    } else {
        (follower_last + 1) as u64
    };
    let current = if r.next_index.dom().contains(follower_id) {
        r.next_index[follower_id]
    } else {
        hinted
    };
    let lower = if current == 0 {
        0
    } else {
        (current - 1) as u64
    };
    let next = if hinted < lower {
        hinted
    } else {
        lower
    };
    if next < 1 {
        1
    } else {
        next
    }
}

/// Notes how far a follower's log matches, and commits what a quorum has acknowledged; or
/// backs off where the follower has rejected an append request.
pub open spec fn ack_step(
    s: Site,
    r: RaftView,
    now: u128,
    term: u64,
    follower_id: u8,
    success: bool,
    match_index: u64,
) -> Step {
    if r.role != Role::Leader || term != r.term {
        Step { raft: r, outputs: Seq::empty() }
    } else if success {
        Step {
            raft: committed(
                s,
                RaftView {
                    match_index: r.match_index.insert(follower_id, match_index),
                    next_index: r.next_index.insert(follower_id, (match_index + 1) as u64),
                    peer_last_ack: r.peer_last_ack.insert(follower_id, now),
                    ..r
                },
                now,
            ),
            outputs: Seq::empty(),
        }
    } else {
        Step {
            raft: RaftView {
                next_index: r.next_index.insert(
                    follower_id,
                    backed_off(r, follower_id, match_index),
                ),
                ..r
            },
            outputs: Seq::empty(),
        }
    }
}

/// Two steps, one after the other.
pub open spec fn then_step(first: Step, second: Step) -> Step {
    Step { raft: second.raft, outputs: first.outputs + second.outputs }
}

/// What a replica does with a message, up to the point where the entries of an
/// append request have to be taken over.
pub open spec fn message_step(
    s: Site,
    r: RaftView,
    now: u128,
    timeout_ms: u64,
    message: Message,
) -> Step {
    let fenced = fence_step(s, met(s, r, message.spec_sender(), now), now, timeout_ms, message);
    then_step(
        fenced,
        match message {
            Message::RequestVote { term, candidate_id, last_log_index, last_log_term } => {
                vote_request_step(
                    s,
                    fenced.raft,
                    now,
                    timeout_ms,
                    term,
                    candidate_id,
                    last_log_index,
                    last_log_term,
                )
            },
            Message::VoteGranted { term, voter_id } => {
                vote_step(s, fenced.raft, now, term, voter_id)
            },
            Message::AppendEntries { term, leader_id, .. } => {
                follow_step(s, fenced.raft, now, term, leader_id)
            },
            Message::AppendAck { term, follower_id, success, match_index } => {
                ack_step(s, fenced.raft, now, term, follower_id, success, match_index)
            },
        },
    )
}

// ---- the clock ----

/// What a replica does at a tick, once it has noted which peers are silent: a
/// leader replicates; the others stand for election when they have waited for
/// too long, unless they have won by then.
pub open spec fn role_step(s: Site, r: RaftView, now: u128, timeout_ms: u64) -> Step {
    match r.role {
        Role::Leader => Step { raft: r, outputs: append_requests(s, r) },
        Role::Candidate => if !election_due(r, now) {
            Step { raft: r, outputs: Seq::empty() }
        } else if r.votes.len() >= quorum(s, r, now) || peers_unreachable(s, r, now) {
            win_step(s, r, now)
        } else {
            stand_step(s, r, now, timeout_ms)
        },
        Role::Follower => if !election_due(r, now) {
            Step { raft: r, outputs: Seq::empty() }
        } else {
            stand_step(s, r, now, timeout_ms)
        },
    }
}

/// What a replica does at a tick of its clock.
pub open spec fn tick_step(s: Site, r: RaftView, now: u128, timeout_ms: u64) -> Step {
    let refresh = refresh_step(s, r, now);
    then_step(refresh, role_step(s, refresh.raft, now, timeout_ms))
}

/// Whether the counters that a tick may advance have room: the term of a
/// replica that may stand for election, the log of one that may lead.
pub open spec fn can_tick(r: RaftView) -> bool {
    &&& r.role != Role::Leader ==> r.term < u64::MAX
    &&& r.role != Role::Follower ==> last_index_of(r.log) < u64::MAX
}

/// Whether the counters that a message may advance have room: the log of a
/// replica that may win, the next index of a follower.
pub open spec fn can_handle(r: RaftView, message: Message) -> bool {
    match message {
        Message::VoteGranted { .. } => last_index_of(r.log) < u64::MAX,
        Message::AppendAck { success, match_index, .. } => success ==> match_index < u64::MAX,
        _ => true,
    }
}

// ---- proposals ----

/// Adds a leader's own entries to its log, sends them to the peers and commits
/// what a quorum has acknowledged.
pub open spec fn propose_step(s: Site, r: RaftView, now: u128, entries: Seq<LogEntry>) -> Step {
    let grown = RaftView {
        log: r.log + entries,
        match_index: r.match_index.insert(s.self_id, entries.last().index),
        ..r
    };
    Step { raft: committed(s, grown, now), outputs: append_requests(s, grown) }
}

/// The commands of the log's entries with these indexes, in order.
pub open spec fn commands_at(log: Seq<LogEntry>, indexes: Seq<u64>) -> Seq<ReplicatedCommand>
    decreases indexes.len(),
{
    if indexes.len() == 0 {
        Seq::empty()
    } else {
        let before = commands_at(log, indexes.drop_last());
        match entry_of(log, indexes.last()) {
            Some(e) => before.push(e.command),
            None => before,
        }
    }
}

/// How long a proposal waits to be committed.
pub const PROPOSAL_WAIT_MS: u64 = 1500;

// ---- the beginning ----

/// The nodes other than this one, in order.
pub open spec fn other_nodes(nodes: Seq<S2Node>, id: u8) -> Seq<S2Node>
    decreases nodes.len(),
{
    if nodes.len() == 0 {
        Seq::empty()
    } else if nodes.last().id != id {
        other_nodes(nodes.drop_last(), id).push(nodes.last())
    } else {
        other_nodes(nodes.drop_last(), id)
    }
}

/// A replica that has just started: a follower in term 0 that has heard of no
/// peer yet, and that counts their silence from now on.
pub open spec fn initial_raft(
    peers: Seq<S2Node>,
    log: Seq<LogEntry>,
    now: u128,
    timeout_ms: u64,
) -> RaftView {
    RaftView {
        term: 0,
        role: Role::Follower,
        voted_for: None,
        leader_id: None,
        votes: Set::empty(),
        next_index: Map::empty(),
        match_index: Map::empty(),
        commit_index: 0,
        last_applied: 0,
        last_heartbeat: now,
        election_timeout_ms: timeout_ms,
        last_peer_contact: now,
        peer_last_contact: Map::new(|id: u8| has_id(peers, id), |id: u8| now),
        peer_available: Map::new(|id: u8| has_id(peers, id), |id: u8| false),
        peer_last_ack: Map::empty(),
        leader_since_term: 0,
        log,
    }
}

// ---- the monitoring service ----

/// Whether the replica asks the monitoring service at all.
pub open spec fn consults_monitoring(c: ClusterConfig) -> bool {
    c.allow_single_node_leader && c.require_monitoring_for_single_node_leader
}

/// What is said to the operator when an attempt ends otherwise than the one
/// before it.
pub open spec fn outcome_line(s: Site, outcome: CorroborationOutcome, timeout_ms: u64) -> Seq<char> {
    let name = name_of(s.config.nodes@, s.self_id);
    match outcome {
        CorroborationOutcome::SafeToPromote => {
            "corroboration confirmed both peers unreachable — "@ + name
                + " eligible to self-promote"@
        },
        CorroborationOutcome::DeniedByWitness => {
            "corroboration denied: monitoring reports a peer still reachable — "@ + name
                + " staying passive"@
        },
        CorroborationOutcome::WitnessUnreachable => {
            "monitoring unreachable after "@ + decimal(timeout_ms as nat) + "ms — "@ + name
                + " staying passive"@
        },
        CorroborationOutcome::NotConfigured => {
            "no monitoring configured — "@ + name
                + " staying passive (REQUIRE_monitoring_FOR_SINGLE_NODE_LEADER=true)"@
        },
    }
}

} // verus!
