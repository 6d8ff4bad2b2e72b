//! One replica of the cluster: elections, replication and commitment.
//!
//! The replica is a state machine. Messages and ticks of the clock go in;
//! messages to other replicas and lines for the operator come out; records go
//! to the log file before the log in memory changes. Sockets, files, threads
//! and the clock itself are outside.

use crate::chance;
use crate::clock::{elapsed, millis, nanos_of, time_since};
use crate::process::config::{
    find_node, format_role_summary, name_of, node_name, node_of, ClusterConfig, S2Node,
};
use crate::process::frames::{frame, frames};
use crate::process::log_entry::{views, LogEntry, ReplicatedCommand};
use crate::process::message::Message;
use crate::process::raft_model::{
    ack_step, acked_recently, acknowledged, alive_node_count, answer_append_step, append_request,
    append_requests, applicable, applied, availability_changed, available_flag, backed_off,
    budget_count, can_handle, can_tick, commands_at, committable, committed, consults_monitoring,
    count_ids, fence_step, filter_ids, follow_step, has_acked, has_acknowledged, has_id,
    has_quorum_lease, heard_recently, highest_committable, initial_raft, is_available,
    is_unavailable, known_leader, lead_step, leader_line, leading, log_is_current, looks_isolated,
    majority, message_step, met, other_nodes, outcome_line, peer_is_available, peers_unreachable,
    propose_step, quorum, refresh_step, refreshed, replica_count, request_end, role_step,
    send_to_node, stand_step, standing, stays_leader, summary_line, tick_step, total_size,
    unavailable_peers, vote_request_step, vote_requests, vote_step, win_step, within_budget,
    APPEND_BATCH_BYTE_BUDGET, OutputView, PROPOSAL_WAIT_MS, RaftView, Role, Site, Step,
};
use crate::process::wal::{
    accepts_append, append_stepped, batch_entries, last_index_of, AppendStep, FollowerAppend,
    LeaderBatch, Wal,
};
use crate::process::witness_client::{
    verdict_of, Attempt, CachedVerdict, CorroborationOutcome, WitnessClient,
};
use crate::text::{push_decimal, texts};
use crate::wire::entry_size;
use std::collections::{HashMap, HashSet};
use vstd::prelude::*;

verus! {

broadcast use vstd::std_specs::hash::group_hash_axioms;

/// What a replica hands to the outside.
#[derive(Debug)]
pub enum Output {
    /// A message to the node with this id.
    Send { to: u8, message: Message },
    /// A line for the operator.
    Announce { line: String },
}

impl View for Output {
    type V = OutputView;

    open spec fn view(&self) -> OutputView {
        match *self {
            Output::Send { to, message } => OutputView::Send { to, message: message@ },
            Output::Announce { line } => OutputView::Announce { line: line@ },
        }
    }
}

/// The contents of what was handed out.
pub open spec fn output_views(outputs: Seq<Output>) -> Seq<OutputView> {
    Seq::new(outputs.len(), |i: int| outputs[i]@)
}

proof fn lemma_push_output(before: Seq<Output>, output: Output)
    ensures
        output_views(before.push(output)) == output_views(before) + seq![output@],
{
    assert(output_views(before.push(output)) =~= output_views(before) + seq![output@]);
}

/// Takes as many entries, from the first on, as fit the budget in binary form,
/// but at least one, so that replication always makes progress.
pub fn entries_within_budget(entries: Vec<LogEntry>, budget_bytes: usize) -> (taken: Vec<LogEntry>)
    ensures
        taken@ == within_budget(entries@, budget_bytes as nat),
{
    let mut taken: Vec<LogEntry> = Vec::new();
    let mut total: u64 = 0;
    let budget: u64 = budget_bytes as u64;
    let mut i: usize = 0;
    while i < entries.len()
        invariant_except_break
            i <= entries@.len(),
            budget == budget_bytes,
            taken@ == entries@.take(i as int),
            total == total_size(entries@.take(i as int)),
            i <= 1 || total <= budget,
            budget_count(entries@, budget as nat, 0) == budget_count(
                entries@,
                budget as nat,
                i as nat,
            ),
        ensures
            taken@ == within_budget(entries@, budget as nat),
        decreases entries@.len() - i,
    {
        let size: u64 = entry_size(&entries[i]);
        proof {
            let more = entries@.take(i + 1);
            assert(more.drop_last() =~= entries@.take(i as int));
            assert(more.last() == entries@[i as int]);
        }
        if i > 0 && (total > budget || size > budget - total) {
            break;
        }
        total = if i == 0 {
            size
        } else {
            total + size
        };
        taken.push(entries[i].clone());
        i = i + 1;
        proof {
            assert(taken@ =~= entries@.take(i as int));
        }
    }
    taken
}

/// The volatile state of a replica.
struct RaftState {
    term: u64,
    role: Role,
    voted_for: Option<u8>,
    leader_id: Option<u8>,
    votes: HashSet<u8>,
    next_index: HashMap<u8, u64>,
    match_index: HashMap<u8, u64>,
    commit_index: u64,
    last_applied: u64,
    last_heartbeat: u128,
    election_timeout_ms: u64,
    last_peer_contact: u128,
    peer_last_contact: HashMap<u8, u128>,
    peer_available: HashMap<u8, bool>,
    peer_last_ack: HashMap<u8, u128>,
    leader_since_term: u64,
}

/// One replica.
pub struct LeaderElection {
    self_id: u8,
    peers: Vec<S2Node>,
    config: ClusterConfig,
    state: RaftState,
    wal: Wal,
    started_at: u128,
    witness: WitnessClient,
}

impl LeaderElection {
    /// The surroundings of the replica.
    pub closed spec fn site(self) -> Site {
        Site {
            self_id: self.self_id,
            peers: self.peers@,
            config: self.config,
            started_at: self.started_at,
            verdict: self.witness.verdict,
        }
    }

    /// The state of the replica.
    pub closed spec fn raft(self) -> RaftView {
        RaftView {
            term: self.state.term,
            role: self.state.role,
            voted_for: self.state.voted_for,
            leader_id: self.state.leader_id,
            votes: self.state.votes@,
            next_index: self.state.next_index@,
            match_index: self.state.match_index@,
            commit_index: self.state.commit_index,
            last_applied: self.state.last_applied,
            last_heartbeat: self.state.last_heartbeat,
            election_timeout_ms: self.state.election_timeout_ms,
            last_peer_contact: self.state.last_peer_contact,
            peer_last_contact: self.state.peer_last_contact@,
            peer_available: self.state.peer_available@,
            peer_last_ack: self.state.peer_last_ack@,
            leader_since_term: self.state.leader_since_term,
            log: self.wal@,
        }
    }

    /// What the replica knows of the monitoring service.
    pub closed spec fn witness(self) -> WitnessClient {
        self.witness
    }

    pub closed spec fn wf(self) -> bool {
        &&& self.wal.wf()
        &&& self.peers@.len() < usize::MAX
        &&& self.state.last_applied <= self.state.commit_index
        &&& self.config.election_timeout_min_ms <= self.config.election_timeout_max_ms
    }

    /// Whatever a replica has done, it has applied no entry that it does not
    /// know to be committed.
    pub proof fn law_only_committed_is_applied(self)
        requires
            self.wf(),
        ensures
            self.raft().last_applied <= self.raft().commit_index,
    {
    }

    /// Whether the peer has been heard of within the time after which it counts
    /// as silent.
    fn heard_recently(&self, peer_id: u8, now: u128) -> (heard: bool)
        ensures
            heard == heard_recently(self.site(), self.raft(), peer_id, now),
    {
        let age: u128 = match self.state.peer_last_contact.get(&peer_id) {
            Some(at) => elapsed(*at, now),
            None => 0,
        };
        age < millis(self.config.peer_silent_ms)
    }

    fn available_flag(&self, peer_id: u8) -> (flag: bool)
        ensures
            flag == available_flag(self.raft(), peer_id),
    {
        match self.state.peer_available.get(&peer_id) {
            Some(flag) => *flag,
            None => true,
        }
    }

    pub fn peer_is_available(&self, peer_id: u8, now: u128) -> (available: bool)
        ensures
            available == peer_is_available(self.site(), self.raft(), peer_id, now),
    {
        self.heard_recently(peer_id, now) && self.available_flag(peer_id)
    }

    /// The number of nodes, this one among them, that are available.
    pub fn alive_node_count(&self, now: u128) -> (n: usize)
        requires
            self.wf(),
        ensures
            n == alive_node_count(self.site(), self.raft(), now),
    {
        let ghost f = is_available(self.site(), self.raft(), now);
        let mut n: usize = 1;
        let mut i: usize = 0;
        while i < self.peers.len()
            invariant
                i <= self.peers@.len(),
                n <= i + 1,
                self.wf(),
                f == is_available(self.site(), self.raft(), now),
                n == 1 + count_ids(self.peers@.take(i as int), f),
            decreases self.peers@.len() - i,
        {
            if self.peer_is_available(self.peers[i].id, now) {
                n = n + 1;
            }
            i = i + 1;
            proof {
                let done = self.peers@.take(i as int);
                assert(done.drop_last() =~= self.peers@.take(i - 1));
                assert(done.last() == self.peers@[i - 1]);
            }
        }
        proof {
            assert(self.peers@.take(i as int) =~= self.peers@);
        }
        n
    }

    /// The number of nodes, this one among them, that have acknowledged within
    /// four heartbeats.
    fn recent_acks(&self, now: u128) -> (n: usize)
        requires
            self.wf(),
        ensures
            n == 1 + count_ids(self.site().peers, has_acked(self.site(), self.raft(), now)),
    {
        let ghost f = has_acked(self.site(), self.raft(), now);
        let mut n: usize = 1;
        let mut i: usize = 0;
        while i < self.peers.len()
            invariant
                i <= self.peers@.len(),
                n <= i + 1,
                self.wf(),
                f == has_acked(self.site(), self.raft(), now),
                n == 1 + count_ids(self.peers@.take(i as int), f),
            decreases self.peers@.len() - i,
        {
            if self.acked_recently(self.peers[i].id, now) {
                n = n + 1;
            }
            i = i + 1;
            proof {
                let done = self.peers@.take(i as int);
                assert(done.drop_last() =~= self.peers@.take(i - 1));
                assert(done.last() == self.peers@[i - 1]);
            }
        }
        proof {
            assert(self.peers@.take(i as int) =~= self.peers@);
        }
        n
    }

    /// The number of replicas, this one among them, that have acknowledged the log
    /// up to `index`.
    fn replica_count(&self, index: u64) -> (n: usize)
        requires
            self.wf(),
        ensures
            n == replica_count(self.site(), self.raft(), index),
    {
        let ghost f = has_acknowledged(self.raft(), index);
        let mut n: usize = 1;
        let mut i: usize = 0;
        while i < self.peers.len()
            invariant
                i <= self.peers@.len(),
                n <= i + 1,
                self.wf(),
                f == has_acknowledged(self.raft(), index),
                n == 1 + count_ids(self.peers@.take(i as int), f),
            decreases self.peers@.len() - i,
        {
            if self.acknowledged(self.peers[i].id, index) {
                n = n + 1;
            }
            i = i + 1;
            proof {
                let done = self.peers@.take(i as int);
                assert(done.drop_last() =~= self.peers@.take(i - 1));
                assert(done.last() == self.peers@[i - 1]);
            }
        }
        proof {
            assert(self.peers@.take(i as int) =~= self.peers@);
        }
        n
    }

    fn acked_recently(&self, peer_id: u8, now: u128) -> (acked: bool)
        ensures
            acked == acked_recently(self.site(), self.raft(), peer_id, now),
    {
        match self.state.peer_last_ack.get(&peer_id) {
            Some(at) => elapsed(*at, now) < 4 * millis(self.config.heartbeat_interval_ms),
            None => false,
        }
    }

    fn acknowledged(&self, peer_id: u8, index: u64) -> (held: bool)
        ensures
            held == acknowledged(self.raft(), peer_id, index),
    {
        match self.state.match_index.get(&peer_id) {
            Some(matched) => *matched >= index,
            None => false,
        }
    }

    /// The peers that have fallen silent.
    fn unavailable_peer_ids(&self, now: u128) -> (ids: Vec<u8>)
        ensures
            ids@ == unavailable_peers(self.site(), self.raft(), now),
    {
        let ghost f = is_unavailable(self.site(), self.raft(), now);
        let mut ids: Vec<u8> = Vec::new();
        let mut i: usize = 0;
        while i < self.peers.len()
            invariant
                i <= self.peers@.len(),
                f == is_unavailable(self.site(), self.raft(), now),
                ids@ == filter_ids(self.peers@.take(i as int), f),
            decreases self.peers@.len() - i,
        {
            if !self.peer_is_available(self.peers[i].id, now) {
                ids.push(self.peers[i].id);
            }
            i = i + 1;
            proof {
                let done = self.peers@.take(i as int);
                assert(done.drop_last() =~= self.peers@.take(i - 1));
                assert(done.last() == self.peers@[i - 1]);
            }
        }
        proof {
            assert(self.peers@.take(i as int) =~= self.peers@);
        }
        ids
    }

    /// Whether the replica looks isolated from its peers.
    pub fn looks_isolated(&self, now: u128) -> (isolated: bool)
        requires
            self.wf(),
        ensures
            isolated == looks_isolated(self.site(), self.raft(), now),
    {
        elapsed(self.started_at, now) >= millis(self.config.peer_silent_ms)
            && self.alive_node_count(now) == 1
    }

    /// Whether the replica may win with its own vote.
    pub fn peers_unreachable(&self, now: u128) -> (unreachable: bool)
        requires
            self.wf(),
        ensures
            unreachable == peers_unreachable(self.site(), self.raft(), now),
    {
        if !self.config.allow_single_node_leader {
            return false;
        }
        if !self.looks_isolated(now) {
            return false;
        }
        if !self.config.require_monitoring_for_single_node_leader {
            return true;
        }
        self.witness.cached_verdict() == CachedVerdict::SafeToPromote
    }

    /// A majority of the whole cluster.
    fn majority(&self) -> (n: usize)
        requires
            self.wf(),
        ensures
            n == majority(self.site()),
    {
        (self.peers.len() + 1) / 2 + 1
    }

    /// How many replicas it takes to win an election or to commit.
    pub fn quorum_for(&self, now: u128) -> (n: usize)
        requires
            self.wf(),
        ensures
            n == quorum(self.site(), self.raft(), now),
    {
        if self.peers_unreachable(now) {
            1
        } else {
            self.majority()
        }
    }

    /// Whether a majority has acknowledged recently.
    pub fn has_quorum_lease(&self, now: u128) -> (lease: bool)
        requires
            self.wf(),
        ensures
            lease == has_quorum_lease(self.site(), self.raft(), now),
    {
        self.recent_acks(now) >= self.majority()
    }

    pub fn is_leader(&self) -> (leads: bool)
        ensures
            leads == (self.raft().role == Role::Leader),
    {
        self.state.role == Role::Leader
    }

    pub fn current_leader_id(&self) -> (id: Option<u8>)
        ensures
            id == self.raft().leader_id,
    {
        self.state.leader_id
    }

    pub fn current_term(&self) -> (term: u64)
        ensures
            term == self.raft().term,
    {
        self.state.term
    }

    pub fn role(&self) -> (role: Role)
        ensures
            role == self.raft().role,
    {
        self.state.role
    }

    /// How far the log has been applied.
    pub fn last_applied(&self) -> (index: u64)
        ensures
            index == self.raft().last_applied,
    {
        self.state.last_applied
    }

    /// How far the log has been committed.
    pub fn commit_index(&self) -> (index: u64)
        ensures
            index == self.raft().commit_index,
    {
        self.state.commit_index
    }

    fn known_leader(&self) -> (id: Option<u8>)
        ensures
            id == known_leader(self.site(), self.raft()),
    {
        if self.state.role == Role::Leader {
            Some(self.self_id)
        } else {
            self.state.leader_id
        }
    }

    fn summary_line(&self, leader_id: Option<u8>, now: u128) -> (line: String)
        ensures
            line@ == summary_line(self.site(), self.raft(), leader_id, now),
    {
        let ids = self.unavailable_peer_ids(now);
        format_role_summary(&self.config, leader_id, ids.as_slice())
    }

    /// What each node is at the moment, the silent ones marked.
    pub fn role_summary(&self, now: u128) -> (line: String)
        ensures
            line@ == summary_line(
                self.site(),
                self.raft(),
                known_leader(self.site(), self.raft()),
                now,
            ),
    {
        self.summary_line(self.known_leader(), now)
    }

    /// Notes that a peer was heard of.
    fn mark_peer_contact(&mut self, peer_id: u8, now: u128)
        requires
            old(self).wf(),
        ensures
            final(self).wf(),
            final(self).same_site(*old(self)),
            final(self).raft() == met(old(self).site(), old(self).raft(), peer_id, now),
    {
        if peer_id == self.self_id {
            return;
        }
        self.state.last_peer_contact = now;
        self.state.peer_last_contact.insert(peer_id, now);
        self.state.peer_available.insert(peer_id, true);
        proof {
            assert(self.raft() =~= met(old(self).site(), old(self).raft(), peer_id, now));
        }
    }

    /// Whether nothing but the state of the replica differs.
    spec fn same_site(self, other: Self) -> bool {
        &&& self.self_id == other.self_id
        &&& self.peers == other.peers
        &&& self.config == other.config
        &&& self.started_at == other.started_at
        &&& self.witness == other.witness
    }

    /// Notes which peers have fallen silent or come back, and says so if one
    /// has.
    fn refresh_peer_availability(&mut self, now: u128, out: &mut Vec<Output>)
        requires
            old(self).wf(),
        ensures
            final(self).wf(),
            final(self).same_site(*old(self)),
            ({
                let step = refresh_step(old(self).site(), old(self).raft(), now);
                &&& final(self).raft() == step.raft
                &&& output_views(final(out)@) == output_views(old(out)@) + step.outputs
            }),
    {
        let ghost s = self.site();
        let ghost r = self.raft();
        let mut changed = false;
        let mut i: usize = 0;
        while i < self.peers.len()
            invariant
                self.wf(),
                self.same_site(*old(self)),
                i <= self.peers@.len(),
                s == old(self).site(),
                s == self.site(),
                r == old(self).raft(),
                self.raft() == (RaftView { peer_available: self.state.peer_available@, ..r }),
                changed == (exists|id: u8|
                    has_id(self.peers@.take(i as int), id) && #[trigger] availability_changed(
                        s,
                        r,
                        id,
                        now,
                    )),
                forall|id: u8| #[trigger]
                    self.state.peer_available@.dom().contains(id) == (
                    r.peer_available.dom().contains(id) || (has_id(self.peers@.take(i as int), id)
                        && availability_changed(s, r, id, now))),
                forall|id: u8|
                    self.state.peer_available@.dom().contains(id)
                        ==> #[trigger] self.state.peer_available@[id] == (if has_id(
                        self.peers@.take(i as int),
                        id,
                    ) && availability_changed(s, r, id, now) {
                        heard_recently(s, r, id, now)
                    } else {
                        r.peer_available[id]
                    }),
            decreases self.peers@.len() - i,
        {
            let ghost before = self.state.peer_available@;
            let ghost done = self.peers@.take(i as int);
            let ghost more = self.peers@.take(i + 1);
            let peer_id: u8 = self.peers[i].id;
            proof {
                assert(self.peers@[i as int].id == peer_id);
                assert(has_id(s.peers, peer_id));
                assert(more[i as int].id == peer_id);
                assert forall|id: u8| has_id(more, id) == (has_id(done, id) || id == peer_id) by {
                    if has_id(more, id) {
                        let k = choose|k: int| 0 <= k < more.len() && (#[trigger] more[k]).id == id;
                        if k < i {
                            assert(done[k].id == id);
                        }
                    }
                    if has_id(done, id) {
                        let k = choose|k: int| 0 <= k < done.len() && (#[trigger] done[k]).id == id;
                        assert(more[k].id == id);
                    }
                }
            }
            let heard = self.heard_recently(peer_id, now);
            let was = self.available_flag(peer_id);
            proof {
                assert(heard == heard_recently(s, r, peer_id, now));
            }
            if was != heard {
                self.state.peer_available.insert(peer_id, heard);
                changed = true;
                proof {
                    assert(availability_changed(s, r, peer_id, now));
                }
            } else {
                proof {
                    if availability_changed(s, r, peer_id, now) {
                        assert(has_id(done, peer_id));
                    }
                }
            }
            i = i + 1;
        }
        proof {
            assert(self.peers@.take(i as int) =~= self.peers@);
            assert(self.raft() =~= refreshed(s, r, now));
        }
        if changed {
            let line = self.summary_line(self.known_leader(), now);
            let ghost before = out@;
            out.push(Output::Announce { line });
            proof {
                lemma_push_output(before, out@.last());
                assert(exists|id: u8| availability_changed(s, r, id, now));
            }
        } else {
            proof {
                assert forall|id: u8| !availability_changed(s, r, id, now) by {}
                assert(output_views(out@) + Seq::<OutputView>::empty() =~= output_views(out@));
            }
        }
    }

    /// Takes over the leadership of the current term.
    fn become_leader(&mut self, now: u128, out: &mut Vec<Output>)
        requires
            old(self).wf(),
            last_index_of(old(self).raft().log) < u64::MAX,
        ensures
            final(self).wf(),
            final(self).same_site(*old(self)),
            ({
                let step = lead_step(old(self).site(), old(self).raft(), now);
                &&& final(self).raft() == step.raft
                &&& output_views(final(out)@) == output_views(old(out)@) + step.outputs
            }),
    {
        let ghost s = self.site();
        let ghost r = self.raft();
        self.state.role = Role::Leader;
        self.state.leader_id = Some(self.self_id);
        let last: u64 = self.wal.last_index();
        let next: u64 = last + 1;
        let mut next_index: HashMap<u8, u64> = HashMap::new();
        let mut i: usize = 0;
        while i < self.peers.len()
            invariant
                i <= self.peers@.len(),
                forall|id: u8| #[trigger]
                    next_index@.dom().contains(id) == has_id(self.peers@.take(i as int), id),
                forall|id: u8|
                    next_index@.dom().contains(id) ==> #[trigger] next_index@[id] == next,
            decreases self.peers@.len() - i,
        {
            let peer_id: u8 = self.peers[i].id;
            next_index.insert(peer_id, next);
            proof {
                let done = self.peers@.take(i as int);
                let more = self.peers@.take(i + 1);
                assert(more[i as int].id == peer_id);
                assert forall|id: u8| has_id(more, id) == (has_id(done, id) || id == peer_id) by {
                    if has_id(more, id) {
                        let k = choose|k: int| 0 <= k < more.len() && (#[trigger] more[k]).id == id;
                        if k < i {
                            assert(done[k].id == id);
                        }
                    }
                    if has_id(done, id) {
                        let k = choose|k: int| 0 <= k < done.len() && (#[trigger] done[k]).id == id;
                        assert(more[k].id == id);
                    }
                }
            }
            i = i + 1;
        }
        proof {
            assert(self.peers@.take(i as int) =~= self.peers@);
        }
        self.state.next_index = next_index;
        self.state.match_index.clear();
        self.state.match_index.insert(self.self_id, last);
        self.state.last_heartbeat = now;
        self.state.leader_since_term = self.state.term;
        proof {
            assert(self.raft() =~= leading(s, r, now));
        }
        let line = self.leader_line(now);
        let ghost before = out@;
        out.push(Output::Announce { line });
        proof {
            lemma_push_output(before, out@.last());
        }
    }

    fn leader_line(&self, now: u128) -> (line: String)
        requires
            self.wf(),
        ensures
            line@ == leader_line(self.site(), self.raft(), now),
    {
        if self.peers_unreachable(now) {
            let mut line = node_name(&self.config, self.self_id);
            line.append(" is LEADER (single-node: other machines unreachable, ");
            if self.config.require_monitoring_for_single_node_leader {
                line.append("monitoring-corroborated");
            } else {
                line.append("legacy blind timeout");
            }
            line.append(")");
            line
        } else {
            self.summary_line(Some(self.self_id), now)
        }
    }

    /// Sends every peer what it lacks of the log, if this replica leads.
    fn replicate_to_peers(&self, out: &mut Vec<Output>)
        requires
            self.wf(),
            last_index_of(self.raft().log) < u64::MAX,
        ensures
            output_views(final(out)@) == output_views(old(out)@) + append_requests(
                self.site(),
                self.raft(),
            ),
    {
        let ghost all = append_requests(self.site(), self.raft());
        let ghost start = output_views(out@);
        if self.state.role != Role::Leader {
            proof {
                assert(start + all =~= start);
            }
            return;
        }
        let mut i: usize = 0;
        proof {
            assert(start + all.take(0) =~= start);
        }
        while i < self.peers.len()
            invariant
                self.wf(),
                last_index_of(self.raft().log) < u64::MAX,
                self.raft().role == Role::Leader,
                i <= self.peers@.len(),
                all == append_requests(self.site(), self.raft()),
                output_views(out@) == start + all.take(i as int),
            decreases self.peers@.len() - i,
        {
            let ghost before = out@;
            let to: u8 = self.peers[i].id;
            let message = self.append_request(to);
            out.push(Output::Send { to, message });
            i = i + 1;
            proof {
                lemma_push_output(before, out@.last());
                assert(all.take(i as int) =~= all.take(i - 1).push(all[i - 1]));
                assert(start + all.take(i as int) =~= start + all.take(i - 1) + seq![all[i - 1]]);
            }
        }
        proof {
            assert(all.take(i as int) =~= all);
        }
    }

    /// The append request for one peer.
    fn append_request(&self, peer_id: u8) -> (message: Message)
        requires
            self.wf(),
            last_index_of(self.raft().log) < u64::MAX,
        ensures
            message@ == append_request(self.site(), self.raft(), peer_id),
    {
        let last: u64 = self.wal.last_index();
        let next: u64 = match self.state.next_index.get(&peer_id) {
            Some(index) => *index,
            None => last + 1,
        };
        let prev_log_index: u64 = if next == 0 {
            0
        } else {
            next - 1
        };
        let prev_log_term: u64 = match self.wal.get_term_at(prev_log_index) {
            Some(term) => term,
            None => 0,
        };
        let entries: Vec<LogEntry> = if next <= last {
            entries_within_budget(self.wal.entries_from(next), APPEND_BATCH_BYTE_BUDGET)
        } else {
            Vec::new()
        };
        proof {
            if next > last {
                assert(views(entries@) =~= Seq::empty());
            }
        }
        Message::AppendEntries {
            term: self.state.term,
            leader_id: self.self_id,
            prev_log_index,
            prev_log_term,
            entries,
            leader_commit: self.state.commit_index,
        }
    }

    /// Applies what has been committed.
    fn apply_committed_entries(&mut self)
        requires
            old(self).wf(),
        ensures
            final(self).wf(),
            final(self).same_site(*old(self)),
            final(self).raft() == applied(old(self).raft()),
    {
        let commit: u64 = self.state.commit_index;
        let mut at: u64 = self.state.last_applied;
        while at < commit && self.wal.has_entry(at + 1)
            invariant
                self.wf(),
                *self == *old(self),
                commit == self.state.commit_index,
                at <= commit,
                applicable(self.wal@, self.state.last_applied, commit) == applicable(
                    self.wal@,
                    at,
                    commit,
                ),
            decreases commit - at,
        {
            at = at + 1;
        }
        self.state.last_applied = at;
        proof {
            assert(self.raft() =~= applied(old(self).raft()));
        }
    }

    /// Commits what enough replicas have acknowledged, and applies it.
    fn try_advance_commit(&mut self, now: u128)
        requires
            old(self).wf(),
        ensures
            final(self).wf(),
            final(self).same_site(*old(self)),
            final(self).raft() == committed(old(self).site(), old(self).raft(), now),
    {
        let ghost s = self.site();
        let ghost r = self.raft();
        let needed: usize = self.quorum_for(now);
        let commit: u64 = self.state.commit_index;
        let last: u64 = self.wal.last_index();
        let mut highest: u64 = commit;
        let mut at: u64 = commit;
        while at < last
            invariant_except_break
                self.wf(),
                *self == *old(self),
                s == self.site(),
                r == self.raft(),
                commit == r.commit_index,
                last == last_index_of(r.log),
                needed == quorum(s, r, now),
                commit <= at,
                at <= last || at == commit,
                highest == highest_committable(s, r, needed as nat, at),
            ensures
                highest == highest_committable(s, r, needed as nat, last),
            decreases last - at,
        {
            let next: u64 = at + 1;
            if self.replica_count(next) < needed {
                proof {
                    lemma_none_above(s, r, needed as nat, next, last);
                }
                break;
            }
            let term: u64 = match self.wal.get_term_at(next) {
                Some(term) => term,
                None => 0,
            };
            if term >= self.state.leader_since_term && term <= self.state.term {
                highest = next;
            }
            at = next;
        }
        if highest > commit {
            self.state.commit_index = highest;
        }
        proof {
            lemma_highest_bound(s, r, needed as nat, last);
            assert(self.raft() =~= (RaftView { commit_index: highest, ..r }));
        }
        self.apply_committed_entries();
    }

    /// Asks every peer for its vote.
    fn request_votes(&self, out: &mut Vec<Output>)
        ensures
            output_views(final(out)@) == output_views(old(out)@) + vote_requests(
                self.site(),
                self.raft(),
            ),
    {
        let ghost all = vote_requests(self.site(), self.raft());
        let ghost start = output_views(out@);
        let mut i: usize = 0;
        proof {
            assert(start + all.take(0) =~= start);
        }
        while i < self.peers.len()
            invariant
                i <= self.peers@.len(),
                all == vote_requests(self.site(), self.raft()),
                output_views(out@) == start + all.take(i as int),
            decreases self.peers@.len() - i,
        {
            let ghost before = out@;
            let message = Message::RequestVote {
                term: self.state.term,
                candidate_id: self.self_id,
                last_log_index: self.wal.last_index(),
                last_log_term: self.wal.last_term(),
            };
            out.push(Output::Send { to: self.peers[i].id, message });
            i = i + 1;
            proof {
                lemma_push_output(before, out@.last());
                assert(all.take(i as int) =~= all.take(i - 1).push(all[i - 1]));
                assert(start + all.take(i as int) =~= start + all.take(i - 1) + seq![all[i - 1]]);
            }
        }
        proof {
            assert(all.take(i as int) =~= all);
        }
    }

    /// Stands for election in the next term.
    fn stand_for_election(&mut self, now: u128, timeout_ms: u64, out: &mut Vec<Output>)
        requires
            old(self).wf(),
            old(self).raft().term < u64::MAX,
        ensures
            final(self).wf(),
            final(self).same_site(*old(self)),
            ({
                let step = stand_step(old(self).site(), old(self).raft(), now, timeout_ms);
                &&& final(self).raft() == step.raft
                &&& output_views(final(out)@) == output_views(old(out)@) + step.outputs
            }),
    {
        let ghost s = self.site();
        let ghost r = self.raft();
        let mut votes: HashSet<u8> = HashSet::new();
        votes.insert(self.self_id);
        self.state.term = self.state.term + 1;
        self.state.role = Role::Candidate;
        self.state.voted_for = Some(self.self_id);
        self.state.votes = votes;
        self.state.leader_id = None;
        self.state.last_heartbeat = now;
        self.state.election_timeout_ms = timeout_ms;
        proof {
            assert(self.raft() =~= standing(s, r, now, timeout_ms));
        }
        self.request_votes(out);
    }

    /// Takes over the leadership, replicates and commits.
    fn win_election(&mut self, now: u128, out: &mut Vec<Output>)
        requires
            old(self).wf(),
            last_index_of(old(self).raft().log) < u64::MAX,
        ensures
            final(self).wf(),
            final(self).same_site(*old(self)),
            ({
                let step = win_step(old(self).site(), old(self).raft(), now);
                &&& final(self).raft() == step.raft
                &&& output_views(final(out)@) == output_views(old(out)@) + step.outputs
            }),
    {
        let ghost start = output_views(out@);
        let ghost lead = lead_step(self.site(), self.raft(), now);
        self.become_leader(now, out);
        self.replicate_to_peers(out);
        proof {
            assert(output_views(out@) =~= start + (lead.outputs + append_requests(
                old(self).site(),
                lead.raft,
            )));
        }
        self.try_advance_commit(now);
    }

    /// Whether the counters that a tick may advance have room.
    pub fn can_tick(&self) -> (b: bool)
        ensures
            b == can_tick(self.raft()),
    {
        (self.state.role == Role::Leader || self.state.term < u64::MAX) && (self.state.role
            == Role::Follower || self.wal.last_index() < u64::MAX)
    }

    /// One tick of the clock. Where an election starts, the next one is due
    /// after `timeout_ms`.
    pub fn tick_with(&mut self, now: u128, timeout_ms: u64) -> (out: Vec<Output>)
        requires
            old(self).wf(),
            can_tick(old(self).raft()),
        ensures
            final(self).wf(),
            final(self).site() == old(self).site(),
            final(self).witness() == old(self).witness(),
            ({
                let step = tick_step(old(self).site(), old(self).raft(), now, timeout_ms);
                &&& final(self).raft() == step.raft
                &&& output_views(out@) == step.outputs
            }),
    {
        let mut out: Vec<Output> = Vec::new();
        proof {
            assert(output_views(out@) =~= Seq::empty());
        }
        self.refresh_peer_availability(now, &mut out);
        let ghost s = self.site();
        let ghost r = self.raft();
        let ghost refresh = refresh_step(s, old(self).raft(), now);
        proof {
            assert(output_views(out@) =~= refresh.outputs);
        }
        let due = elapsed(self.state.last_heartbeat, now) >= millis(
            self.state.election_timeout_ms,
        );
        match self.state.role {
            Role::Leader => {
                self.replicate_to_peers(&mut out);
            },
            Role::Candidate => {
                if due {
                    if self.state.votes.len() >= self.quorum_for(now) || self.peers_unreachable(
                        now,
                    ) {
                        self.win_election(now, &mut out);
                    } else {
                        self.stand_for_election(now, timeout_ms, &mut out);
                    }
                }
            },
            Role::Follower => {
                if due {
                    self.stand_for_election(now, timeout_ms, &mut out);
                }
            },
        }
        proof {
            let role = role_step(s, r, now, timeout_ms);
            assert(output_views(out@) =~= refresh.outputs + role.outputs);
        }
        out
    }

    /// A random election timeout within the configured bounds.
    fn random_timeout(&self) -> (ms: u64)
        requires
            self.wf(),
        ensures
            self.site().config.election_timeout_min_ms <= ms
                <= self.site().config.election_timeout_max_ms,
    {
        chance::random_in(self.config.election_timeout_min_ms, self.config.election_timeout_max_ms)
    }

    /// One tick of the clock, with a random timeout for the next election.
    pub fn tick(&mut self, now: u128) -> (out: Vec<Output>)
        requires
            old(self).wf(),
            can_tick(old(self).raft()),
        ensures
            final(self).wf(),
            final(self).site() == old(self).site(),
            final(self).witness() == old(self).witness(),
            exists|timeout_ms: u64|
                old(self).site().config.election_timeout_min_ms <= timeout_ms
                    <= old(self).site().config.election_timeout_max_ms && #[trigger] tick_step(
                    old(self).site(),
                    old(self).raft(),
                    now,
                    timeout_ms,
                ) == (Step { raft: final(self).raft(), outputs: output_views(out@) }),
    {
        let timeout_ms: u64 = self.random_timeout();
        let out = self.tick_with(now, timeout_ms);
        proof {
            assert(tick_step(old(self).site(), old(self).raft(), now, timeout_ms) == (Step {
                raft: self.raft(),
                outputs: output_views(out@),
            }));
        }
        out
    }

    /// How long the clock pauses after a tick: 50 milliseconds, or a heartbeat
    /// where that is longer and this replica leads.
    pub fn tick_pause_ms(&self) -> (ms: u64)
        ensures
            ms == tick_pause_of(self.site(), self.raft()),
    {
        if self.state.role == Role::Leader && self.config.heartbeat_interval_ms > TICK_MS {
            self.config.heartbeat_interval_ms
        } else {
            TICK_MS
        }
    }

    /// Adopts the term of a message if it is higher than the own one.
    fn fence(&mut self, now: u128, timeout_ms: u64, message: &Message, out: &mut Vec<Output>)
        requires
            old(self).wf(),
        ensures
            final(self).wf(),
            final(self).same_site(*old(self)),
            ({
                let step = fence_step(
                    old(self).site(),
                    old(self).raft(),
                    now,
                    timeout_ms,
                    *message,
                );
                &&& final(self).raft() == step.raft
                &&& output_views(final(out)@) == output_views(old(out)@) + step.outputs
            }),
    {
        let ghost s = self.site();
        let ghost r = self.raft();
        let ghost step = fence_step(s, r, now, timeout_ms, *message);
        let ghost start = out@;
        proof {
            assert(output_views(start) + Seq::<OutputView>::empty() =~= output_views(start));
        }
        let term: u64 = message.term();
        if term <= self.state.term {
            return;
        }
        let stays = self.stays_leader(now, message);
        self.state.term = term;
        if stays {
            self.state.voted_for = Some(self.self_id);
            proof {
                assert(self.raft() =~= step.raft);
            }
        } else {
            let led = self.state.role == Role::Leader;
            self.state.role = Role::Follower;
            self.state.voted_for = None;
            self.state.votes.clear();
            self.state.next_index.clear();
            self.state.match_index.clear();
            self.state.last_heartbeat = now;
            self.state.election_timeout_ms = timeout_ms;
            proof {
                assert(self.raft() =~= step.raft);
            }
            if led {
                let line = self.summary_line(None, now);
                out.push(Output::Announce { line });
                proof {
                    lemma_push_output(start, out@.last());
                }
            }
        }
    }

    /// Whether a leader keeps leading in the face of a message of a higher term.
    fn stays_leader(&self, now: u128, message: &Message) -> (stays: bool)
        requires
            self.wf(),
        ensures
            stays == stays_leader(self.site(), self.raft(), now, *message),
    {
        if self.state.role != Role::Leader {
            return false;
        }
        match message {
            Message::RequestVote { last_log_index, last_log_term, .. } => {
                !self.log_is_current(*last_log_term, *last_log_index) || self.has_quorum_lease(now)
            },
            _ => false,
        }
    }

    /// Whether a log that ends with this term and index is at least as far as
    /// the own one.
    fn log_is_current(&self, last_log_term: u64, last_log_index: u64) -> (current: bool)
        ensures
            current == log_is_current(self.raft().log, last_log_term, last_log_index),
    {
        let own_index: u64 = self.wal.last_index();
        let own_term: u64 = self.wal.last_term();
        last_log_term > own_term || (last_log_term == own_term && last_log_index >= own_index)
    }

    /// Hands out a message to a node, if the cluster has that node.
    fn send_to_node(&self, to: u8, message: Message, out: &mut Vec<Output>)
        ensures
            output_views(final(out)@) == output_views(old(out)@) + send_to_node(
                self.site(),
                to,
                message@,
            ),
    {
        let ghost start = out@;
        if find_node(&self.config, to).is_some() {
            out.push(Output::Send { to, message });
            proof {
                lemma_push_output(start, out@.last());
            }
        } else {
            proof {
                assert(output_views(start) + Seq::<OutputView>::empty() =~= output_views(start));
            }
        }
    }

    fn handle_request_vote(
        &mut self,
        now: u128,
        timeout_ms: u64,
        term: u64,
        candidate_id: u8,
        last_log_index: u64,
        last_log_term: u64,
        out: &mut Vec<Output>,
    )
        requires
            old(self).wf(),
        ensures
            final(self).wf(),
            final(self).same_site(*old(self)),
            ({
                let step = vote_request_step(
                    old(self).site(),
                    old(self).raft(),
                    now,
                    timeout_ms,
                    term,
                    candidate_id,
                    last_log_index,
                    last_log_term,
                );
                &&& final(self).raft() == step.raft
                &&& output_views(final(out)@) == output_views(old(out)@) + step.outputs
            }),
    {
        let free = match self.state.voted_for {
            None => true,
            Some(id) => id == candidate_id,
        };
        if term >= self.state.term && free && self.log_is_current(last_log_term, last_log_index) {
            self.state.voted_for = Some(candidate_id);
            self.state.term = term;
            self.state.last_heartbeat = now;
            self.state.election_timeout_ms = timeout_ms;
            let vote = Message::VoteGranted { term, voter_id: self.self_id };
            self.send_to_node(candidate_id, vote, out);
        } else {
            proof {
                assert(output_views(out@) + Seq::<OutputView>::empty() =~= output_views(out@));
            }
        }
    }

    fn handle_vote_granted(&mut self, now: u128, term: u64, voter_id: u8, out: &mut Vec<Output>)
        requires
            old(self).wf(),
            last_index_of(old(self).raft().log) < u64::MAX,
        ensures
            final(self).wf(),
            final(self).same_site(*old(self)),
            ({
                let step = vote_step(old(self).site(), old(self).raft(), now, term, voter_id);
                &&& final(self).raft() == step.raft
                &&& output_views(final(out)@) == output_views(old(out)@) + step.outputs
            }),
    {
        let ghost r = self.raft();
        proof {
            assert(output_views(out@) + Seq::<OutputView>::empty() =~= output_views(out@));
        }
        if self.state.role == Role::Candidate && term == self.state.term {
            self.state.votes.insert(voter_id);
            self.state.last_heartbeat = now;
            proof {
                assert(self.raft() =~= (RaftView {
                    votes: r.votes.insert(voter_id),
                    last_heartbeat: now,
                    ..r
                }));
            }
            if self.state.votes.len() >= self.quorum_for(now) {
                self.win_election(now, out);
            }
        }
    }

    fn handle_append_entries(
        &mut self,
        now: u128,
        term: u64,
        leader_id: u8,
        prev_log_index: u64,
        prev_log_term: u64,
        entries: Vec<LogEntry>,
        leader_commit: u64,
        out: &mut Vec<Output>,
    ) -> (work: Option<AppendWork>)
        requires
            old(self).wf(),
        ensures
            final(self).wf(),
            final(self).same_site(*old(self)),
            ({
                let step = follow_step(old(self).site(), old(self).raft(), now, term, leader_id);
                &&& final(self).raft() == step.raft
                &&& output_views(final(out)@) == output_views(old(out)@) + step.outputs
            }),
            work is Some <==> term >= old(self).raft().term,
            work matches Some(w) ==> starts_append(
                w,
                old(self).raft().log,
                term,
                leader_id,
                prev_log_index,
                prev_log_term,
                entries@,
                leader_commit,
            ),
    {
        let ghost start = out@;
        proof {
            assert(output_views(start) + Seq::<OutputView>::empty() =~= output_views(start));
        }
        if term < self.state.term {
            return None;
        }
        let led = self.state.role == Role::Leader;
        let known = match self.state.leader_id {
            Some(id) => id == leader_id,
            None => false,
        };
        self.state.leader_id = Some(leader_id);
        self.state.last_heartbeat = now;
        self.state.term = term;
        self.state.role = Role::Follower;
        if led || !known {
            let line = self.summary_line(Some(leader_id), now);
            out.push(Output::Announce { line });
            proof {
                lemma_push_output(start, out@.last());
            }
        }
        let end: u64 = prev_log_index.saturating_add(entries.len() as u64);
        let progress = self.wal.begin_append(prev_log_index, prev_log_term, entries);
        Some(AppendWork { term, leader_id, leader_commit, end, progress })
    }

    fn handle_append_ack(
        &mut self,
        now: u128,
        term: u64,
        follower_id: u8,
        success: bool,
        match_index: u64,
    )
        requires
            old(self).wf(),
            success ==> match_index < u64::MAX,
        ensures
            final(self).wf(),
            final(self).same_site(*old(self)),
            final(self).raft() == ack_step(
                old(self).site(),
                old(self).raft(),
                now,
                term,
                follower_id,
                success,
                match_index,
            ).raft,
    {
        let ghost r = self.raft();
        if self.state.role != Role::Leader || term != self.state.term {
            return;
        }
        if success {
            self.state.match_index.insert(follower_id, match_index);
            self.state.next_index.insert(follower_id, match_index + 1);
            self.state.peer_last_ack.insert(follower_id, now);
            proof {
                assert(self.raft() =~= (RaftView {
                    match_index: r.match_index.insert(follower_id, match_index),
                    next_index: r.next_index.insert(follower_id, (match_index + 1) as u64),
                    peer_last_ack: r.peer_last_ack.insert(follower_id, now),
                    ..r
                }));
            }
            self.try_advance_commit(now);
        } else {
            let hinted: u64 = match_index.saturating_add(1);
            let current: u64 = match self.state.next_index.get(&follower_id) {
                Some(index) => *index,
                None => hinted,
            };
            let lower: u64 = current.saturating_sub(1);
            let next: u64 = if hinted < lower {
                hinted
            } else {
                lower
            };
            let next: u64 = if next < 1 {
                1
            } else {
                next
            };
            self.state.next_index.insert(follower_id, next);
            proof {
                assert(next == backed_off(r, follower_id, match_index));
                assert(self.raft() =~= (RaftView {
                    next_index: r.next_index.insert(follower_id, next),
                    ..r
                }));
            }
        }
    }

    /// Whether the counters that a message may advance have room.
    pub fn can_handle(&self, message: &Message) -> (b: bool)
        ensures
            b == can_handle(self.raft(), *message),
    {
        match message {
            Message::VoteGranted { .. } => self.wal.last_index() < u64::MAX,
            Message::AppendAck { success, match_index, .. } => !*success || *match_index
                < u64::MAX,
            _ => true,
        }
    }

    /// Takes in a message. Where an election timeout is set anew, it is
    /// `timeout_ms`. The entries of an append request are still to be taken
    /// over afterwards.
    pub fn handle_message_with(&mut self, now: u128, timeout_ms: u64, message: Message) -> (handled:
        Handled)
        requires
            old(self).wf(),
            can_handle(old(self).raft(), message),
        ensures
            final(self).wf(),
            final(self).site() == old(self).site(),
            final(self).witness() == old(self).witness(),
            ({
                let step = message_step(
                    old(self).site(),
                    old(self).raft(),
                    now,
                    timeout_ms,
                    message,
                );
                &&& final(self).raft() == step.raft
                &&& output_views(handled.outputs@) == step.outputs
            }),
            append_owed(old(self).raft(), message, handled.append),
    {
        let mut outputs: Vec<Output> = Vec::new();
        proof {
            assert(output_views(outputs@) =~= Seq::empty());
        }
        self.mark_peer_contact(message.sender(), now);
        let ghost marked = self.raft();
        self.fence(now, timeout_ms, &message, &mut outputs);
        let ghost fenced = fence_step(old(self).site(), marked, now, timeout_ms, message);
        proof {
            assert(output_views(outputs@) =~= fenced.outputs);
        }
        let mut append: Option<AppendWork> = None;
        match message {
            Message::RequestVote { term, candidate_id, last_log_index, last_log_term } => {
                self.handle_request_vote(
                    now,
                    timeout_ms,
                    term,
                    candidate_id,
                    last_log_index,
                    last_log_term,
                    &mut outputs,
                );
            },
            Message::VoteGranted { term, voter_id } => {
                self.handle_vote_granted(now, term, voter_id, &mut outputs);
            },
            Message::AppendEntries {
                term,
                leader_id,
                prev_log_index,
                prev_log_term,
                entries,
                leader_commit,
            } => {
                append = self.handle_append_entries(
                    now,
                    term,
                    leader_id,
                    prev_log_index,
                    prev_log_term,
                    entries,
                    leader_commit,
                    &mut outputs,
                );
            },
            Message::AppendAck { term, follower_id, success, match_index } => {
                self.handle_append_ack(now, term, follower_id, success, match_index);
                proof {
                    assert(fenced.outputs + Seq::<OutputView>::empty() =~= fenced.outputs);
                }
            },
        }
        Handled { outputs, append }
    }

    /// Takes in a message, with a random timeout where one is set anew.
    pub fn handle_message(&mut self, now: u128, message: Message) -> (handled: Handled)
        requires
            old(self).wf(),
            can_handle(old(self).raft(), message),
        ensures
            final(self).wf(),
            final(self).site() == old(self).site(),
            final(self).witness() == old(self).witness(),
            exists|timeout_ms: u64|
                old(self).site().config.election_timeout_min_ms <= timeout_ms
                    <= old(self).site().config.election_timeout_max_ms && #[trigger] message_step(
                    old(self).site(),
                    old(self).raft(),
                    now,
                    timeout_ms,
                    message,
                ) == (Step { raft: final(self).raft(), outputs: output_views(handled.outputs@) }),
            append_owed(old(self).raft(), message, handled.append),
    {
        let timeout_ms: u64 = self.random_timeout();
        let ghost given = message;
        let handled = self.handle_message_with(now, timeout_ms, message);
        proof {
            assert(message_step(old(self).site(), old(self).raft(), now, timeout_ms, given) == (
            Step { raft: self.raft(), outputs: output_views(handled.outputs@) }));
        }
        handled
    }

    /// Passes over the entries of an append request that the log holds, and says
    /// what has to be written next.
    pub fn append_step(&self, progress: &mut FollowerAppend) -> (step: AppendStep)
        requires
            self.wf(),
            old(progress).wf(),
        ensures
            final(progress).wf(),
            final(progress).incoming() == old(progress).incoming(),
            final(progress).next() >= old(progress).next(),
            append_stepped(*old(progress), *final(progress), self.raft().log, step),
    {
        self.wal.append_entries_from_leader(progress)
    }

    /// Takes over the entry whose record `append_step` had written.
    pub fn append_written(&mut self, progress: &mut FollowerAppend)
        requires
            old(self).wf(),
            old(progress).wf(),
            old(progress).next() < old(progress).incoming().len(),
        ensures
            final(self).wf(),
            final(self).site() == old(self).site(),
            final(self).witness() == old(self).witness(),
            final(self).raft() == (RaftView {
                log: old(self).raft().log.push(old(progress).incoming()[old(progress).next()]),
                ..old(self).raft()
            }),
            final(progress).wf(),
            final(progress).incoming() == old(progress).incoming(),
            final(progress).next() == old(progress).next() + 1,
            final(progress).pending() == old(progress).pending(),
    {
        self.wal.record_written(progress);
    }

    /// Takes the log whose records `append_step` had written in place of all
    /// others.
    pub fn append_rewritten(&mut self, progress: &mut FollowerAppend)
        requires
            old(self).wf(),
            old(progress).wf(),
        ensures
            final(self).wf(),
            final(self).site() == old(self).site(),
            final(self).witness() == old(self).witness(),
            final(progress).wf(),
            final(progress).incoming() == old(progress).incoming(),
            final(progress).pending() is None,
            match old(progress).pending() {
                Some(log) => {
                    &&& final(self).raft() == (RaftView { log, ..old(self).raft() })
                    &&& final(progress).next() == old(progress).incoming().len()
                },
                None => {
                    &&& final(self).raft() == old(self).raft()
                    &&& final(progress).next() == old(progress).next()
                },
            },
    {
        self.wal.record_rewritten(progress);
    }

    /// Answers an append request, once its entries have been taken over or that
    /// has failed.
    pub fn finish_append(&mut self, work: AppendWork, stored: bool) -> (out: Vec<Output>)
        requires
            old(self).wf(),
        ensures
            final(self).wf(),
            final(self).site() == old(self).site(),
            final(self).witness() == old(self).witness(),
            ({
                let step = answer_append_step(
                    old(self).site(),
                    old(self).raft(),
                    work.term,
                    work.leader_id,
                    work.leader_commit,
                    work.end,
                    work.progress is Some && stored,
                );
                &&& final(self).raft() == step.raft
                &&& output_views(out@) == step.outputs
            }),
    {
        let ghost r = self.raft();
        let success = work.progress.is_some() && stored;
        let last: u64 = self.wal.last_index();
        let matched: u64 = if work.end < last {
            work.end
        } else {
            last
        };
        if success {
            let known: u64 = if work.leader_commit < matched {
                work.leader_commit
            } else {
                matched
            };
            if known > self.state.commit_index {
                self.state.commit_index = known;
                proof {
                    assert(self.raft() =~= (RaftView { commit_index: known, ..r }));
                }
            }
        }
        self.apply_committed_entries();
        let ack = Message::AppendAck {
            term: work.term,
            follower_id: self.self_id,
            success,
            match_index: if success {
                matched
            } else {
                last
            },
        };
        let mut out: Vec<Output> = Vec::new();
        self.send_to_node(work.leader_id, ack, &mut out);
        proof {
            assert(output_views(Seq::<Output>::empty()) =~= Seq::empty());
            let sent = send_to_node(self.site(), work.leader_id, ack@);
            assert(Seq::<OutputView>::empty() + sent =~= sent);
        }
        out
    }

    /// The log of the replica.
    pub fn log(&self) -> (wal: &Wal)
        requires
            self.wf(),
        ensures
            wal@ == self.raft().log,
            wal.wf(),
    {
        &self.wal
    }

    /// The entry that this replica would append for a command, with the record
    /// to write first; none if it does not lead.
    pub fn propose_command(&self, command: ReplicatedCommand) -> (planned: Option<
        (LogEntry, Vec<u8>),
    >)
        requires
            last_index_of(self.raft().log) < u64::MAX,
        ensures
            planned is Some <==> self.raft().role == Role::Leader,
            planned matches Some((entry, bytes)) ==> entry == (LogEntry {
                index: (last_index_of(self.raft().log) + 1) as u64,
                term: self.raft().term,
                command,
            }) && bytes@ == frame(entry@),
            planned matches Some((entry, _)) ==> seq![entry] == batch_entries(
                last_index_of(self.raft().log),
                self.raft().term,
                seq![command],
            ),
    {
        if self.state.role != Role::Leader {
            return None;
        }
        let planned = self.wal.leader_entry(self.state.term, command);
        proof {
            assert(seq![planned.0] =~= batch_entries(
                last_index_of(self.raft().log),
                self.raft().term,
                seq![command],
            ));
        }
        Some(planned)
    }

    /// Appends a planned entry, once its record is written, and replicates it.
    pub fn command_written(&mut self, now: u128, entry: LogEntry) -> (accepted: (
        Vec<Output>,
        Proposal,
    ))
        requires
            old(self).wf(),
            entry.index < u64::MAX,
        ensures
            final(self).wf(),
            final(self).site() == old(self).site(),
            final(self).witness() == old(self).witness(),
            ({
                let step = propose_step(old(self).site(), old(self).raft(), now, seq![entry]);
                &&& final(self).raft() == step.raft
                &&& output_views(accepted.0@) == step.outputs
            }),
            accepted.1.indexes@ == seq![entry.index],
            accepted.1.started_at == now,
            proposed(accepted.1, seq![entry], now),
    {
        let mut entries: Vec<LogEntry> = Vec::new();
        let index: u64 = entry.index;
        entries.push(entry.clone());
        let ghost r = self.raft();
        self.wal.append_leader_entry(entry);
        self.state.match_index.insert(self.self_id, index);
        proof {
            assert(entries@ =~= seq![entry]);
            assert(self.raft() =~= (RaftView {
                log: r.log + entries@,
                match_index: r.match_index.insert(self.self_id, entries@.last().index),
                ..r
            }));
        }
        let mut out: Vec<Output> = Vec::new();
        self.replicate_to_peers(&mut out);
        proof {
            assert(output_views(Seq::<Output>::empty()) =~= Seq::empty());
            let sent = append_requests(self.site(), self.raft());
            assert(Seq::<OutputView>::empty() + sent =~= sent);
        }
        self.try_advance_commit(now);
        let mut indexes: Vec<u64> = Vec::new();
        indexes.push(index);
        proof {
            assert(indexes@ =~= seq![index]);
            assert(indexes_of(seq![entry]) =~= seq![index]);
        }
        (out, Proposal { indexes, started_at: now })
    }

    /// The entries that this replica would append for the commands, with the
    /// records to write first; none if it does not lead or there is no command.
    pub fn propose_batch(&self, commands: Vec<ReplicatedCommand>) -> (planned: Option<LeaderBatch>)
        requires
            last_index_of(self.raft().log) + commands@.len() <= u64::MAX,
        ensures
            planned is Some <==> commands@.len() > 0 && self.raft().role == Role::Leader,
            planned matches Some(batch) ==> batch.entries@ == batch_entries(
                last_index_of(self.raft().log),
                self.raft().term,
                commands@,
            ) && batch.bytes@ == frames(views(batch.entries@)),
    {
        if commands.len() == 0 || self.state.role != Role::Leader {
            return None;
        }
        Some(self.wal.leader_batch(self.state.term, commands))
    }

    /// Appends a planned batch, once its records are written, and replicates it.
    pub fn batch_written(&mut self, now: u128, batch: LeaderBatch) -> (accepted: (
        Vec<Output>,
        Proposal,
    ))
        requires
            old(self).wf(),
            batch.entries@.len() > 0,
            batch.entries@.last().index < u64::MAX,
        ensures
            final(self).wf(),
            final(self).site() == old(self).site(),
            final(self).witness() == old(self).witness(),
            ({
                let step = propose_step(old(self).site(), old(self).raft(), now, batch.entries@);
                &&& final(self).raft() == step.raft
                &&& output_views(accepted.0@) == step.outputs
            }),
            proposed(accepted.1, batch.entries@, now),
    {
        let ghost r = self.raft();
        let ghost all = batch.entries@;
        let appended = self.wal.append_leader_batch(batch);
        let n: usize = appended.len();
        let max_index: u64 = appended[n - 1].index;
        self.state.match_index.insert(self.self_id, max_index);
        proof {
            assert(self.raft() =~= (RaftView {
                log: r.log + all,
                match_index: r.match_index.insert(self.self_id, all.last().index),
                ..r
            }));
            assert(self.wal@.last() == all.last());
        }
        let mut out: Vec<Output> = Vec::new();
        self.replicate_to_peers(&mut out);
        proof {
            assert(output_views(Seq::<Output>::empty()) =~= Seq::empty());
            let sent = append_requests(self.site(), self.raft());
            assert(Seq::<OutputView>::empty() + sent =~= sent);
        }
        self.try_advance_commit(now);
        let mut indexes: Vec<u64> = Vec::new();
        let mut i: usize = 0;
        while i < appended.len()
            invariant
                i <= appended@.len(),
                indexes@ == indexes_of(appended@).take(i as int),
            decreases appended@.len() - i,
        {
            indexes.push(appended[i].index);
            i = i + 1;
            proof {
                assert(indexes@ =~= indexes_of(appended@).take(i as int));
            }
        }
        proof {
            assert(indexes@ =~= indexes_of(appended@));
        }
        (out, Proposal { indexes, started_at: now })
    }

    /// Drives a proposed batch: commits what a quorum has acknowledged, and replicates
    /// again while the batch is not applied.
    pub fn poll_batch(&mut self, now: u128, proposal: &Proposal) -> (step: ProposalStep)
        requires
            old(self).wf(),
            last_index_of(old(self).raft().log) < u64::MAX,
            proposal.indexes@.len() > 0,
        ensures
            final(self).wf(),
            final(self).site() == old(self).site(),
            final(self).witness() == old(self).witness(),
            batch_polled(
                old(self).site(),
                old(self).raft(),
                final(self).raft(),
                now,
                *proposal,
                step,
            ),
    {
        if elapsed(proposal.started_at, now) >= millis(PROPOSAL_WAIT_MS) {
            return ProposalStep::Expired;
        }
        self.try_advance_commit(now);
        if self.state.role != Role::Leader {
            return ProposalStep::Lost;
        }
        if self.state.last_applied >= proposal.indexes[proposal.indexes.len() - 1] {
            return ProposalStep::Committed { commands: self.commands_at(&proposal.indexes) };
        }
        let mut outputs: Vec<Output> = Vec::new();
        self.replicate_to_peers(&mut outputs);
        proof {
            assert(output_views(Seq::<Output>::empty()) =~= Seq::empty());
            let sent = append_requests(self.site(), self.raft());
            assert(Seq::<OutputView>::empty() + sent =~= sent);
        }
        ProposalStep::Pending { outputs }
    }

    /// Drives a proposed command: replicates and commits again while it is not
    /// applied.
    pub fn poll_command(&mut self, now: u128, proposal: &Proposal) -> (step: ProposalStep)
        requires
            old(self).wf(),
            last_index_of(old(self).raft().log) < u64::MAX,
            proposal.indexes@.len() > 0,
        ensures
            final(self).wf(),
            final(self).site() == old(self).site(),
            final(self).witness() == old(self).witness(),
            command_polled(
                old(self).site(),
                old(self).raft(),
                final(self).raft(),
                now,
                *proposal,
                step,
            ),
    {
        if elapsed(proposal.started_at, now) >= millis(PROPOSAL_WAIT_MS) {
            return ProposalStep::Expired;
        }
        if self.state.role != Role::Leader {
            return ProposalStep::Lost;
        }
        if self.state.last_applied >= proposal.indexes[proposal.indexes.len() - 1] {
            return ProposalStep::Committed { commands: self.commands_at(&proposal.indexes) };
        }
        let mut outputs: Vec<Output> = Vec::new();
        self.replicate_to_peers(&mut outputs);
        proof {
            assert(output_views(Seq::<Output>::empty()) =~= Seq::empty());
            let sent = append_requests(self.site(), self.raft());
            assert(Seq::<OutputView>::empty() + sent =~= sent);
        }
        self.try_advance_commit(now);
        ProposalStep::Pending { outputs }
    }

    fn commands_at(&self, indexes: &Vec<u64>) -> (commands: Vec<ReplicatedCommand>)
        requires
            self.wf(),
        ensures
            commands@ == commands_at(self.raft().log, indexes@),
    {
        let mut commands: Vec<ReplicatedCommand> = Vec::new();
        let mut i: usize = 0;
        while i < indexes.len()
            invariant
                self.wf(),
                i <= indexes@.len(),
                commands@ == commands_at(self.wal@, indexes@.take(i as int)),
            decreases indexes@.len() - i,
        {
            if let Some(entry) = self.wal.entry_at(indexes[i]) {
                commands.push(entry.command);
            }
            i = i + 1;
            proof {
                let done = indexes@.take(i as int);
                assert(done.drop_last() =~= indexes@.take(i - 1));
                assert(done.last() == indexes@[i - 1]);
            }
        }
        proof {
            assert(indexes@.take(i as int) =~= indexes@);
        }
        commands
    }

    /// What the replica asks the monitoring service at the instant `now`, under
    /// the id given. Forgets the last answer where the replica is not isolated.
    pub fn monitoring_step_as(&mut self, request_id: u64, now: u128) -> (step: MonitoringStep)
        requires
            old(self).wf(),
        ensures
            final(self).wf(),
            final(self).raft() == old(self).raft(),
            monitoring_stepped(*old(self), *final(self), now, request_id, step),
    {
        if !self.config.allow_single_node_leader
            || !self.config.require_monitoring_for_single_node_leader {
            return MonitoringStep::Nothing;
        }
        if !self.looks_isolated(now) {
            self.witness.reset_if_not_isolated();
            return MonitoringStep::Nothing;
        }
        if !self.witness.due_for_attempt(now) {
            return MonitoringStep::Nothing;
        }
        match self.witness.start_attempt_as(request_id, self.self_id, self.state.term, now) {
            Some(attempt) => MonitoringStep::Ask { attempt },
            None => MonitoringStep::NotConfigured,
        }
    }

    /// What the replica asks the monitoring service, under an id drawn at random.
    pub fn monitoring_step(&mut self, now: u128) -> (step: MonitoringStep)
        requires
            old(self).wf(),
        ensures
            final(self).wf(),
            final(self).raft() == old(self).raft(),
            exists|request_id: u64| #[trigger]
                monitoring_stepped(*old(self), *final(self), now, request_id, step),
    {
        let request_id: u64 = chance::random_number();
        self.monitoring_step_as(request_id, now)
    }

    /// Takes note of how an attempt ended. Gives the line for the operator if it
    /// ended otherwise than the one before it.
    pub fn monitoring_done(&mut self, outcome: CorroborationOutcome, now: u128) -> (line: Option<
        String,
    >)
        requires
            old(self).wf(),
        ensures
            final(self).wf(),
            final(self).raft() == old(self).raft(),
            monitoring_ended(*old(self), *final(self), outcome, now, line),
    {
        let (_, changed) = self.witness.attempt_corroboration(outcome, now);
        if !changed {
            return None;
        }
        let name = node_name(&self.config, self.self_id);
        let mut line = String::new();
        match outcome {
            CorroborationOutcome::SafeToPromote => {
                line.append("corroboration confirmed both peers unreachable — ");
                line.append(name.as_str());
                line.append(" eligible to self-promote");
            },
            CorroborationOutcome::DeniedByWitness => {
                line.append("corroboration denied: monitoring reports a peer still reachable — ");
                line.append(name.as_str());
                line.append(" staying passive");
            },
            CorroborationOutcome::WitnessUnreachable => {
                line.append("monitoring unreachable after ");
                push_decimal(&mut line, self.config.monitoring_timeout_ms as u128);
                line.append("ms — ");
                line.append(name.as_str());
                line.append(" staying passive");
            },
            CorroborationOutcome::NotConfigured => {
                line.append("no monitoring configured — ");
                line.append(name.as_str());
                line.append(" staying passive (REQUIRE_monitoring_FOR_SINGLE_NODE_LEADER=true)");
            },
        }
        proof {
            let text = outcome_line(
                old(self).site(),
                outcome,
                self.config.monitoring_timeout_ms,
            );
            assert(line@ =~= text);
        }
        Some(line)
    }

    /// A replica that has just started, with its first election due after
    /// `timeout_ms`; none if the cluster has no node with this id.
    pub fn start_with(
        config: ClusterConfig,
        self_id: u8,
        wal: Wal,
        witness: WitnessClient,
        now: u128,
        timeout_ms: u64,
    ) -> (election: Option<LeaderElection>)
        requires
            wal.wf(),
            config.election_timeout_min_ms <= config.election_timeout_max_ms,
        ensures
            election is Some <==> node_of(config.nodes@, self_id) is Some,
            election matches Some(e) ==> e.wf() && e.witness() == witness && e.site() == new_site(
                config,
                self_id,
                witness,
                now,
            ) && e.raft() == initial_raft(
                other_nodes(config.nodes@, self_id),
                wal@,
                now,
                timeout_ms,
            ),
    {
        if find_node(&config, self_id).is_none() {
            return None;
        }
        let mut peers: Vec<S2Node> = Vec::new();
        let mut peer_last_contact: HashMap<u8, u128> = HashMap::new();
        let mut peer_available: HashMap<u8, bool> = HashMap::new();
        let mut i: usize = 0;
        while i < config.nodes.len()
            invariant
                i <= config.nodes@.len(),
                peers@ == other_nodes(config.nodes@.take(i as int), self_id),
                forall|id: u8| #[trigger]
                    peer_last_contact@.dom().contains(id) == has_id(peers@, id),
                forall|id: u8|
                    peer_last_contact@.dom().contains(id) ==> #[trigger] peer_last_contact@[id]
                        == now,
                forall|id: u8| #[trigger]
                    peer_available@.dom().contains(id) == has_id(peers@, id),
                forall|id: u8|
                    peer_available@.dom().contains(id) ==> #[trigger] peer_available@[id] == false,
            decreases config.nodes@.len() - i,
        {
            let ghost before = peers@;
            let id: u8 = config.nodes[i].id;
            if id != self_id {
                peers.push(config.nodes[i].clone());
                peer_last_contact.insert(id, now);
                peer_available.insert(id, false);
                proof {
                    assert(peers@[before.len() as int].id == id);
                    assert forall|other: u8| has_id(peers@, other) == (has_id(before, other)
                        || other == id) by {
                        if has_id(peers@, other) {
                            let k = choose|k: int|
                                0 <= k < peers@.len() && (#[trigger] peers@[k]).id == other;
                            if k < before.len() {
                                assert(before[k].id == other);
                            }
                        }
                        if has_id(before, other) {
                            let k = choose|k: int|
                                0 <= k < before.len() && (#[trigger] before[k]).id == other;
                            assert(peers@[k].id == other);
                        }
                    }
                }
            }
            i = i + 1;
            proof {
                let done = config.nodes@.take(i as int);
                assert(done.drop_last() =~= config.nodes@.take(i - 1));
                assert(done.last() == config.nodes@[i - 1]);
            }
        }
        proof {
            assert(config.nodes@.take(i as int) =~= config.nodes@);
            lemma_others_fewer(config.nodes@, self_id);
        }
        let ghost nodes = config.nodes@;
        let state = RaftState {
            term: 0,
            role: Role::Follower,
            voted_for: None,
            leader_id: None,
            votes: HashSet::new(),
            next_index: HashMap::new(),
            match_index: HashMap::new(),
            commit_index: 0,
            last_applied: 0,
            last_heartbeat: now,
            election_timeout_ms: timeout_ms,
            last_peer_contact: now,
            peer_last_contact,
            peer_available,
            peer_last_ack: HashMap::new(),
            leader_since_term: 0,
        };
        let election = LeaderElection {
            self_id,
            peers,
            config,
            state,
            wal,
            started_at: now,
            witness,
        };
        proof {
            assert(election.raft() =~= initial_raft(
                other_nodes(nodes, self_id),
                wal@,
                now,
                timeout_ms,
            ));
        }
        Some(election)
    }

    /// A replica that has just started, with a random timeout for its first
    /// election.
    pub fn start(
        config: ClusterConfig,
        self_id: u8,
        wal: Wal,
        witness: WitnessClient,
        now: u128,
    ) -> (election: Option<LeaderElection>)
        requires
            wal.wf(),
            config.election_timeout_min_ms <= config.election_timeout_max_ms,
        ensures
            election is Some <==> node_of(config.nodes@, self_id) is Some,
            election matches Some(e) ==> e.wf() && e.witness() == witness && e.site() == new_site(
                config,
                self_id,
                witness,
                now,
            ) && config.election_timeout_min_ms <= e.raft().election_timeout_ms
                <= config.election_timeout_max_ms && e.raft() == initial_raft(
                other_nodes(config.nodes@, self_id),
                wal@,
                now,
                e.raft().election_timeout_ms,
            ),
    {
        let timeout_ms: u64 = chance::random_in(
            config.election_timeout_min_ms,
            config.election_timeout_max_ms,
        );
        Self::start_with(config, self_id, wal, witness, now, timeout_ms)
    }

    /// What a replica says when it starts.
    pub fn startup_lines(&self) -> (lines: Vec<String>)
        ensures
            ({
                let s = self.site();
                let started = name_of(s.config.nodes@, s.self_id)
                    + " started as FOLLOWER (waiting for leader)"@;
                texts(lines@) == (if !self.witness().has_address
                    && s.config.require_monitoring_for_single_node_leader {
                    seq![started, UNMONITORED@]
                } else {
                    seq![started]
                })
            }),
    {
        let mut lines: Vec<String> = Vec::new();
        let mut started = node_name(&self.config, self.self_id);
        started.append(" started as FOLLOWER (waiting for leader)");
        lines.push(started);
        if !self.witness.is_configured() && self.config.require_monitoring_for_single_node_leader {
            lines.push(UNMONITORED.to_owned());
            proof {
                assert(texts(lines@) =~= seq![started@, UNMONITORED@]);
            }
        } else {
            proof {
                assert(texts(lines@) =~= seq![started@]);
            }
        }
        lines
    }
}

/// The notice that a replica without a monitoring service gives at its start.
pub const UNMONITORED: &'static str = "no monitoring_HOST configured — single-node self-promotion is disabled (REQUIRE_monitoring_FOR_SINGLE_NODE_LEADER=true); set monitoring_HOST or set that flag to false to restore the legacy blind-timeout behavior";

proof fn lemma_others_fewer(nodes: Seq<S2Node>, id: u8)
    ensures
        other_nodes(nodes, id).len() <= nodes.len(),
        node_of(nodes, id) is Some ==> other_nodes(nodes, id).len() < nodes.len(),
    decreases nodes.len(),
{
    if nodes.len() > 0 {
        let init = nodes.drop_last();
        lemma_others_fewer(init, id);
        if node_of(nodes, id) is Some && nodes.last().id != id {
            lemma_node_in_init(nodes, id);
        }
    }
}

proof fn lemma_node_in_init(nodes: Seq<S2Node>, id: u8)
    requires
        nodes.len() > 0,
        nodes.last().id != id,
        node_of(nodes, id) is Some,
    ensures
        node_of(nodes.drop_last(), id) is Some,
    decreases nodes.len(),
{
    if nodes.len() == 1 {
        assert(nodes.skip(1).len() == 0);
    } else {
        assert(nodes.drop_last()[0] == nodes[0]);
        if nodes[0].id != id {
            assert(nodes.skip(1).drop_last() =~= nodes.drop_last().skip(1));
            lemma_node_in_init(nodes.skip(1), id);
        }
    }
}

/// The surroundings of a replica that has just started.
pub open spec fn new_site(
    config: ClusterConfig,
    self_id: u8,
    witness: WitnessClient,
    now: u128,
) -> Site {
    Site {
        self_id,
        peers: other_nodes(config.nodes@, self_id),
        config,
        started_at: now,
        verdict: witness.verdict,
    }
}

/// How long the clock pauses after a tick.
pub open spec fn tick_pause_of(s: Site, r: RaftView) -> u64 {
    if r.role == Role::Leader && s.config.heartbeat_interval_ms > TICK_MS {
        s.config.heartbeat_interval_ms
    } else {
        TICK_MS
    }
}

/// A proposal that waits to be committed.
pub struct Proposal {
    pub indexes: Vec<u64>,
    pub started_at: u128,
}

/// How a proposal stands.
pub enum ProposalStep {
    /// It has waited for too long.
    Expired,
    /// This replica no longer leads.
    Lost,
    /// It is applied; these are its commands.
    Committed { commands: Vec<ReplicatedCommand> },
    /// It is not applied yet; the peers are sent what they lack.
    Pending { outputs: Vec<Output> },
}

/// Whether a proposal has waited for too long.
pub open spec fn expired(proposal: Proposal, now: u128) -> bool {
    time_since(proposal.started_at, now) >= nanos_of(PROPOSAL_WAIT_MS)
}

/// Whether a proposal is the one for these entries.
pub open spec fn proposed(proposal: Proposal, entries: Seq<LogEntry>, now: u128) -> bool {
    proposal.indexes@ == indexes_of(entries) && proposal.started_at == now
}

/// How a proposed batch stands: what a quorum has acknowledged is committed, and
/// while the batch is not applied it is replicated again.
pub open spec fn batch_polled(
    s: Site,
    before: RaftView,
    after: RaftView,
    now: u128,
    proposal: Proposal,
    step: ProposalStep,
) -> bool {
    let r = committed(s, before, now);
    if expired(proposal, now) {
        step == ProposalStep::Expired && after == before
    } else {
        &&& after == r
        &&& if r.role != Role::Leader {
            step == ProposalStep::Lost
        } else if r.last_applied >= proposal.indexes@.last() {
            step matches ProposalStep::Committed { commands } && commands@ == commands_at(
                r.log,
                proposal.indexes@,
            )
        } else {
            step matches ProposalStep::Pending { outputs } && output_views(outputs@)
                == append_requests(s, r)
        }
    }
}

/// How a proposed command stands: while it is not applied it is replicated
/// again, and what a quorum has acknowledged is committed.
pub open spec fn command_polled(
    s: Site,
    before: RaftView,
    after: RaftView,
    now: u128,
    proposal: Proposal,
    step: ProposalStep,
) -> bool {
    if expired(proposal, now) {
        step == ProposalStep::Expired && after == before
    } else if before.role != Role::Leader {
        step == ProposalStep::Lost && after == before
    } else if before.last_applied >= proposal.indexes@.last() {
        &&& step matches ProposalStep::Committed { commands }
        &&& commands@ == commands_at(before.log, proposal.indexes@)
        &&& after == before
    } else {
        &&& step matches ProposalStep::Pending { outputs }
        &&& output_views(outputs@) == append_requests(s, before)
        &&& after == committed(s, before, now)
    }
}

/// The indexes of entries.
pub open spec fn indexes_of(entries: Seq<LogEntry>) -> Seq<u64> {
    Seq::new(entries.len(), |i: int| entries[i].index)
}

/// What a replica does about the monitoring service.
pub enum MonitoringStep {
    Nothing,
    /// Ask it.
    Ask { attempt: Attempt },
    /// Note that there is no one to ask.
    NotConfigured,
}

/// What a replica does about the monitoring service at one instant: it asks
/// while it looks isolated and an attempt is due, and forgets the last answer
/// once it no longer looks isolated.
pub open spec fn monitoring_stepped(
    before: LeaderElection,
    after: LeaderElection,
    now: u128,
    request_id: u64,
    step: MonitoringStep,
) -> bool {
    let s = before.site();
    let w = before.witness();
    let due = w.verdict == CachedVerdict::Unknown || time_since(w.updated_at, now) >= nanos_of(
        w.retry_interval_ms,
    );
    let forgets = consults_monitoring(s.config) && !looks_isolated(s, before.raft(), now);
    let asks = consults_monitoring(s.config) && looks_isolated(s, before.raft(), now) && due;
    &&& after.witness() == (if forgets {
        WitnessClient { verdict: CachedVerdict::Unknown, last_outcome: None, ..w }
    } else {
        w
    })
    &&& after.site() == (Site { verdict: after.witness().verdict, ..s })
    &&& step == (if !asks {
        MonitoringStep::Nothing
    } else if w.has_address && w.has_socket {
        MonitoringStep::Ask {
            attempt: w.attempt_of(request_id, s.self_id, before.raft().term, now),
        }
    } else {
        MonitoringStep::NotConfigured
    })
}

/// How the end of an attempt is noted, and what is said of it.
pub open spec fn monitoring_ended(
    before: LeaderElection,
    after: LeaderElection,
    outcome: CorroborationOutcome,
    now: u128,
    line: Option<String>,
) -> bool {
    &&& after.witness() == before.witness().with_outcome(outcome, now)
    &&& after.site() == (Site { verdict: verdict_of(outcome), ..before.site() })
    &&& line is Some <==> before.witness().last_outcome != Some(outcome)
    &&& line matches Some(text) ==> text@ == outcome_line(
        before.site(),
        outcome,
        before.site().config.monitoring_timeout_ms,
    )
}

/// What is left to do for an append request.
pub struct AppendWork {
    pub term: u64,
    pub leader_id: u8,
    pub leader_commit: u64,
    /// The index of the last entry of the request.
    pub end: u64,
    /// The entries that are still to be taken over; none if the leader's log
    /// does not continue the own one.
    pub progress: Option<FollowerAppend>,
}

/// What a message led to.
pub struct Handled {
    pub outputs: Vec<Output>,
    pub append: Option<AppendWork>,
}

/// Whether `work` is what is left to do for this append request.
pub open spec fn starts_append(
    work: AppendWork,
    log: Seq<LogEntry>,
    term: u64,
    leader_id: u8,
    prev_log_index: u64,
    prev_log_term: u64,
    entries: Seq<LogEntry>,
    leader_commit: u64,
) -> bool {
    &&& work.term == term
    &&& work.leader_id == leader_id
    &&& work.leader_commit == leader_commit
    &&& work.end == request_end(prev_log_index, entries.len())
    &&& work.progress is Some <==> accepts_append(log, prev_log_index, prev_log_term)
    &&& work.progress matches Some(p) ==> p.wf() && p.incoming() == entries && p.next() == 0
        && p.pending() is None
}

/// Whether `append` is what is left to do for a message: something for an
/// append request whose term is not behind, and nothing otherwise.
pub open spec fn append_owed(r: RaftView, message: Message, append: Option<AppendWork>) -> bool {
    match message {
        Message::AppendEntries {
            term,
            leader_id,
            prev_log_index,
            prev_log_term,
            entries,
            leader_commit,
        } => {
            &&& append is Some <==> term >= r.term
            &&& append matches Some(work) ==> starts_append(
                work,
                r.log,
                term,
                leader_id,
                prev_log_index,
                prev_log_term,
                entries@,
                leader_commit,
            )
        },
        _ => append is None,
    }
}

/// The pause between two ticks of a replica that does not lead.
pub const TICK_MS: u64 = 50;

/// Fewer replicas have a longer log.
proof fn lemma_fewer_have_acknowledged(nodes: Seq<S2Node>, r: RaftView, low: u64, high: u64)
    requires
        low <= high,
    ensures
        count_ids(nodes, has_acknowledged(r, high)) <= count_ids(nodes, has_acknowledged(r, low)),
    decreases nodes.len(),
{
    if nodes.len() > 0 {
        lemma_fewer_have_acknowledged(nodes.drop_last(), r, low, high);
    }
}

/// Where too few replicas have acknowledged an index, nothing from it on can be committed.
proof fn lemma_none_above(s: Site, r: RaftView, needed: nat, first: u64, last: u64)
    requires
        first > r.commit_index,
        first <= last,
        replica_count(s, r, first) < needed,
    ensures
        highest_committable(s, r, needed, last) == highest_committable(
            s,
            r,
            needed,
            (first - 1) as u64,
        ),
    decreases last - first,
{
    lemma_fewer_have_acknowledged(s.peers, r, first, last);
    if first < last {
        lemma_none_above(s, r, needed, first, (last - 1) as u64);
    }
}

proof fn lemma_highest_bound(s: Site, r: RaftView, needed: nat, index: u64)
    ensures
        highest_committable(s, r, needed, index) >= r.commit_index,
    decreases index,
{
    if index > r.commit_index && !committable(s, r, needed, index) {
        lemma_highest_bound(s, r, needed, (index - 1) as u64);
    }
}

} // verus!
