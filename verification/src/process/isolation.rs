//! How a replica tells that it is alone, and what it then does about it.
//!
//! Instants are nanoseconds, so a number of milliseconds counts a million times.

use crate::clock::passed;
use crate::process::config::{name_of, role_line, ClusterConfig, S2Node};
use crate::process::leader_election::{
    monitoring_ended, monitoring_stepped, new_site, LeaderElection, MonitoringStep,
};
use crate::process::message::Message;
use crate::process::raft_model::{
    acked_recently, alive_node_count, available_flag, count_ids, filter_ids, has_acked,
    has_quorum_lease, is_available, is_unavailable, lead_step, looks_isolated, message_step,
    other_nodes, outcome_line, peer_is_available, peers_unreachable, quorum, refresh_step,
    tick_step, unavailable_peers, win_step, OutputView, RaftView, Role, Site,
};
use crate::process::witness_client::{
    Attempt, CachedVerdict, CorroborationOutcome, WitnessClient,
};
use crate::text::decimal;
use vstd::prelude::*;

verus! {

/// Whether a peer was last heard of `peer_silent_ms` ago or earlier.
pub open spec fn silent(s: Site, r: RaftView, id: u8, now: u128) -> bool {
    if r.peer_last_contact.dom().contains(id) {
        passed(r.peer_last_contact[id], now, s.config.peer_silent_ms)
    } else {
        s.config.peer_silent_ms == 0
    }
}

/// Whether a peer is known to have been unavailable.
pub open spec fn marked_down(r: RaftView, id: u8) -> bool {
    r.peer_available.dom().contains(id) && !r.peer_available[id]
}

pub proof fn lemma_count(nodes: Seq<S2Node>, f: spec_fn(u8) -> bool)
    ensures
        count_ids(nodes, f) == nodes.filter(|n: S2Node| f(n.id)).len(),
        count_ids(nodes, f) == 0 <==> forall|i: int|
            0 <= i < nodes.len() ==> !f((#[trigger] nodes[i]).id),
    decreases nodes.len(),
{
    reveal(Seq::filter);
    if nodes.len() > 0 {
        let init = nodes.drop_last();
        lemma_count(init, f);
        if forall|i: int| 0 <= i < init.len() ==> !f((#[trigger] init[i]).id) {
            if !f(nodes.last().id) {
                assert forall|i: int| 0 <= i < nodes.len() implies !f((#[trigger] nodes[i]).id) by {
                    if i < init.len() {
                        assert(init[i] == nodes[i]);
                    }
                }
            }
        } else {
            let i = choose|i: int| 0 <= i < init.len() && f((#[trigger] init[i]).id);
            assert(nodes[i] == init[i]);
        }
    }
}

/// A peer is available if it is neither silent nor known to have been
/// unavailable, and not otherwise.
pub proof fn law_available_peers(s: Site, r: RaftView, id: u8, now: u128)
    ensures
        peer_is_available(s, r, id, now) <==> !silent(s, r, id, now) && !marked_down(r, id),
{
}

/// The number of nodes that are alive is one for the replica itself and one for
/// each of its peers that is neither silent nor known to have been unavailable.
pub proof fn law_alive_nodes(s: Site, r: RaftView, now: u128)
    ensures
        alive_node_count(s, r, now) == 1 + s.peers.filter(
            |n: S2Node| !silent(s, r, n.id, now) && !marked_down(r, n.id),
        ).len(),
{
    let f = is_available(s, r, now);
    lemma_count(s.peers, f);
    let a = |n: S2Node| f(n.id);
    let b = |n: S2Node| !silent(s, r, n.id, now) && !marked_down(r, n.id);
    assert(a =~= b);
}

/// A replica looks isolated if and only if it has been up for as long as a peer
/// may be silent, and each of its peers is silent or known to have been
/// unavailable.
pub proof fn law_isolation(s: Site, r: RaftView, now: u128)
    ensures
        looks_isolated(s, r, now) <==> {
            &&& passed(s.started_at, now, s.config.peer_silent_ms)
            &&& forall|i: int|
                0 <= i < s.peers.len() ==> silent(s, r, (#[trigger] s.peers[i]).id, now)
                    || marked_down(r, s.peers[i].id)
        },
{
    let f = is_available(s, r, now);
    lemma_count(s.peers, f);
    assert forall|i: int| 0 <= i < s.peers.len() implies f((#[trigger] s.peers[i]).id) == (!silent(
        s,
        r,
        s.peers[i].id,
        now,
    ) && !marked_down(r, s.peers[i].id)) by {}
}

/// A replica that may lead alone wins and commits alone if and only if it looks
/// isolated and the monitoring service has confirmed it, or need not. In all
/// other cases it takes more than half of the cluster, and no more than that.
pub proof fn law_quorum(s: Site, r: RaftView, now: u128)
    ensures
        peers_unreachable(s, r, now) <==> {
            &&& s.config.allow_single_node_leader
            &&& looks_isolated(s, r, now)
            &&& s.config.require_monitoring_for_single_node_leader ==> s.verdict
                == CachedVerdict::SafeToPromote
        },
        peers_unreachable(s, r, now) ==> quorum(s, r, now) == 1,
        !peers_unreachable(s, r, now) ==> {
            &&& 2 * quorum(s, r, now) > s.peers.len() + 1
            &&& 2 * (quorum(s, r, now) - 1) <= s.peers.len() + 1
        },
{
}

/// A leader has the lease of a majority if and only if it and the peers that
/// have acknowledged less than four heartbeats ago are more than half of the
/// cluster.
pub proof fn law_lease(s: Site, r: RaftView, now: u128)
    ensures
        has_quorum_lease(s, r, now) <==> 2 * (1 + s.peers.filter(
            |n: S2Node|
                r.peer_last_ack.dom().contains(n.id) && s.config.heartbeat_interval_ms > 0 && now
                    - r.peer_last_ack[n.id] < 4 * s.config.heartbeat_interval_ms * 1_000_000,
        ).len()) > s.peers.len() + 1,
{
    let f = has_acked(s, r, now);
    lemma_count(s.peers, f);
    let a = |n: S2Node| f(n.id);
    let b = |n: S2Node|
        r.peer_last_ack.dom().contains(n.id) && s.config.heartbeat_interval_ms > 0 && now
            - r.peer_last_ack[n.id] < 4 * s.config.heartbeat_interval_ms * 1_000_000;
    assert forall|n: S2Node| #[trigger] a(n) == b(n) by {
        assert(a(n) == acked_recently(s, r, n.id, now));
    }
    assert(a =~= b);
}

/// Whoever sends a message has been heard of: it counts as available, and its
/// silence from that instant on. What is known of the other peers stays.
pub proof fn law_senders_are_heard(
    s: Site,
    r: RaftView,
    now: u128,
    timeout_ms: u64,
    message: Message,
    id: u8,
)
    requires
        message.spec_sender() != s.self_id,
    ensures
        ({
            let after = message_step(s, r, now, timeout_ms, message).raft;
            let sender = message.spec_sender();
            &&& after.last_peer_contact == now
            &&& after.peer_last_contact.dom().contains(sender)
            &&& after.peer_last_contact[sender] == now
            &&& after.peer_available.dom().contains(sender)
            &&& after.peer_available[sender]
            &&& id != sender ==> {
                &&& after.peer_last_contact.dom().contains(id)
                    <==> r.peer_last_contact.dom().contains(id)
                &&& after.peer_last_contact[id] == r.peer_last_contact[id]
                &&& after.peer_available.dom().contains(id) <==> r.peer_available.dom().contains(
                    id,
                )
                &&& after.peer_available[id] == r.peer_available[id]
            }
        }),
{
}

/// After a tick a peer is marked as available if and only if it is not silent,
/// and a change of that is announced, once for all peers. When each was last
/// heard of stays, and so does the mark of an id that no peer has.
pub proof fn law_ticks_mark_the_silent(
    s: Site,
    r: RaftView,
    now: u128,
    timeout_ms: u64,
    k: int,
    other: u8,
)
    requires
        0 <= k < s.peers.len(),
        forall|i: int| 0 <= i < s.peers.len() ==> (#[trigger] s.peers[i]).id != other,
    ensures
        ({
            let step = tick_step(s, r, now, timeout_ms);
            let id = s.peers[k].id;
            &&& marked_down(step.raft, other) == marked_down(r, other)
            &&& marked_down(step.raft, id) <==> silent(s, r, id, now)
            &&& step.raft.peer_last_contact == r.peer_last_contact
            &&& step.raft.peer_last_ack == r.peer_last_ack
            &&& marked_down(step.raft, id) != marked_down(r, id) ==> step.outputs.len() > 0
                && step.outputs[0] is Announce
        }),
{
    let id = s.peers[k].id;
    assert(crate::process::raft_model::has_id(s.peers, id));
    assert(!crate::process::raft_model::has_id(s.peers, other));
    assert(marked_down(r, id) == !available_flag(r, id));
    if marked_down(r, id) != silent(s, r, id, now) {
        assert(crate::process::raft_model::availability_changed(s, r, id, now));
    }
}

/// While monitoring is required, an isolated replica asks the service if and
/// only if nothing is known of its answer or the last attempt ended a retry
/// interval ago or earlier, whatever its outcome was. The question is a new one
/// that bears the replica's id and term. Where there is no one to ask, that is
/// noted instead. A replica that is not isolated forgets the last answer.
pub proof fn law_isolated_replica_asks_again(
    before: LeaderElection,
    after: LeaderElection,
    now: u128,
    request_id: u64,
    step: MonitoringStep,
)
    requires
        monitoring_stepped(before, after, now, request_id, step),
        before.site().config.allow_single_node_leader,
        before.site().config.require_monitoring_for_single_node_leader,
    ensures
        ({
            let w = before.witness();
            let alone = looks_isolated(before.site(), before.raft(), now);
            let due = w.verdict == CachedVerdict::Unknown || passed(
                w.updated_at,
                now,
                w.retry_interval_ms,
            );
            let question = Attempt {
                request_id,
                requester_id: before.site().self_id,
                term: before.raft().term,
                started_at: now,
                timeout_ms: w.timeout_ms,
                resent: false,
            };
            &&& alone && due && w.has_address && w.has_socket ==> step == (MonitoringStep::Ask {
                attempt: question,
            })
            &&& alone && due && !(w.has_address && w.has_socket) ==> step
                == MonitoringStep::NotConfigured
            &&& !(alone && due) ==> step == MonitoringStep::Nothing
            &&& alone ==> after.witness() == w && after.site().verdict == w.verdict
            &&& !alone ==> {
                &&& after.site().verdict == CachedVerdict::Unknown
                &&& after.witness().verdict == CachedVerdict::Unknown
                &&& after.witness().last_outcome is None
            }
        }),
{
}

/// Two steps of a replica with the end of an attempt between them, whatever its
/// outcome: if the replica is still isolated, the second step asks once the
/// retry interval is over, and not before.
pub proof fn law_attempts_follow_each_other(
    before: LeaderElection,
    ended: LeaderElection,
    after: LeaderElection,
    outcome: CorroborationOutcome,
    end: u128,
    line: Option<String>,
    now: u128,
    request_id: u64,
    step: MonitoringStep,
)
    requires
        ended.site().config.allow_single_node_leader,
        ended.site().config.require_monitoring_for_single_node_leader,
        monitoring_ended(before, ended, outcome, end, line),
        looks_isolated(ended.site(), ended.raft(), now),
        monitoring_stepped(ended, after, now, request_id, step),
    ensures
        ({
            let w = before.witness();
            let next = end + w.retry_interval_ms * 1_000_000;
            &&& now >= next ==> !(step is Nothing)
            &&& now >= next && w.has_address && w.has_socket ==> step is Ask
            &&& w.retry_interval_ms > 0 && now < next ==> step is Nothing
        }),
{
}

/// A replica that was not isolated for one step asks at once when it is isolated
/// again, however recent the last attempt was.
pub proof fn law_new_isolation_asks_at_once(
    first: LeaderElection,
    second: LeaderElection,
    third: LeaderElection,
    now: u128,
    later: u128,
    request_id: u64,
    step: MonitoringStep,
    next: MonitoringStep,
)
    requires
        first.site().config.allow_single_node_leader,
        first.site().config.require_monitoring_for_single_node_leader,
        !looks_isolated(first.site(), first.raft(), now),
        monitoring_stepped(first, second, now, request_id, step),
        looks_isolated(second.site(), second.raft(), later),
        monitoring_stepped(second, third, later, request_id, next),
    ensures
        first.witness().has_address && first.witness().has_socket ==> next is Ask,
        !(next is Nothing),
{
}

/// Where leading alone is not allowed, or needs no confirmation, the service is
/// never asked.
pub proof fn law_waived_monitoring_is_not_asked(
    before: LeaderElection,
    after: LeaderElection,
    now: u128,
    request_id: u64,
    step: MonitoringStep,
)
    requires
        monitoring_stepped(before, after, now, request_id, step),
        !before.site().config.allow_single_node_leader
            || !before.site().config.require_monitoring_for_single_node_leader,
    ensures
        step is Nothing,
        after.witness() == before.witness(),
{
}

/// Once an attempt has ended, the replica may act on it if and only if the
/// service has confirmed that its peers are down, the next interval begins at
/// its end, and the operator is told if it ended otherwise than the one before.
pub proof fn law_monitoring_ends(
    before: LeaderElection,
    after: LeaderElection,
    outcome: CorroborationOutcome,
    now: u128,
    line: Option<String>,
)
    requires
        monitoring_ended(before, after, outcome, now, line),
    ensures
        after.site().verdict == CachedVerdict::SafeToPromote <==> outcome
            == CorroborationOutcome::SafeToPromote,
        after.site().verdict == after.witness().verdict,
        after.witness().updated_at == now,
        after.witness().last_outcome == Some(outcome),
        after.witness().retry_interval_ms == before.witness().retry_interval_ms,
        after.witness().has_address == before.witness().has_address,
        after.witness().has_socket == before.witness().has_socket,
        after.site().config == before.site().config,
        after.site().self_id == before.site().self_id,
        line is Some <==> before.witness().last_outcome != Some(outcome),
{
}

proof fn lemma_filter_ids(nodes: Seq<S2Node>, f: spec_fn(u8) -> bool, id: u8)
    ensures
        filter_ids(nodes, f).contains(id) <==> f(id) && exists|i: int|
            0 <= i < nodes.len() && (#[trigger] nodes[i]).id == id,
    decreases nodes.len(),
{
    if nodes.len() > 0 {
        let init = nodes.drop_last();
        let last = nodes.last();
        lemma_filter_ids(init, f, id);
        let head = filter_ids(init, f);
        assert(nodes[nodes.len() - 1] == last);
        if exists|i: int| 0 <= i < init.len() && (#[trigger] init[i]).id == id {
            let i = choose|i: int| 0 <= i < init.len() && (#[trigger] init[i]).id == id;
            assert(nodes[i].id == id);
        }
        if exists|i: int| 0 <= i < nodes.len() && (#[trigger] nodes[i]).id == id {
            let i = choose|i: int| 0 <= i < nodes.len() && (#[trigger] nodes[i]).id == id;
            if i < init.len() {
                assert(init[i].id == id);
            }
        }
        if f(last.id) {
            let all = head.push(last.id);
            assert(all[head.len() as int] == last.id);
            if head.contains(id) {
                let i = choose|i: int| 0 <= i < head.len() && head[i] == id;
                assert(all[i] == id);
            }
            if all.contains(id) && id != last.id {
                let i = choose|i: int| 0 <= i < all.len() && all[i] == id;
                assert(head[i] == id);
            }
        }
    }
}

/// The peers that are shown as not available are those that are silent or known
/// to have been unavailable.
pub proof fn law_unavailable_peers(s: Site, r: RaftView, now: u128, id: u8)
    ensures
        unavailable_peers(s, r, now).contains(id) <==> (silent(s, r, id, now) || marked_down(r, id))
            && exists|i: int| 0 <= i < s.peers.len() && (#[trigger] s.peers[i]).id == id,
{
    lemma_filter_ids(s.peers, is_unavailable(s, r, now), id);
}

/// A replica says who leads when it begins to follow another leader, and says
/// nothing while it goes on following the same one.
pub proof fn law_new_leaders_are_announced(
    s: Site,
    r: RaftView,
    now: u128,
    timeout_ms: u64,
    message: Message,
)
    requires
        message matches Message::AppendEntries { term, .. } && term >= r.term,
    ensures
        message matches Message::AppendEntries { term, leader_id, .. } && {
            let step = message_step(s, r, now, timeout_ms, message);
            let line = role_line(
                s.config.nodes@,
                Some(leader_id),
                unavailable_peers(s, step.raft, now),
            );
            &&& r.leader_id != Some(leader_id) ==> step.outputs.len() > 0 && step.outputs.last()
                == (OutputView::Announce { line })
            &&& r.role != Role::Leader && r.leader_id == Some(leader_id) ==> step.outputs.len() == 0
        },
{
    if let Message::AppendEntries { term, leader_id, .. } = message {
        let step = message_step(s, r, now, timeout_ms, message);
        if r.leader_id != Some(leader_id) {
            let n = step.outputs.len();
            assert(step.outputs[n - 1] is Announce);
        }
    }
}

/// When a peer falls silent or comes back, a replica shows all nodes, with itself
/// as the leader if it leads and otherwise with the one that it follows.
pub proof fn law_changes_are_shown(
    s: Site,
    r: RaftView,
    now: u128,
    timeout_ms: u64,
    k: int,
)
    requires
        0 <= k < s.peers.len(),
        marked_down(r, s.peers[k].id) != silent(s, r, s.peers[k].id, now),
    ensures
        ({
            let step = tick_step(s, r, now, timeout_ms);
            let marked = RaftView {
                peer_available: refresh_step(s, r, now).raft.peer_available,
                ..r
            };
            let leader = if r.role == Role::Leader {
                Some(s.self_id)
            } else {
                r.leader_id
            };
            &&& step.outputs.len() > 0
            &&& step.outputs[0] == (OutputView::Announce {
                line: role_line(s.config.nodes@, leader, unavailable_peers(s, marked, now)),
            })
        }),
{
    let id = s.peers[k].id;
    assert(crate::process::raft_model::has_id(s.peers, id));
    assert(crate::process::raft_model::availability_changed(s, r, id, now));
}

/// A winner says so first. One that leads alone says that, and whether the
/// monitoring service has confirmed it; any other shows all nodes with itself as
/// the leader.
pub proof fn law_winners_say_so(s: Site, r: RaftView, now: u128)
    ensures
        ({
            let won = win_step(s, r, now);
            let lead = lead_step(s, r, now).raft;
            let name = name_of(s.config.nodes@, s.self_id);
            let alone = s.config.allow_single_node_leader && looks_isolated(s, lead, now) && (
            s.config.require_monitoring_for_single_node_leader ==> s.verdict
                == CachedVerdict::SafeToPromote);
            &&& won.outputs.len() > 0
            &&& won.outputs[0] matches OutputView::Announce { line }
            &&& alone && s.config.require_monitoring_for_single_node_leader ==> line == name
                + " is LEADER (single-node: other machines unreachable, "@
                + "monitoring-corroborated"@ + ")"@
            &&& alone && !s.config.require_monitoring_for_single_node_leader ==> line == name
                + " is LEADER (single-node: other machines unreachable, "@
                + "legacy blind timeout"@ + ")"@
            &&& !alone ==> line == role_line(
                s.config.nodes@,
                Some(s.self_id),
                unavailable_peers(s, lead, now),
            )
        }),
{
}

/// What is said of an attempt names the replica, and says that it may act only
/// where the service has confirmed it. Where the service did not answer, it says
/// for how long it was waited for.
pub proof fn law_outcomes_are_told(s: Site, timeout_ms: u64)
    ensures
        ({
            let name = name_of(s.config.nodes@, s.self_id);
            &&& outcome_line(s, CorroborationOutcome::SafeToPromote, timeout_ms)
                == "corroboration confirmed both peers unreachable — "@ + name
                + " eligible to self-promote"@
            &&& outcome_line(s, CorroborationOutcome::DeniedByWitness, timeout_ms)
                == "corroboration denied: monitoring reports a peer still reachable — "@ + name
                + " staying passive"@
            &&& outcome_line(s, CorroborationOutcome::WitnessUnreachable, timeout_ms)
                == "monitoring unreachable after "@ + decimal(timeout_ms as nat) + "ms — "@ + name
                + " staying passive"@
            &&& outcome_line(s, CorroborationOutcome::NotConfigured, timeout_ms)
                == "no monitoring configured — "@ + name
                + " staying passive (REQUIRE_monitoring_FOR_SINGLE_NODE_LEADER=true)"@
        }),
{
}

/// A replica that has just started knows all other nodes as its peers, and does not
/// look isolated before it has been up for as long as a peer may be silent. Until
/// then it neither wins nor commits alone.
pub proof fn law_new_replicas_are_not_alone(
    config: ClusterConfig,
    self_id: u8,
    witness: WitnessClient,
    started: u128,
    r: RaftView,
    now: u128,
)
    ensures
        ({
            let s = new_site(config, self_id, witness, started);
            &&& s.self_id == self_id
            &&& s.config == config
            &&& s.verdict == witness.verdict
            &&& s.peers == other_nodes(config.nodes@, self_id)
            &&& looks_isolated(s, r, now) ==> passed(started, now, config.peer_silent_ms)
            &&& !passed(started, now, config.peer_silent_ms) ==> 2 * quorum(s, r, now)
                > s.peers.len() + 1
        }),
{
    law_isolation(new_site(config, self_id, witness, started), r, now);
}

} // verus!
