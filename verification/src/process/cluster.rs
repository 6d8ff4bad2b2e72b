//! The cluster as a whole, as far as its elections go.
//!
//! The replicas tick, receive each other's messages in any order and any number
//! of times, or not at all, and add to their logs. None of them is restarted: a
//! replica does not remember its vote across a restart.

use crate::process::log_entry::LogEntry;
use crate::process::message::{Message, MessageView};
use crate::process::raft_laws::{
    backs_itself, law_answers_never_go_back, law_majorities_intersect, law_one_vote_per_term,
    law_own_vote, law_proposals_never_go_back, law_votes_are_bound, lemma_committed, lemma_win,
};
use crate::process::raft_model::{
    answer_append_step, append_requests, can_tick, committed, fence_step, initial_raft, lead_step,
    majority, message_step, met, propose_step, refresh_step, tick_step, vote_requests, win_step,
    OutputView, RaftView, Role, Site, Step,
};
use crate::process::witness_client::CachedVerdict;
use vstd::prelude::*;

verus! {

/// One replica of the cluster.
pub struct Member {
    pub site: Site,
    pub raft: RaftView,
}

/// The replicas, what was sent so far and to whom, and whom each replica has
/// voted for in each term.
pub struct Cluster {
    pub members: Map<u8, Member>,
    pub sent: Set<(u8, MessageView)>,
    pub ballots: Map<(u8, u64), u8>,
}

/// What can happen to one replica.
pub enum Event {
    /// Its clock ticks.
    Tick { now: u128, timeout_ms: u64 },
    /// It receives a message that was sent to it.
    Deliver { now: u128, timeout_ms: u64, message: Message },
    /// It takes over entries.
    Store { log: Seq<LogEntry> },
    /// It answers an append request.
    Answer { term: u64, leader_id: u8, leader_commit: u64, end: u64, success: bool },
    /// It adds entries of its own.
    Propose { now: u128, entries: Seq<LogEntry> },
    /// It drives a proposal that waits.
    Drive { now: u128 },
    /// It has an answer of the monitoring service, or has forgotten it.
    Learn { verdict: CachedVerdict },
}

/// What an event does to the state of a replica.
pub open spec fn event_step(s: Site, r: RaftView, event: Event) -> Step {
    match event {
        Event::Tick { now, timeout_ms } => tick_step(s, r, now, timeout_ms),
        Event::Deliver { now, timeout_ms, message } => message_step(s, r, now, timeout_ms, message),
        Event::Store { log } => Step { raft: RaftView { log, ..r }, outputs: Seq::empty() },
        Event::Answer { term, leader_id, leader_commit, end, success } => answer_append_step(
            s,
            r,
            term,
            leader_id,
            leader_commit,
            end,
            success,
        ),
        Event::Propose { now, entries } => propose_step(s, r, now, entries),
        Event::Drive { now } => Step {
            raft: committed(s, r, now),
            outputs: append_requests(s, committed(s, r, now)),
        },
        Event::Learn { .. } => Step { raft: r, outputs: Seq::empty() },
    }
}

/// The surroundings of a replica after an event.
pub open spec fn event_site(s: Site, event: Event) -> Site {
    match event {
        Event::Learn { verdict } => Site { verdict, ..s },
        _ => s,
    }
}

/// Whether an event can happen to a replica: it receives nothing that was not
/// sent to it.
pub open spec fn can_happen(c: Cluster, id: u8, event: Event) -> bool {
    &&& c.members.dom().contains(id)
    &&& match event {
        Event::Tick { .. } => can_tick(c.members[id].raft),
        Event::Deliver { message, .. } => c.sent.contains((id, message@)),
        _ => true,
    }
}

/// The messages among what a replica hands out.
pub open spec fn mail(outputs: Seq<OutputView>) -> Set<(u8, MessageView)> {
    Set::new(
        |letter: (u8, MessageView)|
            outputs.contains(OutputView::Send { to: letter.0, message: letter.1 }),
    )
}

/// The ballots after a replica has come to a state.
pub open spec fn ballots_after(ballots: Map<(u8, u64), u8>, id: u8, r: RaftView) -> Map<
    (u8, u64),
    u8,
> {
    match r.voted_for {
        Some(candidate) => ballots.insert((id, r.term), candidate),
        None => ballots,
    }
}

/// The cluster after an event.
pub open spec fn happened(c: Cluster, id: u8, event: Event) -> Cluster {
    let before = c.members[id];
    let step = event_step(before.site, before.raft, event);
    Cluster {
        members: c.members.insert(
            id,
            Member { site: event_site(before.site, event), raft: step.raft },
        ),
        sent: c.sent.union(mail(step.outputs)),
        ballots: ballots_after(c.ballots, id, step.raft),
    }
}

/// Whether a candidate has a vote on its ballot.
pub open spec fn has_ballot(c: Cluster, voter: u8, term: u64, candidate: u8) -> bool {
    &&& c.members.dom().contains(voter)
    &&& c.ballots.dom().contains((voter, term))
    &&& c.ballots[(voter, term)] == candidate
}

/// Whether a replica fits the ballots.
pub open spec fn member_fits(c: Cluster, id: u8) -> bool {
    let s = c.members[id].site;
    let r = c.members[id].raft;
    &&& s.self_id == id
    &&& s.peers.len() + 1 == c.members.dom().len()
    &&& r.last_applied <= r.commit_index
    &&& r.voted_for matches Some(candidate) ==> has_ballot(c, id, r.term, candidate)
    &&& c.ballots.dom().contains((id, r.term)) ==> r.voted_for is Some
    &&& backs_itself(s, r)
    &&& r.role == Role::Candidate ==> forall|v: u8| #[trigger]
        r.votes.contains(v) ==> has_ballot(c, v, r.term, id)
    &&& r.role == Role::Leader ==> forall|v: u8| #[trigger]
        r.votes.contains(v) ==> has_ballot(c, v, r.leader_since_term, id)
}

/// What holds of the cluster whatever happens: each replica has one ballot in a
/// term, none in a term that it has not reached, and every vote that was sent
/// or counted is on a ballot.
pub open spec fn cluster_wf(c: Cluster) -> bool {
    &&& c.members.dom().finite()
    &&& forall|id: u8| #[trigger] c.members.dom().contains(id) ==> member_fits(c, id)
    &&& forall|voter: u8, term: u64| #[trigger]
        c.ballots.dom().contains((voter, term)) ==> c.members.dom().contains(voter) && term
            <= c.members[voter].raft.term
    &&& forall|to: u8, term: u64, voter_id: u8| #[trigger]
        c.sent.contains((to, MessageView::VoteGranted { term, voter_id })) ==> has_ballot(
            c,
            voter_id,
            term,
            to,
        )
}

/// The vote that an event brings, with its term.
pub open spec fn granted_by(event: Event) -> Option<(u64, u8)> {
    match event {
        Event::Deliver { message: Message::VoteGranted { term, voter_id }, .. } => Some(
            (term, voter_id),
        ),
        _ => None,
    }
}

/// Whether the votes of a candidate have grown by a vote of this term at most.
spec fn votes_grow(before: Set<u8>, after: Set<u8>, term: u64, granted: Option<(u64, u8)>) -> bool {
    forall|v: u8| #[trigger]
        after.contains(v) ==> before.contains(v) || granted == Some((term, v))
}

/// What every event does to the term, the vote and the votes of a replica.
spec fn votes_move(
    s: Site,
    r: RaftView,
    after: RaftView,
    outputs: Seq<OutputView>,
    granted: Option<(u64, u8)>,
) -> bool {
    &&& after.term >= r.term
    &&& after.last_applied <= after.commit_index
    &&& after.term == r.term && r.voted_for is Some ==> after.voted_for == r.voted_for
    &&& backs_itself(s, r) ==> backs_itself(s, after)
    &&& forall|to: u8, term: u64, voter_id: u8| #[trigger]
        outputs.contains(
            OutputView::Send { to, message: MessageView::VoteGranted { term, voter_id } },
        ) ==> voter_id == s.self_id && term == after.term && after.voted_for == Some(to)
    &&& after.role == Role::Candidate ==> {
        ||| r.role == Role::Candidate && after.term == r.term && votes_grow(
            r.votes,
            after.votes,
            r.term,
            granted,
        )
        ||| after.votes == set![s.self_id] && after.voted_for == Some(s.self_id)
    }
    &&& after.role == Role::Leader ==> {
        ||| r.role == Role::Leader && after.votes == r.votes && after.leader_since_term
            == r.leader_since_term
        ||| r.role == Role::Candidate && after.leader_since_term == r.term && votes_grow(
            r.votes,
            after.votes,
            r.term,
            granted,
        )
    }
}

proof fn lemma_no_votes_in_requests(s: Site, r: RaftView)
    ensures
        forall|to: u8, term: u64, voter_id: u8|
            !(#[trigger] append_requests(s, r).contains(
                OutputView::Send { to, message: MessageView::VoteGranted { term, voter_id } },
            )),
        forall|to: u8, term: u64, voter_id: u8|
            !(#[trigger] vote_requests(s, r).contains(
                OutputView::Send { to, message: MessageView::VoteGranted { term, voter_id } },
            )),
{
    assert(forall|i: int|
        0 <= i < append_requests(s, r).len() ==> (#[trigger] append_requests(s, r)[i])->message is AppendEntries);
    assert(forall|i: int|
        0 <= i < vote_requests(s, r).len() ==> (#[trigger] vote_requests(s, r)[i])->message is RequestVote);
}

proof fn lemma_event_moves_votes(s: Site, r: RaftView, event: Event)
    requires
        r.last_applied <= r.commit_index,
        event is Tick ==> can_tick(r),
    ensures
        votes_move(
            s,
            r,
            event_step(s, r, event).raft,
            event_step(s, r, event).outputs,
            granted_by(event),
        ),
{
    match event {
        Event::Tick { now, timeout_ms } => lemma_tick_moves_votes(s, r, now, timeout_ms),
        Event::Deliver { now, timeout_ms, message } => {
            lemma_message_moves_votes(s, r, now, timeout_ms, message);
        },
        Event::Store { .. } | Event::Learn { .. } => {},
        Event::Answer { term, leader_id, leader_commit, end, success } => {
            law_answers_never_go_back(s, r, term, leader_id, leader_commit, end, success);
        },
        Event::Propose { now, entries } => {
            law_proposals_never_go_back(s, r, now, entries);
            let grown = RaftView {
                log: r.log + entries,
                match_index: r.match_index.insert(s.self_id, entries.last().index),
                ..r
            };
            lemma_no_votes_in_requests(s, grown);
            lemma_committed(s, grown, now);
        },
        Event::Drive { now } => {
            lemma_no_votes_in_requests(s, committed(s, r, now));
            lemma_committed(s, r, now);
        },
    }
}

proof fn lemma_win_sends_no_votes(s: Site, r: RaftView, now: u128)
    ensures
        forall|to: u8, term: u64, voter_id: u8|
            !(#[trigger] win_step(s, r, now).outputs.contains(
                OutputView::Send { to, message: MessageView::VoteGranted { term, voter_id } },
            )),
        win_step(s, r, now).raft.leader_since_term == r.term,
{
    let lead = lead_step(s, r, now);
    lemma_no_votes_in_requests(s, lead.raft);
    let requests = append_requests(s, lead.raft);
    let all = win_step(s, r, now).outputs;
    assert forall|to: u8, term: u64, voter_id: u8|
        !(#[trigger] all.contains(
            OutputView::Send { to, message: MessageView::VoteGranted { term, voter_id } },
        )) by {
        let vote = OutputView::Send { to, message: MessageView::VoteGranted { term, voter_id } };
        if all.contains(vote) {
            let k = choose|k: int| 0 <= k < all.len() && all[k] == vote;
            assert(all == lead.outputs + requests);
            if k >= lead.outputs.len() {
                assert(requests[k - lead.outputs.len()] == vote);
                assert(requests.contains(vote));
            }
        }
    }
}

proof fn lemma_tick_moves_votes(s: Site, r: RaftView, now: u128, timeout_ms: u64)
    requires
        r.last_applied <= r.commit_index,
        can_tick(r),
    ensures
        votes_move(
            s,
            r,
            tick_step(s, r, now, timeout_ms).raft,
            tick_step(s, r, now, timeout_ms).outputs,
            None,
        ),
{
    let refresh = refresh_step(s, r, now);
    let at = refresh.raft;
    let step = tick_step(s, r, now, timeout_ms);
    let acted = crate::process::raft_model::role_step(s, at, now, timeout_ms);
    lemma_win(s, at, now);
    lemma_win_sends_no_votes(s, at, now);
    lemma_no_votes_in_requests(s, at);
    lemma_no_votes_in_requests(
        s,
        crate::process::raft_model::standing(s, at, now, timeout_ms),
    );
    assert forall|to: u8, term: u64, voter_id: u8|
        !(#[trigger] step.outputs.contains(
            OutputView::Send { to, message: MessageView::VoteGranted { term, voter_id } },
        )) by {
        let vote = OutputView::Send { to, message: MessageView::VoteGranted { term, voter_id } };
        assert(!acted.outputs.contains(vote));
        if step.outputs.contains(vote) {
            let k = choose|k: int| 0 <= k < step.outputs.len() && step.outputs[k] == vote;
            assert(step.outputs == refresh.outputs + acted.outputs);
            if k >= refresh.outputs.len() {
                assert(acted.outputs[k - refresh.outputs.len()] == vote);
            } else {
                assert(refresh.outputs[k] is Announce);
            }
        }
    }
}

proof fn lemma_message_moves_votes(
    s: Site,
    r: RaftView,
    now: u128,
    timeout_ms: u64,
    message: Message,
)
    requires
        r.last_applied <= r.commit_index,
    ensures
        votes_move(
            s,
            r,
            message_step(s, r, now, timeout_ms, message).raft,
            message_step(s, r, now, timeout_ms, message).outputs,
            granted_by(Event::Deliver { now, timeout_ms, message }),
        ),
{
    let step = message_step(s, r, now, timeout_ms, message);
    let marked = met(s, r, message.spec_sender(), now);
    let fenced = fence_step(s, marked, now, timeout_ms, message).raft;
    if let Some(candidate) = r.voted_for {
        law_one_vote_per_term(s, r, now, timeout_ms, message, candidate);
    }
    if backs_itself(s, r) {
        law_own_vote(s, r, now, timeout_ms, message, s.self_id, s.self_id);
    }
    assert forall|to: u8, term: u64, voter_id: u8| #[trigger]
        step.outputs.contains(
            OutputView::Send { to, message: MessageView::VoteGranted { term, voter_id } },
        ) implies voter_id == s.self_id && term == step.raft.term && step.raft.voted_for
        == Some(to) by {
        law_votes_are_bound(s, r, now, timeout_ms, message, to, term, voter_id);
    }
    match message {
        Message::VoteGranted { term, voter_id } => {
            let counted = RaftView {
                votes: fenced.votes.insert(voter_id),
                last_heartbeat: now,
                ..fenced
            };
            lemma_win(s, counted, now);
            lemma_win_sends_no_votes(s, counted, now);
        },
        Message::AppendAck { term, follower_id, success, match_index } => {
            lemma_committed(
                s,
                RaftView {
                    match_index: fenced.match_index.insert(follower_id, match_index),
                    next_index: fenced.next_index.insert(follower_id, (match_index + 1) as u64),
                    peer_last_ack: fenced.peer_last_ack.insert(follower_id, now),
                    ..fenced
                },
                now,
            );
        },
        _ => {},
    }
}

/// A cluster whose replicas have just started fits.
pub proof fn law_new_cluster_fits(
    sites: Map<u8, Site>,
    logs: Map<u8, Seq<LogEntry>>,
    now: u128,
    timeouts: Map<u8, u64>,
)
    requires
        sites.dom().finite(),
        forall|id: u8| #[trigger]
            sites.dom().contains(id) ==> sites[id].self_id == id && sites[id].peers.len() + 1
                == sites.dom().len(),
    ensures
        cluster_wf(
            Cluster {
                members: Map::new(
                    |id: u8| sites.dom().contains(id),
                    |id: u8|
                        Member {
                            site: sites[id],
                            raft: initial_raft(sites[id].peers, logs[id], now, timeouts[id]),
                        },
                ),
                sent: Set::empty(),
                ballots: Map::empty(),
            },
        ),
{
    let c = Cluster {
        members: Map::new(
            |id: u8| sites.dom().contains(id),
            |id: u8|
                Member {
                    site: sites[id],
                    raft: initial_raft(sites[id].peers, logs[id], now, timeouts[id]),
                },
        ),
        sent: Set::empty(),
        ballots: Map::empty(),
    };
    assert(c.members.dom() =~= sites.dom());
}

/// Whatever happens to whichever replica, the cluster goes on to fit.
pub proof fn law_events_keep_the_cluster_fit(c: Cluster, id: u8, event: Event)
    requires
        cluster_wf(c),
        can_happen(c, id, event),
    ensures
        cluster_wf(happened(c, id, event)),
{
    let before = c.members[id];
    let s = before.site;
    let r = before.raft;
    assert(member_fits(c, id));
    let step = event_step(s, r, event);
    let r2 = step.raft;
    let granted = granted_by(event);
    lemma_event_moves_votes(s, r, event);
    let c2 = happened(c, id, event);
    assert(c2.members.dom() =~= c.members.dom());
    // no ballot is changed
    assert forall|voter: u8, term: u64, candidate: u8| #[trigger]
        has_ballot(c, voter, term, candidate) implies has_ballot(c2, voter, term, candidate) by {
        if voter == id && term == r2.term && r2.voted_for is Some {
            assert(c.ballots.dom().contains((voter, term)));
            assert(term <= r.term);
        }
    }
    if let Some(candidate) = r2.voted_for {
        assert(has_ballot(c2, id, r2.term, candidate));
    }
    if let Some((term, voter)) = granted {
        assert(c.sent.contains((id, MessageView::VoteGranted { term, voter_id: voter })));
        assert(has_ballot(c, voter, term, id));
    }
    assert forall|voter: u8, term: u64| #[trigger]
        c2.ballots.dom().contains((voter, term)) implies c2.members.dom().contains(voter) && term
        <= c2.members[voter].raft.term by {
        if !(voter == id && term == r2.term) {
            assert(c.ballots.dom().contains((voter, term)));
        }
    }
    assert forall|to: u8, term: u64, voter_id: u8| #[trigger]
        c2.sent.contains((to, MessageView::VoteGranted { term, voter_id })) implies has_ballot(
        c2,
        voter_id,
        term,
        to,
    ) by {
        if c.sent.contains((to, MessageView::VoteGranted { term, voter_id })) {
            assert(has_ballot(c, voter_id, term, to));
        } else {
            assert(step.outputs.contains(
                OutputView::Send { to, message: MessageView::VoteGranted { term, voter_id } },
            ));
        }
    }
    assert forall|other: u8| #[trigger] c2.members.dom().contains(other) implies member_fits(
        c2,
        other,
    ) by {
        assert(member_fits(c, other));
        if other == id {
            lemma_acting_member_fits(c, id, event);
        } else {
            let o = c.members[other].raft;
            assert(c2.members[other] == c.members[other]);
            if let Some(candidate) = o.voted_for {
                assert(has_ballot(c, other, o.term, candidate));
            }
            if o.role == Role::Candidate {
                assert forall|v: u8| #[trigger] o.votes.contains(v) implies has_ballot(
                    c2,
                    v,
                    o.term,
                    other,
                ) by {
                    assert(has_ballot(c, v, o.term, other));
                }
            }
            if o.role == Role::Leader {
                assert forall|v: u8| #[trigger] o.votes.contains(v) implies has_ballot(
                    c2,
                    v,
                    o.leader_since_term,
                    other,
                ) by {
                    assert(has_ballot(c, v, o.leader_since_term, other));
                }
            }
        }
    }
}

/// A ballot that was cast stays as it is.
pub proof fn lemma_ballots_stay(c: Cluster, id: u8, event: Event, voter: u8, term: u64, candidate: u8)
    requires
        cluster_wf(c),
        can_happen(c, id, event),
        has_ballot(c, voter, term, candidate),
    ensures
        has_ballot(happened(c, id, event), voter, term, candidate),
{
    let r = c.members[id].raft;
    assert(member_fits(c, id));
    lemma_event_moves_votes(c.members[id].site, r, event);
    assert(c.ballots.dom().contains((voter, term)));
}

proof fn lemma_acting_member_fits(c: Cluster, id: u8, event: Event)
    requires
        cluster_wf(c),
        can_happen(c, id, event),
    ensures
        member_fits(happened(c, id, event), id),
{
    let s = c.members[id].site;
    let r = c.members[id].raft;
    assert(member_fits(c, id));
    let step = event_step(s, r, event);
    let r2 = step.raft;
    let granted = granted_by(event);
    lemma_event_moves_votes(s, r, event);
    let c2 = happened(c, id, event);
    assert(c2.members.dom() =~= c.members.dom());
    assert(c2.members[id].raft == r2);
    if c2.ballots.dom().contains((id, r2.term)) && r2.voted_for is None {
        assert(c.ballots.dom().contains((id, r2.term)));
        assert(r2.term <= r.term);
    }
    if r2.role == Role::Candidate {
        assert forall|v: u8| #[trigger] r2.votes.contains(v) implies has_ballot(
            c2,
            v,
            r2.term,
            id,
        ) by {
            if !(r2.votes == set![s.self_id] && r2.voted_for == Some(s.self_id)) {
                if !r.votes.contains(v) {
                    assert(c.sent.contains((id, MessageView::VoteGranted { term: r.term, voter_id: v })));
                }
                assert(has_ballot(c, v, r.term, id));
                lemma_ballots_stay(c, id, event, v, r.term, id);
            }
        }
    }
    if r2.role == Role::Leader {
        assert forall|v: u8| #[trigger] r2.votes.contains(v) implies has_ballot(
            c2,
            v,
            r2.leader_since_term,
            id,
        ) by {
            if r.role == Role::Leader && r2.votes == r.votes && r2.leader_since_term
                == r.leader_since_term {
                assert(has_ballot(c, v, r.leader_since_term, id));
                lemma_ballots_stay(c, id, event, v, r.leader_since_term, id);
            } else {
                if !r.votes.contains(v) {
                    assert(c.sent.contains((id, MessageView::VoteGranted { term: r.term, voter_id: v })));
                }
                assert(has_ballot(c, v, r.term, id));
                lemma_ballots_stay(c, id, event, v, r.term, id);
            }
        }
    }
}

/// Whoever stands for election or leads has its own ballot of its term.
pub proof fn law_own_ballot(c: Cluster, id: u8)
    requires
        cluster_wf(c),
        c.members.dom().contains(id),
        c.members[id].raft.role != Role::Follower,
    ensures
        has_ballot(c, id, c.members[id].raft.term, id),
{
    assert(member_fits(c, id));
}

/// No term has two winners: two replicas that lead since the same term, each
/// with the votes of a majority, are the same one.
pub proof fn law_one_elected_leader_per_term(c: Cluster, a: u8, b: u8)
    requires
        cluster_wf(c),
        c.members.dom().contains(a),
        c.members.dom().contains(b),
        c.members[a].raft.role == Role::Leader,
        c.members[b].raft.role == Role::Leader,
        c.members[a].raft.leader_since_term == c.members[b].raft.leader_since_term,
        c.members[a].raft.votes.len() >= majority(c.members[a].site),
        c.members[b].raft.votes.len() >= majority(c.members[b].site),
    ensures
        a == b,
{
    let ra = c.members[a].raft;
    let rb = c.members[b].raft;
    let term = ra.leader_since_term;
    assert(member_fits(c, a));
    assert(member_fits(c, b));
    assert forall|v: u8| ra.votes.contains(v) implies c.members.dom().contains(v) by {
        assert(has_ballot(c, v, term, a));
    }
    assert forall|v: u8| rb.votes.contains(v) implies c.members.dom().contains(v) by {
        assert(has_ballot(c, v, term, b));
    }
    law_majorities_intersect(c.members[a].site, c.members.dom(), ra.votes, rb.votes);
    let v = choose|v: u8| ra.votes.contains(v) && rb.votes.contains(v);
    assert(has_ballot(c, v, term, a));
    assert(has_ballot(c, v, term, b));
}

} // verus!
