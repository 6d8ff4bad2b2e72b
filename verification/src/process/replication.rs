//! What a leader sends, when an entry counts as committed, and when it is
//! applied.

use crate::clock::passed;
use crate::process::conduct::end_of;
use crate::process::config::{node_of, S2Node};
use crate::process::isolation::lemma_count;
use crate::process::leader_election::{
    append_owed, batch_polled, command_polled, expired, output_views, proposed, tick_pause_of,
    AppendWork, Proposal, ProposalStep,
};
use crate::process::log_entry::{views, LogEntry, ReplicatedCommand};
use crate::process::message::{Message, MessageView};
use crate::process::raft_laws::{law_commit_needs_quorum, law_replication_makes_progress};
use crate::process::raft_model::{
    answer_append_step, append_request, applicable, commands_at, committable, committed,
    has_acknowledged, message_step, met, propose_step, quorum, replica_count, request_end,
    total_size, within_budget, OutputView, RaftView, Role, Site,
};
use crate::process::safety::lemma_from_index_of_contiguous;
use crate::process::wal::{
    accepts_append, batch_entries, contiguous, from_index_of, lemma_contiguous_entry,
};
use vstd::prelude::*;

verus! {

/// The append request for a follower goes on where that follower's log is taken
/// to end: it names the entry before its next index and carries the entries from
/// there on, at least one if there is one, and as many as fit 1400 bytes
/// together. It says how far the leader has committed.
pub proof fn law_requests_carry_what_is_missing(s: Site, r: RaftView, id: u8)
    requires
        contiguous(r.log),
        r.next_index.dom().contains(id),
        1 <= r.next_index[id] <= r.log.len() + 1,
    ensures
        ({
            let prev = r.next_index[id] - 1;
            &&& append_request(s, r, id) matches MessageView::AppendEntries {
                term,
                leader_id,
                prev_log_index,
                prev_log_term,
                entries,
                leader_commit,
            }
            &&& term == r.term
            &&& leader_id == s.self_id
            &&& leader_commit == r.commit_index
            &&& prev_log_index == prev
            &&& prev_log_term == (if prev == 0 {
                0
            } else {
                r.log[prev - 1].term
            })
            &&& prev + entries.len() <= r.log.len()
            &&& forall|j: int| 0 <= j < entries.len() ==> #[trigger] entries[j] == r.log[prev + j]@
            &&& prev < r.log.len() ==> entries.len() >= 1
            &&& entries.len() > 1 ==> total_size(r.log.subrange(prev, prev + entries.len()))
                <= 1400
            &&& prev + entries.len() < r.log.len() ==> total_size(
                r.log.subrange(prev, prev + entries.len() + 1),
            ) > 1400
        }),
{
    let next = r.next_index[id];
    let prev = next - 1;
    lemma_contiguous_entry(r.log, prev as u64);
    if r.log.len() > 0 {
        assert(r.log[r.log.len() - 1].index == r.log.len());
    }
    if next <= r.log.len() {
        lemma_from_index_of_contiguous(r.log, next);
        let rest = from_index_of(r.log, next);
        law_replication_makes_progress(rest, 1400);
        let sent = within_budget(rest, 1400);
        assert(sent =~= r.log.subrange(prev, prev + sent.len()));
        if sent.len() < rest.len() {
            assert(rest.take(sent.len() as int + 1) =~= r.log.subrange(
                prev,
                prev + sent.len() + 1,
            ));
        }
        let sent_views = views(sent);
        assert forall|j: int| 0 <= j < sent_views.len() implies #[trigger] sent_views[j]
            == r.log[prev + j]@ by {
            assert(sent[j] == r.log[prev + j]);
        }
    }
}

/// The bytes of entries are those of the first ones and those of the last one.
pub proof fn law_sizes_add_up(entries: Seq<LogEntry>, entry: LogEntry)
    ensures
        total_size(entries.push(entry)) == total_size(entries) + crate::wire::entry_layout(
            entry@,
        ).len(),
        total_size(Seq::<LogEntry>::empty()) == 0,
{
    assert(entries.push(entry).drop_last() =~= entries);
}

/// A follower takes over the entries of an append request if and only if they
/// stand behind no entry at all, or behind one that its log holds with the same
/// term.
pub proof fn law_appends_are_accepted(log: Seq<LogEntry>, prev_log_index: u64, prev_log_term: u64)
    requires
        contiguous(log),
    ensures
        accepts_append(log, prev_log_index, prev_log_term) <==> if prev_log_index == 0 {
            prev_log_term == 0
        } else {
            prev_log_index <= log.len() && log[prev_log_index - 1].term == prev_log_term
        },
{
    lemma_contiguous_entry(log, prev_log_index);
    if log.len() > 0 {
        assert(log[log.len() - 1].index == log.len());
    }
}

proof fn lemma_applies_all(log: Seq<LogEntry>, from: u64, commit: u64)
    requires
        contiguous(log),
        from <= commit <= log.len(),
    ensures
        applicable(log, from, commit) == commit,
    decreases commit - from,
{
    if from < commit {
        lemma_contiguous_entry(log, (from + 1) as u64);
        lemma_applies_all(log, (from + 1) as u64, commit);
    }
}

/// How many of the peers have acknowledged the log up to this index.
pub open spec fn holders(s: Site, r: RaftView, index: int) -> nat {
    s.peers.filter(
        |n: S2Node| r.match_index.dom().contains(n.id) && r.match_index[n.id] >= index,
    ).len()
}

proof fn lemma_holders(s: Site, r: RaftView, index: u64)
    ensures
        replica_count(s, r, index) == 1 + holders(s, r, index as int),
{
    let f = has_acknowledged(r, index);
    lemma_count(s.peers, f);
    let a = |n: S2Node| f(n.id);
    let b = |n: S2Node| r.match_index.dom().contains(n.id) && r.match_index[n.id] >= index as int;
    assert(a =~= b);
}

/// An entry of the present leadership is committed, with all before it, as soon
/// as the leader and the peers that have acknowledged it are a quorum. No other
/// entry raises the commit index. What is committed is applied at once, and
/// nothing else changes.
pub proof fn law_acknowledged_entries_commit(s: Site, r: RaftView, now: u128, k: int)
    requires
        contiguous(r.log),
        r.last_applied <= r.commit_index <= r.log.len(),
    ensures
        ({
            let after = committed(s, r, now);
            let c = after.commit_index as int;
            let needed = quorum(s, r, now);
            &&& 0 < k <= r.log.len() && 1 + holders(s, r, k) >= needed && r.leader_since_term
                <= r.log[k - 1].term <= r.term ==> k <= c
            &&& r.commit_index <= c <= r.log.len()
            &&& c > r.commit_index ==> 1 + holders(s, r, c) >= needed && r.leader_since_term
                <= r.log[c - 1].term <= r.term
            &&& after.last_applied == after.commit_index
            &&& after == (RaftView {
                commit_index: after.commit_index,
                last_applied: after.last_applied,
                ..r
            })
        }),
{
    law_commit_needs_quorum(s, r, now);
    let after = committed(s, r, now);
    let c = after.commit_index;
    if r.log.len() > 0 {
        assert(r.log[r.log.len() - 1].index == r.log.len());
    }
    lemma_holders(s, r, c);
    lemma_contiguous_entry(r.log, c);
    if c > r.commit_index {
        assert(committable(s, r, quorum(s, r, now), c));
    }
    if 0 < k <= r.log.len() {
        let index = k as u64;
        assert(r.log[k - 1].index == k);
        assert(index == k);
        lemma_holders(s, r, index);
        lemma_contiguous_entry(r.log, index);
        assert(c < index ==> !committable(s, r, quorum(s, r, now), index));
    }
    lemma_applies_all(r.log, r.last_applied, c);
}

/// An acknowledgement of the leader's term is noted: the follower holds the log
/// up to the index that it names, is sent what lies behind it, and has been
/// heard of just now. An entry of the present leadership that more than half of
/// the cluster then holds is committed and applied.
pub proof fn law_acks_advance(
    s: Site,
    r: RaftView,
    now: u128,
    timeout_ms: u64,
    follower_id: u8,
    match_index: u64,
    k: int,
)
    requires
        r.role == Role::Leader,
        match_index < u64::MAX,
        contiguous(r.log),
        r.last_applied <= r.commit_index <= r.log.len(),
    ensures
        ({
            let step = message_step(
                s,
                r,
                now,
                timeout_ms,
                Message::AppendAck { term: r.term, follower_id, success: true, match_index },
            );
            let after = step.raft;
            &&& step.outputs.len() == 0
            &&& after.role == Role::Leader && after.term == r.term && after.log == r.log
            &&& after.match_index == r.match_index.insert(follower_id, match_index)
            &&& after.next_index.dom().contains(follower_id)
            &&& after.next_index[follower_id] == match_index + 1
            &&& forall|id: u8|
                id != follower_id ==> (after.next_index.dom().contains(id)
                    <==> r.next_index.dom().contains(id)) && #[trigger] after.next_index[id]
                    == r.next_index[id]
            &&& after.peer_last_ack == r.peer_last_ack.insert(follower_id, now)
            &&& 0 < k <= r.log.len() && 2 * (1 + holders(s, after, k)) > s.peers.len() + 1
                && r.leader_since_term <= r.log[k - 1].term <= r.term ==> k <= after.commit_index
            &&& after.last_applied == after.commit_index
        }),
{
    let marked = met(s, r, follower_id, now);
    let noted = RaftView {
        match_index: marked.match_index.insert(follower_id, match_index),
        next_index: marked.next_index.insert(follower_id, (match_index + 1) as u64),
        peer_last_ack: marked.peer_last_ack.insert(follower_id, now),
        ..marked
    };
    let step = message_step(
        s,
        r,
        now,
        timeout_ms,
        Message::AppendAck { term: r.term, follower_id, success: true, match_index },
    );
    assert(step.raft == committed(s, noted, now));
    law_acknowledged_entries_commit(s, noted, now, k);
    assert(step.raft.match_index == noted.match_index);
    assert(holders(s, noted, k) == holders(s, step.raft, k));
}

/// A follower that has taken over an append request up to the index `end`
/// commits, and applies, exactly what the leader has committed of it. It answers
/// the leader how far the two logs match; where it has not taken it over, how
/// far its own log reaches.
pub proof fn law_followers_answer(
    s: Site,
    r: RaftView,
    term: u64,
    leader_id: u8,
    leader_commit: u64,
    end: u64,
    success: bool,
    k: int,
)
    requires
        contiguous(r.log),
        r.last_applied <= r.commit_index <= r.log.len(),
        node_of(s.config.nodes@, leader_id) is Some,
    ensures
        ({
            let step = answer_append_step(s, r, term, leader_id, leader_commit, end, success);
            let c = step.raft.commit_index as int;
            &&& success && 0 <= k <= leader_commit && k <= end && k <= r.log.len() ==> k <= c
            &&& c >= r.commit_index
            &&& c > r.commit_index ==> success && c <= leader_commit && c <= end && c
                <= r.log.len()
            &&& step.raft.last_applied == step.raft.commit_index
            &&& step.raft == (RaftView {
                commit_index: step.raft.commit_index,
                last_applied: step.raft.last_applied,
                ..r
            })
            &&& step.outputs.len() == 1
            &&& step.outputs[0] matches OutputView::Send { to, message }
            &&& to == leader_id
            &&& message matches MessageView::AppendAck {
                term: its,
                follower_id,
                success: taken,
                match_index,
            }
            &&& its == term && follower_id == s.self_id && taken == success
            &&& success ==> match_index <= end && match_index <= r.log.len() && (match_index == end
                || match_index == r.log.len())
            &&& !success ==> match_index == r.log.len()
        }),
{
    if r.log.len() > 0 {
        assert(r.log[r.log.len() - 1].index == r.log.len());
    }
    let step = answer_append_step(s, r, term, leader_id, leader_commit, end, success);
    lemma_applies_all(r.log, r.last_applied, step.raft.commit_index);
}

/// The last entry of an append request lies as far behind the entry that it
/// names as it has entries.
pub proof fn law_request_ends(prev_log_index: u64, count: nat)
    ensures
        prev_log_index + count <= u64::MAX ==> request_end(prev_log_index, count)
            == prev_log_index + count,
        prev_log_index + count > u64::MAX ==> request_end(prev_log_index, count) == u64::MAX,
{
}

/// A leader adds its own entries behind its log, counts itself among those that
/// hold them, and sends an append request to every peer at once. What its own
/// log makes a quorum is committed and applied.
pub proof fn law_proposals_are_replicated(
    s: Site,
    r: RaftView,
    now: u128,
    commands: Seq<ReplicatedCommand>,
    i: int,
    k: int,
)
    requires
        r.role == Role::Leader,
        contiguous(r.log),
        commands.len() > 0,
        r.log.len() + commands.len() < u64::MAX,
        r.last_applied <= r.commit_index <= r.log.len(),
        0 <= i < s.peers.len(),
    ensures
        ({
            let entries = batch_entries(end_of(r.log).1, r.term, commands);
            let step = propose_step(s, r, now, entries);
            let after = step.raft;
            &&& after.log.len() == r.log.len() + commands.len()
            &&& forall|j: int| 0 <= j < r.log.len() ==> #[trigger] after.log[j] == r.log[j]
            &&& forall|j: int|
                0 <= j < commands.len() ==> {
                    let entry = #[trigger] after.log[r.log.len() + j];
                    entry.command == commands[j] && entry.term == r.term && entry.index
                        == r.log.len() + j + 1
                }
            &&& after.match_index.dom().contains(s.self_id)
            &&& after.match_index[s.self_id] == after.log.len()
            &&& after.role == Role::Leader && after.term == r.term
            &&& after.next_index == r.next_index
            &&& after.last_applied == after.commit_index
            &&& r.commit_index <= after.commit_index <= after.log.len()
            &&& 0 < k <= after.log.len() && 2 * (1 + holders(s, after, k)) > s.peers.len() + 1
                && r.leader_since_term <= after.log[k - 1].term <= r.term ==> k
                <= after.commit_index
            &&& step.outputs.len() == s.peers.len()
            &&& step.outputs[i] matches OutputView::Send { to, message }
            &&& to == s.peers[i].id
            &&& message matches MessageView::AppendEntries { term, leader_id, .. }
            &&& term == r.term && leader_id == s.self_id
        }),
{
    if r.log.len() > 0 {
        assert(r.log[r.log.len() - 1].index == r.log.len());
    }
    let entries = batch_entries(end_of(r.log).1, r.term, commands);
    let grown = RaftView {
        log: r.log + entries,
        match_index: r.match_index.insert(s.self_id, entries.last().index),
        ..r
    };
    assert forall|j: int| 0 <= j < grown.log.len() implies (#[trigger] grown.log[j]).index == j
        + 1 by {
        if j < r.log.len() {
            assert(grown.log[j] == r.log[j]);
        } else {
            assert(grown.log[j] == entries[j - r.log.len()]);
        }
    }
    law_acknowledged_entries_commit(s, grown, now, k);
    let after = propose_step(s, r, now, entries).raft;
    assert(after.match_index == grown.match_index);
    assert(holders(s, grown, k) == holders(s, after, k));
    assert forall|j: int| 0 <= j < commands.len() implies ({
        let entry = #[trigger] after.log[r.log.len() + j];
        entry.command == commands[j] && entry.term == r.term && entry.index == r.log.len() + j + 1
    }) by {
        assert(after.log[r.log.len() + j] == entries[j]);
    }
}

/// The commands of a committed proposal are those of its entries, in order.
pub proof fn law_commands_of_indexes(log: Seq<LogEntry>, indexes: Seq<u64>, i: int)
    requires
        contiguous(log),
        forall|j: int| 0 <= j < indexes.len() ==> 0 < #[trigger] indexes[j] <= log.len(),
        0 <= i < indexes.len(),
    ensures
        commands_at(log, indexes).len() == indexes.len(),
        commands_at(log, indexes)[i] == log[indexes[i] - 1].command,
    decreases indexes.len(),
{
    let init = indexes.drop_last();
    lemma_contiguous_entry(log, indexes.last());
    assert(indexes.last() == indexes[indexes.len() - 1]);
    assert forall|j: int| 0 <= j < init.len() implies 0 < #[trigger] init[j] <= log.len() by {
        assert(init[j] == indexes[j]);
    }
    if init.len() == 0 {
        assert(commands_at(log, init) =~= Seq::empty());
    }
    if i < init.len() {
        law_commands_of_indexes(log, init, i);
    } else if init.len() > 0 {
        law_commands_of_indexes(log, init, 0);
    }
}

/// A proposal is given up if and only if it has waited for a second and a half.
pub proof fn law_proposals_wait(proposal: Proposal, now: u128)
    ensures
        expired(proposal, now) <==> passed(proposal.started_at, now, 1500),
{
}

/// An append request is worked off if and only if its term is not behind. Its
/// entries are taken over if and only if they stand behind no entry at all, or
/// behind one that the log holds with the same term; all of them are, from the
/// first on, and the work ends with the last one.
pub proof fn law_append_work_is_owed(r: RaftView, message: Message, append: Option<AppendWork>)
    requires
        append_owed(r, message, append),
        contiguous(r.log),
    ensures
        message matches Message::AppendEntries {
            term,
            leader_id,
            prev_log_index,
            prev_log_term,
            entries,
            leader_commit,
        } ==> {
            &&& append is Some <==> term >= r.term
            &&& append matches Some(work) ==> {
                &&& work.term == term && work.leader_id == leader_id
                &&& work.leader_commit == leader_commit
                &&& prev_log_index + entries@.len() <= u64::MAX ==> work.end == prev_log_index
                    + entries@.len()
                &&& work.progress is Some <==> if prev_log_index == 0 {
                    prev_log_term == 0
                } else {
                    prev_log_index <= r.log.len() && r.log[prev_log_index - 1].term
                        == prev_log_term
                }
                &&& work.progress matches Some(p) ==> p.incoming() == entries@ && p.next() == 0
            }
        },
        !(message is AppendEntries) ==> append is None,
{
    if let Message::AppendEntries { prev_log_index, prev_log_term, .. } = message {
        law_appends_are_accepted(r.log, prev_log_index, prev_log_term);
    }
}

/// Whether a proposal's indexes are those of entries of the log.
pub open spec fn in_log(proposal: Proposal, log: Seq<LogEntry>) -> bool {
    &&& proposal.indexes@.len() > 0
    &&& forall|i: int|
        0 <= i < proposal.indexes@.len() ==> 0 < #[trigger] proposal.indexes@[i] <= log.len()
}

/// Whether these are the commands of a proposal's entries, in order.
pub open spec fn answers(
    proposal: Proposal,
    log: Seq<LogEntry>,
    commands: Seq<ReplicatedCommand>,
) -> bool {
    &&& commands.len() == proposal.indexes@.len()
    &&& forall|i: int|
        0 <= i < commands.len() ==> #[trigger] commands[i] == log[proposal.indexes@[i] - 1].command
}

proof fn lemma_answers(proposal: Proposal, log: Seq<LogEntry>)
    requires
        contiguous(log),
        in_log(proposal, log),
    ensures
        answers(proposal, log, commands_at(log, proposal.indexes@)),
{
    law_commands_of_indexes(log, proposal.indexes@, 0);
    assert forall|i: int| 0 <= i < proposal.indexes@.len() implies #[trigger] commands_at(
        log,
        proposal.indexes@,
    )[i] == log[proposal.indexes@[i] - 1].command by {
        law_commands_of_indexes(log, proposal.indexes@, i);
    }
}

/// Whether each peer is sent an append request of this term.
pub open spec fn appends_to_each(s: Site, term: u64, outputs: Seq<OutputView>) -> bool {
    &&& outputs.len() == s.peers.len()
    &&& forall|i: int|
        0 <= i < outputs.len() ==> {
            &&& #[trigger] outputs[i] matches OutputView::Send { to, message }
            &&& to == s.peers[i].id
            &&& message matches MessageView::AppendEntries { term: its, leader_id, .. }
            &&& its == term && leader_id == s.self_id
        }
}

/// A proposed batch expires a second and a half after it was made. Until then it
/// is lost if the replica no longer leads, answered with its own commands once
/// all its entries are applied, and sent to every peer again while they are not.
/// What more than half of the cluster has acknowledged is applied by then.
pub proof fn law_batches_are_answered(
    s: Site,
    before: RaftView,
    after: RaftView,
    now: u128,
    proposal: Proposal,
    step: ProposalStep,
    k: int,
)
    requires
        batch_polled(s, before, after, now, proposal, step),
        contiguous(before.log),
        before.last_applied <= before.commit_index <= before.log.len(),
        in_log(proposal, before.log),
    ensures
        step is Expired <==> passed(proposal.started_at, now, 1500),
        step is Expired ==> after == before,
        !(step is Expired) ==> {
            &&& step is Lost <==> before.role != Role::Leader
            &&& step is Committed <==> before.role == Role::Leader && after.last_applied
                >= proposal.indexes@.last()
            &&& step matches ProposalStep::Committed { commands } ==> answers(
                proposal,
                before.log,
                commands@,
            )
            &&& step matches ProposalStep::Pending { outputs } ==> appends_to_each(
                s,
                before.term,
                output_views(outputs@),
            )
            &&& after.log == before.log
            &&& after.last_applied >= before.last_applied
            &&& 0 < k <= before.log.len() && 2 * (1 + holders(s, before, k)) > s.peers.len() + 1
                && before.leader_since_term <= before.log[k - 1].term <= before.term ==> k
                <= after.last_applied
        },
{
    lemma_answers(proposal, before.log);
    law_acknowledged_entries_commit(s, before, now, k);
}

/// A proposed command expires a second and a half after it was made. Until then
/// it is lost if the replica no longer leads, answered with its own command once
/// it is applied, and sent to every peer again while it is not. What more than
/// half of the cluster has acknowledged is applied for the next look.
pub proof fn law_commands_are_answered(
    s: Site,
    before: RaftView,
    after: RaftView,
    now: u128,
    proposal: Proposal,
    step: ProposalStep,
    k: int,
)
    requires
        command_polled(s, before, after, now, proposal, step),
        contiguous(before.log),
        before.last_applied <= before.commit_index <= before.log.len(),
        in_log(proposal, before.log),
    ensures
        step is Expired <==> passed(proposal.started_at, now, 1500),
        !(step is Pending) ==> after == before,
        !(step is Expired) ==> {
            &&& step is Lost <==> before.role != Role::Leader
            &&& step is Committed <==> before.role == Role::Leader && before.last_applied
                >= proposal.indexes@.last()
            &&& step matches ProposalStep::Committed { commands } ==> answers(
                proposal,
                before.log,
                commands@,
            )
            &&& step matches ProposalStep::Pending { outputs } ==> appends_to_each(
                s,
                before.term,
                output_views(outputs@),
            )
            &&& step is Pending && 0 < k <= before.log.len() && 2 * (1 + holders(s, before, k))
                > s.peers.len() + 1 && before.leader_since_term <= before.log[k - 1].term
                <= before.term ==> k <= after.last_applied
        },
{
    lemma_answers(proposal, before.log);
    law_acknowledged_entries_commit(s, before, now, k);
}

/// The clock of a replica pauses for 50 milliseconds after a tick; that of a
/// leader whose heartbeat is slower, for a heartbeat.
pub proof fn law_clock_pauses(s: Site, r: RaftView)
    ensures
        ({
            let pause = tick_pause_of(s, r);
            &&& pause >= 50
            &&& r.role != Role::Leader ==> pause == 50
            &&& r.role == Role::Leader ==> pause >= s.config.heartbeat_interval_ms
            &&& pause == 50 || pause == s.config.heartbeat_interval_ms
        }),
{
}

/// A proposal waits for each of its entries, in order, from the instant at which it
/// was made.
pub proof fn law_proposals_name_their_entries(
    proposal: Proposal,
    entries: Seq<LogEntry>,
    now: u128,
    i: int,
)
    requires
        proposed(proposal, entries, now),
        0 <= i < entries.len(),
    ensures
        proposal.indexes@.len() == entries.len(),
        proposal.indexes@[i] == entries[i].index,
        proposal.started_at == now,
{
}

} // verus!
