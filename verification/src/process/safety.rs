//! Nothing that a majority holds is lost when the leadership passes on.
//!
//! This follows a cluster whose replicas have started with empty logs and are
//! not restarted, in which every leader has the votes of a majority, and in
//! which no leader goes on to lead in a term that it was not elected in.

use crate::process::cluster::{
    can_happen, cluster_wf, event_step, happened, has_ballot, law_events_keep_the_cluster_fit,
    law_new_cluster_fits, lemma_ballots_stay, member_fits, Cluster, Event, Member,
};
use crate::process::log_entry::{views, EntryView, LogEntry, ReplicatedCommand};
use crate::process::message::{Message, MessageView};
use crate::process::raft_laws::{
    law_majorities_intersect, law_messages_never_go_back, lemma_committed, lemma_win};
use crate::process::raft_model::{
    append_request, append_requests, can_tick, committed, fence_step, initial_raft, lead_step,
    log_is_current, majority, message_step, met, next_for, prev_for, refresh_step, request_end,
    role_step, standing, stays_leader, tick_step, vote_request_step, vote_requests, vote_step,
    win_step, within_budget, APPEND_BATCH_BYTE_BUDGET, OutputView, RaftView, Role, Site,
};
use crate::process::wal::{
    accepts_append, batch_entries, below, contiguous, entry_of, from_index_of, last_index_of,
    last_term_of, lemma_contiguous_below, lemma_contiguous_entry, lemma_skip_below, merge,
    merge_one,
};
use crate::process::witness_client::CachedVerdict;
use vstd::prelude::*;

verus! {

/// The time of one leader: who it was, who had voted for it, and its log, as
/// far as it has come.
#[verifier::ext_equal]
pub struct Reign {
    pub leader: u8,
    pub voters: Set<u8>,
    pub log: Seq<EntryView>,
}

/// The index of the last entry, or 0.
pub open spec fn end_index(log: Seq<EntryView>) -> u64 {
    if log.len() == 0 {
        0
    } else {
        log.last().index
    }
}

/// The term of the last entry, or 0.
pub open spec fn end_term(log: Seq<EntryView>) -> u64 {
    if log.len() == 0 {
        0
    } else {
        log.last().term
    }
}

/// Whether the log that ends with this term and index is at least as far as
/// `log`.
pub open spec fn no_further(log: Seq<EntryView>, term: u64, index: u64) -> bool {
    ||| term > end_term(log)
    ||| term == end_term(log) && index >= end_index(log)
}

/// Whether the entry at this position, with all before it, is as the leader of
/// its term has it.
pub open spec fn entry_rooted(reigns: Map<u64, Reign>, log: Seq<EntryView>, i: int) -> bool {
    let e = log[i];
    &&& e.index == i + 1
    &&& e.term >= 1
    &&& reigns.dom().contains(e.term)
    &&& i < reigns[e.term].log.len()
    &&& log.take(i + 1) == reigns[e.term].log.take(i + 1)
}

/// Whether a log consists of what leaders have made, in the order of their
/// terms, the last of which is `top` at most.
pub open spec fn sound_log(reigns: Map<u64, Reign>, log: Seq<EntryView>, top: u64) -> bool {
    &&& forall|i: int| 0 <= i < log.len() ==> #[trigger] entry_rooted(reigns, log, i)
    &&& forall|i: int, j: int|
        0 <= i <= j < log.len() ==> (#[trigger] log[i]).term <= (#[trigger] log[j]).term
    &&& forall|i: int| 0 <= i < log.len() ==> (#[trigger] log[i]).term <= top
}

/// Whether a log begins with the first `n` entries of the leader of a term.
pub open spec fn has_head(reigns: Map<u64, Reign>, log: Seq<EntryView>, term: u64, n: int) -> bool {
    &&& n <= log.len()
    &&& n <= reigns[term].log.len()
    &&& log.take(n) == reigns[term].log.take(n)
}

/// Whether the leader of a term has itself made its entry number `n`.
pub open spec fn made_in(reigns: Map<u64, Reign>, term: u64, n: int) -> bool {
    &&& reigns.dom().contains(term)
    &&& 1 <= n <= reigns[term].log.len()
    &&& reigns[term].log[n - 1].term == term
}

/// Whether the leader of a later term lacks the first `n` entries of the leader
/// of an earlier one.
pub open spec fn lacks(reigns: Map<u64, Reign>, later: u64, term: u64, n: int) -> bool {
    reigns.dom().contains(later) && !has_head(reigns, reigns[later].log, term, n)
}

/// Whether a leader after `term`, and up to `end`, lacks the first `n` entries
/// of its leader.
pub open spec fn dropped_by(reigns: Map<u64, Reign>, term: u64, n: int, end: u64) -> bool {
    exists|later: u64| term < later <= end && #[trigger] lacks(reigns, later, term, n)
}

// ---- single logs ----

pub proof fn lemma_sound_is_contiguous(reigns: Map<u64, Reign>, log: Seq<LogEntry>, top: u64)
    requires
        sound_log(reigns, views(log), top),
    ensures
        contiguous(log),
        last_index_of(log) == log.len(),
        last_index_of(log) == end_index(views(log)),
        last_term_of(log) == end_term(views(log)),
{
    assert forall|i: int| 0 <= i < log.len() implies (#[trigger] log[i]).index == i + 1 by {
        assert(entry_rooted(reigns, views(log), i));
        assert(views(log)[i] == log[i]@);
    }
    if log.len() > 0 {
        assert(views(log).last() == log.last()@);
        assert(log[log.len() - 1].index == log.len());
    }
}

/// A log that ends in a term begins the log of the leader of that term.
proof fn lemma_sound_begins_reign(reigns: Map<u64, Reign>, log: Seq<EntryView>, top: u64)
    requires
        sound_log(reigns, log, top),
        log.len() > 0,
    ensures
        reigns.dom().contains(end_term(log)),
        log.len() <= reigns[end_term(log)].log.len(),
        log == reigns[end_term(log)].log.take(log.len() as int),
        end_index(log) == log.len(),
        end_term(log) >= 1,
        end_term(log) <= top,
{
    let i = log.len() - 1;
    assert(entry_rooted(reigns, log, i));
    assert(log.take(i + 1) =~= log);
    assert(log[i].term <= top);
}

/// Two logs with an entry of the same term in the same place agree up to it.
proof fn lemma_same_entry_same_head(
    reigns: Map<u64, Reign>,
    a: Seq<EntryView>,
    b: Seq<EntryView>,
    top_a: u64,
    top_b: u64,
    i: int,
)
    requires
        sound_log(reigns, a, top_a),
        sound_log(reigns, b, top_b),
        0 <= i < a.len(),
        i < b.len(),
        a[i].term == b[i].term,
    ensures
        a.take(i + 1) == b.take(i + 1),
{
    assert(entry_rooted(reigns, a, i));
    assert(entry_rooted(reigns, b, i));
}

proof fn lemma_head_is_sound(reigns: Map<u64, Reign>, log: Seq<EntryView>, top: u64, n: int)
    requires
        sound_log(reigns, log, top),
        0 <= n <= log.len(),
    ensures
        sound_log(reigns, log.take(n), top),
{
    let head = log.take(n);
    assert forall|i: int| 0 <= i < head.len() implies #[trigger] entry_rooted(reigns, head, i) by {
        assert(entry_rooted(reigns, log, i));
        assert(head.take(i + 1) =~= log.take(i + 1));
        assert(head[i] == log[i]);
    }
    assert forall|i: int, j: int| 0 <= i <= j < head.len() implies (#[trigger] head[i]).term <= (
    #[trigger] head[j]).term by {
        assert(head[i] == log[i] && head[j] == log[j]);
    }
    assert forall|i: int| 0 <= i < head.len() implies (#[trigger] head[i]).term <= top by {
        assert(head[i] == log[i]);
    }
}

/// What a follower's log becomes when it takes over some entries of its leader
/// behind a place up to which they agree: it stays as it is if it had them
/// already, and otherwise it becomes the leader's log up to there.
proof fn lemma_merge_follows_leader(
    reigns: Map<u64, Reign>,
    log: Seq<LogEntry>,
    top: u64,
    lead: Seq<EntryView>,
    lead_top: u64,
    prev: int,
    incoming: Seq<LogEntry>,
)
    requires
        sound_log(reigns, views(log), top),
        sound_log(reigns, lead, lead_top),
        0 <= prev <= log.len(),
        prev + incoming.len() <= lead.len(),
        views(log).take(prev) == lead.take(prev),
        views(incoming) == lead.subrange(prev, prev + incoming.len()),
    ensures
        ({
            let n = prev + incoming.len();
            views(merge(log, incoming)) == (if n <= log.len() && views(log).take(n) == lead.take(n) {
                views(log)
            } else {
                lead.take(n)
            })
        }),
    decreases incoming.len(),
{
    if incoming.len() == 0 {
        assert(merge(log, incoming) == log);
    } else {
        let init = incoming.drop_last();
        let e = incoming.last();
        let m = prev + init.len();
        let n = prev + incoming.len();
        assert(views(init) =~= lead.subrange(prev, m)) by {
            assert forall|k: int| 0 <= k < init.len() implies views(init)[k] == lead.subrange(
                prev,
                m,
            )[k] by {
                assert(views(incoming)[k] == lead.subrange(prev, n)[k]);
            }
        }
        lemma_merge_follows_leader(reigns, log, top, lead, lead_top, prev, init);
        assert(e@ == views(incoming)[incoming.len() - 1]);
        assert(e@ == lead[m]);
        assert(entry_rooted(reigns, lead, m));
        let held = merge(log, init);
        let agreed = m <= log.len() && views(log).take(m) == lead.take(m);
        if agreed {
            assert(views(held) == views(log));
        } else {
            lemma_head_is_sound(reigns, lead, lead_top, m);
        }
        let held_top = if agreed {
            top
        } else {
            lead_top
        };
        lemma_sound_is_contiguous(reigns, held, held_top);
        lemma_contiguous_entry(held, e.index);
        assert(e.index == m + 1);
        assert(held.len() == views(held).len());
        let after = merge_one(held, e);
        assert(merge(log, incoming) == after);
        if held.len() >= n {
            assert(agreed);
            assert(held[m]@ == views(held)[m]);
            if held[m].term == e.term {
                lemma_same_entry_same_head(reigns, views(log), lead, top, lead_top, m);
                assert(after == held);
            } else {
                lemma_contiguous_below(held, e.index);
                assert(below(held, e.index) == held.take(m));
                assert(views(after) =~= lead.take(n)) by {
                    assert(views(after) =~= views(log).take(m).push(e@));
                    assert(lead.take(n) =~= lead.take(m).push(lead[m]));
                }
                assert(views(log).take(n)[m] == views(log)[m]);
                assert(lead.take(n)[m] == lead[m]);
            }
        } else {
            assert(entry_of(held, e.index) is None);
            assert(views(after) =~= views(held).push(e@));
            assert(views(held) =~= lead.take(m)) by {
                if agreed {
                    assert(views(log).take(m) =~= views(log));
                }
            }
            assert(lead.take(n) =~= lead.take(m).push(lead[m]));
            if n <= log.len() && views(log).take(n) == lead.take(n) {
                assert(views(log).take(m) =~= views(log).take(n).take(m));
                assert(lead.take(m) =~= lead.take(n).take(m));
            }
        }
    }
}

// ---- append requests ----

/// Whether an append request carries a piece of its leader's log, or nothing
/// behind a place where no log has an entry.
pub open spec fn append_fits(
    lead: Seq<EntryView>,
    prev: u64,
    prev_term: u64,
    entries: Seq<EntryView>,
) -> bool {
    ||| {
        &&& prev + entries.len() <= lead.len()
        &&& prev_term == (if prev == 0 {
            0
        } else {
            lead[prev - 1].term
        })
        &&& entries == lead.subrange(prev as int, prev + entries.len())
    }
    ||| entries.len() == 0 && prev > 0 && prev_term == 0
}

pub proof fn lemma_from_index_of_contiguous(log: Seq<LogEntry>, index: u64)
    requires
        contiguous(log),
        1 <= index <= log.len(),
    ensures
        from_index_of(log, index) == log.skip(index - 1),
{
    assert forall|i: int| 0 <= i < index - 1 implies (#[trigger] log[i]).index < index by {}
    lemma_skip_below(log, index, index - 1);
    let rest = log.skip(index - 1);
    assert(rest[0] == log[index - 1]);
}

/// What a leader sends fits its log, whatever it takes the others to hold.
proof fn lemma_append_request_fits(s: Site, r: RaftView, id: u8)
    requires
        contiguous(r.log),
    ensures
        append_request(s, r, id) matches MessageView::AppendEntries {
            term,
            leader_id,
            prev_log_index,
            prev_log_term,
            entries,
            ..
        } && term == r.term && leader_id == s.self_id && append_fits(
            views(r.log),
            prev_log_index,
            prev_log_term,
            entries,
        ),
{
    if r.log.len() > 0 {
        assert(r.log[r.log.len() - 1].index == r.log.len());
    }
    let next = next_for(r, id);
    let prev = prev_for(r, id);
    let lead = views(r.log);
    lemma_contiguous_entry(r.log, prev);
    if next <= last_index_of(r.log) {
        let rest = from_index_of(r.log, next);
        if next >= 1 {
            lemma_from_index_of_contiguous(r.log, next);
        } else {
            assert(r.log.len() == 0 || r.log[0].index >= next);
            assert(rest == r.log);
            assert(r.log.skip(0) =~= r.log);
        }
        assert(rest == r.log.skip(prev as int));
        let sent = within_budget(rest, APPEND_BATCH_BYTE_BUDGET as nat);
        crate::process::raft_laws::law_replication_makes_progress(
            rest,
            APPEND_BATCH_BYTE_BUDGET as nat,
        );
        assert(views(sent) =~= lead.subrange(prev as int, prev + sent.len())) by {
            assert forall|k: int| 0 <= k < sent.len() implies views(sent)[k] == lead.subrange(
                prev as int,
                prev + sent.len(),
            )[k] by {
                assert(sent[k] == rest[k]);
                assert(rest[k] == r.log[prev + k]);
            }
        }
        if prev > 0 {
            assert(lead[prev - 1] == r.log[prev - 1]@);
        }
    } else if prev <= r.log.len() {
        assert(Seq::<EntryView>::empty() =~= lead.subrange(prev as int, prev as int));
        if prev > 0 {
            assert(lead[prev - 1] == r.log[prev - 1]@);
        }
    }
}

// ---- what a replica does ----

/// Whether a message is one that a replica in this state sends.
pub open spec fn letter_of(s: Site, r: RaftView, message: MessageView) -> bool {
    match message {
        MessageView::AppendEntries {
            term,
            leader_id,
            prev_log_index,
            prev_log_term,
            entries,
            ..
        } => {
            &&& r.role == Role::Leader
            &&& term == r.term
            &&& leader_id == s.self_id
            &&& append_fits(views(r.log), prev_log_index, prev_log_term, entries)
        },
        MessageView::RequestVote { term, candidate_id, last_log_index, last_log_term } => {
            &&& r.role == Role::Candidate
            &&& term == r.term
            &&& candidate_id == s.self_id
            &&& last_log_index == last_index_of(r.log)
            &&& last_log_term == last_term_of(r.log)
        },
        _ => true,
    }
}

/// How a replica goes from one state to the next while its log stays as it is.
pub open spec fn replica_moves(
    s: Site,
    r: RaftView,
    after: RaftView,
    outputs: Seq<OutputView>,
    request: Option<Message>,
) -> bool {
    &&& after.log == r.log
    &&& after.term >= r.term
    &&& after.role == Role::Leader ==> after.term == r.term && (r.role == Role::Leader
        || r.role == Role::Candidate && after.leader_since_term == r.term)
    &&& after.role == Role::Leader && r.role == Role::Leader ==> after.leader_since_term
        == r.leader_since_term
    &&& after.role == Role::Candidate ==> {
        ||| r.role == Role::Candidate && after.term == r.term
        ||| after.term > r.term && after.voted_for == Some(s.self_id)
    }
    &&& after.voted_for matches Some(candidate) ==> {
        ||| r.voted_for == Some(candidate) && after.term == r.term
        ||| candidate == s.self_id && after.role == Role::Candidate && after.term > r.term
        ||| request matches Some(
            Message::RequestVote { term, candidate_id, last_log_index, last_log_term },
        ) && term == after.term && candidate_id == candidate && log_is_current(
            r.log,
            last_log_term,
            last_log_index,
        )
    }
    &&& forall|to: u8, message: MessageView| #[trigger]
        outputs.contains(OutputView::Send { to, message }) ==> letter_of(s, after, message)
    &&& forall|to: u8, message: MessageView| #[trigger]
        outputs.contains(OutputView::Send { to, message }) && message is RequestVote ==> after.term
            > r.term
}

proof fn lemma_append_requests_are_letters(s: Site, r: RaftView)
    requires
        contiguous(r.log),
    ensures
        forall|to: u8, message: MessageView| #[trigger]
            append_requests(s, r).contains(OutputView::Send { to, message }) ==> message is AppendEntries
                && letter_of(s, r, message),
{
    let all = append_requests(s, r);
    assert forall|to: u8, message: MessageView| #[trigger]
        all.contains(OutputView::Send { to, message }) implies message is AppendEntries
        && letter_of(s, r, message) by {
        let k = choose|k: int| 0 <= k < all.len() && all[k] == (OutputView::Send { to, message });
        assert(s.peers[k].id == to);
        lemma_append_request_fits(s, r, to);
    }
}

proof fn lemma_vote_requests_are_letters(s: Site, r: RaftView)
    requires
        r.role == Role::Candidate,
    ensures
        forall|to: u8, message: MessageView| #[trigger]
            vote_requests(s, r).contains(OutputView::Send { to, message }) ==> message is RequestVote
                && letter_of(s, r, message),
{
    let all = vote_requests(s, r);
    assert forall|to: u8, message: MessageView| #[trigger]
        all.contains(OutputView::Send { to, message }) implies message is RequestVote
        && letter_of(s, r, message) by {
        let k = choose|k: int| 0 <= k < all.len() && all[k] == (OutputView::Send { to, message });
        assert(all[k] == (OutputView::Send { to: s.peers[k].id, message }));
    }
}

/// Whether what is sent in `all` is sent in `part`.
spec fn sends_within(all: Seq<OutputView>, part: Seq<OutputView>) -> bool {
    forall|to: u8, message: MessageView| #[trigger]
        all.contains(OutputView::Send { to, message }) ==> part.contains(
            OutputView::Send { to, message },
        )
}

proof fn lemma_announcements_send_nothing(first: Seq<OutputView>, second: Seq<OutputView>)
    requires
        forall|i: int| 0 <= i < first.len() ==> (#[trigger] first[i]) is Announce,
    ensures
        sends_within(first + second, second),
{
    let all = first + second;
    assert forall|to: u8, message: MessageView| #[trigger]
        all.contains(OutputView::Send { to, message }) implies second.contains(
        OutputView::Send { to, message },
    ) by {
        let k = choose|k: int| 0 <= k < all.len() && all[k] == (OutputView::Send { to, message });
        if k < first.len() {
            assert(first[k] is Announce);
        } else {
            assert(second[k - first.len()] == all[k]);
        }
    }
}

proof fn lemma_win_moves(s: Site, r: RaftView, now: u128)
    requires
        r.last_applied <= r.commit_index,
        r.role == Role::Candidate,
        contiguous(r.log),
    ensures
        replica_moves(s, r, win_step(s, r, now).raft, win_step(s, r, now).outputs, None),
        win_step(s, r, now).raft.role == Role::Leader,
{
    let lead = lead_step(s, r, now);
    let after = win_step(s, r, now);
    lemma_win(s, r, now);
    lemma_committed(s, lead.raft, now);
    lemma_append_requests_are_letters(s, lead.raft);
    lemma_announcements_send_nothing(lead.outputs, append_requests(s, lead.raft));
    assert forall|to: u8, message: MessageView| #[trigger]
        after.outputs.contains(OutputView::Send { to, message }) implies letter_of(s, after.raft, message)
        && !(message is RequestVote) by {
        assert(append_requests(s, lead.raft).contains(OutputView::Send { to, message }));
    }
}

proof fn lemma_tick_moves(s: Site, r: RaftView, now: u128, timeout_ms: u64)
    requires
        r.last_applied <= r.commit_index,
        can_tick(r),
        contiguous(r.log),
    ensures
        replica_moves(
            s,
            r,
            tick_step(s, r, now, timeout_ms).raft,
            tick_step(s, r, now, timeout_ms).outputs,
            None,
        ),
{
    let refresh = refresh_step(s, r, now);
    let at = refresh.raft;
    let acted = role_step(s, at, now, timeout_ms);
    let step = tick_step(s, r, now, timeout_ms);
    lemma_announcements_send_nothing(refresh.outputs, acted.outputs);
    lemma_append_requests_are_letters(s, at);
    if at.role == Role::Candidate {
        lemma_win_moves(s, at, now);
    }
    lemma_vote_requests_are_letters(s, standing(s, at, now, timeout_ms));
    assert forall|to: u8, message: MessageView| #[trigger]
        step.outputs.contains(OutputView::Send { to, message }) implies letter_of(s, step.raft, message)
        && (message is RequestVote ==> step.raft.term > r.term) by {
        assert(acted.outputs.contains(OutputView::Send { to, message }));
    }
}

/// Whether a leader gives way to a message of a higher term.
pub open spec fn gives_way(s: Site, r: RaftView, now: u128, message: Message) -> bool {
    message.spec_term() > r.term ==> !stays_leader(
        s,
        met(s, r, message.spec_sender(), now),
        now,
        message,
    )
}

proof fn lemma_message_moves(
    s: Site,
    r: RaftView,
    now: u128,
    timeout_ms: u64,
    message: Message,
)
    requires
        r.last_applied <= r.commit_index,
        contiguous(r.log),
        gives_way(s, r, now, message),
        !(message is AppendEntries) || message.spec_term() < r.term,
    ensures
        replica_moves(
            s,
            r,
            message_step(s, r, now, timeout_ms, message).raft,
            message_step(s, r, now, timeout_ms, message).outputs,
            Some(message),
        ),
{
    let marked = met(s, r, message.spec_sender(), now);
    let first = fence_step(s, marked, now, timeout_ms, message);
    let fenced = first.raft;
    let step = message_step(s, r, now, timeout_ms, message);
    law_messages_never_go_back(s, r, now, timeout_ms, message);
    match message {
        Message::RequestVote { term, candidate_id, last_log_index, last_log_term } => {
            let second = vote_request_step(
                s,
                fenced,
                now,
                timeout_ms,
                term,
                candidate_id,
                last_log_index,
                last_log_term,
            );
            lemma_announcements_send_nothing(first.outputs, second.outputs);
            assert forall|to: u8, m: MessageView| #[trigger]
                step.outputs.contains(OutputView::Send { to, message: m }) implies m is VoteGranted by {
                assert(second.outputs.contains(OutputView::Send { to, message: m }));
            }
        },
        Message::VoteGranted { term, voter_id } => {
            let second = vote_step(s, fenced, now, term, voter_id);
            lemma_announcements_send_nothing(first.outputs, second.outputs);
            let counted = RaftView {
                votes: fenced.votes.insert(voter_id),
                last_heartbeat: now,
                ..fenced
            };
            if fenced.role == Role::Candidate {
                lemma_win_moves(s, counted, now);
            }
            assert forall|to: u8, m: MessageView| #[trigger]
                step.outputs.contains(OutputView::Send { to, message: m }) implies letter_of(s, step.raft, m)
        && !(m is RequestVote) by {
                assert(second.outputs.contains(OutputView::Send { to, message: m }));
            }
        },
        Message::AppendEntries { term, leader_id, .. } => {
            lemma_announcements_send_nothing(first.outputs, Seq::empty());
            assert(step.outputs =~= Seq::<OutputView>::empty());
        },
        Message::AppendAck { term, follower_id, success, match_index } => {
            lemma_announcements_send_nothing(first.outputs, Seq::empty());
            assert(step.outputs =~= first.outputs);
            assert(first.outputs + Seq::<OutputView>::empty() =~= first.outputs);
            lemma_committed(
                s,
                RaftView {
                    match_index: fenced.match_index.insert(follower_id, match_index),
                    next_index: fenced.next_index.insert(follower_id, (match_index + 1) as u64),
                    peer_last_ack: fenced.peer_last_ack.insert(follower_id, now),
                    ..fenced
                },
                now,
            );
        },
    }
}

// ---- a run of the cluster ----

/// A cluster with its past: the reigns of its leaders by their terms, the logs
/// of the voters as they were when they voted, and how many entries of the
/// leader of a term a replica has held while it was in that term.
pub struct Run {
    pub cluster: Cluster,
    pub reigns: Map<u64, Reign>,
    pub booths: Map<(u8, u64), Seq<EntryView>>,
    pub taken: Map<(u8, u64), int>,
}

/// What holds of a replica in a run.
pub open spec fn member_sound(x: Run, id: u8) -> bool {
    let r = x.cluster.members[id].raft;
    &&& sound_log(x.reigns, views(r.log), r.term)
    &&& r.role == Role::Candidate ==> r.term >= 1
    &&& r.role == Role::Leader ==> {
        &&& r.term == r.leader_since_term
        &&& x.reigns.dom().contains(r.term)
        &&& x.reigns[r.term].leader == id
        &&& x.reigns[r.term].log == views(r.log)
    }
}

/// What holds of a reign: it was won with the votes of a majority, and its leader
/// does not stand for election in its term again.
pub open spec fn reign_sound(x: Run, term: u64) -> bool {
    let reign = x.reigns[term];
    let c = x.cluster;
    &&& term >= 1
    &&& sound_log(x.reigns, reign.log, term)
    &&& c.members.dom().contains(reign.leader)
    &&& c.members[reign.leader].raft.term >= term
    &&& c.members[reign.leader].raft.term == term ==> c.members[reign.leader].raft.role
        != Role::Candidate
    &&& reign.voters.len() >= majority(c.members[reign.leader].site)
    &&& forall|v: u8| #[trigger]
        reign.voters.contains(v) ==> has_ballot(c, v, term, reign.leader)
}

/// What holds of a message that was sent.
pub open spec fn letter_sound(x: Run, message: MessageView) -> bool {
    match message {
        MessageView::AppendEntries {
            term,
            leader_id,
            prev_log_index,
            prev_log_term,
            entries,
            ..
        } => {
            &&& x.reigns.dom().contains(term)
            &&& x.reigns[term].leader == leader_id
            &&& append_fits(x.reigns[term].log, prev_log_index, prev_log_term, entries)
        },
        MessageView::RequestVote { term, candidate_id, last_log_index, last_log_term } => {
            let r = x.cluster.members[candidate_id].raft;
            &&& x.cluster.members.dom().contains(candidate_id)
            &&& r.term >= term
            &&& r.term == term && r.role == Role::Candidate ==> last_log_index == last_index_of(
                r.log,
            ) && last_log_term == last_term_of(r.log)
        },
        _ => true,
    }
}

/// What holds of a ballot: while its candidate still stands, the candidate's log
/// is at least as far as that of the voter was.
pub open spec fn ballot_sound(x: Run, voter: u8, term: u64) -> bool {
    let candidate = x.cluster.ballots[(voter, term)];
    let r = x.cluster.members[candidate].raft;
    let booth = x.booths[(voter, term)];
    &&& x.cluster.members.dom().contains(candidate)
    &&& r.term >= term
    &&& x.booths.dom().contains((voter, term))
    &&& sound_log(x.reigns, booth, term)
    &&& r.term == term && r.role == Role::Candidate ==> no_further(
        booth,
        last_term_of(r.log),
        last_index_of(r.log),
    )
}

/// Whether what a replica has taken over in a term is still in its log and was
/// there when it voted, unless a later leader lacked it.
pub open spec fn kept(x: Run, id: u8, term: u64, n: int) -> bool {
    let r = x.cluster.members[id].raft;
    &&& has_head(x.reigns, views(r.log), term, n) || dropped_by(x.reigns, term, n, r.term)
    &&& forall|later: u64| #[trigger]
        x.booths.dom().contains((id, later)) && later > term ==> has_head(
            x.reigns,
            x.booths[(id, later)],
            term,
            n,
        ) || dropped_by(x.reigns, term, n, later)
}

/// What holds of what a replica has taken over.
pub open spec fn taken_sound(x: Run, id: u8, term: u64) -> bool {
    &&& x.cluster.members.dom().contains(id)
    &&& x.reigns.dom().contains(term)
    &&& x.taken[(id, term)] <= x.reigns[term].log.len()
    &&& term <= x.cluster.members[id].raft.term
    &&& forall|n: int|
        1 <= n <= x.taken[(id, term)] && #[trigger] made_in(x.reigns, term, n) ==> kept(
            x,
            id,
            term,
            n,
        )
}

/// Whether a replica has taken over the first `n` entries of the leader of a
/// term while it was in that term.
pub open spec fn has_taken(x: Run, id: u8, term: u64, n: int) -> bool {
    x.taken.dom().contains((id, term)) && x.taken[(id, term)] >= n
}

/// Whether a leader that lacks entries of an earlier one was elected by replicas
/// that had not taken them over, or to which another leader in between had
/// handed a log that lacked them.
pub open spec fn reign_keeps(x: Run, later: u64, term: u64, n: int) -> bool {
    x.reigns.dom().contains(later) && term < later && made_in(x.reigns, term, n) && lacks(
        x.reigns,
        later,
        term,
        n,
    ) ==> forall|v: u8| #[trigger]
        x.reigns[later].voters.contains(v) && has_taken(x, v, term, n) ==> dropped_by(
            x.reigns,
            term,
            n,
            (later - 1) as u64,
        )
}

/// What holds of a run whatever happens.
pub open spec fn run_wf(x: Run) -> bool {
    &&& cluster_wf(x.cluster)
    &&& forall|id: u8| #[trigger] x.cluster.members.dom().contains(id) ==> member_sound(x, id)
    &&& forall|term: u64| #[trigger] x.reigns.dom().contains(term) ==> reign_sound(x, term)
    &&& forall|to: u8, message: MessageView| #[trigger]
        x.cluster.sent.contains((to, message)) ==> letter_sound(x, message)
    &&& forall|voter: u8, term: u64| #[trigger]
        x.cluster.ballots.dom().contains((voter, term)) ==> ballot_sound(x, voter, term)
    &&& forall|voter: u8, term: u64| #[trigger]
        x.booths.dom().contains((voter, term)) ==> x.cluster.ballots.dom().contains((voter, term))
    &&& forall|id: u8, term: u64| #[trigger]
        x.taken.dom().contains((id, term)) ==> taken_sound(x, id, term)
    &&& forall|later: u64, term: u64, n: int| #[trigger] reign_keeps(x, later, term, n)
}

// ---- leaders' logs grow ----

/// Whether reigns have only been added, and logs only grown by entries of their
/// own terms.
pub open spec fn grown(a: Map<u64, Reign>, b: Map<u64, Reign>) -> bool {
    forall|term: u64| #[trigger]
        a.dom().contains(term) ==> {
            &&& b.dom().contains(term)
            &&& b[term].leader == a[term].leader
            &&& b[term].voters == a[term].voters
            &&& a[term].log.is_prefix_of(b[term].log)
            &&& forall|i: int|
                a[term].log.len() <= i < b[term].log.len() ==> (#[trigger] b[term].log[i]).term
                    == term
        }
}

pub proof fn lemma_prefix_take<A>(a: Seq<A>, b: Seq<A>, n: int)
    requires
        a.is_prefix_of(b),
        0 <= n <= a.len(),
    ensures
        a.take(n) == b.take(n),
{
    assert(a.take(n) =~= b.take(n));
}

proof fn lemma_grown_sound(
    a: Map<u64, Reign>,
    b: Map<u64, Reign>,
    log: Seq<EntryView>,
    top: u64,
    top2: u64,
)
    requires
        grown(a, b),
        sound_log(a, log, top),
        top <= top2,
    ensures
        sound_log(b, log, top2),
{
    assert forall|i: int| 0 <= i < log.len() implies #[trigger] entry_rooted(b, log, i) by {
        assert(entry_rooted(a, log, i));
        let term = log[i].term;
        assert(a.dom().contains(term));
        lemma_prefix_take(a[term].log, b[term].log, i + 1);
    }
}

pub proof fn lemma_grown_head(
    a: Map<u64, Reign>,
    b: Map<u64, Reign>,
    log: Seq<EntryView>,
    term: u64,
    n: int,
)
    requires
        grown(a, b),
        a.dom().contains(term),
        0 <= n <= a[term].log.len(),
    ensures
        has_head(a, log, term, n) == has_head(b, log, term, n),
{
    lemma_prefix_take(a[term].log, b[term].log, n);
}

/// A leader that lacked the entries still does, however its log grows.
proof fn lemma_grown_lacks(a: Map<u64, Reign>, b: Map<u64, Reign>, later: u64, term: u64, n: int)
    requires
        grown(a, b),
        made_in(a, term, n),
        term < later,
        a.dom().contains(later),
    ensures
        lacks(a, later, term, n) == lacks(b, later, term, n),
        made_in(b, term, n),
{
    lemma_grown_head(a, b, a[later].log, term, n);
    lemma_grown_head(a, b, b[later].log, term, n);
    let short = a[later].log;
    let long = b[later].log;
    assert(b[term].log[n - 1] == a[term].log[n - 1]);
    if n <= short.len() {
        lemma_prefix_take(short, long, n);
    } else if n <= long.len() {
        assert(long[n - 1].term == later);
        assert(long.take(n)[n - 1] == long[n - 1]);
        assert(b[term].log.take(n)[n - 1] == b[term].log[n - 1]);
    }
}

proof fn lemma_grown_dropped(
    a: Map<u64, Reign>,
    b: Map<u64, Reign>,
    term: u64,
    n: int,
    end: u64,
    end2: u64,
)
    requires
        grown(a, b),
        made_in(a, term, n),
        dropped_by(a, term, n, end),
        end <= end2,
    ensures
        dropped_by(b, term, n, end2),
{
    let later = choose|later: u64| term < later <= end && #[trigger] lacks(a, later, term, n);
    lemma_grown_lacks(a, b, later, term, n);
    assert(lacks(b, later, term, n));
}

proof fn lemma_grown_append(
    short: Seq<EntryView>,
    long: Seq<EntryView>,
    prev: u64,
    prev_term: u64,
    entries: Seq<EntryView>,
)
    requires
        short.is_prefix_of(long),
        append_fits(short, prev, prev_term, entries),
    ensures
        append_fits(long, prev, prev_term, entries),
{
    if prev + entries.len() <= short.len() {
        assert(short.subrange(prev as int, prev + entries.len()) =~= long.subrange(
            prev as int,
            prev + entries.len(),
        ));
    }
}

// ---- one step: a replica whose log stays as it is ----

/// The reigns after a replica has come from one state to another.
pub open spec fn reigns_after(
    reigns: Map<u64, Reign>,
    id: u8,
    r: RaftView,
    after: RaftView,
) -> Map<u64, Reign> {
    if after.role != Role::Leader {
        reigns
    } else if r.role == Role::Leader {
        reigns.insert(after.term, Reign { log: views(after.log), ..reigns[after.term] })
    } else {
        reigns.insert(
            after.term,
            Reign { leader: id, voters: after.votes, log: views(after.log) },
        )
    }
}

/// The booths after a replica has come to a state: its log is noted where it
/// has voted anew.
pub open spec fn booths_after(x: Run, id: u8, after: RaftView) -> Map<(u8, u64), Seq<EntryView>> {
    if after.voted_for is Some && !x.cluster.ballots.dom().contains((id, after.term)) {
        x.booths.insert((id, after.term), views(after.log))
    } else {
        x.booths
    }
}

/// The run after an event that leaves the log of a replica as it is.
pub open spec fn quiet_run(x: Run, id: u8, event: Event) -> Run {
    let c2 = happened(x.cluster, id, event);
    let r2 = c2.members[id].raft;
    Run {
        cluster: c2,
        reigns: reigns_after(x.reigns, id, x.cluster.members[id].raft, r2),
        booths: booths_after(x, id, r2),
        taken: x.taken,
    }
}

/// The message that an event brings.
pub open spec fn brought_by(event: Event) -> Option<Message> {
    match event {
        Event::Deliver { message, .. } => Some(message),
        _ => None,
    }
}

/// Whether an event leaves the log of a replica as it is, and gives it the lead
/// only with the votes of a majority.
pub open spec fn quiet_event(x: Run, id: u8, event: Event) -> bool {
    let s = x.cluster.members[id].site;
    let r = x.cluster.members[id].raft;
    let step = event_step(s, r, event);
    &&& run_wf(x)
    &&& can_happen(x.cluster, id, event)
    &&& replica_moves(s, r, step.raft, step.outputs, brought_by(event))
    &&& r.role != Role::Leader && step.raft.role == Role::Leader ==> step.raft.votes.len()
        >= majority(s)
}

pub proof fn lemma_quiet_basics(x: Run, id: u8, event: Event)
    requires
        quiet_event(x, id, event),
    ensures
        ({
            let x2 = quiet_run(x, id, event);
            let r = x.cluster.members[id].raft;
            let r2 = x2.cluster.members[id].raft;
            &&& cluster_wf(x2.cluster)
            &&& x2.cluster.members.dom() == x.cluster.members.dom()
            &&& forall|other: u8|
                other != id ==> #[trigger] x2.cluster.members[other] == x.cluster.members[other]
            &&& x2.cluster.members[id].site.peers == x.cluster.members[id].site.peers
            &&& r2 == event_step(x.cluster.members[id].site, r, event).raft
            &&& forall|voter: u8, term: u64, candidate: u8|
                has_ballot(x.cluster, voter, term, candidate) ==> #[trigger] has_ballot(
                    x2.cluster,
                    voter,
                    term,
                    candidate,
                )
            &&& r.role != Role::Leader && r2.role == Role::Leader ==> !x.reigns.dom().contains(
                r2.term,
            )
            &&& grown(x.reigns, x2.reigns)
        }),
{
    let c = x.cluster;
    let x2 = quiet_run(x, id, event);
    let c2 = x2.cluster;
    let r = c.members[id].raft;
    let r2 = c2.members[id].raft;
    law_events_keep_the_cluster_fit(c, id, event);
    assert(c2.members.dom() =~= c.members.dom());
    assert forall|voter: u8, term: u64, candidate: u8|
        has_ballot(c, voter, term, candidate) implies #[trigger] has_ballot(
        c2,
        voter,
        term,
        candidate,
    ) by {
        lemma_ballots_stay(c, id, event, voter, term, candidate);
    }
    assert(member_sound(x, id));
    assert(c.members.dom().contains(id));
    if r.role != Role::Leader && r2.role == Role::Leader && x.reigns.dom().contains(r2.term) {
        let reign = x.reigns[r2.term];
        assert(reign_sound(x, r2.term));
        assert(member_fits(c2, id));
        assert(member_fits(c, reign.leader));
        assert(member_fits(c, id));
        assert forall|v: u8| reign.voters.contains(v) implies c.members.dom().contains(v) by {
            assert(has_ballot(c, v, r2.term, reign.leader));
        }
        assert forall|v: u8| r2.votes.contains(v) implies c.members.dom().contains(v) by {
            assert(has_ballot(c2, v, r2.term, id));
        }
        let s = c.members[id].site;
        law_majorities_intersect(s, c.members.dom(), reign.voters, r2.votes);
        let v = choose|v: u8| reign.voters.contains(v) && r2.votes.contains(v);
        assert(has_ballot(c, v, r2.term, reign.leader));
        assert(has_ballot(c2, v, r2.term, reign.leader));
        assert(has_ballot(c2, v, r2.term, id));
        assert(false);
    }
    if r2.role == Role::Leader && r.role == Role::Leader {
        assert(x2.reigns =~= x.reigns);
    }
}

proof fn lemma_quiet_members(x: Run, id: u8, event: Event, other: u8)
    requires
        quiet_event(x, id, event),
        x.cluster.members.dom().contains(other),
    ensures
        member_sound(quiet_run(x, id, event), other),
{
    let x2 = quiet_run(x, id, event);
    lemma_quiet_basics(x, id, event);
    assert(member_sound(x, other));
    assert(member_sound(x, id));
    assert(x.cluster.members.dom().contains(id));
    let r = x.cluster.members[other].raft;
    let r2 = x2.cluster.members[other].raft;
    lemma_grown_sound(x.reigns, x2.reigns, views(r.log), r.term, r2.term);
    if other != id && r.role == Role::Leader {
        assert(x.reigns.dom().contains(r.term));
        let acting = x.cluster.members[id].raft;
        let acted = x2.cluster.members[id].raft;
        if acted.role == Role::Leader && acted.term == r.term {
            assert(acting.role == Role::Leader);
            assert(x.reigns[r.term].leader == id);
        }
    }
}

proof fn lemma_quiet_reigns(x: Run, id: u8, event: Event, term: u64)
    requires
        quiet_event(x, id, event),
        quiet_run(x, id, event).reigns.dom().contains(term),
    ensures
        reign_sound(quiet_run(x, id, event), term),
{
    let x2 = quiet_run(x, id, event);
    let c = x.cluster;
    let c2 = x2.cluster;
    let r = c.members[id].raft;
    let r2 = c2.members[id].raft;
    lemma_quiet_basics(x, id, event);
    assert(member_sound(x, id));
    assert(c.members.dom().contains(id));
    if x.reigns.dom().contains(term) {
        assert(reign_sound(x, term));
        let leader = x.reigns[term].leader;
        assert(x2.reigns[term] == x.reigns[term]);
        lemma_grown_sound(x.reigns, x2.reigns, x.reigns[term].log, term, term);
        assert forall|v: u8| #[trigger] x2.reigns[term].voters.contains(v) implies has_ballot(
            c2,
            v,
            term,
            leader,
        ) by {
            assert(has_ballot(c, v, term, leader));
        }
        assert(c2.members[leader].site.peers == c.members[leader].site.peers);
    } else {
        assert(r2.role == Role::Leader && r.role != Role::Leader && term == r2.term);
        assert(member_fits(c2, id));
        lemma_grown_sound(x.reigns, x2.reigns, views(r.log), r.term, term);
    }
}

proof fn lemma_quiet_letters(x: Run, id: u8, event: Event, to: u8, message: MessageView)
    requires
        quiet_event(x, id, event),
        quiet_run(x, id, event).cluster.sent.contains((to, message)),
    ensures
        letter_sound(quiet_run(x, id, event), message),
{
    let x2 = quiet_run(x, id, event);
    let c = x.cluster;
    let c2 = x2.cluster;
    let s = c.members[id].site;
    let r = c.members[id].raft;
    let r2 = c2.members[id].raft;
    lemma_quiet_basics(x, id, event);
    assert(member_sound(x, id));
    assert(member_fits(c, id));
    assert(c.members.dom().contains(id));
    if c.sent.contains((to, message)) {
        assert(letter_sound(x, message));
        match message {
            MessageView::AppendEntries { term, prev_log_index, prev_log_term, entries, .. } => {
                assert(x.reigns.dom().contains(term));
                lemma_grown_append(
                    x.reigns[term].log,
                    x2.reigns[term].log,
                    prev_log_index,
                    prev_log_term,
                    entries,
                );
            },
            MessageView::RequestVote { term, candidate_id, .. } => {
                if candidate_id != id {
                    assert(c2.members[candidate_id] == c.members[candidate_id]);
                }
            },
            _ => {},
        }
    } else {
        let outputs = event_step(s, r, event).outputs;
        assert(outputs.contains(OutputView::Send { to, message }));
        assert(letter_of(s, r2, message));
    }
}

proof fn lemma_views_last(log: Seq<LogEntry>)
    ensures
        last_index_of(log) == end_index(views(log)),
        last_term_of(log) == end_term(views(log)),
{
    if log.len() > 0 {
        assert(views(log).last() == log.last()@);
    }
}

proof fn lemma_quiet_ballots(x: Run, id: u8, event: Event, voter: u8, term: u64)
    requires
        quiet_event(x, id, event),
        quiet_run(x, id, event).cluster.ballots.dom().contains((voter, term)),
    ensures
        ballot_sound(quiet_run(x, id, event), voter, term),
{
    let x2 = quiet_run(x, id, event);
    let c = x.cluster;
    let c2 = x2.cluster;
    let s = c.members[id].site;
    let r = c.members[id].raft;
    let r2 = c2.members[id].raft;
    lemma_quiet_basics(x, id, event);
    assert(member_sound(x, id));
    assert(member_fits(c, id));
    assert(c.members.dom().contains(id));
    if c.ballots.dom().contains((voter, term)) {
        assert(ballot_sound(x, voter, term));
        let candidate = c.ballots[(voter, term)];
        assert(c.members.dom().contains(voter) && term <= c.members[voter].raft.term);
        assert(has_ballot(c, voter, term, candidate));
        assert(has_ballot(c2, voter, term, candidate));
        assert(x2.booths[(voter, term)] == x.booths[(voter, term)]);
        lemma_grown_sound(x.reigns, x2.reigns, x.booths[(voter, term)], term, term);
        if candidate != id {
            assert(c2.members[candidate] == c.members[candidate]);
        }
    } else {
        assert(voter == id && term == r2.term && r2.voted_for is Some);
        let candidate = r2.voted_for->0;
        assert(c2.ballots[(voter, term)] == candidate);
        assert(x2.booths[(voter, term)] == views(r.log));
        lemma_grown_sound(x.reigns, x2.reigns, views(r.log), r.term, term);
        lemma_views_last(r.log);
        if r.voted_for == Some(candidate) && r2.term == r.term {
            assert(has_ballot(c, id, r.term, candidate));
        }
        if !(candidate == s.self_id && r2.role == Role::Candidate && r2.term > r.term) {
            let message = brought_by(event)->0;
            assert(c.sent.contains((id, message@)));
            assert(letter_sound(x, message@));
            if candidate != id {
                assert(c2.members[candidate] == c.members[candidate]);
            }
        }
    }
}

/// What was dropped stays dropped, and what is had stays had, while reigns grow.
proof fn lemma_grown_kept_log(
    a: Map<u64, Reign>,
    b: Map<u64, Reign>,
    log: Seq<EntryView>,
    term: u64,
    n: int,
    end: u64,
    end2: u64,
)
    requires
        grown(a, b),
        made_in(a, term, n),
        has_head(a, log, term, n) || dropped_by(a, term, n, end),
        end <= end2,
    ensures
        has_head(b, log, term, n) || dropped_by(b, term, n, end2),
{
    lemma_grown_head(a, b, log, term, n);
    if dropped_by(a, term, n, end) {
        lemma_grown_dropped(a, b, term, n, end, end2);
    }
}

/// What a reign made before it grew.
proof fn lemma_made_before(a: Map<u64, Reign>, b: Map<u64, Reign>, term: u64, n: int)
    requires
        grown(a, b),
        a.dom().contains(term),
        made_in(b, term, n),
        n <= a[term].log.len(),
    ensures
        made_in(a, term, n),
{
    assert(a[term].log[n - 1] == b[term].log[n - 1]);
}

proof fn lemma_quiet_taken(x: Run, id: u8, event: Event, other: u8, term: u64)
    requires
        quiet_event(x, id, event),
        x.taken.dom().contains((other, term)),
    ensures
        taken_sound(quiet_run(x, id, event), other, term),
{
    let x2 = quiet_run(x, id, event);
    let c = x.cluster;
    let c2 = x2.cluster;
    let r = c.members[other].raft;
    let r2 = c2.members[other].raft;
    lemma_quiet_basics(x, id, event);
    assert(taken_sound(x, other, term));
    assert(r2.log == r.log && r2.term >= r.term);
    assert forall|n: int|
        1 <= n <= x2.taken[(other, term)] && #[trigger] made_in(x2.reigns, term, n) implies kept(
        x2,
        other,
        term,
        n,
    ) by {
        lemma_made_before(x.reigns, x2.reigns, term, n);
        assert(kept(x, other, term, n));
        lemma_grown_kept_log(x.reigns, x2.reigns, views(r.log), term, n, r.term, r2.term);
        assert forall|later: u64| #[trigger]
            x2.booths.dom().contains((other, later)) && later > term implies has_head(
            x2.reigns,
            x2.booths[(other, later)],
            term,
            n,
        ) || dropped_by(x2.reigns, term, n, later) by {
            if x.booths.dom().contains((other, later)) {
                if other == id && later == c2.members[id].raft.term {
                    assert(c.ballots.dom().contains((other, later)));
                }
                assert(x2.booths[(other, later)] == x.booths[(other, later)]);
                lemma_grown_kept_log(
                    x.reigns,
                    x2.reigns,
                    x.booths[(other, later)],
                    term,
                    n,
                    later,
                    later,
                );
            } else {
                assert(other == id && later == r2.term);
                lemma_grown_kept_log(x.reigns, x2.reigns, views(r.log), term, n, r.term, later);
            }
        }
    }
}

/// A candidate that is as far as a voter whose log begins with the entries has
/// them too, unless a leader before it lacked them.
proof fn lemma_winner_has_head(
    reigns: Map<u64, Reign>,
    booth: Seq<EntryView>,
    log: Seq<EntryView>,
    term: u64,
    n: int,
    won: u64,
)
    requires
        sound_log(reigns, booth, won),
        sound_log(reigns, log, won),
        forall|t: u64| #[trigger]
            reigns.dom().contains(t) ==> sound_log(reigns, reigns[t].log, t),
        !reigns.dom().contains(won),
        made_in(reigns, term, n),
        term < won,
        has_head(reigns, booth, term, n),
        no_further(booth, end_term(log), end_index(log)),
    ensures
        has_head(reigns, log, term, n) || dropped_by(reigns, term, n, (won - 1) as u64),
{
    let mark = reigns[term].log[n - 1];
    assert(booth.take(n)[n - 1] == booth[n - 1]);
    assert(reigns[term].log.take(n)[n - 1] == mark);
    assert(booth[n - 1].term == term);
    assert(booth[n - 1].term <= booth[booth.len() - 1].term);
    lemma_sound_begins_reign(reigns, booth, won);
    assert(log.len() > 0);
    lemma_sound_begins_reign(reigns, log, won);
    let last = end_term(log);
    assert(last != won);
    let lead = reigns[last].log;
    if last == end_term(booth) {
        assert(log.len() >= booth.len());
        assert(log.take(n) =~= lead.take(n));
        assert(booth.take(n) =~= lead.take(n));
    } else {
        assert(last > term);
        if lacks(reigns, last, term, n) {
            assert(dropped_by(reigns, term, n, (won - 1) as u64));
        } else {
            assert(has_head(reigns, lead, term, n));
            assert(lead.take(n)[n - 1] == lead[n - 1]);
            let p = log.len() - 1;
            assert(log[p] == lead[p]);
            assert(lead[p].term == last);
            assert(sound_log(reigns, lead, last));
            if p <= n - 1 {
                assert(lead[p].term <= lead[n - 1].term);
            }
            assert(log.take(n) =~= lead.take(n));
        }
    }
}

proof fn lemma_quiet_keeps(x: Run, id: u8, event: Event, later: u64, term: u64, n: int)
    requires
        quiet_event(x, id, event),
    ensures
        reign_keeps(quiet_run(x, id, event), later, term, n),
{
    let x2 = quiet_run(x, id, event);
    let c = x.cluster;
    let c2 = x2.cluster;
    let r = c.members[id].raft;
    let r2 = c2.members[id].raft;
    lemma_quiet_basics(x, id, event);
    if x2.reigns.dom().contains(later) && term < later && made_in(x2.reigns, term, n) && lacks(
        x2.reigns,
        later,
        term,
        n,
    ) {
        assert(member_sound(x, id));
        if !x.reigns.dom().contains(term) {
            assert(x2.reigns[term].log == views(r.log));
            assert(entry_rooted(x.reigns, views(r.log), n - 1));
            assert(false);
        }
        assert(x2.reigns[term] == x.reigns[term]);
        lemma_made_before(x.reigns, x2.reigns, term, n);
        assert forall|v: u8| #[trigger]
            x2.reigns[later].voters.contains(v) && has_taken(x2, v, term, n) implies dropped_by(
            x2.reigns,
            term,
            n,
            (later - 1) as u64,
        ) by {
            assert(has_taken(x, v, term, n));
            assert(x.taken.dom().contains((v, term)));
            assert(taken_sound(x, v, term));
            if x.reigns.dom().contains(later) {
                assert(x2.reigns[later] == x.reigns[later]);
                lemma_grown_lacks(x.reigns, x2.reigns, later, term, n);
                assert(reign_keeps(x, later, term, n));
            } else {
                assert(later == r2.term && r2.role == Role::Leader && r.role == Role::Candidate);
                assert(member_fits(c2, id));
                assert(has_ballot(c2, v, later, id));
                assert(member_fits(c, id));
                // the vote was cast while the candidate stood
                assert(c2.ballots.dom().contains((v, later)));
                lemma_quiet_win_ballot(x, id, event, v);
                let booth = x.booths[(v, later)];
                assert(kept(x, v, term, n));
                assert(x.booths.dom().contains((v, later)));
                assert forall|t: u64| #[trigger]
                    x.reigns.dom().contains(t) implies sound_log(x.reigns, x.reigns[t].log, t) by {
                    assert(reign_sound(x, t));
                }
                if dropped_by(x.reigns, term, n, later) {
                    let u = choose|u: u64|
                        term < u <= later && #[trigger] lacks(x.reigns, u, term, n);
                    assert(u != later);
                    assert(dropped_by(x.reigns, term, n, (later - 1) as u64));
                } else {
                    lemma_views_last(r.log);
                    lemma_winner_has_head(x.reigns, booth, views(r.log), term, n, later);
                    lemma_grown_head(x.reigns, x2.reigns, views(r.log), term, n);
                }
            }
            lemma_grown_dropped(
                x.reigns,
                x2.reigns,
                term,
                n,
                (later - 1) as u64,
                (later - 1) as u64,
            );
        }
    }
}

/// The votes that a winner has were cast before it won.
proof fn lemma_quiet_win_ballot(x: Run, id: u8, event: Event, v: u8)
    requires
        quiet_event(x, id, event),
        ({
            let r = x.cluster.members[id].raft;
            let r2 = quiet_run(x, id, event).cluster.members[id].raft;
            &&& r.role == Role::Candidate
            &&& r2.role == Role::Leader
            &&& r2.votes.contains(v)
        }),
    ensures
        ({
            let r = x.cluster.members[id].raft;
            &&& has_ballot(x.cluster, v, r.term, id)
            &&& x.booths.dom().contains((v, r.term))
            &&& sound_log(x.reigns, x.booths[(v, r.term)], r.term)
            &&& no_further(
                x.booths[(v, r.term)],
                last_term_of(r.log),
                last_index_of(r.log),
            )
        }),
{
    let c = x.cluster;
    let r = c.members[id].raft;
    let x2 = quiet_run(x, id, event);
    let c2 = x2.cluster;
    let r2 = c2.members[id].raft;
    lemma_quiet_basics(x, id, event);
    assert(member_fits(c, id));
    assert(member_fits(c2, id));
    assert(has_ballot(c2, v, r.term, id));
    // the winning step casts no vote of its own: the winner has voted before
    if !c.ballots.dom().contains((v, r.term)) {
        assert(v == id && r2.term == r.term && r2.voted_for == Some(id));
        if r.voted_for == Some(id) {
            assert(has_ballot(c, id, r.term, id));
        }
    }
    assert(ballot_sound(x, v, r.term));
    if c.ballots[(v, r.term)] != id {
        assert(has_ballot(c, v, r.term, c.ballots[(v, r.term)]));
        assert(has_ballot(c2, v, r.term, c.ballots[(v, r.term)]));
    }
}

/// An event that leaves the log of a replica as it is keeps the run sound.
pub proof fn lemma_quiet(x: Run, id: u8, event: Event)
    requires
        quiet_event(x, id, event),
    ensures
        run_wf(quiet_run(x, id, event)),
{
    let x2 = quiet_run(x, id, event);
    let c = x.cluster;
    let c2 = x2.cluster;
    lemma_quiet_basics(x, id, event);
    assert forall|other: u8| #[trigger] c2.members.dom().contains(other) implies member_sound(
        x2,
        other,
    ) by {
        lemma_quiet_members(x, id, event, other);
    }
    assert forall|term: u64| #[trigger] x2.reigns.dom().contains(term) implies reign_sound(
        x2,
        term,
    ) by {
        lemma_quiet_reigns(x, id, event, term);
    }
    assert forall|to: u8, message: MessageView| #[trigger]
        c2.sent.contains((to, message)) implies letter_sound(x2, message) by {
        lemma_quiet_letters(x, id, event, to, message);
    }
    assert forall|voter: u8, term: u64| #[trigger]
        c2.ballots.dom().contains((voter, term)) implies ballot_sound(x2, voter, term) by {
        lemma_quiet_ballots(x, id, event, voter, term);
    }
    assert forall|voter: u8, term: u64| #[trigger]
        x2.booths.dom().contains((voter, term)) implies c2.ballots.dom().contains((voter, term)) by {
        if x.booths.dom().contains((voter, term)) {
            assert(c.ballots.dom().contains((voter, term)));
        }
    }
    assert forall|other: u8, term: u64| #[trigger]
        x2.taken.dom().contains((other, term)) implies taken_sound(x2, other, term) by {
        lemma_quiet_taken(x, id, event, other, term);
    }
    assert forall|later: u64, term: u64, n: int| #[trigger] reign_keeps(x2, later, term, n) by {
        lemma_quiet_keeps(x, id, event, later, term, n);
    }
}

// ---- one step: a follower takes over entries ----

/// The log of a follower once it has taken over the first `count` entries of an
/// append request, if it accepts the request.
pub open spec fn taken_over(log: Seq<LogEntry>, message: Message, count: int) -> Seq<LogEntry> {
    match message {
        Message::AppendEntries { prev_log_index, prev_log_term, entries, .. } => {
            if accepts_append(log, prev_log_index, prev_log_term) {
                merge(log, entries@.take(count))
            } else {
                log
            }
        },
        _ => log,
    }
}

/// The cluster once a follower has handled an append request whose term is not
/// behind: it has received the request, taken over entries, and answered.
pub open spec fn appended(
    c: Cluster,
    id: u8,
    now: u128,
    timeout_ms: u64,
    message: Message,
    count: int,
    stored: bool,
) -> Cluster {
    let received = happened(c, id, Event::Deliver { now, timeout_ms, message });
    let log = taken_over(c.members[id].raft.log, message, count);
    let held = happened(received, id, Event::Store { log });
    match message {
        Message::AppendEntries {
            term,
            leader_id,
            prev_log_index,
            entries,
            leader_commit,
            ..
        } => happened(
            held,
            id,
            Event::Answer {
                term,
                leader_id,
                leader_commit,
                end: request_end(prev_log_index, entries@.len()),
                success: stored,
            },
        ),
        _ => held,
    }
}

/// How many entries of its leader a follower holds that has stored all entries
/// of an append request.
pub open spec fn held_after(message: Message) -> int {
    match message {
        Message::AppendEntries { prev_log_index, entries, .. } => prev_log_index + entries@.len(),
        _ => 0,
    }
}

/// What was taken over, after one more time.
pub open spec fn taken_after(taken: Map<(u8, u64), int>, id: u8, term: u64, n: int) -> Map<
    (u8, u64),
    int,
> {
    if taken.dom().contains((id, term)) && taken[(id, term)] >= n {
        taken
    } else {
        taken.insert((id, term), n)
    }
}

/// The run once a follower has handled an append request.
pub open spec fn append_run(
    x: Run,
    id: u8,
    now: u128,
    timeout_ms: u64,
    message: Message,
    count: int,
    stored: bool,
) -> Run {
    Run {
        cluster: appended(x.cluster, id, now, timeout_ms, message, count, stored),
        taken: if stored {
            taken_after(x.taken, id, message.spec_term(), held_after(message))
        } else {
            x.taken
        },
        ..x
    }
}

/// Whether a follower can come to handle an append request in this way: its
/// entries are taken over in order, and all of them if they count as stored.
pub open spec fn append_event(
    x: Run,
    id: u8,
    now: u128,
    timeout_ms: u64,
    message: Message,
    count: int,
    stored: bool,
) -> bool {
    let r = x.cluster.members[id].raft;
    &&& x.cluster.members.dom().contains(id)
    &&& x.cluster.sent.contains((id, message@))
    &&& message matches Message::AppendEntries {
        term,
        prev_log_index,
        prev_log_term,
        entries,
        ..
    } && term >= r.term && 0 <= count <= entries@.len() && (stored ==> count == entries@.len()
        && accepts_append(r.log, prev_log_index, prev_log_term))
}

pub proof fn lemma_append_cluster(
    x: Run,
    id: u8,
    now: u128,
    timeout_ms: u64,
    message: Message,
    count: int,
    stored: bool,
)
    requires
        run_wf(x),
        append_event(x, id, now, timeout_ms, message, count, stored),
    ensures
        ({
            let c = x.cluster;
            let c2 = appended(c, id, now, timeout_ms, message, count, stored);
            let r = c.members[id].raft;
            let r2 = c2.members[id].raft;
            &&& cluster_wf(c2)
            &&& c2.members.dom() == c.members.dom()
            &&& forall|other: u8|
                other != id ==> #[trigger] c2.members[other] == c.members[other]
            &&& c2.members[id].site == c.members[id].site
            &&& r2.role == Role::Follower
            &&& r2.term == message.spec_term()
            &&& r2.log == taken_over(r.log, message, count)
            &&& c2.ballots == c.ballots
            &&& forall|to: u8, m: MessageView| #[trigger]
                c2.sent.contains((to, m)) ==> c.sent.contains((to, m)) || m is AppendAck
        }),
{
    let c = x.cluster;
    let s = c.members[id].site;
    let r = c.members[id].raft;
    let deliver = Event::Deliver { now, timeout_ms, message };
    let c1 = happened(c, id, deliver);
    let r1 = c1.members[id].raft;
    law_events_keep_the_cluster_fit(c, id, deliver);
    let store = Event::Store { log: taken_over(r.log, message, count) };
    let c2 = happened(c1, id, store);
    law_events_keep_the_cluster_fit(c1, id, store);
    let (term, leader_id, leader_commit, end) = match message {
        Message::AppendEntries {
            term,
            leader_id,
            prev_log_index,
            entries,
            leader_commit,
            ..
        } => (term, leader_id, leader_commit, request_end(prev_log_index, entries@.len())),
        _ => (0, 0, 0, 0),
    };
    let answer = Event::Answer { term, leader_id, leader_commit, end, success: stored };
    let c3 = happened(c2, id, answer);
    law_events_keep_the_cluster_fit(c2, id, answer);
    assert(c3.members.dom() =~= c.members.dom());
    assert(member_fits(c, id));
    assert(r1.role == Role::Follower && r1.term == term);
    assert(r1.voted_for matches Some(v) ==> r.voted_for == Some(v) && r1.term == r.term);
    if let Some(v) = r1.voted_for {
        assert(has_ballot(c, id, r1.term, v));
    }
    assert(c1.ballots =~= c.ballots);
    assert(c2.ballots =~= c.ballots);
    assert(c3.ballots =~= c.ballots);
    let first = message_step(s, r, now, timeout_ms, message).outputs;
    assert(forall|i: int| 0 <= i < first.len() ==> first[i] is Announce);
    assert forall|to: u8, m: MessageView| #[trigger]
        c3.sent.contains((to, m)) implies c.sent.contains((to, m)) || m is AppendAck by {
        if first.contains(OutputView::Send { to, message: m }) {
            let k = choose|k: int|
                0 <= k < first.len() && first[k] == (OutputView::Send { to, message: m });
            assert(first[k] is Announce);
        }
    }
}

/// What taking over entries of a leader does to a log: it stays as it is, or
/// becomes the leader's log up to there, where it had not agreed with it.
pub proof fn lemma_taken_over(
    x: Run,
    id: u8,
    now: u128,
    timeout_ms: u64,
    message: Message,
    count: int,
    stored: bool,
)
    requires
        run_wf(x),
        append_event(x, id, now, timeout_ms, message, count, stored),
    ensures
        ({
            let r = x.cluster.members[id].raft;
            let term = message.spec_term();
            let lead = x.reigns[term].log;
            let log2 = views(taken_over(r.log, message, count));
            &&& x.reigns.dom().contains(term)
            &&& log2 == views(r.log) || exists|n: int|
                #![trigger lead.take(n)]
                0 <= n <= lead.len() && log2 == lead.take(n) && !(n <= r.log.len() && views(
                    r.log,
                ).take(n) == lead.take(n))
            &&& stored ==> held_after(message) <= lead.len() && has_head(
                x.reigns,
                log2,
                term,
                held_after(message),
            )
        }),
{
    let r = x.cluster.members[id].raft;
    assert(letter_sound(x, message@));
    assert(member_sound(x, id));
    let term = message.spec_term();
    assert(reign_sound(x, term));
    let lead = x.reigns[term].log;
    match message {
        Message::AppendEntries { prev_log_index, prev_log_term, entries, .. } => {
            if accepts_append(r.log, prev_log_index, prev_log_term) {
                lemma_sound_is_contiguous(x.reigns, r.log, r.term);
                lemma_contiguous_entry(r.log, prev_log_index);
                let prev = prev_log_index as int;
                let mine = views(r.log);
                if prev > 0 {
                    assert(entry_rooted(x.reigns, mine, prev - 1));
                    assert(mine[prev - 1] == r.log[prev - 1]@);
                    lemma_same_entry_same_head(x.reigns, mine, lead, r.term, term, prev - 1);
                } else {
                    assert(mine.take(0) =~= lead.take(0));
                }
                let part = entries@.take(count);
                let all = views(entries@);
                assert(message@ matches MessageView::AppendEntries { entries: e, .. } && e == all);
                assert(views(part) =~= lead.subrange(prev, prev + part.len())) by {
                    assert forall|k: int| 0 <= k < part.len() implies views(part)[k]
                        == lead.subrange(prev, prev + part.len())[k] by {
                        assert(all[k] == entries@[k]@);
                        assert(all[k] == lead.subrange(prev, prev + all.len())[k]);
                    }
                }
                lemma_merge_follows_leader(x.reigns, r.log, r.term, lead, term, prev, part);
                let n = prev + part.len();
                assert(lead.take(n).take(n) =~= lead.take(n));
            }
        },
        _ => {},
    }
}

/// A follower that takes over entries keeps the run sound.
pub proof fn lemma_append(
    x: Run,
    id: u8,
    now: u128,
    timeout_ms: u64,
    message: Message,
    count: int,
    stored: bool,
)
    requires
        run_wf(x),
        append_event(x, id, now, timeout_ms, message, count, stored),
    ensures
        run_wf(append_run(x, id, now, timeout_ms, message, count, stored)),
{
    let x2 = append_run(x, id, now, timeout_ms, message, count, stored);
    let c = x.cluster;
    let c2 = x2.cluster;
    let r = c.members[id].raft;
    let r2 = c2.members[id].raft;
    let term = message.spec_term();
    lemma_append_cluster(x, id, now, timeout_ms, message, count, stored);
    lemma_taken_over(x, id, now, timeout_ms, message, count, stored);
    assert(member_sound(x, id));
    assert(reign_sound(x, term));
    let lead = x.reigns[term].log;
    assert forall|other: u8| #[trigger] c2.members.dom().contains(other) implies member_sound(
        x2,
        other,
    ) by {
        assert(member_sound(x, other));
        if other == id && views(r2.log) != views(r.log) {
            let n = choose|n: int|
                #![trigger lead.take(n)]
                0 <= n <= lead.len() && views(r2.log) == lead.take(n);
            lemma_head_is_sound(x.reigns, lead, term, n);
        }
    }
    assert forall|t: u64| #[trigger] x2.reigns.dom().contains(t) implies reign_sound(x2, t) by {
        assert(reign_sound(x, t));
        let leader = x.reigns[t].leader;
        assert forall|v: u8| #[trigger] x2.reigns[t].voters.contains(v) implies has_ballot(
            c2,
            v,
            t,
            leader,
        ) by {
            assert(has_ballot(c, v, t, leader));
        }
    }
    assert forall|to: u8, m: MessageView| #[trigger]
        c2.sent.contains((to, m)) implies letter_sound(x2, m) by {
        if c.sent.contains((to, m)) {
            assert(letter_sound(x, m));
        }
    }
    assert forall|voter: u8, t: u64| #[trigger]
        c2.ballots.dom().contains((voter, t)) implies ballot_sound(x2, voter, t) by {
        assert(ballot_sound(x, voter, t));
    }
    assert forall|other: u8, t: u64| #[trigger]
        x2.taken.dom().contains((other, t)) implies taken_sound(x2, other, t) by {
        lemma_append_taken(x, id, now, timeout_ms, message, count, stored, other, t);
    }
    assert forall|later: u64, t: u64, n: int| #[trigger] reign_keeps(x2, later, t, n) by {
        assert(reign_keeps(x, later, t, n));
        if x.reigns.dom().contains(later) && t < later && made_in(x.reigns, t, n) && lacks(
            x.reigns,
            later,
            t,
            n,
        ) {
            assert(reign_sound(x, later));
            assert forall|v: u8| #[trigger]
                x2.reigns[later].voters.contains(v) && has_taken(x2, v, t, n) implies dropped_by(
                x2.reigns,
                t,
                n,
                (later - 1) as u64,
            ) by {
                if !has_taken(x, v, t, n) {
                    assert(v == id && t == term);
                    assert(has_ballot(c, v, later, x.reigns[later].leader));
                    assert(c2.ballots.dom().contains((v, later)));
                    assert(later <= r2.term);
                }
            }
        }
    }
}

proof fn lemma_append_taken(
    x: Run,
    id: u8,
    now: u128,
    timeout_ms: u64,
    message: Message,
    count: int,
    stored: bool,
    other: u8,
    t: u64,
)
    requires
        run_wf(x),
        append_event(x, id, now, timeout_ms, message, count, stored),
        append_run(x, id, now, timeout_ms, message, count, stored).taken.dom().contains((other, t)),
    ensures
        taken_sound(append_run(x, id, now, timeout_ms, message, count, stored), other, t),
{
    let x2 = append_run(x, id, now, timeout_ms, message, count, stored);
    let c = x.cluster;
    let c2 = x2.cluster;
    let r = c.members[id].raft;
    let r2 = c2.members[id].raft;
    let term = message.spec_term();
    lemma_append_cluster(x, id, now, timeout_ms, message, count, stored);
    lemma_taken_over(x, id, now, timeout_ms, message, count, stored);
    let lead = x.reigns[term].log;
    let fresh = stored && other == id && t == term;
    if x.taken.dom().contains((other, t)) {
        assert(taken_sound(x, other, t));
    }
    assert forall|n: int|
        1 <= n <= x2.taken[(other, t)] && #[trigger] made_in(x2.reigns, t, n) implies kept(
        x2,
        other,
        t,
        n,
    ) by {
        if other != id {
            assert(kept(x, other, t, n));
        } else if has_taken(x, other, t, n) {
            assert(kept(x, other, t, n));
            if has_head(x.reigns, views(r.log), t, n) {
                if lacks(x.reigns, term, t, n) {
                    if t == term {
                        assert(has_head(x.reigns, lead, term, n));
                    }
                    assert(dropped_by(x.reigns, t, n, r2.term));
                } else if views(r2.log) != views(r.log) {
                    let m = choose|m: int|
                        #![trigger lead.take(m)]
                        0 <= m <= lead.len() && views(r2.log) == lead.take(m) && !(m <= r.log.len()
                            && views(r.log).take(m) == lead.take(m));
                    if m <= n {
                        assert(views(r.log).take(m) =~= views(r.log).take(n).take(m));
                        assert(lead.take(m) =~= lead.take(n).take(m));
                    }
                    assert(lead.take(m).take(n) =~= lead.take(n));
                }
            } else {
                let u = choose|u: u64| t < u <= r.term && #[trigger] lacks(x.reigns, u, t, n);
                assert(dropped_by(x.reigns, t, n, r2.term));
            }
        } else {
            assert(fresh);
            let held = held_after(message);
            assert(n <= held);
            assert(views(r2.log).take(n) =~= views(r2.log).take(held).take(n));
            assert(lead.take(n) =~= lead.take(held).take(n));
            assert forall|later: u64| #[trigger]
                x2.booths.dom().contains((other, later)) && later > t implies has_head(
                x2.reigns,
                x2.booths[(other, later)],
                t,
                n,
            ) || dropped_by(x2.reigns, t, n, later) by {
                assert(c2.ballots.dom().contains((other, later)));
                assert(later <= r2.term);
            }
        }
    }
}

// ---- one step: a leader adds entries ----

/// The run once a leader has added entries for commands.
pub open spec fn propose_run(x: Run, id: u8, now: u128, commands: Seq<ReplicatedCommand>) -> Run {
    let r = x.cluster.members[id].raft;
    let entries = batch_entries(last_index_of(r.log), r.term, commands);
    let c2 = happened(x.cluster, id, Event::Propose { now, entries });
    let r2 = c2.members[id].raft;
    Run {
        cluster: c2,
        reigns: reigns_after(x.reigns, id, r, r2),
        taken: taken_after(x.taken, id, r2.term, r2.log.len() as int),
        ..x
    }
}

/// Whether a replica can add entries: it leads, and there is room for them.
pub open spec fn propose_event(x: Run, id: u8, commands: Seq<ReplicatedCommand>) -> bool {
    let r = x.cluster.members[id].raft;
    &&& x.cluster.members.dom().contains(id)
    &&& r.role == Role::Leader
    &&& commands.len() > 0
    &&& last_index_of(r.log) + commands.len() <= u64::MAX
}

pub proof fn lemma_propose_basics(x: Run, id: u8, now: u128, commands: Seq<ReplicatedCommand>)
    requires
        run_wf(x),
        propose_event(x, id, commands),
    ensures
        ({
            let x2 = propose_run(x, id, now, commands);
            let c = x.cluster;
            let c2 = x2.cluster;
            let s = c.members[id].site;
            let r = c.members[id].raft;
            let r2 = c2.members[id].raft;
            &&& cluster_wf(c2)
            &&& c2.members.dom() == c.members.dom()
            &&& forall|other: u8|
                other != id ==> #[trigger] c2.members[other] == c.members[other]
            &&& c2.members[id].site == c.members[id].site
            &&& r2.role == Role::Leader
            &&& r2.term == r.term
            &&& r2.leader_since_term == r.leader_since_term
            &&& r2.log == r.log + batch_entries(last_index_of(r.log), r.term, commands)
            &&& c2.ballots == c.ballots
            &&& x2.reigns.dom() == x.reigns.dom()
            &&& x2.reigns[r.term].log == views(r2.log)
            &&& forall|t: u64|
                t != r.term ==> #[trigger] x2.reigns[t] == x.reigns[t]
            &&& grown(x.reigns, x2.reigns)
            &&& contiguous(r2.log)
            &&& sound_log(x2.reigns, views(r2.log), r.term)
            &&& forall|to: u8, m: MessageView| #[trigger]
                c2.sent.contains((to, m)) ==> c.sent.contains((to, m)) || m is AppendEntries
                    && letter_of(s, r2, m)
        }),
{
    let x2 = propose_run(x, id, now, commands);
    let c = x.cluster;
    let c2 = x2.cluster;
    let s = c.members[id].site;
    let r = c.members[id].raft;
    let r2 = c2.members[id].raft;
    let entries = batch_entries(last_index_of(r.log), r.term, commands);
    let event = Event::Propose { now, entries };
    assert(member_sound(x, id));
    assert(member_fits(c, id));
    assert(reign_sound(x, r.term));
    law_events_keep_the_cluster_fit(c, id, event);
    let full = RaftView {
        log: r.log + entries,
        match_index: r.match_index.insert(s.self_id, entries.last().index),
        ..r
    };
    lemma_committed(s, full, now);
    assert(c2.members.dom() =~= c.members.dom());
    if let Some(v) = r.voted_for {
        assert(has_ballot(c, id, r.term, v));
    }
    assert(c2.ballots =~= c.ballots);
    assert(x2.reigns.dom() =~= x.reigns.dom());
    lemma_sound_is_contiguous(x.reigns, r.log, r.term);
    let old_log = views(r.log);
    let new_log = views(r2.log);
    assert(new_log =~= old_log + views(entries));
    assert(old_log.is_prefix_of(new_log)) by {
        assert(old_log =~= new_log.subrange(0, old_log.len() as int));
    }
    assert forall|i: int| old_log.len() <= i < new_log.len() implies (#[trigger] new_log[i]).term
        == r.term && new_log[i].index == i + 1 by {
        assert(new_log[i] == entries[i - old_log.len()]@);
    }
    assert forall|t: u64| #[trigger] x.reigns.dom().contains(t) implies {
        &&& x2.reigns.dom().contains(t)
        &&& x2.reigns[t].leader == x.reigns[t].leader
        &&& x2.reigns[t].voters == x.reigns[t].voters
        &&& x.reigns[t].log.is_prefix_of(x2.reigns[t].log)
        &&& forall|i: int|
            x.reigns[t].log.len() <= i < x2.reigns[t].log.len() ==> (
            #[trigger] x2.reigns[t].log[i]).term == t
    } by {
        if t != r.term {
            assert(x2.reigns[t] == x.reigns[t]);
            assert(x.reigns[t].log =~= x.reigns[t].log.subrange(0, x.reigns[t].log.len() as int));
        }
    }
    lemma_grown_sound(x.reigns, x2.reigns, old_log, r.term, r.term);
    assert forall|i: int| 0 <= i < new_log.len() implies #[trigger] entry_rooted(
        x2.reigns,
        new_log,
        i,
    ) by {
        if i < old_log.len() {
            assert(entry_rooted(x2.reigns, old_log, i));
            assert(old_log[i] == new_log[i]);
            lemma_prefix_take(old_log, new_log, i + 1);
        }
    }
    assert forall|i: int, j: int| 0 <= i <= j < new_log.len() implies (#[trigger] new_log[i]).term
        <= (#[trigger] new_log[j]).term by {
        if i < old_log.len() {
            assert(old_log[i] == new_log[i]);
        }
        if j < old_log.len() {
            assert(old_log[j] == new_log[j]);
        }
    }
    assert forall|i: int| 0 <= i < new_log.len() implies (#[trigger] new_log[i]).term <= r.term by {
        if i < old_log.len() {
            assert(old_log[i] == new_log[i]);
        }
    }
    lemma_sound_is_contiguous(x2.reigns, r2.log, r.term);
    lemma_append_requests_are_letters(s, full);
    assert forall|to: u8, m: MessageView| #[trigger]
        c2.sent.contains((to, m)) implies c.sent.contains((to, m)) || m is AppendEntries
        && letter_of(s, r2, m) by {
        if !c.sent.contains((to, m)) {
            assert(append_requests(s, full).contains(OutputView::Send { to, message: m }));
        }
    }
}

/// A leader that adds entries keeps the run sound.
pub proof fn lemma_propose(x: Run, id: u8, now: u128, commands: Seq<ReplicatedCommand>)
    requires
        run_wf(x),
        propose_event(x, id, commands),
    ensures
        run_wf(propose_run(x, id, now, commands)),
{
    let x2 = propose_run(x, id, now, commands);
    let c = x.cluster;
    let c2 = x2.cluster;
    let r = c.members[id].raft;
    let r2 = c2.members[id].raft;
    lemma_propose_basics(x, id, now, commands);
    assert(member_sound(x, id));
    assert(member_fits(c, id));
    assert forall|other: u8| #[trigger] c2.members.dom().contains(other) implies member_sound(
        x2,
        other,
    ) by {
        assert(member_sound(x, other));
        if other != id {
            let o = c.members[other].raft;
            lemma_grown_sound(x.reigns, x2.reigns, views(o.log), o.term, o.term);
        }
    }
    assert forall|t: u64| #[trigger] x2.reigns.dom().contains(t) implies reign_sound(x2, t) by {
        assert(reign_sound(x, t));
        if t != r.term {
            assert(x2.reigns[t] == x.reigns[t]);
            lemma_grown_sound(x.reigns, x2.reigns, x.reigns[t].log, t, t);
        }
        let leader = x.reigns[t].leader;
        assert forall|v: u8| #[trigger] x2.reigns[t].voters.contains(v) implies has_ballot(
            c2,
            v,
            t,
            leader,
        ) by {
            assert(has_ballot(c, v, t, leader));
        }
    }
    assert forall|to: u8, m: MessageView| #[trigger]
        c2.sent.contains((to, m)) implies letter_sound(x2, m) by {
        if c.sent.contains((to, m)) {
            assert(letter_sound(x, m));
            if let MessageView::AppendEntries {
                term,
                prev_log_index,
                prev_log_term,
                entries,
                ..
            } = m {
                lemma_grown_append(
                    x.reigns[term].log,
                    x2.reigns[term].log,
                    prev_log_index,
                    prev_log_term,
                    entries,
                );
            }
        }
    }
    assert forall|voter: u8, t: u64| #[trigger]
        c2.ballots.dom().contains((voter, t)) implies ballot_sound(x2, voter, t) by {
        assert(ballot_sound(x, voter, t));
        lemma_grown_sound(x.reigns, x2.reigns, x.booths[(voter, t)], t, t);
    }
    assert forall|other: u8, t: u64| #[trigger]
        x2.taken.dom().contains((other, t)) implies taken_sound(x2, other, t) by {
        lemma_propose_taken(x, id, now, commands, other, t);
    }
    assert forall|later: u64, t: u64, n: int| #[trigger] reign_keeps(x2, later, t, n) by {
        assert(reign_keeps(x, later, t, n));
        if x2.reigns.dom().contains(later) && t < later && made_in(x2.reigns, t, n) && lacks(
            x2.reigns,
            later,
            t,
            n,
        ) {
            assert(reign_sound(x, later));
            assert(x.reigns.dom().contains(t));
            assert forall|v: u8| #[trigger]
                x2.reigns[later].voters.contains(v) && has_taken(x2, v, t, n) implies dropped_by(
                x2.reigns,
                t,
                n,
                (later - 1) as u64,
            ) by {
                if !has_taken(x, v, t, n) {
                    assert(v == id && t == r.term);
                    assert(has_ballot(c, v, later, x.reigns[later].leader));
                    assert(c2.ballots.dom().contains((v, later)));
                    assert(later <= r2.term);
                } else {
                    assert(x.taken.dom().contains((v, t)));
                    assert(taken_sound(x, v, t));
                    lemma_made_before(x.reigns, x2.reigns, t, n);
                    lemma_grown_lacks(x.reigns, x2.reigns, later, t, n);
                    lemma_grown_dropped(
                        x.reigns,
                        x2.reigns,
                        t,
                        n,
                        (later - 1) as u64,
                        (later - 1) as u64,
                    );
                }
            }
        }
    }
}

proof fn lemma_propose_taken(
    x: Run,
    id: u8,
    now: u128,
    commands: Seq<ReplicatedCommand>,
    other: u8,
    t: u64,
)
    requires
        run_wf(x),
        propose_event(x, id, commands),
        propose_run(x, id, now, commands).taken.dom().contains((other, t)),
    ensures
        taken_sound(propose_run(x, id, now, commands), other, t),
{
    let x2 = propose_run(x, id, now, commands);
    let c = x.cluster;
    let c2 = x2.cluster;
    let r = c.members[id].raft;
    let r2 = c2.members[id].raft;
    lemma_propose_basics(x, id, now, commands);
    assert(member_sound(x, id));
    if x.taken.dom().contains((other, t)) {
        assert(taken_sound(x, other, t));
    }
    assert forall|n: int|
        1 <= n <= x2.taken[(other, t)] && #[trigger] made_in(x2.reigns, t, n) implies kept(
        x2,
        other,
        t,
        n,
    ) by {
        if other == id && t == r.term {
            assert forall|later: u64| #[trigger]
                x2.booths.dom().contains((other, later)) && later > t implies has_head(
                x2.reigns,
                x2.booths[(other, later)],
                t,
                n,
            ) || dropped_by(x2.reigns, t, n, later) by {
                assert(c2.ballots.dom().contains((other, later)));
                assert(later <= r2.term);
            }
        } else {
            lemma_made_before(x.reigns, x2.reigns, t, n);
            assert(kept(x, other, t, n));
            let o = c.members[other].raft;
            lemma_grown_kept_log(x.reigns, x2.reigns, views(o.log), t, n, o.term, o.term);
            if other == id && has_head(x2.reigns, views(r.log), t, n) {
                assert(views(r2.log).take(n) =~= views(r.log).take(n)) by {
                    assert(views(r.log) =~= views(r2.log).subrange(0, r.log.len() as int));
                }
            }
            assert forall|later: u64| #[trigger]
                x2.booths.dom().contains((other, later)) && later > t implies has_head(
                x2.reigns,
                x2.booths[(other, later)],
                t,
                n,
            ) || dropped_by(x2.reigns, t, n, later) by {
                lemma_grown_kept_log(
                    x.reigns,
                    x2.reigns,
                    x.booths[(other, later)],
                    t,
                    n,
                    later,
                    later,
                );
            }
        }
    }
}

// ---- every step ----

/// What can happen to a replica in a run.
pub enum Act {
    /// Its clock ticks.
    Tick { now: u128, timeout_ms: u64 },
    /// It receives a message other than an append request that it follows.
    Receive { now: u128, timeout_ms: u64, message: Message },
    /// It receives an append request, takes over the first `count` of its
    /// entries, and answers.
    Append { now: u128, timeout_ms: u64, message: Message, count: int, stored: bool },
    /// It adds entries for commands.
    Propose { now: u128, commands: Seq<ReplicatedCommand> },
    /// It drives a proposal that waits, though it may no longer lead.
    Drive { now: u128 },
    /// It has an answer of the monitoring service, or has forgotten it.
    Learn { verdict: CachedVerdict },
}

/// The event that an act is, unless it changes the log.
pub open spec fn event_of(act: Act) -> Event {
    match act {
        Act::Tick { now, timeout_ms } => Event::Tick { now, timeout_ms },
        Act::Receive { now, timeout_ms, message } => Event::Deliver { now, timeout_ms, message },
        Act::Drive { now } => Event::Drive { now },
        Act::Learn { verdict } => Event::Learn { verdict },
        Act::Append { now, timeout_ms, message, .. } => Event::Deliver { now, timeout_ms, message },
        Act::Propose { now, .. } => Event::Drive { now },
    }
}

/// Whether a replica that comes to lead has the votes of a majority.
pub open spec fn wins_by_majority(x: Run, id: u8, event: Event) -> bool {
    let s = x.cluster.members[id].site;
    let r = x.cluster.members[id].raft;
    let after = event_step(s, r, event).raft;
    r.role != Role::Leader && after.role == Role::Leader ==> after.votes.len() >= majority(s)
}

/// Whether an act can happen: nothing is received that was not sent, leaders are
/// elected by a majority, and a leader gives way to a higher term.
pub open spec fn can_act(x: Run, id: u8, act: Act) -> bool {
    &&& x.cluster.members.dom().contains(id)
    &&& match act {
        Act::Tick { .. } => {
            &&& can_tick(x.cluster.members[id].raft)
            &&& wins_by_majority(x, id, event_of(act))
        },
        Act::Receive { now, message, .. } => {
            &&& x.cluster.sent.contains((id, message@))
            &&& message is AppendEntries ==> message.spec_term() < x.cluster.members[id].raft.term
            &&& gives_way(x.cluster.members[id].site, x.cluster.members[id].raft, now, message)
            &&& wins_by_majority(x, id, event_of(act))
        },
        Act::Append { now, timeout_ms, message, count, stored } => append_event(
            x,
            id,
            now,
            timeout_ms,
            message,
            count,
            stored,
        ),
        Act::Propose { commands, .. } => propose_event(x, id, commands),
        Act::Drive { .. } | Act::Learn { .. } => true,
    }
}

/// The run after an act.
pub open spec fn acted(x: Run, id: u8, act: Act) -> Run {
    match act {
        Act::Append { now, timeout_ms, message, count, stored } => append_run(
            x,
            id,
            now,
            timeout_ms,
            message,
            count,
            stored,
        ),
        Act::Propose { now, commands } => propose_run(x, id, now, commands),
        _ => quiet_run(x, id, event_of(act)),
    }
}

/// The run of a cluster that has just started with empty logs.
pub open spec fn new_run(sites: Map<u8, Site>, now: u128, timeouts: Map<u8, u64>) -> Run {
    Run {
        cluster: Cluster {
            members: Map::new(
                |id: u8| sites.dom().contains(id),
                |id: u8|
                    Member {
                        site: sites[id],
                        raft: initial_raft(sites[id].peers, Seq::empty(), now, timeouts[id]),
                    },
            ),
            sent: Set::empty(),
            ballots: Map::empty(),
        },
        reigns: Map::empty(),
        booths: Map::empty(),
        taken: Map::empty(),
    }
}

/// A run starts sound.
pub proof fn law_new_run_is_sound(sites: Map<u8, Site>, now: u128, timeouts: Map<u8, u64>)
    requires
        sites.dom().finite(),
        forall|id: u8| #[trigger]
            sites.dom().contains(id) ==> sites[id].self_id == id && sites[id].peers.len() + 1
                == sites.dom().len(),
    ensures
        run_wf(new_run(sites, now, timeouts)),
{
    let x = new_run(sites, now, timeouts);
    let logs = Map::new(|id: u8| sites.dom().contains(id), |id: u8| Seq::<LogEntry>::empty());
    law_new_cluster_fits(sites, logs, now, timeouts);
    assert(x.cluster.members =~= Map::new(
        |id: u8| sites.dom().contains(id),
        |id: u8|
            Member {
                site: sites[id],
                raft: initial_raft(sites[id].peers, logs[id], now, timeouts[id]),
            },
    ));
}

/// An act that neither takes over nor adds entries leaves the log as it is.
pub proof fn lemma_quiet_act(x: Run, id: u8, act: Act)
    requires
        run_wf(x),
        can_act(x, id, act),
        !(act is Append || act is Propose),
    ensures
        quiet_event(x, id, event_of(act)),
{
    let s = x.cluster.members[id].site;
    let r = x.cluster.members[id].raft;
    assert(member_sound(x, id));
    assert(member_fits(x.cluster, id));
    lemma_sound_is_contiguous(x.reigns, r.log, r.term);
    match act {
        Act::Tick { now, timeout_ms } => lemma_tick_moves(s, r, now, timeout_ms),
        Act::Receive { now, timeout_ms, message } => {
            lemma_message_moves(s, r, now, timeout_ms, message);
        },
        Act::Drive { now } => {
            lemma_committed(s, r, now);
            lemma_append_requests_are_letters(s, committed(s, r, now));
        },
        _ => {},
    }
}

/// Whatever a replica does, the run goes on to be sound.
pub proof fn law_acts_keep_the_run_sound(x: Run, id: u8, act: Act)
    requires
        run_wf(x),
        can_act(x, id, act),
    ensures
        run_wf(acted(x, id, act)),
{
    match act {
        Act::Append { now, timeout_ms, message, count, stored } => {
            lemma_append(x, id, now, timeout_ms, message, count, stored);
        },
        Act::Propose { now, commands } => lemma_propose(x, id, now, commands),
        _ => {
            lemma_quiet_act(x, id, act);
            lemma_quiet(x, id, event_of(act));
        },
    }
}

/// Nothing that a majority has taken over from the leader that made it, while it
/// led, is lost: the leader of every later term has it, with all that stood
/// before it.
pub proof fn law_later_leaders_hold_it(x: Run, term: u64, n: int, holders: Set<u8>, later: u64)
    requires
        run_wf(x),
        made_in(x.reigns, term, n),
        holders.subset_of(x.cluster.members.dom()),
        holders.len() >= majority(x.cluster.members[x.reigns[term].leader].site),
        forall|id: u8| #[trigger] holders.contains(id) ==> has_taken(x, id, term, n),
        x.reigns.dom().contains(later),
        term < later,
    ensures
        has_head(x.reigns, x.reigns[later].log, term, n),
    decreases later,
{
    if lacks(x.reigns, later, term, n) {
        let c = x.cluster;
        assert(reign_sound(x, term));
        assert(reign_sound(x, later));
        let first = x.reigns[term].leader;
        let voters = x.reigns[later].voters;
        let leader = x.reigns[later].leader;
        assert(member_fits(c, first));
        assert(member_fits(c, leader));
        assert forall|v: u8| voters.contains(v) implies c.members.dom().contains(v) by {
            assert(has_ballot(c, v, later, leader));
        }
        law_majorities_intersect(c.members[first].site, c.members.dom(), holders, voters);
        let v = choose|v: u8| holders.contains(v) && voters.contains(v);
        assert(has_taken(x, v, term, n));
        assert(reign_keeps(x, later, term, n));
        let between = choose|between: u64|
            term < between <= (later - 1) as u64 && #[trigger] lacks(x.reigns, between, term, n);
        law_later_leaders_hold_it(x, term, n, holders, between);
    }
}

/// The logs of the replicas agree: where two of them have an entry of the same
/// term in the same place, they are the same up to it.
pub proof fn law_logs_agree(x: Run, a: u8, b: u8, i: int)
    requires
        run_wf(x),
        x.cluster.members.dom().contains(a),
        x.cluster.members.dom().contains(b),
        0 <= i < x.cluster.members[a].raft.log.len(),
        i < x.cluster.members[b].raft.log.len(),
        x.cluster.members[a].raft.log[i].term == x.cluster.members[b].raft.log[i].term,
    ensures
        views(x.cluster.members[a].raft.log).take(i + 1) == views(
            x.cluster.members[b].raft.log,
        ).take(i + 1),
{
    let ra = x.cluster.members[a].raft;
    let rb = x.cluster.members[b].raft;
    assert(member_sound(x, a));
    assert(member_sound(x, b));
    assert(views(ra.log)[i] == ra.log[i]@);
    assert(views(rb.log)[i] == rb.log[i]@);
    lemma_same_entry_same_head(x.reigns, views(ra.log), views(rb.log), ra.term, rb.term, i);
}

/// Whoever leads has what a majority has taken over from an earlier leader, in
/// its own log.
pub proof fn law_leaders_log_holds_it(x: Run, term: u64, n: int, holders: Set<u8>, id: u8)
    requires
        run_wf(x),
        made_in(x.reigns, term, n),
        holders.subset_of(x.cluster.members.dom()),
        holders.len() >= majority(x.cluster.members[x.reigns[term].leader].site),
        forall|v: u8| #[trigger] holders.contains(v) ==> has_taken(x, v, term, n),
        x.cluster.members.dom().contains(id),
        x.cluster.members[id].raft.role == Role::Leader,
        x.cluster.members[id].raft.term >= term,
    ensures
        views(x.cluster.members[id].raft.log).take(n) == x.reigns[term].log.take(n),
{
    let r = x.cluster.members[id].raft;
    assert(member_sound(x, id));
    if r.term > term {
        law_later_leaders_hold_it(x, term, n, holders, r.term);
    }
}

} // verus!
