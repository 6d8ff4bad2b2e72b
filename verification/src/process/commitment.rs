//! What is committed stays committed, and is the same everywhere.
//!
//! This follows a run of the cluster in which nothing is committed by fewer
//! replicas than a majority. An entry is committed because a majority has taken
//! it over from its leader, so every later leader has it, and every replica that
//! commits its position has the same entry there.

use crate::process::cluster::{event_step, happened, member_fits, Cluster, Event};
use crate::process::config::S2Node;
use crate::process::log_entry::{views, EntryView, LogEntry, ReplicatedCommand};
use crate::process::message::{Message, MessageView};
use crate::process::raft_laws::{
    law_commit_needs_quorum, law_leadership_is_won, lemma_committed,
};
use crate::process::raft_model::{
    acknowledged, append_requests, can_tick, committed, count_ids, entry_term, fence_step,
    has_acknowledged, has_id, lead_step, majority, matched_index, message_step, met, propose_step,
    refresh_step, replica_count, request_end, role_step, send_to_node, tick_step, vote_requests,
    win_step, OutputView, RaftView, Role, Site,
};
use crate::process::results::{
    answers_with_applied, law_published_results_are_applied, publish_step, result_frame_of,
    PublishStep,
};
use crate::process::safety::{
    acted, append_event, append_run, brought_by, can_act, dropped_by, entry_rooted, event_of, grown,
    has_head, has_taken, held_after, kept, lacks, law_later_leaders_hold_it,
    law_new_run_is_sound, lemma_append, lemma_append_cluster,
    lemma_grown_head, lemma_prefix_take, lemma_propose, lemma_propose_basics, lemma_quiet,
    lemma_quiet_act, lemma_quiet_basics, lemma_sound_is_contiguous, lemma_taken_over, letter_of,
    letter_sound, made_in, member_sound, new_run, propose_event, propose_run, quiet_event,
    quiet_run, reign_sound, run_wf, taken_over, taken_sound, wins_by_majority, Act, Run,
};
use crate::process::wal::{batch_entries, last_index_of, lemma_contiguous_entry};
use vstd::prelude::*;

verus! {

/// Whether these replicas are a majority that has taken over the first `n`
/// entries of the leader of a term, the last of which that leader had made.
pub open spec fn chosen_by(x: Run, term: u64, n: int, holders: Set<u8>) -> bool {
    &&& made_in(x.reigns, term, n)
    &&& holders.subset_of(x.cluster.members.dom())
    &&& holders.len() >= majority(x.cluster.members[x.reigns[term].leader].site)
    &&& forall|id: u8| #[trigger] holders.contains(id) ==> has_taken(x, id, term, n)
}

/// Whether a majority has taken over the first `n` entries of the leader of a
/// term.
pub open spec fn chosen(x: Run, term: u64, n: int) -> bool {
    exists|holders: Set<u8>| chosen_by(x, term, n, holders)
}

/// Whether a log begins with `n` entries of the leader of a term that a majority
/// has taken over, with those up to entry `m`.
pub open spec fn backed(x: Run, log: Seq<EntryView>, n: int, term: u64, m: int) -> bool {
    &&& 0 <= n <= m
    &&& chosen(x, term, m)
    &&& has_head(x.reigns, log, term, n)
}

/// Whether a majority has taken over the first `n` entries of a log from the
/// leader of a term up to `top`.
pub open spec fn settled(x: Run, log: Seq<EntryView>, n: int, top: u64) -> bool {
    n == 0 || exists|term: u64, m: int| term <= top && #[trigger] backed(x, log, n, term, m)
}

/// Whether the peers of a replica are the other replicas, each once.
pub open spec fn peers_fit(c: Cluster, id: u8) -> bool {
    let peers = c.members[id].site.peers;
    &&& forall|i: int|
        0 <= i < peers.len() ==> (#[trigger] peers[i]).id != id && c.members.dom().contains(
            peers[i].id,
        )
    &&& forall|i: int, j: int|
        0 <= i < j < peers.len() ==> (#[trigger] peers[i]).id != (#[trigger] peers[j]).id
}

/// What a leader takes the others to hold, they have taken over from it. A
/// replica that does not lead takes nothing of the others.
pub open spec fn acks_sound(x: Run, id: u8) -> bool {
    let r = x.cluster.members[id].raft;
    forall|p: u8| #[trigger]
        r.match_index.dom().contains(p) && p != id ==> r.role == Role::Leader && has_taken(
            x,
            p,
            r.term,
            r.match_index[p] as int,
        )
}

/// What a leader has made, it has itself.
pub open spec fn makers_have(x: Run) -> bool {
    forall|term: u64, n: int| #[trigger]
        made_in(x.reigns, term, n) ==> has_taken(x, x.reigns[term].leader, term, n)
}

/// What holds of what a replica has committed.
pub open spec fn commit_sound(x: Run, id: u8) -> bool {
    let r = x.cluster.members[id].raft;
    &&& peers_fit(x.cluster, id)
    &&& settled(x, views(r.log), r.commit_index as int, r.term)
    &&& acks_sound(x, id)
}

/// What holds of what a message says: what a leader tells others to be committed
/// is settled, and what a follower acknowledges it has taken over.
pub open spec fn report_sound(x: Run, to: u8, message: MessageView) -> bool {
    match message {
        MessageView::AppendEntries { term, leader_id, leader_commit, .. } => {
            &&& to != leader_id
            &&& settled(x, x.reigns[term].log, leader_commit as int, term)
        },
        MessageView::AppendAck { term, follower_id, success, match_index } => success
            ==> has_taken(x, follower_id, term, match_index as int),
        _ => true,
    }
}

/// What holds of a run in which a majority commits, whatever happens.
pub open spec fn commits_wf(x: Run) -> bool {
    &&& run_wf(x)
    &&& forall|id: u8| #[trigger] x.cluster.members.dom().contains(id) ==> commit_sound(x, id)
    &&& forall|to: u8, message: MessageView| #[trigger]
        x.cluster.sent.contains((to, message)) ==> report_sound(x, to, message)
    &&& makers_have(x)
}

// ---- settled logs ----

proof fn lemma_settled_shorter(x: Run, log: Seq<EntryView>, n: int, k: int, top: u64)
    requires
        settled(x, log, n, top),
        0 <= k <= n,
    ensures
        settled(x, log, k, top),
{
    if k > 0 {
        let (term, m) = choose|term: u64, m: int|
            term <= top && #[trigger] backed(x, log, n, term, m);
        assert(log.take(k) =~= log.take(n).take(k));
        assert(x.reigns[term].log.take(k) =~= x.reigns[term].log.take(n).take(k));
        assert(backed(x, log, k, term, m));
    }
}

proof fn lemma_settled_elsewhere(
    x: Run,
    log: Seq<EntryView>,
    other: Seq<EntryView>,
    n: int,
    top: u64,
    top2: u64,
)
    requires
        settled(x, log, n, top),
        top <= top2,
        n <= other.len(),
        other.take(n) == log.take(n),
    ensures
        settled(x, other, n, top2),
{
    if n != 0 {
        let (term, m) = choose|term: u64, m: int|
            term <= top && #[trigger] backed(x, log, n, term, m);
        assert(backed(x, other, n, term, m));
    }
}

/// The leader of a term has what was settled by then.
proof fn lemma_leader_has_settled(x: Run, log: Seq<EntryView>, n: int, top: u64, later: u64)
    requires
        run_wf(x),
        settled(x, log, n, top),
        top <= later,
        x.reigns.dom().contains(later),
    ensures
        0 <= n <= log.len(),
        n <= x.reigns[later].log.len(),
        x.reigns[later].log.take(n) == log.take(n),
{
    let lead = x.reigns[later].log;
    if n == 0 {
        assert(lead.take(0) =~= log.take(0));
    } else {
        let (term, m) = choose|term: u64, m: int|
            term <= top && #[trigger] backed(x, log, n, term, m);
        let holders = choose|holders: Set<u8>| chosen_by(x, term, m, holders);
        if term < later {
            law_later_leaders_hold_it(x, term, m, holders, later);
            assert(lead.take(n) =~= lead.take(m).take(n));
            assert(x.reigns[term].log.take(n) =~= x.reigns[term].log.take(m).take(n));
        }
    }
}

/// Whether a run continues another one.
spec fn continues(x: Run, x2: Run) -> bool {
    &&& grown(x.reigns, x2.reigns)
    &&& x2.cluster.members.dom() == x.cluster.members.dom()
    &&& forall|id: u8|
        x.cluster.members.dom().contains(id) ==> (#[trigger] x2.cluster.members[id]).site.peers
            == x.cluster.members[id].site.peers
    &&& forall|id: u8, term: u64, n: int|
        has_taken(x, id, term, n) ==> #[trigger] has_taken(x2, id, term, n)
}

proof fn lemma_settled_stays(x: Run, x2: Run, log: Seq<EntryView>, n: int, top: u64, top2: u64)
    requires
        run_wf(x),
        continues(x, x2),
        settled(x, log, n, top),
        top <= top2,
    ensures
        settled(x2, log, n, top2),
{
    if n != 0 {
        let (term, m) = choose|term: u64, m: int|
            term <= top && #[trigger] backed(x, log, n, term, m);
        let holders = choose|holders: Set<u8>| chosen_by(x, term, m, holders);
        assert(reign_sound(x, term));
        let leader = x.reigns[term].leader;
        assert(x2.cluster.members[leader].site.peers == x.cluster.members[leader].site.peers);
        lemma_grown_head(x.reigns, x2.reigns, log, term, n);
        assert(x2.reigns[term].log[m - 1] == x.reigns[term].log[m - 1]);
        assert forall|id: u8| #[trigger] holders.contains(id) implies has_taken(
            x2,
            id,
            term,
            m,
        ) by {
            assert(has_taken(x, id, term, m));
        }
        assert(chosen_by(x2, term, m, holders));
        assert(backed(x2, log, n, term, m));
    }
}

proof fn lemma_report_stays(x: Run, x2: Run, to: u8, message: MessageView)
    requires
        run_wf(x),
        continues(x, x2),
        letter_sound(x, message),
        report_sound(x, to, message),
    ensures
        report_sound(x2, to, message),
{
    match message {
        MessageView::AppendEntries { term, leader_commit, .. } => {
            let short = x.reigns[term].log;
            let long = x2.reigns[term].log;
            let n = leader_commit as int;
            lemma_leader_has_settled(x, short, n, term, term);
            lemma_settled_stays(x, x2, short, n, term, term);
            lemma_prefix_take(short, long, n);
            lemma_settled_elsewhere(x2, short, long, n, term, term);
        },
        MessageView::AppendAck { term, follower_id, success, match_index } => {
            if success {
                assert(has_taken(x, follower_id, term, match_index as int));
            }
        },
        _ => {},
    }
}

proof fn lemma_peers_stay(x: Run, x2: Run, id: u8)
    requires
        continues(x, x2),
        x.cluster.members.dom().contains(id),
        peers_fit(x.cluster, id),
    ensures
        peers_fit(x2.cluster, id),
{
    assert(x2.cluster.members[id].site.peers == x.cluster.members[id].site.peers);
}

/// A replica that does nothing goes on to fit.
proof fn lemma_bystander(x: Run, x2: Run, id: u8)
    requires
        run_wf(x),
        run_wf(x2),
        continues(x, x2),
        x.cluster.members.dom().contains(id),
        x2.cluster.members[id].raft == x.cluster.members[id].raft,
        commit_sound(x, id),
    ensures
        commit_sound(x2, id),
{
    let r = x.cluster.members[id].raft;
    lemma_peers_stay(x, x2, id);
    lemma_settled_stays(x, x2, views(r.log), r.commit_index as int, r.term, r.term);
    assert(member_sound(x, id));
    assert(member_sound(x2, id));
    assert forall|p: u8| #[trigger]
        r.match_index.dom().contains(p) && p != id implies r.role == Role::Leader && has_taken(
        x2,
        p,
        r.term,
        r.match_index[p] as int,
    ) by {
        assert(has_taken(x, p, r.term, r.match_index[p] as int));
    }
}

// ---- counting ----

/// The ids of the nodes for which `f` holds.
spec fn id_set(nodes: Seq<S2Node>, f: spec_fn(u8) -> bool) -> Set<u8>
    decreases nodes.len(),
{
    if nodes.len() == 0 {
        Set::empty()
    } else if f(nodes.last().id) {
        id_set(nodes.drop_last(), f).insert(nodes.last().id)
    } else {
        id_set(nodes.drop_last(), f)
    }
}

proof fn lemma_id_set(nodes: Seq<S2Node>, f: spec_fn(u8) -> bool)
    requires
        forall|i: int, j: int|
            0 <= i < j < nodes.len() ==> (#[trigger] nodes[i]).id != (#[trigger] nodes[j]).id,
    ensures
        id_set(nodes, f).finite(),
        id_set(nodes, f).len() == count_ids(nodes, f),
        forall|id: u8| #[trigger] id_set(nodes, f).contains(id) ==> has_id(nodes, id) && f(id),
    decreases nodes.len(),
{
    if nodes.len() > 0 {
        let init = nodes.drop_last();
        assert forall|i: int, j: int| 0 <= i < j < init.len() implies (#[trigger] init[i]).id != (
        #[trigger] init[j]).id by {
            assert(init[i] == nodes[i] && init[j] == nodes[j]);
        }
        lemma_id_set(init, f);
        let last = nodes[nodes.len() - 1];
        if id_set(init, f).contains(last.id) {
            let i = choose|i: int| 0 <= i < init.len() && (#[trigger] init[i]).id == last.id;
            assert(nodes[i].id == last.id);
        }
        assert forall|id: u8| #[trigger] id_set(nodes, f).contains(id) implies has_id(nodes, id)
            && f(id) by {
            if id_set(init, f).contains(id) {
                let i = choose|i: int| 0 <= i < init.len() && (#[trigger] init[i]).id == id;
                assert(nodes[i].id == id);
            } else {
                assert(last.id == id);
            }
        }
    }
}

/// What a majority has acknowledged to its leader, and the leader has made, is
/// settled.
proof fn lemma_acknowledged_is_settled(x: Run, id: u8, n: u64)
    requires
        run_wf(x),
        x.cluster.members.dom().contains(id),
        x.cluster.members[id].raft.role == Role::Leader,
        peers_fit(x.cluster, id),
        acks_sound(x, id),
        makers_have(x),
        entry_term(x.cluster.members[id].raft.log, n) == x.cluster.members[id].raft.term,
        replica_count(x.cluster.members[id].site, x.cluster.members[id].raft, n) >= majority(
            x.cluster.members[id].site,
        ),
    ensures
        settled(
            x,
            views(x.cluster.members[id].raft.log),
            n as int,
            x.cluster.members[id].raft.term,
        ),
{
    let s = x.cluster.members[id].site;
    let r = x.cluster.members[id].raft;
    assert(member_sound(x, id));
    assert(member_fits(x.cluster, id));
    assert(reign_sound(x, r.term));
    lemma_sound_is_contiguous(x.reigns, r.log, r.term);
    lemma_contiguous_entry(r.log, n);
    assert(0 < n <= r.log.len());
    assert(views(r.log)[n - 1] == r.log[n - 1]@);
    assert(made_in(x.reigns, r.term, n as int));
    assert(has_taken(x, x.reigns[r.term].leader, r.term, n as int));
    let f = has_acknowledged(r, n);
    let others = id_set(s.peers, f);
    lemma_id_set(s.peers, f);
    let holders = others.insert(id);
    if others.contains(id) {
        let i = choose|i: int| 0 <= i < s.peers.len() && (#[trigger] s.peers[i]).id == id;
        assert(s.peers[i].id != id);
    }
    assert(holders.len() == replica_count(s, r, n));
    assert forall|v: u8| #[trigger] holders.contains(v) implies has_taken(x, v, r.term, n as int)
        && x.cluster.members.dom().contains(v) by {
        if v != id {
            assert(others.contains(v));
            let i = choose|i: int| 0 <= i < s.peers.len() && (#[trigger] s.peers[i]).id == v;
            assert(x.cluster.members.dom().contains(s.peers[i].id));
            assert(acknowledged(r, v, n));
            assert(r.match_index.dom().contains(v));
            assert(has_taken(x, v, r.term, r.match_index[v] as int));
        }
    }
    assert(chosen_by(x, r.term, n as int, holders));
    assert(backed(x, views(r.log), n as int, r.term, n as int));
}

proof fn lemma_no_acknowledgements(nodes: Seq<S2Node>, r: RaftView, n: u64, id: u8)
    requires
        forall|p: u8| #[trigger] r.match_index.dom().contains(p) ==> p == id,
        forall|i: int| 0 <= i < nodes.len() ==> (#[trigger] nodes[i]).id != id,
    ensures
        count_ids(nodes, has_acknowledged(r, n)) == 0,
    decreases nodes.len(),
{
    if nodes.len() > 0 {
        let init = nodes.drop_last();
        assert forall|i: int| 0 <= i < init.len() implies (#[trigger] init[i]).id != id by {
            assert(init[i] == nodes[i]);
        }
        lemma_no_acknowledgements(init, r, n, id);
        assert(nodes[nodes.len() - 1].id != id);
    }
}

/// The only replica of a cluster has settled all of its log.
proof fn lemma_only_replica_has_settled(x: Run, id: u8, n: u64)
    requires
        run_wf(x),
        makers_have(x),
        x.cluster.members.dom().contains(id),
        x.cluster.members[id].site.peers.len() == 0,
        0 < n <= x.cluster.members[id].raft.log.len(),
    ensures
        settled(
            x,
            views(x.cluster.members[id].raft.log),
            n as int,
            x.cluster.members[id].raft.term,
        ),
{
    let r = x.cluster.members[id].raft;
    let log = views(r.log);
    let members = x.cluster.members.dom();
    assert(member_sound(x, id));
    assert(member_fits(x.cluster, id));
    assert(entry_rooted(x.reigns, log, n - 1));
    let term = log[n - 1].term;
    let leader = x.reigns[term].leader;
    assert(reign_sound(x, term));
    assert(x.reigns[term].log.take(n as int)[n - 1] == x.reigns[term].log[n - 1]);
    assert(log.take(n as int)[n - 1] == log[n - 1]);
    assert(made_in(x.reigns, term, n as int));
    if leader != id {
        let both = set![id, leader];
        assert(both.subset_of(members));
        vstd::set_lib::lemma_len_subset(both, members);
        assert(both.len() == 2);
    }
    let holders = set![id];
    assert(holders.len() == 1);
    assert forall|v: u8| #[trigger] holders.contains(v) implies has_taken(
        x,
        v,
        term,
        n as int,
    ) by {
        assert(has_taken(x, x.reigns[term].leader, term, n as int));
    }
    assert(chosen_by(x, term, n as int, holders));
    assert(backed(x, log, n as int, term, n as int));
}

// ---- what a replica does ----

/// How a replica commits, and what it learns of the others, when it does not
/// follow an append request.
spec fn commits_move(
    s: Site,
    r: RaftView,
    after: RaftView,
    outputs: Seq<OutputView>,
    request: Option<Message>,
) -> bool {
    &&& after.commit_index >= r.commit_index
    &&& after.commit_index > r.commit_index ==> {
        &&& after.commit_index <= last_index_of(after.log)
        &&& after.leader_since_term <= entry_term(after.log, after.commit_index) <= after.term
    }
    &&& after.role != Role::Leader ==> after.match_index == Map::<u8, u64>::empty() || r.role
        != Role::Leader && after.match_index == r.match_index
    &&& after.role == Role::Leader ==> forall|p: u8| #[trigger]
        after.match_index.dom().contains(p) && p != s.self_id ==> {
            ||| r.role == Role::Leader && r.match_index.dom().contains(p) && r.match_index[p]
                == after.match_index[p]
            ||| request matches Some(
                Message::AppendAck { term, follower_id, success, match_index },
            ) && success && term == after.term && follower_id == p && match_index
                == after.match_index[p]
        }
    &&& forall|to: u8, message: MessageView| #[trigger]
        outputs.contains(OutputView::Send { to, message }) ==> says_no_more(
            s,
            after,
            to,
            message,
        )
}

/// Whether a message acknowledges nothing, and does not tell a peer that more is
/// committed than is.
spec fn says_no_more(s: Site, r: RaftView, to: u8, message: MessageView) -> bool {
    match message {
        MessageView::AppendEntries { leader_id, leader_commit, .. } => {
            &&& leader_id == s.self_id
            &&& has_id(s.peers, to)
            &&& leader_commit <= r.commit_index
        },
        MessageView::AppendAck { .. } => false,
        _ => true,
    }
}

proof fn lemma_requests_say_no_more(s: Site, r: RaftView)
    ensures
        forall|to: u8, message: MessageView| #[trigger]
            append_requests(s, r).contains(OutputView::Send { to, message }) ==> says_no_more(s, r, to, message),
        forall|to: u8, message: MessageView| #[trigger]
            vote_requests(s, r).contains(OutputView::Send { to, message }) ==> says_no_more(s, r, to, message),
{
    let all = append_requests(s, r);
    assert forall|to: u8, message: MessageView| #[trigger]
        all.contains(OutputView::Send { to, message }) implies says_no_more(s, r, to, message) by {
        let k = choose|k: int| 0 <= k < all.len() && all[k] == (OutputView::Send { to, message });
        assert(s.peers[k].id == to);
        assert(all[k]->message is AppendEntries);
    }
    let asked = vote_requests(s, r);
    assert forall|to: u8, message: MessageView| #[trigger]
        asked.contains(OutputView::Send { to, message }) implies says_no_more(s, r, to, message) by {
        let k = choose|k: int|
            0 <= k < asked.len() && asked[k] == (OutputView::Send { to, message });
        assert(asked[k]->message is RequestVote);
    }
}

/// What is sent in two parts is sent in one of them.
proof fn lemma_sent_in_parts(first: Seq<OutputView>, second: Seq<OutputView>, sent: OutputView)
    requires
        (first + second).contains(sent),
        forall|i: int| 0 <= i < first.len() ==> (#[trigger] first[i]) is Announce,
        sent is Send,
    ensures
        second.contains(sent),
{
    let all = first + second;
    let k = choose|k: int| 0 <= k < all.len() && all[k] == sent;
    if k < first.len() {
        assert(first[k] is Announce);
    } else {
        assert(second[k - first.len()] == sent);
    }
}

proof fn lemma_committing(s: Site, r: RaftView, now: u128)
    requires
        r.last_applied <= r.commit_index,
    ensures
        ({
            let after = committed(s, r, now);
            &&& after.match_index == r.match_index
            &&& after.commit_index >= r.commit_index
            &&& after.commit_index > r.commit_index ==> {
                &&& after.commit_index <= last_index_of(after.log)
                &&& after.leader_since_term <= entry_term(after.log, after.commit_index)
                    <= after.term
            }
        }),
{
    law_commit_needs_quorum(s, r, now);
    lemma_committed(s, r, now);
}

proof fn lemma_winning(s: Site, r: RaftView, now: u128)
    requires
        r.last_applied <= r.commit_index,
        r.role == Role::Candidate,
    ensures
        commits_move(s, r, win_step(s, r, now).raft, win_step(s, r, now).outputs, None),
{
    let lead = lead_step(s, r, now);
    let step = win_step(s, r, now);
    lemma_committing(s, lead.raft, now);
    lemma_committed(s, lead.raft, now);
    lemma_requests_say_no_more(s, lead.raft);
    assert forall|to: u8, message: MessageView| #[trigger]
        step.outputs.contains(OutputView::Send { to, message }) implies says_no_more(s, step.raft, to, message) by {
        let sent = OutputView::Send { to, message };
        lemma_sent_in_parts(lead.outputs, append_requests(s, lead.raft), sent);
        assert(append_requests(s, lead.raft).contains(sent));
    }
}

proof fn lemma_ticking(s: Site, r: RaftView, now: u128, timeout_ms: u64)
    requires
        r.last_applied <= r.commit_index,
    ensures
        commits_move(
            s,
            r,
            tick_step(s, r, now, timeout_ms).raft,
            tick_step(s, r, now, timeout_ms).outputs,
            None,
        ),
{
    let refresh = refresh_step(s, r, now);
    let at = refresh.raft;
    let acts = role_step(s, at, now, timeout_ms);
    let step = tick_step(s, r, now, timeout_ms);
    lemma_requests_say_no_more(s, at);
    lemma_requests_say_no_more(
        s,
        crate::process::raft_model::standing(s, at, now, timeout_ms),
    );
    if at.role == Role::Candidate {
        lemma_winning(s, at, now);
    }
    assert forall|to: u8, message: MessageView| #[trigger]
        step.outputs.contains(OutputView::Send { to, message }) implies says_no_more(s, step.raft, to, message) by {
        let sent = OutputView::Send { to, message };
        lemma_sent_in_parts(refresh.outputs, acts.outputs, sent);
        assert(acts.outputs.contains(sent));
    }
}

proof fn lemma_receiving(s: Site, r: RaftView, now: u128, timeout_ms: u64, message: Message)
    requires
        r.last_applied <= r.commit_index,
        !(message is AppendEntries) || message.spec_term() < r.term,
    ensures
        commits_move(
            s,
            r,
            message_step(s, r, now, timeout_ms, message).raft,
            message_step(s, r, now, timeout_ms, message).outputs,
            Some(message),
        ),
{
    let marked = met(s, r, message.spec_sender(), now);
    let first = fence_step(s, marked, now, timeout_ms, message);
    let fenced = first.raft;
    let step = message_step(s, r, now, timeout_ms, message);
    assert(forall|i: int| 0 <= i < first.outputs.len() ==> (#[trigger] first.outputs[i]) is Announce);
    match message {
        Message::RequestVote { candidate_id, .. } => {
            assert forall|to: u8, m: MessageView| #[trigger]
                step.outputs.contains(OutputView::Send { to, message: m }) implies says_no_more(s, step.raft, to, m) by {
                let second = step.outputs.skip(first.outputs.len() as int);
                assert(step.outputs =~= first.outputs + second);
                lemma_sent_in_parts(first.outputs, second, OutputView::Send { to, message: m });
            }
        },
        Message::VoteGranted { term, voter_id } => {
            let counted = RaftView {
                votes: fenced.votes.insert(voter_id),
                last_heartbeat: now,
                ..fenced
            };
            if fenced.role == Role::Candidate {
                lemma_winning(s, counted, now);
            }
            assert forall|to: u8, m: MessageView| #[trigger]
                step.outputs.contains(OutputView::Send { to, message: m }) implies says_no_more(s, step.raft, to, m) by {
                let sent = OutputView::Send { to, message: m };
                let second = step.outputs.skip(first.outputs.len() as int);
                assert(step.outputs =~= first.outputs + second);
                lemma_sent_in_parts(first.outputs, second, sent);
                assert(second =~= crate::process::raft_model::vote_step(
                    s,
                    fenced,
                    now,
                    term,
                    voter_id,
                ).outputs);
            }
        },
        Message::AppendEntries { .. } => {
            assert(step.outputs =~= Seq::<OutputView>::empty());
        },
        Message::AppendAck { term, follower_id, success, match_index } => {
            assert(step.outputs =~= first.outputs);
            lemma_committing(
                s,
                RaftView {
                    match_index: fenced.match_index.insert(follower_id, match_index),
                    next_index: fenced.next_index.insert(follower_id, (match_index + 1) as u64),
                    peer_last_ack: fenced.peer_last_ack.insert(follower_id, now),
                    ..fenced
                },
                now,
            );
            assert forall|to: u8, m: MessageView| #[trigger]
                step.outputs.contains(OutputView::Send { to, message: m }) implies says_no_more(s, step.raft, to, m) by {
                let k = choose|k: int|
                    0 <= k < first.outputs.len() && first.outputs[k] == (OutputView::Send {
                        to,
                        message: m,
                    });
                assert(first.outputs[k] is Announce);
            }
        },
    }
}

/// Whether what a replica comes to commit, other than after its leader, is
/// acknowledged by a majority.
pub open spec fn commits_by_majority(x: Run, id: u8, act: Act) -> bool {
    let s = x.cluster.members[id].site;
    let r = x.cluster.members[id].raft;
    let after = acted(x, id, act).cluster.members[id].raft;
    !(act is Append) && after.commit_index > r.commit_index ==> replica_count(
        s,
        after,
        after.commit_index,
    ) >= majority(s)
}

// ---- one step ----

/// The state of a replica that has committed what a majority has acknowledged.
proof fn lemma_actor(
    x: Run,
    x2: Run,
    id: u8,
    outputs: Seq<OutputView>,
    request: Option<Message>,
)
    requires
        commits_wf(x),
        run_wf(x2),
        continues(x, x2),
        x.cluster.members.dom().contains(id),
        commits_move(
            x.cluster.members[id].site,
            x.cluster.members[id].raft,
            x2.cluster.members[id].raft,
            outputs,
            request,
        ),
        x2.cluster.members[id].raft.term >= x.cluster.members[id].raft.term,
        x2.cluster.members[id].raft.role == Role::Leader ==> x2.cluster.members[id].raft.term
            == x.cluster.members[id].raft.term,
        makers_have(x2),
        views(x.cluster.members[id].raft.log).is_prefix_of(views(x2.cluster.members[id].raft.log)),
        request matches Some(message) ==> x.cluster.sent.contains((id, message@)),
        ({
            let r2 = x2.cluster.members[id].raft;
            r2.commit_index > x.cluster.members[id].raft.commit_index ==> replica_count(x2.cluster.members[id].site, r2, r2.commit_index) >= majority(
                x2.cluster.members[id].site,
            )
        }),
    ensures
        commit_sound(x2, id),
{
    let s = x.cluster.members[id].site;
    let r = x.cluster.members[id].raft;
    let r2 = x2.cluster.members[id].raft;
    assert(commit_sound(x, id));
    assert(member_fits(x.cluster, id));
    assert(member_sound(x2, id));
    lemma_peers_stay(x, x2, id);
    assert forall|p: u8| #[trigger]
        r2.match_index.dom().contains(p) && p != id implies r2.role == Role::Leader && has_taken(
        x2,
        p,
        r2.term,
        r2.match_index[p] as int,
    ) by {
        if r2.role != Role::Leader {
            assert(r.match_index.dom().contains(p));
        } else if r.role == Role::Leader && r.match_index.dom().contains(p) && r.match_index[p]
            == r2.match_index[p] {
            assert(has_taken(x, p, r.term, r.match_index[p] as int));
        } else {
            let message = request->0;
            assert(report_sound(x, id, message@));
            assert(has_taken(x, p, r2.term, r2.match_index[p] as int));
        }
    }
    if r2.commit_index == r.commit_index {
        let n = r.commit_index as int;
        lemma_settled_stays(x, x2, views(r.log), n, r.term, r2.term);
        assert(n <= r.log.len()) by {
            if n > 0 {
                let (term, m) = choose|term: u64, m: int|
                    term <= r.term && #[trigger] backed(x, views(r.log), n, term, m);
            }
        }
        lemma_prefix_take(views(r.log), views(r2.log), n);
        lemma_settled_elsewhere(x2, views(r.log), views(r2.log), n, r2.term, r2.term);
    } else if r2.role == Role::Leader {
        lemma_acknowledged_is_settled(x2, id, r2.commit_index);
    } else {
        let s2 = x2.cluster.members[id].site;
        lemma_no_acknowledgements(s2.peers, r2, r2.commit_index, id);
        lemma_sound_is_contiguous(x2.reigns, r2.log, r2.term);
        lemma_only_replica_has_settled(x2, id, r2.commit_index);
    }
}

/// A replica whose log stays as it is keeps what is committed.
proof fn lemma_quiet_commits(x: Run, id: u8, event: Event)
    requires
        commits_wf(x),
        quiet_event(x, id, event),
        commits_move(
            x.cluster.members[id].site,
            x.cluster.members[id].raft,
            event_step(x.cluster.members[id].site, x.cluster.members[id].raft, event).raft,
            event_step(x.cluster.members[id].site, x.cluster.members[id].raft, event).outputs,
            brought_by(event),
        ),
        ({
            let s = x.cluster.members[id].site;
            let r = x.cluster.members[id].raft;
            let after = quiet_run(x, id, event).cluster.members[id].raft;
            after.commit_index > r.commit_index ==> replica_count(
                s,
                after,
                after.commit_index,
            ) >= majority(s)
        }),
    ensures
        commits_wf(quiet_run(x, id, event)),
{
    let x2 = quiet_run(x, id, event);
    let c = x.cluster;
    let c2 = x2.cluster;
    let s = c.members[id].site;
    let r = c.members[id].raft;
    let r2 = c2.members[id].raft;
    let outputs = event_step(s, r, event).outputs;
    lemma_quiet(x, id, event);
    lemma_quiet_basics(x, id, event);
    assert(continues(x, x2)) by {
        assert forall|other: u8| c.members.dom().contains(other) implies (
        #[trigger] c2.members[other]).site.peers == c.members[other].site.peers by {
            if other != id {
                assert(c2.members[other] == c.members[other]);
            }
        }
        assert forall|v: u8, term: u64, n: int| has_taken(x, v, term, n) implies
            #[trigger] has_taken(x2, v, term, n) by {}
    }
    assert(commit_sound(x, id));
    assert(member_sound(x, id));
    assert(member_sound(x2, id));
    assert(r2.log == r.log);
    assert(views(r.log).is_prefix_of(views(r2.log))) by {
        assert(views(r.log) =~= views(r2.log).subrange(0, r.log.len() as int));
    }
    assert forall|term: u64, n: int| #[trigger] made_in(x2.reigns, term, n) implies has_taken(
        x2,
        x2.reigns[term].leader,
        term,
        n,
    ) by {
        if x.reigns.dom().contains(term) {
            if term == r2.term && r2.role == Role::Leader {
                assert(r.role == Role::Leader);
            }
            assert(x2.reigns[term] == x.reigns[term]);
            assert(made_in(x.reigns, term, n));
            assert(has_taken(x, x.reigns[term].leader, term, n));
        } else {
            assert(x2.reigns[term].log == views(r.log));
            assert(entry_rooted(x.reigns, views(r.log), n - 1));
            assert(false);
        }
    }
    assert(s.peers == c2.members[id].site.peers);
    lemma_same_count(s.peers, r2, r2.commit_index);
    lemma_actor(x, x2, id, outputs, brought_by(event));
    assert forall|other: u8| #[trigger] c2.members.dom().contains(other) implies commit_sound(
        x2,
        other,
    ) by {
        if other != id {
            assert(c.members.dom().contains(other));
            assert(c2.members[other] == c.members[other]);
            assert(commit_sound(x, other));
            lemma_bystander(x, x2, other);
        }
    }
    assert forall|to: u8, message: MessageView| #[trigger]
        c2.sent.contains((to, message)) implies report_sound(x2, to, message) by {
        if c.sent.contains((to, message)) {
            assert(letter_sound(x, message));
            assert(report_sound(x, to, message));
            lemma_report_stays(x, x2, to, message);
        } else {
            assert(outputs.contains(OutputView::Send { to, message }));
            assert(letter_of(s, r2, message));
            assert(says_no_more(s, r2, to, message));
            if let MessageView::AppendEntries { leader_commit, .. } = message {
                assert(to != id) by {
                    let i = choose|i: int| 0 <= i < s.peers.len() && (#[trigger] s.peers[i]).id
                        == to;
                    assert(s.peers[i].id != id);
                }
                lemma_settled_shorter(
                    x2,
                    views(r2.log),
                    r2.commit_index as int,
                    leader_commit as int,
                    r2.term,
                );
            }
        }
    }
}

/// How many replicas have acknowledged an index depends on the peers alone.
proof fn lemma_same_count(peers: Seq<S2Node>, r: RaftView, n: u64)
    ensures
        forall|a: Site, b: Site|
            a.peers == peers && b.peers == peers ==> #[trigger] replica_count(a, r, n)
                == #[trigger] replica_count(b, r, n) && majority(a) == majority(b),
{
}

proof fn lemma_append_continues(
    x: Run,
    id: u8,
    now: u128,
    timeout_ms: u64,
    message: Message,
    count: int,
    stored: bool,
)
    requires
        run_wf(x),
        append_event(x, id, now, timeout_ms, message, count, stored),
    ensures
        continues(x, append_run(x, id, now, timeout_ms, message, count, stored)),
{
    let x2 = append_run(x, id, now, timeout_ms, message, count, stored);
    let c = x.cluster;
    let c2 = x2.cluster;
    lemma_append_cluster(x, id, now, timeout_ms, message, count, stored);
    assert forall|t: u64| #[trigger] x.reigns.dom().contains(t) implies x.reigns[
        t
    ].log.is_prefix_of(x.reigns[t].log) by {
        assert(x.reigns[t].log =~= x.reigns[t].log.subrange(0, x.reigns[t].log.len() as int));
    }
    assert forall|other: u8| c.members.dom().contains(other) implies (
    #[trigger] c2.members[other]).site.peers == c.members[other].site.peers by {
        if other != id {
            assert(c2.members[other] == c.members[other]);
        }
    }
    assert forall|v: u8, t: u64, n: int| has_taken(x, v, t, n) implies #[trigger] has_taken(
        x2,
        v,
        t,
        n,
    ) by {}
}

/// Taking over entries of a leader leaves what was committed in its place.
proof fn lemma_append_keeps_committed(
    x: Run,
    id: u8,
    now: u128,
    timeout_ms: u64,
    message: Message,
    count: int,
    stored: bool,
)
    requires
        commits_wf(x),
        append_event(x, id, now, timeout_ms, message, count, stored),
    ensures
        ({
            let r = x.cluster.members[id].raft;
            let n = r.commit_index as int;
            let log2 = taken_over(r.log, message, count);
            &&& n <= r.log.len()
            &&& n <= log2.len()
            &&& views(log2).take(n) == views(r.log).take(n)
        }),
{
    let r = x.cluster.members[id].raft;
    let term = message.spec_term();
    lemma_taken_over(x, id, now, timeout_ms, message, count, stored);
    assert(commit_sound(x, id));
    let lead = x.reigns[term].log;
    let mine = views(r.log);
    let log2 = views(taken_over(r.log, message, count));
    let n = r.commit_index as int;
    lemma_leader_has_settled(x, mine, n, r.term, term);
    if log2 != mine {
        let k = choose|k: int|
            #![trigger lead.take(k)]
            0 <= k <= lead.len() && log2 == lead.take(k) && !(k <= r.log.len() && mine.take(k)
                == lead.take(k));
        if k <= n {
            assert(mine.take(k) =~= mine.take(n).take(k));
            assert(lead.take(k) =~= lead.take(n).take(k));
        }
        assert(lead.take(k).take(n) =~= lead.take(n));
    }
    assert(log2.len() == taken_over(r.log, message, count).len());
    assert(mine.len() == r.log.len());
}

/// What is settled in the log of a follower that has taken over a part of its
/// leader's log.
proof fn lemma_settled_append(
    x: Run,
    x2: Run,
    mine: Seq<EntryView>,
    before: int,
    top: u64,
    log2: Seq<EntryView>,
    after: int,
    term: u64,
    held: int,
    leader_commit: int,
)
    requires
        run_wf(x),
        continues(x, x2),
        settled(x, mine, before, top),
        top <= term,
        before <= log2.len(),
        log2.take(before) == mine.take(before),
        settled(x, x.reigns[term].log, leader_commit, term),
        before < after ==> {
            &&& 0 <= after <= leader_commit
            &&& after <= held
            &&& has_head(x.reigns, log2, term, held)
        },
        before <= after,
    ensures
        settled(x2, log2, after, term),
{
    let lead = x.reigns[term].log;
    lemma_settled_elsewhere(x, mine, log2, before, top, term);
    if before < after {
        lemma_settled_shorter(x, lead, leader_commit, after, term);
        assert(log2.take(after) =~= log2.take(held).take(after));
        assert(lead.take(after) =~= lead.take(held).take(after));
        lemma_settled_elsewhere(x, lead, log2, after, term, term);
    }
    lemma_settled_stays(x, x2, log2, after, term, term);
}

/// A follower commits what its leader has committed.
proof fn lemma_follower_commits(
    x: Run,
    id: u8,
    now: u128,
    timeout_ms: u64,
    message: Message,
    count: int,
    stored: bool,
)
    requires
        commits_wf(x),
        append_event(x, id, now, timeout_ms, message, count, stored),
    ensures
        commit_sound(append_run(x, id, now, timeout_ms, message, count, stored), id),
{
    let x2 = append_run(x, id, now, timeout_ms, message, count, stored);
    let r = x.cluster.members[id].raft;
    let r2 = x2.cluster.members[id].raft;
    let term = message.spec_term();
    lemma_append_cluster(x, id, now, timeout_ms, message, count, stored);
    lemma_append_continues(x, id, now, timeout_ms, message, count, stored);
    lemma_append_keeps_committed(x, id, now, timeout_ms, message, count, stored);
    lemma_append_answer(x, id, now, timeout_ms, message, count, stored);
    lemma_taken_over(x, id, now, timeout_ms, message, count, stored);
    assert(commit_sound(x, id));
    assert(report_sound(x, id, message@));
    let leader_commit = message->leader_commit;
    assert(message@ matches MessageView::AppendEntries { term: t, leader_commit: l, .. } && t
        == term && l == leader_commit);
    lemma_settled_append(
        x,
        x2,
        views(r.log),
        r.commit_index as int,
        r.term,
        views(r2.log),
        r2.commit_index as int,
        term,
        held_after(message),
        leader_commit as int,
    );
    lemma_peers_stay(x, x2, id);
    assert(member_sound(x, id));
    assert(letter_sound(x, message@));
}

/// A follower that takes over entries keeps what is committed.
proof fn lemma_append_commits(
    x: Run,
    id: u8,
    now: u128,
    timeout_ms: u64,
    message: Message,
    count: int,
    stored: bool,
)
    requires
        commits_wf(x),
        append_event(x, id, now, timeout_ms, message, count, stored),
    ensures
        commits_wf(append_run(x, id, now, timeout_ms, message, count, stored)),
{
    let x2 = append_run(x, id, now, timeout_ms, message, count, stored);
    let c = x.cluster;
    let c2 = x2.cluster;
    lemma_append(x, id, now, timeout_ms, message, count, stored);
    lemma_append_cluster(x, id, now, timeout_ms, message, count, stored);
    lemma_append_continues(x, id, now, timeout_ms, message, count, stored);
    lemma_append_answer(x, id, now, timeout_ms, message, count, stored);
    assert forall|term: u64, n: int| #[trigger] made_in(x2.reigns, term, n) implies has_taken(
        x2,
        x2.reigns[term].leader,
        term,
        n,
    ) by {
        assert(has_taken(x, x.reigns[term].leader, term, n));
    }
    assert forall|other: u8| #[trigger] c2.members.dom().contains(other) implies commit_sound(
        x2,
        other,
    ) by {
        if other != id {
            assert(c.members.dom().contains(other));
            assert(c2.members[other] == c.members[other]);
            assert(commit_sound(x, other));
            lemma_bystander(x, x2, other);
        } else {
            lemma_follower_commits(x, id, now, timeout_ms, message, count, stored);
        }
    }
    assert forall|to: u8, m: MessageView| #[trigger]
        c2.sent.contains((to, m)) implies report_sound(x2, to, m) by {
        if c.sent.contains((to, m)) {
            assert(letter_sound(x, m));
            assert(report_sound(x, to, m));
            lemma_report_stays(x, x2, to, m);
        }
    }
}

/// What a follower commits, and what it answers.
proof fn lemma_append_answer(
    x: Run,
    id: u8,
    now: u128,
    timeout_ms: u64,
    message: Message,
    count: int,
    stored: bool,
)
    requires
        run_wf(x),
        append_event(x, id, now, timeout_ms, message, count, stored),
    ensures
        ({
            let c = x.cluster;
            let x2 = append_run(x, id, now, timeout_ms, message, count, stored);
            let c2 = x2.cluster;
            let r = c.members[id].raft;
            let r2 = c2.members[id].raft;
            &&& r2.match_index == Map::<u8, u64>::empty() || message.spec_term() == r.term
                && r2.match_index == r.match_index
            &&& r2.commit_index >= r.commit_index
            &&& r2.commit_index > r.commit_index ==> {
                &&& stored
                &&& r2.commit_index <= held_after(message)
                &&& message matches Message::AppendEntries { leader_commit, .. }
                &&& r2.commit_index <= leader_commit
            }
            &&& forall|to: u8, m: MessageView| #[trigger]
                c2.sent.contains((to, m)) && !c.sent.contains((to, m)) ==> report_sound(x2, to, m)
        }),
{
    let c = x.cluster;
    let x2 = append_run(x, id, now, timeout_ms, message, count, stored);
    let c2 = x2.cluster;
    let s = c.members[id].site;
    let r = c.members[id].raft;
    assert(member_fits(c, id));
    let deliver = Event::Deliver { now, timeout_ms, message };
    let received = happened(c, id, deliver);
    let first = message_step(s, r, now, timeout_ms, message);
    assert(first.raft.commit_index == r.commit_index);
    let log = taken_over(r.log, message, count);
    let stored_run = happened(received, id, Event::Store { log });
    match message {
        Message::AppendEntries { term, leader_id, prev_log_index, entries, leader_commit, .. } => {
            let end = request_end(prev_log_index, entries@.len());
            let answer = Event::Answer { term, leader_id, leader_commit, end, success: stored };
            let r1 = stored_run.members[id].raft;
            assert(r1 == RaftView { log, ..first.raft });
            let last = event_step(s, r1, answer);
            assert(c2 == happened(stored_run, id, answer));
            assert(c2.members[id].raft == last.raft);
            assert(end <= held_after(message));
            assert forall|to: u8, m: MessageView| #[trigger]
                c2.sent.contains((to, m)) && !c.sent.contains((to, m)) implies report_sound(
                x2,
                to,
                m,
            ) by {
                if first.outputs.contains(OutputView::Send { to, message: m }) {
                    let k = choose|k: int|
                        0 <= k < first.outputs.len() && first.outputs[k] == (OutputView::Send {
                            to,
                            message: m,
                        });
                    assert(first.outputs[k] is Announce);
                }
                assert(last.outputs.contains(OutputView::Send { to, message: m }));
                let ack = MessageView::AppendAck {
                    term,
                    follower_id: id,
                    success: stored,
                    match_index: if stored {
                        matched_index(log, end)
                    } else {
                        last_index_of(log)
                    },
                };
                assert(last.outputs == send_to_node(s, leader_id, ack));
                assert(m == ack);
                if stored {
                    assert(has_taken(x2, id, term, held_after(message)));
                }
            }
        },
        _ => {},
    }
}

/// A leader that adds entries keeps what is committed.
proof fn lemma_propose_commits(x: Run, id: u8, now: u128, commands: Seq<ReplicatedCommand>)
    requires
        commits_wf(x),
        propose_event(x, id, commands),
        commits_by_majority(x, id, Act::Propose { now, commands }),
    ensures
        commits_wf(propose_run(x, id, now, commands)),
{
    let x2 = propose_run(x, id, now, commands);
    let c = x.cluster;
    let c2 = x2.cluster;
    let s = c.members[id].site;
    let r = c.members[id].raft;
    let r2 = c2.members[id].raft;
    let entries = batch_entries(last_index_of(r.log), r.term, commands);
    lemma_propose(x, id, now, commands);
    lemma_propose_basics(x, id, now, commands);
    assert(member_fits(c, id));
    assert(commit_sound(x, id));
    assert(member_sound(x, id));
    assert(member_sound(x2, id));
    assert(continues(x, x2)) by {
        assert forall|other: u8| c.members.dom().contains(other) implies (
        #[trigger] c2.members[other]).site.peers == c.members[other].site.peers by {
            if other != id {
                assert(c2.members[other] == c.members[other]);
            }
        }
        assert forall|v: u8, t: u64, n: int| has_taken(x, v, t, n) implies #[trigger] has_taken(
            x2,
            v,
            t,
            n,
        ) by {}
    }
    let full = RaftView {
        log: r.log + entries,
        match_index: r.match_index.insert(s.self_id, entries.last().index),
        ..r
    };
    let step = propose_step(s, r, now, entries);
    assert(r2 == step.raft);
    lemma_committing(s, full, now);
    lemma_committed(s, full, now);
    lemma_requests_say_no_more(s, full);
    assert(commits_move(s, r, r2, step.outputs, None));
    assert(views(r.log).is_prefix_of(views(r2.log))) by {
        assert(views(r.log) =~= views(r2.log).subrange(0, r.log.len() as int));
    }
    assert forall|term: u64, n: int| #[trigger] made_in(x2.reigns, term, n) implies has_taken(
        x2,
        x2.reigns[term].leader,
        term,
        n,
    ) by {
        if term == r2.term {
            assert(x2.reigns[r2.term].log.len() == r2.log.len());
        } else {
            assert(x2.reigns[term] == x.reigns[term]);
            assert(made_in(x.reigns, term, n));
            assert(has_taken(x, x.reigns[term].leader, term, n));
        }
    }
    lemma_actor(x, x2, id, step.outputs, None);
    assert forall|other: u8| #[trigger] c2.members.dom().contains(other) implies commit_sound(
        x2,
        other,
    ) by {
        if other != id {
            assert(c.members.dom().contains(other));
            assert(c2.members[other] == c.members[other]);
            assert(commit_sound(x, other));
            lemma_bystander(x, x2, other);
        }
    }
    assert forall|to: u8, m: MessageView| #[trigger]
        c2.sent.contains((to, m)) implies report_sound(x2, to, m) by {
        if c.sent.contains((to, m)) {
            assert(letter_sound(x, m));
            assert(report_sound(x, to, m));
            lemma_report_stays(x, x2, to, m);
        } else {
            assert(step.outputs.contains(OutputView::Send { to, message: m }));
            assert(letter_of(s, r2, m));
            assert(says_no_more(s, r2, to, m));
            if let MessageView::AppendEntries { leader_commit, .. } = m {
                assert(to != id) by {
                    let i = choose|i: int| 0 <= i < s.peers.len() && (#[trigger] s.peers[i]).id
                        == to;
                    assert(s.peers[i].id != id);
                }
                lemma_settled_shorter(
                    x2,
                    views(r2.log),
                    r2.commit_index as int,
                    leader_commit as int,
                    r2.term,
                );
            }
        }
    }
}

// ---- the laws ----

/// A run starts with nothing committed.
pub proof fn law_new_run_commits_nothing(sites: Map<u8, Site>, now: u128, timeouts: Map<u8, u64>)
    requires
        sites.dom().finite(),
        forall|id: u8| #[trigger]
            sites.dom().contains(id) ==> {
                let peers = sites[id].peers;
                &&& sites[id].self_id == id
                &&& peers.len() + 1 == sites.dom().len()
                &&& forall|i: int|
                    0 <= i < peers.len() ==> (#[trigger] peers[i]).id != id
                        && sites.dom().contains(peers[i].id)
                &&& forall|i: int, j: int|
                    0 <= i < j < peers.len() ==> (#[trigger] peers[i]).id != (
                    #[trigger] peers[j]).id
            },
    ensures
        commits_wf(new_run(sites, now, timeouts)),
{
    law_new_run_is_sound(sites, now, timeouts);
    let x = new_run(sites, now, timeouts);
    assert forall|id: u8| #[trigger] x.cluster.members.dom().contains(id) implies commit_sound(
        x,
        id,
    ) by {
        assert(sites.dom().contains(id));
    }
}

/// Whatever a replica does, if what leaders commit is acknowledged by a majority,
/// everything that is committed goes on to be so by a majority.
pub proof fn law_acts_keep_commitments(x: Run, id: u8, act: Act)
    requires
        commits_wf(x),
        can_act(x, id, act),
        commits_by_majority(x, id, act),
    ensures
        commits_wf(acted(x, id, act)),
{
    let s = x.cluster.members[id].site;
    let r = x.cluster.members[id].raft;
    assert(member_fits(x.cluster, id));
    match act {
        Act::Append { now, timeout_ms, message, count, stored } => {
            lemma_append_commits(x, id, now, timeout_ms, message, count, stored);
        },
        Act::Propose { now, commands } => {
            lemma_propose_commits(x, id, now, commands);
        },
        Act::Tick { now, timeout_ms } => {
            lemma_quiet_act(x, id, act);
            lemma_ticking(s, r, now, timeout_ms);
            lemma_quiet_commits(x, id, event_of(act));
        },
        Act::Receive { now, timeout_ms, message } => {
            lemma_quiet_act(x, id, act);
            lemma_receiving(s, r, now, timeout_ms, message);
            lemma_quiet_commits(x, id, event_of(act));
        },
        Act::Drive { now } => {
            lemma_quiet_act(x, id, act);
            lemma_committing(s, r, now);
            lemma_committed(s, r, now);
            lemma_requests_say_no_more(s, committed(s, r, now));
            lemma_quiet_commits(x, id, event_of(act));
        },
        Act::Learn { .. } => {
            lemma_quiet_act(x, id, act);
            lemma_quiet_commits(x, id, event_of(act));
        },
    }
}

/// Committed orders survive a failover: what a replica has committed, be it as the
/// leader or after one, the leader of every later term has in its log, in the
/// same place and with all that stood before it.
pub proof fn law_committed_entries_survive(x: Run, id: u8, n: int, later: u64)
    requires
        commits_wf(x),
        x.cluster.members.dom().contains(id),
        0 <= n <= x.cluster.members[id].raft.commit_index,
        x.reigns.dom().contains(later),
        x.cluster.members[id].raft.term <= later,
    ensures
        n <= x.cluster.members[id].raft.log.len(),
        n <= x.reigns[later].log.len(),
        x.reigns[later].log.take(n) == views(x.cluster.members[id].raft.log).take(n),
{
    let r = x.cluster.members[id].raft;
    assert(commit_sound(x, id));
    lemma_settled_shorter(x, views(r.log), r.commit_index as int, n, r.term);
    lemma_leader_has_settled(x, views(r.log), n, r.term, later);
}

/// What a replica has committed, a majority of the cluster holds in its logs.
pub proof fn law_committed_is_stored_by_a_majority(x: Run, id: u8, n: int) -> (holders: Set<u8>)
    requires
        commits_wf(x),
        x.cluster.members.dom().contains(id),
        1 <= n <= x.cluster.members[id].raft.commit_index,
    ensures
        holders.subset_of(x.cluster.members.dom()),
        holders.len() >= majority(x.cluster.members[id].site),
        forall|v: u8| #[trigger]
            holders.contains(v) ==> n <= x.cluster.members[v].raft.log.len() && views(
                x.cluster.members[v].raft.log,
            ).take(n) == views(x.cluster.members[id].raft.log).take(n),
{
    let r = x.cluster.members[id].raft;
    let mine = views(r.log);
    assert(commit_sound(x, id));
    lemma_settled_shorter(x, mine, r.commit_index as int, n, r.term);
    let (term, m) = choose|term: u64, m: int|
        term <= r.term && #[trigger] backed(x, mine, n, term, m);
    let holders = choose|holders: Set<u8>| chosen_by(x, term, m, holders);
    let lead = x.reigns[term].log;
    assert(reign_sound(x, term));
    assert(member_fits(x.cluster, id));
    assert(member_fits(x.cluster, x.reigns[term].leader));
    assert forall|v: u8| #[trigger] holders.contains(v) implies n
        <= x.cluster.members[v].raft.log.len() && views(x.cluster.members[v].raft.log).take(n)
        == mine.take(n) by {
        let o = x.cluster.members[v].raft;
        assert(has_taken(x, v, term, m));
        assert(x.taken.dom().contains((v, term)));
        assert(taken_sound(x, v, term));
        assert(kept(x, v, term, m));
        if dropped_by(x.reigns, term, m, o.term) {
            let later = choose|later: u64|
                term < later <= o.term && #[trigger] lacks(x.reigns, later, term, m);
            law_later_leaders_hold_it(x, term, m, holders, later);
        }
        assert(views(o.log).take(n) =~= views(o.log).take(m).take(n));
        assert(lead.take(n) =~= lead.take(m).take(n));
    }
    holders
}

/// Two replicas have committed the same entries, as far as both have.
pub proof fn law_replicas_commit_the_same(x: Run, a: u8, b: u8, n: int)
    requires
        commits_wf(x),
        x.cluster.members.dom().contains(a),
        x.cluster.members.dom().contains(b),
        0 <= n <= x.cluster.members[a].raft.commit_index,
        n <= x.cluster.members[b].raft.commit_index,
    ensures
        n <= x.cluster.members[a].raft.log.len(),
        n <= x.cluster.members[b].raft.log.len(),
        views(x.cluster.members[a].raft.log).take(n) == views(
            x.cluster.members[b].raft.log,
        ).take(n),
{
    let ra = x.cluster.members[a].raft;
    let rb = x.cluster.members[b].raft;
    let la = views(ra.log);
    let lb = views(rb.log);
    assert(commit_sound(x, a));
    assert(commit_sound(x, b));
    lemma_settled_shorter(x, la, ra.commit_index as int, n, ra.term);
    lemma_settled_shorter(x, lb, rb.commit_index as int, n, rb.term);
    if n == 0 {
        assert(la.take(0) =~= lb.take(0));
    } else {
        let (ta, ma) = choose|term: u64, m: int|
            term <= ra.term && #[trigger] backed(x, la, n, term, m);
        let (tb, mb) = choose|term: u64, m: int|
            term <= rb.term && #[trigger] backed(x, lb, n, term, m);
        let top = if ta > tb {
            ta
        } else {
            tb
        };
        assert(settled(x, la, n, ta));
        assert(settled(x, lb, n, tb));
        lemma_leader_has_settled(x, la, n, ta, top);
        lemma_leader_has_settled(x, lb, n, tb, top);
    }
}

/// The replicas apply the same entries: where two of them have applied a position
/// of the log, they have the same entry there.
pub proof fn law_replicas_apply_the_same(x: Run, a: u8, b: u8, i: int)
    requires
        commits_wf(x),
        x.cluster.members.dom().contains(a),
        x.cluster.members.dom().contains(b),
        1 <= i <= x.cluster.members[a].raft.last_applied,
        i <= x.cluster.members[b].raft.last_applied,
    ensures
        i <= x.cluster.members[a].raft.log.len(),
        i <= x.cluster.members[b].raft.log.len(),
        x.cluster.members[a].raft.log[i - 1]@ == x.cluster.members[b].raft.log[i - 1]@,
{
    let la = x.cluster.members[a].raft.log;
    let lb = x.cluster.members[b].raft.log;
    assert(member_fits(x.cluster, a));
    assert(member_fits(x.cluster, b));
    law_replicas_commit_the_same(x, a, b, i);
    assert(views(la).take(i)[i - 1] == la[i - 1]@);
    assert(views(lb).take(i)[i - 1] == lb[i - 1]@);
}

/// Whether a frame is among those that a step of the publisher sends.
pub open spec fn sends_frame(step: PublishStep, frame: Seq<u8>) -> bool {
    match step {
        PublishStep::Publish { frame: f } => f@ == frame,
        PublishStep::Replay { frames } => exists|i: int|
            0 <= i < frames@.len() && (#[trigger] frames@[i])@ == frame,
        _ => false,
    }
}

/// Every result that is published, live or on request, is that of an entry which
/// a majority of the cluster holds in the same place of its logs.
pub proof fn law_published_results_are_stored_by_a_majority(
    x: Run,
    id: u8,
    last_published: u64,
    request: Option<(u64, u64)>,
    key: Seq<u8>,
    step: PublishStep,
    after: u64,
    frame: Seq<u8>,
) -> (stored: (int, Set<u8>))
    requires
        commits_wf(x),
        x.cluster.members.dom().contains(id),
        publish_step(x.cluster.members[id].raft, last_published, request, key, step, after),
        sends_frame(step, frame),
    ensures
        1 <= stored.0 <= x.cluster.members[id].raft.last_applied,
        stored.1.subset_of(x.cluster.members.dom()),
        stored.1.len() >= majority(x.cluster.members[id].site),
        forall|v: u8| #[trigger]
            stored.1.contains(v) ==> stored.0 <= x.cluster.members[v].raft.log.len() && frame
                == result_frame_of(x.cluster.members[v].raft.log[stored.0 - 1], key),
{
    let r = x.cluster.members[id].raft;
    law_published_results_are_applied(r, last_published, request, key, step, after);
    assert(member_sound(x, id));
    assert(member_fits(x.cluster, id));
    lemma_sound_is_contiguous(x.reigns, r.log, r.term);
    let i = match step {
        PublishStep::Publish { .. } => {
            lemma_contiguous_entry(r.log, after);
            after as int
        },
        PublishStep::Replay { frames } => {
            let (from, to) = request->0;
            let k = choose|k: int| 0 <= k < frames@.len() && (#[trigger] frames@[k])@ == frame;
            assert(answers_with_applied(r, from, to, key, frames@[k]@));
            let e = choose|e: LogEntry| #[trigger]
                r.log.contains(e) && e.index <= r.last_applied && from <= e.command.order_id <= to
                    && frame == result_frame_of(e, key);
            let p = choose|p: int| 0 <= p < r.log.len() && r.log[p] == e;
            assert(r.log[p].index == p + 1);
            p + 1
        },
        _ => 0,
    };
    assert(frame == result_frame_of(r.log[i - 1], key));
    let holders = law_committed_is_stored_by_a_majority(x, id, i);
    assert forall|v: u8| #[trigger] holders.contains(v) implies i
        <= x.cluster.members[v].raft.log.len() && frame == result_frame_of(
        x.cluster.members[v].raft.log[i - 1],
        key,
    ) by {
        let o = x.cluster.members[v].raft;
        assert(views(o.log).take(i)[i - 1] == o.log[i - 1]@);
        assert(views(r.log).take(i)[i - 1] == r.log[i - 1]@);
    }
    (i, holders)
}

/// No replica ever loses or changes what it has committed.
pub proof fn law_committed_entries_stay(x: Run, id: u8, act: Act)
    requires
        commits_wf(x),
        can_act(x, id, act),
    ensures
        ({
            let r = x.cluster.members[id].raft;
            let r2 = acted(x, id, act).cluster.members[id].raft;
            let n = r.commit_index as int;
            &&& n <= r.log.len()
            &&& n <= r2.log.len()
            &&& views(r2.log).take(n) == views(r.log).take(n)
        }),
{
    let r = x.cluster.members[id].raft;
    let n = r.commit_index as int;
    assert(commit_sound(x, id));
    assert(0 <= n <= r.log.len()) by {
        if n > 0 {
            let (term, m) = choose|term: u64, m: int|
                term <= r.term && #[trigger] backed(x, views(r.log), n, term, m);
        }
    }
    match act {
        Act::Append { now, timeout_ms, message, count, stored } => {
            lemma_append_cluster(x, id, now, timeout_ms, message, count, stored);
            lemma_append_keeps_committed(x, id, now, timeout_ms, message, count, stored);
        },
        Act::Propose { now, commands } => {
            let r2 = acted(x, id, act).cluster.members[id].raft;
            lemma_propose_basics(x, id, now, commands);
            assert(views(r2.log).take(n) =~= views(r.log).take(n));
        },
        _ => {
            lemma_quiet_act(x, id, act);
            lemma_quiet_basics(x, id, event_of(act));
        },
    }
}

proof fn lemma_same_holders(nodes: Seq<S2Node>, a: RaftView, b: RaftView, n: u64)
    requires
        a.match_index == b.match_index,
    ensures
        count_ids(nodes, has_acknowledged(a, n)) == count_ids(nodes, has_acknowledged(b, n)),
    decreases nodes.len(),
{
    if nodes.len() > 0 {
        lemma_same_holders(nodes.drop_last(), a, b, n);
    }
}

proof fn lemma_commits_need_majority(s: Site, r: RaftView, now: u128)
    requires
        !s.config.allow_single_node_leader,
    ensures
        ({
            let after = committed(s, r, now);
            after.commit_index > r.commit_index ==> replica_count(s, after, after.commit_index)
                >= majority(s)
        }),
{
    let after = committed(s, r, now);
    law_commit_needs_quorum(s, r, now);
    lemma_same_holders(s.peers, r, after, after.commit_index);
}

/// Where leading alone is not allowed, whoever comes to lead has the votes of a
/// majority, and what a leader commits is acknowledged by a majority.
pub proof fn law_majorities_rule(x: Run, id: u8, act: Act)
    requires
        commits_wf(x),
        x.cluster.members.dom().contains(id),
        !x.cluster.members[id].site.config.allow_single_node_leader,
    ensures
        act is Tick && can_tick(x.cluster.members[id].raft) || act is Receive
            ==> wins_by_majority(x, id, event_of(act)),
        can_act(x, id, act) ==> commits_by_majority(x, id, act),
{
    let s = x.cluster.members[id].site;
    let r = x.cluster.members[id].raft;
    assert(member_fits(x.cluster, id));
    match act {
        Act::Tick { now, timeout_ms } => {
            if r.role != Role::Leader {
                law_leadership_is_won(
                    s,
                    r,
                    now,
                    timeout_ms,
                    Message::VoteGranted { term: 0, voter_id: 0 },
                );
            }
            let at = refresh_step(s, r, now).raft;
            lemma_commits_need_majority(s, lead_step(s, at, now).raft, now);
        },
        Act::Receive { now, timeout_ms, message } => {
            if r.role != Role::Leader {
                law_leadership_is_won(s, r, now, timeout_ms, message);
            }
            let marked = met(s, r, message.spec_sender(), now);
            let fenced = fence_step(s, marked, now, timeout_ms, message).raft;
            match message {
                Message::VoteGranted { voter_id, .. } => {
                    let counted = RaftView {
                        votes: fenced.votes.insert(voter_id),
                        last_heartbeat: now,
                        ..fenced
                    };
                    lemma_commits_need_majority(s, lead_step(s, counted, now).raft, now);
                },
                Message::AppendAck { follower_id, match_index, .. } => {
                    lemma_commits_need_majority(
                        s,
                        RaftView {
                            match_index: fenced.match_index.insert(follower_id, match_index),
                            next_index: fenced.next_index.insert(
                                follower_id,
                                (match_index + 1) as u64,
                            ),
                            peer_last_ack: fenced.peer_last_ack.insert(follower_id, now),
                            ..fenced
                        },
                        now,
                    );
                },
                _ => {},
            }
        },
        Act::Append { now, timeout_ms, message, count, stored } => {
            if can_act(x, id, act) {
                lemma_append_cluster(x, id, now, timeout_ms, message, count, stored);
            }
        },
        Act::Propose { now, commands } => {
            let entries = batch_entries(last_index_of(r.log), r.term, commands);
            lemma_commits_need_majority(
                s,
                RaftView {
                    log: r.log + entries,
                    match_index: r.match_index.insert(s.self_id, entries.last().index),
                    ..r
                },
                now,
            );
        },
        Act::Drive { now } => lemma_commits_need_majority(s, r, now),
        Act::Learn { .. } => {},
    }
}

} // verus!
