//! Telling an isolated replica whether its peers are up.

use crate::clock::{elapsed, millis, nanos_of, time_since};
use crate::process::witness_client::Verdict;
use crate::text::{decimal, push_decimal};
use crate::witness::config::{
    find_node, label_of, law_others_keep_their_order, node_of, other_nodes, others,
    WatchedNodeAddr, WitnessConfig,
};
use crate::witness::health_poll::{HealthTable, PeerHealth};
use vstd::prelude::*;

verus! {

/// What was found of one peer.
#[derive(Debug)]
pub struct PeerCheck {
    pub node_id: u8,
    pub name: String,
    pub host: String,
    pub reachable: bool,
    pub age_ms: u64,
}

/// What replicas and the witness say to each other.
#[derive(Debug)]
pub enum CorroborationMsg {
    Request { request_id: u64, requester_id: u8, term: u64 },
    Response { request_id: u64, peers_checked: Vec<PeerCheck>, verdict: Verdict },
}

/// After how long an entry of the table is stale: two polls, in milliseconds.
pub open spec fn stale_after_ms(poll_interval_ms: u64) -> u64 {
    if 2 * poll_interval_ms > u64::MAX {
        u64::MAX
    } else {
        (2 * poll_interval_ms) as u64
    }
}

/// Whether what is known of a peer is recent enough to go by.
pub open spec fn is_fresh(health: PeerHealth, poll_interval_ms: u64, now: u128) -> bool {
    time_since(health.last_seen, now) < nanos_of(stale_after_ms(poll_interval_ms))
}

/// What is known of a peer and recent enough, with its age in milliseconds.
pub open spec fn known_of(
    table: Map<u8, PeerHealth>,
    node_id: u8,
    poll_interval_ms: u64,
    now: u128,
) -> Option<(bool, u64)> {
    let health = table[node_id];
    if table.dom().contains(node_id) && is_fresh(health, poll_interval_ms, now) {
        Some((health.reachable, (time_since(health.last_seen, now) / 1_000_000) as u64))
    } else {
        None
    }
}

/// What is known of a peer, and how old it is in milliseconds; none if nothing
/// recent is known, and the peer has to be probed.
pub fn cached_check(table: &HealthTable, node_id: u8, poll_interval_ms: u64, now: u128) -> (known:
    Option<(bool, u64)>)
    ensures
        known == known_of(table@, node_id, poll_interval_ms, now),
{
    match table.get(node_id) {
        Some(health) => {
            let age: u128 = elapsed(health.last_seen, now);
            let limit_ms: u64 = if poll_interval_ms > u64::MAX / 2 {
                u64::MAX
            } else {
                poll_interval_ms * 2
            };
            if age < millis(limit_ms) {
                proof {
                    assert(age / 1_000_000 <= u64::MAX) by {
                        assert(age < limit_ms * 1_000_000);
                    }
                }
                Some((health.reachable, (age / 1_000_000) as u64))
            } else {
                None
            }
        },
        None => None,
    }
}

/// What a check says of a peer.
pub open spec fn check_of(node: WatchedNodeAddr, reachable: bool, age_ms: u64) -> PeerCheck {
    PeerCheck { node_id: node.id, name: node.name, host: node.host, reachable, age_ms }
}

/// The check of a peer.
pub fn peer_check(node: &WatchedNodeAddr, reachable: bool, age_ms: u64) -> (check: PeerCheck)
    ensures
        check == check_of(*node, reachable, age_ms),
{
    PeerCheck {
        node_id: node.id,
        name: node.name.clone(),
        host: node.host.clone(),
        reachable,
        age_ms,
    }
}

/// A promotion is safe if and only if no peer can be reached.
pub open spec fn verdict_on(checks: Seq<PeerCheck>) -> Verdict {
    if forall|i: int| 0 <= i < checks.len() ==> !(#[trigger] checks[i]).reachable {
        Verdict::SafeToPromote
    } else {
        Verdict::PeersStillUp
    }
}

/// The verdict on the peers of a replica.
pub fn decide(checks: &Vec<PeerCheck>) -> (verdict: Verdict)
    ensures
        verdict == verdict_on(checks@),
{
    let mut i: usize = 0;
    while i < checks.len()
        invariant
            i <= checks@.len(),
            forall|k: int| 0 <= k < i ==> !(#[trigger] checks@[k]).reachable,
        decreases checks@.len() - i,
    {
        if checks[i].reachable {
            assert(checks@[i as int].reachable);
            return Verdict::PeersStillUp;
        }
        i = i + 1;
    }
    Verdict::SafeToPromote
}

/// One peer that can be reached is enough to deny a promotion.
pub proof fn law_one_live_peer_denies(checks: Seq<PeerCheck>, i: int)
    requires
        0 <= i < checks.len(),
        checks[i].reachable,
    ensures
        verdict_on(checks) == Verdict::PeersStillUp,
{
    assert(checks[i].reachable);
}

/// How log lines call a requester.
pub open spec fn requester_label_of(nodes: Seq<WatchedNodeAddr>, id: u8) -> Seq<char> {
    match node_of(nodes, id) {
        Some(node) => label_of(node.name@, node.host@),
        None => "node "@ + decimal(id as nat),
    }
}

/// How log lines call a requester.
pub fn requester_label(config: &WitnessConfig, id: u8) -> (label: String)
    ensures
        label@ == requester_label_of(config.nodes@, id),
{
    match find_node(config, id) {
        Some(node) => node.label(),
        None => {
            let mut label = "node ".to_owned();
            push_decimal(&mut label, id as u128);
            label
        },
    }
}

/// The name of a verdict.
pub open spec fn verdict_name(verdict: Verdict) -> Seq<char> {
    match verdict {
        Verdict::SafeToPromote => "SafeToPromote"@,
        Verdict::PeersStillUp => "PeersStillUp"@,
    }
}

/// One peer in the log of requests.
pub open spec fn check_text(check: PeerCheck) -> Seq<char> {
    check.name@ + " ("@ + check.host@ + "):"@ + (if check.reachable {
        "up"@
    } else {
        "down"@
    }) + ":"@ + decimal(check.age_ms as nat) + "ms"@
}

/// The peers in the log of requests.
pub open spec fn checks_text(checks: Seq<PeerCheck>) -> Seq<char>
    decreases checks.len(),
{
    if checks.len() == 0 {
        Seq::empty()
    } else if checks.len() == 1 {
        check_text(checks[0])
    } else {
        checks_text(checks.drop_last()) + "|"@ + check_text(checks.last())
    }
}

/// The line of the log of requests: time, request, requester, term, peers and
/// verdict.
pub open spec fn audit_line_of(
    now_ms: u128,
    request_id: u64,
    requester: Seq<char>,
    term: u64,
    checks: Seq<PeerCheck>,
    verdict: Verdict,
) -> Seq<char> {
    decimal(now_ms as nat) + ","@ + decimal(request_id as nat) + ","@ + requester + ","@ + decimal(
        term as nat,
    ) + ","@ + checks_text(checks) + ","@ + verdict_name(verdict)
}

fn push_check(text: &mut String, check: &PeerCheck)
    ensures
        final(text)@ == old(text)@ + check_text(*check),
{
    text.append(check.name.as_str());
    text.append(" (");
    text.append(check.host.as_str());
    text.append("):");
    text.append(
        if check.reachable {
            "up"
        } else {
            "down"
        },
    );
    text.append(":");
    push_decimal(text, check.age_ms as u128);
    text.append("ms");
    proof {
        assert(text@ =~= old(text)@ + check_text(*check));
    }
}

/// The line of the log of requests.
pub fn audit_line(
    now_ms: u128,
    request_id: u64,
    requester: &str,
    term: u64,
    checks: &Vec<PeerCheck>,
    verdict: Verdict,
) -> (line: String)
    ensures
        line@ == audit_line_of(now_ms, request_id, requester@, term, checks@, verdict),
{
    let mut line = String::new();
    push_decimal(&mut line, now_ms);
    proof {
        assert(line@ =~= decimal(now_ms as nat));
    }
    line.append(",");
    push_decimal(&mut line, request_id as u128);
    line.append(",");
    line.append(requester);
    line.append(",");
    push_decimal(&mut line, term as u128);
    line.append(",");
    let ghost start = line@;
    let mut i: usize = 0;
    proof {
        assert(start + checks_text(checks@.take(0)) =~= start);
    }
    while i < checks.len()
        invariant
            i <= checks@.len(),
            line@ == start + checks_text(checks@.take(i as int)),
        decreases checks@.len() - i,
    {
        let ghost before = checks_text(checks@.take(i as int));
        if i > 0 {
            line.append("|");
        }
        push_check(&mut line, &checks[i]);
        i = i + 1;
        proof {
            let done = checks@.take(i as int);
            assert(done.drop_last() =~= checks@.take(i - 1));
            assert(done.last() == checks@[i - 1]);
            if i == 1 {
                assert(line@ =~= start + check_text(checks@[0]));
            } else {
                assert(line@ =~= start + (before + "|"@ + check_text(checks@[i - 1])));
            }
        }
    }
    proof {
        assert(checks@.take(i as int) =~= checks@);
    }
    line.append(",");
    line.append(
        match verdict {
            Verdict::SafeToPromote => "SafeToPromote",
            Verdict::PeersStillUp => "PeersStillUp",
        },
    );
    proof {
        let text = audit_line_of(now_ms, request_id, requester@, term, checks@, verdict);
        assert(line@ =~= text);
    }
    line
}

/// A request that is being answered: its peers are checked one by one.
pub struct Corroboration {
    pub request_id: u64,
    pub requester_id: u8,
    pub term: u64,
    pub peers: Vec<WatchedNodeAddr>,
    pub checks: Vec<PeerCheck>,
}

/// What the next check takes.
#[derive(Debug)]
pub enum CheckStep {
    /// What was known of the next peer was recent enough, and is noted.
    Noted,
    /// The next peer has to be probed.
    Probe { node: WatchedNodeAddr },
    /// Every peer is checked.
    Done,
}

/// The answer to a request.
#[derive(Debug)]
pub struct Answer {
    pub response: CorroborationMsg,
    pub verdict: Verdict,
    pub requester: String,
    pub audit: String,
}

/// Whether this is the work on a request at its start.
pub open spec fn work_started(
    work: Corroboration,
    nodes: Seq<WatchedNodeAddr>,
    request_id: u64,
    requester_id: u8,
    term: u64,
) -> bool {
    &&& work.request_id == request_id
    &&& work.requester_id == requester_id
    &&& work.term == term
    &&& work.peers@ == others(nodes, requester_id)
    &&& work.checks@.len() == 0
}

/// Whether this is the answer that the work on a request comes to.
pub open spec fn concluded(
    work: Corroboration,
    nodes: Seq<WatchedNodeAddr>,
    now_ms: u128,
    answer: Answer,
) -> bool {
    &&& answer.verdict == verdict_on(work.checks@)
    &&& answer.response == (CorroborationMsg::Response {
        request_id: work.request_id,
        peers_checked: work.checks,
        verdict: answer.verdict,
    })
    &&& answer.requester@ == requester_label_of(nodes, work.requester_id)
    &&& answer.audit@ == audit_line_of(
        now_ms,
        work.request_id,
        answer.requester@,
        work.term,
        work.checks@,
        answer.verdict,
    )
}

/// How the work on a request goes on: the next peer is checked by what is known
/// of it, if that is recent enough.
pub open spec fn check_stepped(
    before: Corroboration,
    after: Corroboration,
    table: Map<u8, PeerHealth>,
    poll_interval_ms: u64,
    now: u128,
    step: CheckStep,
) -> bool {
    let at = before.checks@.len() as int;
    &&& same_request(before, after)
    &&& if at == before.peers@.len() {
        step is Done && after.checks@ == before.checks@
    } else {
        let node = before.peers@[at];
        match known_of(table, node.id, poll_interval_ms, now) {
            Some((reachable, age_ms)) => {
                &&& step is Noted
                &&& after.checks@ == before.checks@.push(check_of(node, reachable, age_ms))
            },
            None => {
                &&& step == (CheckStep::Probe { node })
                &&& after.checks@ == before.checks@
            },
        }
    }
}

/// How a probe of the next peer is noted.
pub open spec fn peer_probed(before: Corroboration, after: Corroboration, reachable: bool) -> bool {
    &&& same_request(before, after)
    &&& after.checks@ == before.checks@.push(
        check_of(before.peers@[before.checks@.len() as int], reachable, 0),
    )
}

/// Whether both work on the same request, with the same peers.
pub open spec fn same_request(before: Corroboration, after: Corroboration) -> bool {
    &&& after.request_id == before.request_id
    &&& after.requester_id == before.requester_id
    &&& after.term == before.term
    &&& after.peers == before.peers
}

impl Corroboration {
    /// The checks made so far are those of the first peers, in order.
    pub open spec fn wf(&self) -> bool {
        &&& self.checks@.len() <= self.peers@.len()
        &&& forall|i: int|
            0 <= i < self.checks@.len() ==> {
                let check = #[trigger] self.checks@[i];
                check == check_of(self.peers@[i], check.reachable, check.age_ms)
            }
    }

    /// Starts on a request: the peers are all nodes but the requester.
    pub fn start(config: &WitnessConfig, request_id: u64, requester_id: u8, term: u64) -> (work:
        Self)
        ensures
            work.wf(),
            work_started(work, config.nodes@, request_id, requester_id, term),
    {
        Corroboration {
            request_id,
            requester_id,
            term,
            peers: other_nodes(config, requester_id),
            checks: Vec::new(),
        }
    }

    /// Checks the next peer by what is known of it, if that is recent enough.
    pub fn step(&mut self, table: &HealthTable, poll_interval_ms: u64, now: u128) -> (step:
        CheckStep)
        requires
            old(self).wf(),
        ensures
            final(self).wf(),
            check_stepped(*old(self), *final(self), table@, poll_interval_ms, now, step),
    {
        let at: usize = self.checks.len();
        if at == self.peers.len() {
            return CheckStep::Done;
        }
        match cached_check(table, self.peers[at].id, poll_interval_ms, now) {
            Some((reachable, age_ms)) => {
                let check = peer_check(&self.peers[at], reachable, age_ms);
                self.checks.push(check);
                CheckStep::Noted
            },
            None => CheckStep::Probe { node: self.peers[at].clone() },
        }
    }

    /// Notes what a probe of the next peer found.
    pub fn probed(&mut self, reachable: bool)
        requires
            old(self).wf(),
            old(self).checks@.len() < old(self).peers@.len(),
        ensures
            final(self).wf(),
            peer_probed(*old(self), *final(self), reachable),
    {
        let at: usize = self.checks.len();
        let check = peer_check(&self.peers[at], reachable, 0);
        self.checks.push(check);
    }

    /// The answer, once every peer is checked.
    pub fn conclude(self, config: &WitnessConfig, now_ms: u128) -> (answer: Answer)
        requires
            self.wf(),
            self.checks@.len() == self.peers@.len(),
        ensures
            concluded(self, config.nodes@, now_ms, answer),
    {
        let verdict = decide(&self.checks);
        let requester = requester_label(config, self.requester_id);
        let audit = audit_line(
            now_ms,
            self.request_id,
            requester.as_str(),
            self.term,
            &self.checks,
            verdict,
        );
        Answer {
            response: CorroborationMsg::Response {
                request_id: self.request_id,
                peers_checked: self.checks,
                verdict,
            },
            verdict,
            requester,
            audit,
        }
    }
}

/// What a poll found is gone by for two poll intervals, and no longer. Its age is
/// given in whole milliseconds.
pub proof fn law_recent_polls_are_gone_by(
    table: Map<u8, PeerHealth>,
    node_id: u8,
    poll_interval_ms: u64,
    now: u128,
)
    requires
        2 * poll_interval_ms <= u64::MAX,
    ensures
        ({
            let known = known_of(table, node_id, poll_interval_ms, now);
            let seen = table[node_id].last_seen;
            &&& known is Some <==> table.dom().contains(node_id) && poll_interval_ms > 0 && now
                - seen < 2 * poll_interval_ms * 1_000_000
            &&& known matches Some((reachable, age_ms)) ==> {
                &&& reachable == table[node_id].reachable
                &&& now >= seen ==> age_ms * 1_000_000 <= now - seen < (age_ms + 1) * 1_000_000
                &&& now <= seen ==> age_ms == 0
            }
        }),
{
}

/// Each step of the work on a request checks the next peer, notes what a recent
/// poll found of it, and has it probed if there was none. The peers stay, as do
/// the checks that have been made.
pub proof fn law_peers_are_checked_in_order(
    before: Corroboration,
    after: Corroboration,
    table: Map<u8, PeerHealth>,
    poll_interval_ms: u64,
    now: u128,
    step: CheckStep,
)
    requires
        before.wf(),
        2 * poll_interval_ms <= u64::MAX,
        check_stepped(before, after, table, poll_interval_ms, now, step),
    ensures
        ({
            let at = before.checks@.len() as int;
            let node = before.peers@[at];
            let recent = table.dom().contains(node.id) && poll_interval_ms > 0 && now
                - table[node.id].last_seen < 2 * poll_interval_ms * 1_000_000;
            &&& after.peers == before.peers
            &&& before.checks@.is_prefix_of(after.checks@)
            &&& step is Done <==> at == before.peers@.len()
            &&& step is Noted <==> at < before.peers@.len() && recent
            &&& step is Noted ==> {
                &&& after.checks@.len() == at + 1
                &&& after.checks@[at].node_id == node.id
                &&& after.checks@[at].reachable == table[node.id].reachable
            }
            &&& step matches CheckStep::Probe { node: asked } ==> asked == node
            &&& !(step is Noted) ==> after.checks@ == before.checks@
        }),
{
    let at = before.checks@.len() as int;
    if at < before.peers@.len() {
        law_recent_polls_are_gone_by(table, before.peers@[at].id, poll_interval_ms, now);
    }
    assert(before.checks@ =~= before.checks@.subrange(0, at));
    if step is Noted {
        assert(before.checks@ =~= after.checks@.subrange(0, at));
    }
}

/// What a probe finds is noted as the check of the peer that was probed, as of
/// just now.
pub proof fn law_probes_are_noted(before: Corroboration, after: Corroboration, reachable: bool)
    requires
        before.wf(),
        before.checks@.len() < before.peers@.len(),
        peer_probed(before, after, reachable),
    ensures
        ({
            let at = before.checks@.len() as int;
            &&& after.peers == before.peers
            &&& after.checks@.len() == at + 1
            &&& after.checks@.take(at) == before.checks@
            &&& after.checks@[at].node_id == before.peers@[at].id
            &&& after.checks@[at].reachable == reachable
            &&& after.checks@[at].age_ms == 0
        }),
{
    assert(after.checks@.take(before.checks@.len() as int) =~= before.checks@);
}

/// Once every peer is checked, a promotion is safe if and only if each node of
/// the configuration other than the requester was found unreachable.
pub proof fn law_safe_only_if_all_others_are_down(
    nodes: Seq<WatchedNodeAddr>,
    work: Corroboration,
)
    requires
        work.wf(),
        work.peers@ == others(nodes, work.requester_id),
        work.checks@.len() == work.peers@.len(),
    ensures
        verdict_on(work.checks@) == Verdict::SafeToPromote <==> forall|i: int|
            0 <= i < nodes.len() && (#[trigger] nodes[i]).id != work.requester_id ==> found_down(
                work.checks@,
                nodes[i],
            ),
{
    let checks = work.checks@;
    if verdict_on(checks) == Verdict::SafeToPromote {
        assert forall|i: int|
            0 <= i < nodes.len() && (#[trigger] nodes[i]).id != work.requester_id implies found_down(
            checks,
            nodes[i],
        ) by {
            law_peers_are_all_but_requester(nodes, work.requester_id, nodes[i]);
            let k = choose|k: int| 0 <= k < work.peers@.len() && work.peers@[k] == nodes[i];
            assert(names(checks[k], nodes[i]));
            assert forall|j: int| 0 <= j < checks.len() && #[trigger] names(checks[j], nodes[i])
                implies !checks[j].reachable by {
                assert(!checks[j].reachable);
            }
        }
    }
    if forall|i: int|
        0 <= i < nodes.len() && (#[trigger] nodes[i]).id != work.requester_id ==> found_down(
            checks,
            nodes[i],
        ) {
        assert forall|k: int| 0 <= k < checks.len() implies !(#[trigger] checks[k]).reachable by {
            let node = work.peers@[k];
            assert(work.peers@.contains(node));
            law_peers_are_all_but_requester(nodes, work.requester_id, node);
            let i = choose|i: int| 0 <= i < nodes.len() && nodes[i] == node;
            assert(found_down(checks, nodes[i]));
            assert(names(checks[k], node));
        }
    }
}

/// A request is worked off against every node but the requester. Its answer bears
/// its id and what was found of each of them, and says that a promotion is safe if
/// and only if none of them was reached.
pub proof fn law_requests_are_answered(
    nodes: Seq<WatchedNodeAddr>,
    start: Corroboration,
    work: Corroboration,
    request_id: u64,
    requester_id: u8,
    term: u64,
    now_ms: u128,
    answer: Answer,
)
    requires
        work_started(start, nodes, request_id, requester_id, term),
        same_request(start, work),
        work.wf(),
        work.checks@.len() == work.peers@.len(),
        concluded(work, nodes, now_ms, answer),
    ensures
        start.checks@.len() == 0,
        work.peers@ == nodes.filter(|node: WatchedNodeAddr| node.id != requester_id),
        answer.response matches CorroborationMsg::Response {
            request_id: id,
            peers_checked,
            verdict,
        } && id == request_id && peers_checked@ == work.checks@ && verdict == answer.verdict,
        answer.verdict == Verdict::SafeToPromote <==> forall|i: int|
            0 <= i < nodes.len() && (#[trigger] nodes[i]).id != requester_id ==> found_down(
                work.checks@,
                nodes[i],
            ),
{
    law_others_keep_their_order(nodes, requester_id);
    law_safe_only_if_all_others_are_down(nodes, work);
}

/// Whether a check is that of a node.
pub open spec fn names(check: PeerCheck, node: WatchedNodeAddr) -> bool {
    check.node_id == node.id && check.name == node.name && check.host == node.host
}

/// Whether a node was checked, and found unreachable.
pub open spec fn found_down(checks: Seq<PeerCheck>, node: WatchedNodeAddr) -> bool {
    &&& exists|k: int| 0 <= k < checks.len() && #[trigger] names(checks[k], node)
    &&& forall|k: int|
        0 <= k < checks.len() && #[trigger] names(checks[k], node) ==> !checks[k].reachable
}

/// A requester is checked against every node of the configuration but itself.
pub proof fn law_peers_are_all_but_requester(
    nodes: Seq<WatchedNodeAddr>,
    requester_id: u8,
    node: WatchedNodeAddr,
)
    ensures
        others(nodes, requester_id).contains(node) <==> nodes.contains(node) && node.id
            != requester_id,
    decreases nodes.len(),
{
    if nodes.len() > 0 {
        let init = nodes.drop_last();
        let last = nodes.last();
        law_peers_are_all_but_requester(init, requester_id, node);
        let before = others(init, requester_id);
        assert(nodes =~= init.push(last));
        if nodes.contains(node) && node != last {
            let i = choose|i: int| 0 <= i < nodes.len() && nodes[i] == node;
            assert(init[i] == node);
        }
        if init.contains(node) {
            let i = choose|i: int| 0 <= i < init.len() && init[i] == node;
            assert(nodes[i] == node);
        }
        if last.id != requester_id {
            let after = before.push(last);
            if before.contains(node) {
                let i = choose|i: int| 0 <= i < before.len() && before[i] == node;
                assert(after[i] == node);
            }
            if after.contains(node) && node != last {
                let i = choose|i: int| 0 <= i < after.len() && after[i] == node;
                assert(before[i] == node);
            }
            assert(after[before.len() as int] == last);
        }
        assert(nodes[nodes.len() - 1] == last);
    }
}

} // verus!
