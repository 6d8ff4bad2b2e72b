//! Polling whether the replicas are up, and which of them says that it leads.

use crate::chance;
use crate::clock::{elapsed, millis, nanos_of, passed, time_since};
use crate::process::raft_model::Role;
use crate::text::{decimal, push_decimal};
use crate::witness::config::WatchedNodeAddr;
use std::collections::HashMap;
use vstd::prelude::*;

verus! {

broadcast use vstd::std_specs::hash::group_hash_axioms;

/// A probe, and the answer of a replica to it. The role is 0 for a follower, 1
/// for a candidate and 2 for a leader.
#[derive(Clone, Copy, PartialEq, Eq, Structural, Debug)]
pub enum HealthMsg {
    Ping { nonce: u64 },
    Pong { node_id: u8, nonce: u64, role: u8, term: u64 },
}

/// The number that stands for a role in an answer.
pub open spec fn role_number(role: Role) -> u8 {
    match role {
        Role::Follower => 0,
        Role::Candidate => 1,
        Role::Leader => 2,
    }
}

impl Role {
    /// The number that stands for the role in the answer to a probe.
    pub fn as_u8(self) -> (n: u8)
        ensures
            n == role_number(self),
    {
        match self {
            Role::Follower => 0,
            Role::Candidate => 1,
            Role::Leader => 2,
        }
    }

    /// The role that a number stands for. One that stands for none is taken for
    /// that of a follower.
    pub fn from_u8(n: u8) -> (role: Role)
        ensures
            role == role_of(n),
    {
        match n {
            1 => Role::Candidate,
            2 => Role::Leader,
            _ => Role::Follower,
        }
    }
}

/// The role that a number stands for.
pub open spec fn role_of(n: u8) -> Role {
    if n == 1 {
        Role::Candidate
    } else if n == 2 {
        Role::Leader
    } else {
        Role::Follower
    }
}

/// The number of a role stands for that role.
pub proof fn law_roles_round_trip(role: Role)
    ensures
        role_of(role_number(role)) == role,
{
}

/// The answer of a replica to a message on its probe channel.
pub open spec fn answer_to(message: HealthMsg, self_id: u8, role: Role, term: u64) -> Option<
    HealthMsg,
> {
    match message {
        HealthMsg::Ping { nonce } => Some(
            HealthMsg::Pong { node_id: self_id, nonce, role: role_number(role), term },
        ),
        HealthMsg::Pong { .. } => None,
    }
}

/// What a replica answers to a message on its probe channel: a probe is
/// answered with its own nonce, anything else is ignored.
pub fn answer_probe(message: HealthMsg, self_id: u8, role: Role, term: u64) -> (answer: Option<
    HealthMsg,
>)
    ensures
        answer == answer_to(message, self_id, role, term),
{
    match message {
        HealthMsg::Ping { nonce } => Some(
            HealthMsg::Pong { node_id: self_id, nonce, role: role.as_u8(), term },
        ),
        HealthMsg::Pong { .. } => None,
    }
}

/// A probe that waits for its answer.
pub struct Probe {
    pub nonce: u64,
    pub started_at: u128,
    pub timeout_ms: u64,
}

impl Probe {
    /// A probe with a nonce drawn at random.
    pub fn new(timeout_ms: u64, now: u128) -> (probe: Probe)
        ensures
            probe.started_at == now,
            probe.timeout_ms == timeout_ms,
    {
        Probe { nonce: chance::random_number(), started_at: now, timeout_ms }
    }

    /// The message to send.
    pub fn ping(&self) -> (message: HealthMsg)
        ensures
            message == (HealthMsg::Ping { nonce: self.nonce }),
    {
        HealthMsg::Ping { nonce: self.nonce }
    }

    /// How long the probe still waits.
    pub open spec fn time_left(self, now: u128) -> Option<u128> {
        let spent = time_since(self.started_at, now);
        let limit = nanos_of(self.timeout_ms);
        if spent >= limit {
            None
        } else {
            Some((limit - spent) as u128)
        }
    }

    /// What a message says about the probe.
    pub open spec fn report_in(self, message: HealthMsg) -> Option<(u8, u64)> {
        match message {
            HealthMsg::Pong { nonce, role, term, .. } => if nonce == self.nonce {
                Some((role, term))
            } else {
                None
            },
            HealthMsg::Ping { .. } => None,
        }
    }

    /// How long to wait for a packet, in nanoseconds; none once time is up.
    pub fn remaining(&self, now: u128) -> (left: Option<u128>)
        ensures
            left == self.time_left(now),
    {
        let spent: u128 = elapsed(self.started_at, now);
        let limit: u128 = millis(self.timeout_ms);
        if spent >= limit {
            None
        } else {
            Some(limit - spent)
        }
    }

    /// What a message says about the probe: the role and term of the replica if
    /// it is the answer; a stale answer is ignored.
    pub fn receive(&self, message: HealthMsg) -> (report: Option<(u8, u64)>)
        ensures
            report == self.report_in(message),
    {
        match message {
            HealthMsg::Pong { nonce, role, term, .. } => if nonce == self.nonce {
                Some((role, term))
            } else {
                None
            },
            HealthMsg::Ping { .. } => None,
        }
    }
}

/// Whether a retry is left after `failed` probes in a row without an answer.
pub open spec fn has_probe_left(failed: u64, retries: u8) -> bool {
    failed <= retries
}

/// Whether to probe once more, after `failed` probes in a row without an answer:
/// a replica counts as unreachable once the first probe and each of its retries
/// has failed.
pub fn probes_again(failed: u64, retries: u8) -> (again: bool)
    ensures
        again == has_probe_left(failed, retries),
{
    failed <= retries as u64
}

/// What is known of a replica.
#[derive(Clone, Copy, PartialEq, Eq, Structural, Debug)]
pub struct PeerHealth {
    pub reachable: bool,
    /// When it was last polled.
    pub last_seen: u128,
}

/// What is known of the replicas.
pub struct HealthTable {
    entries: HashMap<u8, PeerHealth>,
}

impl View for HealthTable {
    type V = Map<u8, PeerHealth>;

    closed spec fn view(&self) -> Map<u8, PeerHealth> {
        self.entries@
    }
}

/// The word for a state.
pub open spec fn state_word(reachable: bool) -> Seq<char> {
    if reachable {
        "reachable"@
    } else {
        "unreachable"@
    }
}

/// How the outcome of a poll is entered, and whether it is news.
pub open spec fn recorded(
    before: Map<u8, PeerHealth>,
    after: Map<u8, PeerHealth>,
    node_id: u8,
    reachable: bool,
    now: u128,
    changed: bool,
) -> bool {
    &&& after == before.insert(node_id, PeerHealth { reachable, last_seen: now })
    &&& changed == (!before.dom().contains(node_id) || before[node_id].reachable != reachable)
}

impl HealthTable {
    pub fn new() -> (table: Self)
        ensures
            table@ == Map::<u8, PeerHealth>::empty(),
    {
        let table = HealthTable { entries: HashMap::new() };
        proof {
            assert(table@ =~= Map::<u8, PeerHealth>::empty());
        }
        table
    }

    /// Enters the outcome of a poll. Says whether it differs from the one before,
    /// or is the first.
    pub fn record(&mut self, node_id: u8, reachable: bool, now: u128) -> (changed: bool)
        ensures
            recorded(old(self)@, final(self)@, node_id, reachable, now, changed),
    {
        let changed = match self.entries.get(&node_id) {
            Some(health) => health.reachable != reachable,
            None => true,
        };
        self.entries.insert(node_id, PeerHealth { reachable, last_seen: now });
        changed
    }

    pub fn get(&self, node_id: u8) -> (health: Option<PeerHealth>)
        ensures
            health == (if self@.dom().contains(node_id) {
                Some(self@[node_id])
            } else {
                None
            }),
    {
        match self.entries.get(&node_id) {
            Some(health) => Some(*health),
            None => None,
        }
    }
}

/// The line of the log of transitions: time, id, name, host and state.
pub open spec fn transition_line_of(
    now_ms: u128,
    node: WatchedNodeAddr,
    reachable: bool,
) -> Seq<char> {
    decimal(now_ms as nat) + ","@ + decimal(node.id as nat) + ","@ + node.name@ + ","@ + node.host@
        + ","@ + state_word(reachable)
}

/// The line of the log of transitions.
pub fn transition_line(now_ms: u128, node: &WatchedNodeAddr, reachable: bool) -> (line: String)
    ensures
        line@ == transition_line_of(now_ms, *node, reachable),
{
    let mut line = String::new();
    push_decimal(&mut line, now_ms);
    proof {
        assert(line@ =~= decimal(now_ms as nat));
    }
    line.append(",");
    push_decimal(&mut line, node.id as u128);
    line.append(",");
    line.append(node.name.as_str());
    line.append(",");
    line.append(node.host.as_str());
    line.append(",");
    line.append(
        if reachable {
            "reachable"
        } else {
            "unreachable"
        },
    );
    line
}

/// What one replica reported in a round of polls; nothing if it was not reached.
#[derive(Clone, Copy, PartialEq, Eq, Structural, Debug)]
pub struct Report {
    pub node_id: u8,
    pub reachable: bool,
    pub role: u8,
    pub term: u64,
}

/// Whether a report says that its replica leads.
pub open spec fn claims_lead(report: Report) -> bool {
    report.reachable && report.role == 2
}

/// The report to go by among those that say that their replica leads: the one
/// with the highest term, and the first of those.
pub open spec fn foremost_claim(reports: Seq<Report>) -> Option<Report>
    decreases reports.len(),
{
    if reports.len() == 0 {
        None
    } else {
        let before = foremost_claim(reports.drop_last());
        let last = reports.last();
        if !claims_lead(last) {
            before
        } else {
            match before {
                Some(other) => if last.term > other.term {
                    Some(last)
                } else {
                    before
                },
                None => Some(last),
            }
        }
    }
}

/// The reports that say that their replica leads, in order.
pub open spec fn claims(reports: Seq<Report>) -> Seq<Report>
    decreases reports.len(),
{
    if reports.len() == 0 {
        Seq::empty()
    } else if claims_lead(reports.last()) {
        claims(reports.drop_last()).push(reports.last())
    } else {
        claims(reports.drop_last())
    }
}

/// The believed leader said so itself, and nobody who said so had a higher term;
/// nobody is believed to lead exactly if nobody said so.
pub proof fn law_highest_term_is_believed(reports: Seq<Report>)
    ensures
        match foremost_claim(reports) {
            Some(best) => {
                &&& reports.contains(best)
                &&& claims_lead(best)
                &&& forall|i: int|
                    0 <= i < reports.len() && claims_lead(#[trigger] reports[i])
                        ==> reports[i].term <= best.term
            },
            None => forall|i: int| 0 <= i < reports.len() ==> !claims_lead(#[trigger] reports[i]),
        },
    decreases reports.len(),
{
    if reports.len() > 0 {
        let init = reports.drop_last();
        let last = reports.last();
        law_highest_term_is_believed(init);
        assert(reports =~= init.push(last));
        assert(reports[reports.len() - 1] == last);
        assert forall|i: int| 0 <= i < init.len() implies init[i] == #[trigger] reports[i] by {}
        if let Some(best) = foremost_claim(init) {
            let i = choose|i: int| 0 <= i < init.len() && init[i] == best;
            assert(reports[i] == best);
        }
    }
}

/// The least time between two lines that all is well.
pub const STATUS_INTERVAL_MS: u64 = 15_000;

/// Which replica is believed to lead. For display only: no decision rests on it.
pub struct LeaderBoard {
    pub believed: Option<u8>,
    pub last_status: Option<u128>,
}

/// What one round of polls shows.
pub struct RoundNews {
    /// The believed leader differs from the one of the round before.
    pub leader_changed: bool,
    /// More than one replica says that it leads; these do.
    pub conflict: Option<Vec<Report>>,
    /// Every replica was reached, and it is time to say so.
    pub all_well: bool,
}

/// How the board takes in one round of polls, and what is news of it.
pub open spec fn round_taken(
    before: LeaderBoard,
    after: LeaderBoard,
    reports: Seq<Report>,
    now: u128,
    news: RoundNews,
) -> bool {
    let believed = match foremost_claim(reports) {
        Some(report) => Some(report.node_id),
        None => None,
    };
    let due = match before.last_status {
        Some(at) => time_since(at, now) >= nanos_of(STATUS_INTERVAL_MS),
        None => true,
    };
    let well = due && reports.len() > 0 && forall|i: int|
        0 <= i < reports.len() ==> (#[trigger] reports[i]).reachable;
    &&& after.believed == believed
    &&& news.leader_changed == (believed != before.believed)
    &&& news.conflict is Some <==> claims(reports).len() > 1
    &&& news.conflict matches Some(list) ==> list@ == claims(reports)
    &&& news.all_well == well
    &&& after.last_status == (if well {
        Some(now)
    } else {
        before.last_status
    })
}

impl LeaderBoard {
    pub fn new() -> (board: Self)
        ensures
            board == (LeaderBoard { believed: None, last_status: None }),
    {
        LeaderBoard { believed: None, last_status: None }
    }

    /// Takes in one round of polls.
    pub fn round(&mut self, reports: &Vec<Report>, now: u128) -> (news: RoundNews)
        ensures
            round_taken(*old(self), *final(self), reports@, now, news),
    {
        let mut best: Option<Report> = None;
        let mut leading: Vec<Report> = Vec::new();
        let mut all_reached = reports.len() > 0;
        let mut i: usize = 0;
        while i < reports.len()
            invariant
                i <= reports@.len(),
                best == foremost_claim(reports@.take(i as int)),
                leading@ == claims(reports@.take(i as int)),
                all_reached == (reports@.len() > 0 && forall|k: int|
                    0 <= k < i ==> (#[trigger] reports@[k]).reachable),
            decreases reports@.len() - i,
        {
            let report = reports[i];
            if !report.reachable {
                all_reached = false;
            }
            if report.reachable && report.role == 2 {
                leading.push(report);
                best = match best {
                    Some(other) => if report.term > other.term {
                        Some(report)
                    } else {
                        best
                    },
                    None => Some(report),
                };
            }
            i = i + 1;
            proof {
                let done = reports@.take(i as int);
                assert(done.drop_last() =~= reports@.take(i - 1));
                assert(done.last() == report);
            }
        }
        proof {
            assert(reports@.take(i as int) =~= reports@);
        }
        let believed: Option<u8> = match best {
            Some(report) => Some(report.node_id),
            None => None,
        };
        let leader_changed = match (believed, self.believed) {
            (Some(a), Some(b)) => a != b,
            (None, None) => false,
            _ => true,
        };
        self.believed = believed;
        let due = match self.last_status {
            Some(at) => elapsed(at, now) >= millis(STATUS_INTERVAL_MS),
            None => true,
        };
        let all_well = due && all_reached;
        if all_well {
            self.last_status = Some(now);
        }
        let conflict = if leading.len() > 1 {
            Some(leading)
        } else {
            None
        };
        RoundNews { leader_changed, conflict, all_well }
    }
}

/// The roles stand for themselves on the wire: 0 is a follower, 1 a candidate
/// and 2 a leader, and any other number is taken for a follower.
pub proof fn law_role_numbers(n: u8)
    ensures
        role_number(Role::Follower) == 0,
        role_number(Role::Candidate) == 1,
        role_number(Role::Leader) == 2,
        n > 2 ==> role_of(n) == Role::Follower,
{
}

/// The answer of a replica to a probe tells the prober its role and its term. A
/// probe takes no answer but that to its own nonce, and an answer is not
/// answered.
pub proof fn law_probes_are_answered(
    probe: Probe,
    nonce: u64,
    self_id: u8,
    role: Role,
    term: u64,
    other: HealthMsg,
)
    ensures
        answer_to(HealthMsg::Ping { nonce }, self_id, role, term) matches Some(pong) && {
            &&& pong matches HealthMsg::Pong { node_id, .. } && node_id == self_id
            &&& probe.report_in(pong) == (if nonce == probe.nonce {
                Some((role_number(role), term))
            } else {
                None
            })
            &&& answer_to(pong, self_id, role, term) is None
        },
        other is Ping ==> probe.report_in(other) is None,
{
}

/// A probe waits until its timeout has passed and no longer: what is left of it
/// reaches exactly to its end.
pub proof fn law_probes_end(probe: Probe, now: u128)
    ensures
        probe.time_left(now) is None <==> passed(probe.started_at, now, probe.timeout_ms),
        now >= probe.started_at ==> (probe.time_left(now) matches Some(left) ==> now + left
            == probe.started_at + probe.timeout_ms * 1_000_000),
{
}

/// A replica counts as unreachable after the first probe and all its retries,
/// and not before: after `retries + 1` probes without an answer no other is sent.
pub proof fn law_retries_are_used_up(failed: u64, retries: u8)
    ensures
        has_probe_left(failed, retries) <==> failed < retries + 1,
{
}

/// What is known of a replica is its last poll. The first poll is news, and then
/// a poll is news if and only if it differs from the one before it. Polls of
/// other replicas change nothing of it.
pub proof fn law_last_poll_counts(
    t0: Map<u8, PeerHealth>,
    t1: Map<u8, PeerHealth>,
    t2: Map<u8, PeerHealth>,
    id: u8,
    other: u8,
    first: bool,
    second: bool,
    now: u128,
    later: u128,
    news: bool,
    more_news: bool,
)
    requires
        recorded(t0, t1, id, first, now, news),
        recorded(t1, t2, id, second, later, more_news),
    ensures
        !t0.dom().contains(id) ==> news,
        more_news <==> first != second,
        t2.dom().contains(id),
        t2[id].reachable == second,
        t2[id].last_seen == later,
        other != id ==> (t2.dom().contains(other) <==> t0.dom().contains(other)),
        other != id && t0.dom().contains(other) ==> t2[other] == t0[other],
{
}

proof fn lemma_claims(reports: Seq<Report>)
    ensures
        claims(reports) == reports.filter(|r: Report| r.reachable && r.role == 2),
    decreases reports.len(),
{
    reveal(Seq::filter);
    if reports.len() > 0 {
        lemma_claims(reports.drop_last());
    }
}

proof fn lemma_first_of_highest(reports: Seq<Report>)
    ensures
        match foremost_claim(reports) {
            Some(best) => exists|k: int|
                {
                    &&& 0 <= k < reports.len()
                    &&& #[trigger] reports[k] == best
                    &&& best.reachable && best.role == 2
                    &&& forall|i: int|
                        0 <= i < reports.len() && (#[trigger] reports[i]).reachable
                            && reports[i].role == 2 ==> reports[i].term <= best.term && (i < k
                            ==> reports[i].term < best.term)
                },
            None => forall|i: int|
                0 <= i < reports.len() ==> !((#[trigger] reports[i]).reachable && reports[i].role
                    == 2),
        },
    decreases reports.len(),
{
    if reports.len() > 0 {
        let init = reports.drop_last();
        lemma_first_of_highest(init);
        assert forall|i: int| 0 <= i < init.len() implies init[i] == #[trigger] reports[i] by {}
        if let Some(best) = foremost_claim(init) {
            let k = choose|k: int|
                {
                    &&& 0 <= k < init.len()
                    &&& #[trigger] init[k] == best
                    &&& best.reachable && best.role == 2
                    &&& forall|i: int|
                        0 <= i < init.len() && (#[trigger] init[i]).reachable && init[i].role == 2
                            ==> init[i].term <= best.term && (i < k ==> init[i].term < best.term)
                };
            assert(reports[k] == best);
        }
        assert(reports[reports.len() - 1] == reports.last());
    }
}

/// After a round the replica is believed to lead that says so with the highest
/// term, the first of them where several do, and nobody if nobody says so. It is
/// news if that differs from the round before. Where more than one says so, that
/// is news too, with the reports of all who do, in order.
pub proof fn law_rounds_find_the_leader(
    before: LeaderBoard,
    after: LeaderBoard,
    reports: Seq<Report>,
    now: u128,
    news: RoundNews,
)
    requires
        round_taken(before, after, reports, now, news),
    ensures
        match after.believed {
            Some(id) => exists|k: int|
                {
                    &&& 0 <= k < reports.len()
                    &&& (#[trigger] reports[k]).node_id == id
                    &&& reports[k].reachable && reports[k].role == 2
                    &&& forall|i: int|
                        0 <= i < reports.len() && (#[trigger] reports[i]).reachable
                            && reports[i].role == 2 ==> reports[i].term <= reports[k].term && (i < k
                            ==> reports[i].term < reports[k].term)
                },
            None => forall|i: int|
                0 <= i < reports.len() ==> !((#[trigger] reports[i]).reachable && reports[i].role
                    == 2),
        },
        news.leader_changed <==> before.believed != after.believed,
        news.conflict is Some <==> reports.filter(|r: Report| r.reachable && r.role == 2).len() > 1,
        news.conflict matches Some(list) ==> list@ == reports.filter(
            |r: Report| r.reachable && r.role == 2,
        ),
{
    lemma_claims(reports);
    lemma_first_of_highest(reports);
}

/// That all is well is said when every replica of a round was reached, and then
/// not again for fifteen seconds.
pub proof fn law_all_well_is_said_sparingly(
    before: LeaderBoard,
    middle: LeaderBoard,
    after: LeaderBoard,
    first: Seq<Report>,
    second: Seq<Report>,
    now: u128,
    later: u128,
    news: RoundNews,
    more_news: RoundNews,
)
    requires
        round_taken(before, middle, first, now, news),
        round_taken(middle, after, second, later, more_news),
    ensures
        news.all_well ==> first.len() > 0 && forall|i: int|
            0 <= i < first.len() ==> (#[trigger] first[i]).reachable,
        before.last_status is None && first.len() > 0 && (forall|i: int|
            0 <= i < first.len() ==> (#[trigger] first[i]).reachable) ==> news.all_well,
        news.all_well && later < now + 15_000_000_000 ==> !more_news.all_well,
        news.all_well && later >= now + 15_000_000_000 && second.len() > 0 && (forall|i: int|
            0 <= i < second.len() ==> (#[trigger] second[i]).reachable) ==> more_news.all_well,
{
}

} // verus!
