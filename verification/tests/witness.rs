use oms::environment::Environment;
use oms::process::raft_model::Role;
use oms::process::witness_client::Verdict;
use oms::witness::config::{load_from_env, WitnessConfig};
use oms::witness::corroboration::{
    audit_line, cached_check, decide, peer_check, requester_label, CheckStep, Corroboration,
    CorroborationMsg,
};
use oms::witness::health_poll::{
    answer_probe, probes_again, transition_line, HealthMsg, HealthTable, LeaderBoard, PeerHealth,
    Probe, Report,
};
use oms::witness::lines::{
    conflict_line, leader_label, leader_line, stamped, status_line, watched,
};

const MS: u128 = 1_000_000;

fn config() -> WitnessConfig {
    let vars = [("NODE1_HOST", "h1"), ("NODE2_HOST", "h2"), ("NODE3_HOST", "h3")];
    load_from_env(&Environment {
        vars: vars.iter().map(|(k, v)| (k.to_string(), v.to_string())).collect(),
    })
    .unwrap()
}

/// Answers a request of node 1, with the outcomes of probes by node id.
fn answer(table: &HealthTable, now: u128, up: &[u8]) -> (Verdict, String, Vec<u8>) {
    let config = config();
    let mut work = Corroboration::start(&config, 70, 1, 4);
    let mut probed = Vec::new();
    loop {
        match work.step(table, config.poll_interval_ms, now) {
            CheckStep::Noted => {}
            CheckStep::Probe { node } => {
                probed.push(node.id);
                work.probed(up.contains(&node.id));
            }
            CheckStep::Done => break,
        }
    }
    let answer = work.conclude(&config, 5_000);
    match &answer.response {
        CorroborationMsg::Response { request_id, peers_checked, verdict } => {
            assert_eq!((*request_id, *verdict), (70, answer.verdict));
            assert_eq!(peers_checked.iter().map(|c| c.node_id).collect::<Vec<_>>(), vec![2, 3]);
        }
        CorroborationMsg::Request { .. } => panic!("a request is answered with a response"),
    }
    assert_eq!(answer.requester, "Nitin (h1)");
    (answer.verdict, answer.audit, probed)
}

#[test]
fn promotion_is_safe_only_if_all_others_are_down() {
    let mut table = HealthTable::new();
    table.record(1, true, 0);
    table.record(2, false, 0);
    table.record(3, false, 200 * MS);
    let (verdict, audit, probed) = answer(&table, 250 * MS, &[]);
    assert_eq!(verdict, Verdict::SafeToPromote);
    assert_eq!(
        audit,
        "5000,70,Nitin (h1),4,Amit (h2):down:250ms|Yousuf (h3):down:50ms,SafeToPromote"
    );
    assert!(probed.is_empty());
    table.record(3, true, 210 * MS);
    let (verdict, audit, _) = answer(&table, 250 * MS, &[]);
    assert_eq!(verdict, Verdict::PeersStillUp);
    assert!(audit.ends_with("|Yousuf (h3):up:40ms,PeersStillUp"));
}

#[test]
fn stale_or_missing_knowledge_is_probed_anew() {
    let mut table = HealthTable::new();
    table.record(2, false, 0);
    let (verdict, audit, probed) = answer(&table, 1_000 * MS, &[2]);
    assert_eq!(probed, vec![2, 3]);
    assert_eq!(verdict, Verdict::PeersStillUp);
    assert_eq!(
        audit,
        "5000,70,Nitin (h1),4,Amit (h2):up:0ms|Yousuf (h3):down:0ms,PeersStillUp"
    );
    let (verdict, _, probed) = answer(&table, 999 * MS, &[]);
    assert_eq!(probed, vec![3]);
    assert_eq!(verdict, Verdict::SafeToPromote);
    assert_eq!(cached_check(&table, 2, 500, 999 * MS), Some((false, 999)));
    assert_eq!(cached_check(&table, 2, 500, 1_000 * MS), None);
    assert_eq!(cached_check(&table, 3, 500, 0), None);
    assert_eq!(cached_check(&table, 2, u64::MAX, 7_500_000), Some((false, 7)));
}

#[test]
fn decision_and_audit_of_single_checks() {
    let config = config();
    let up = peer_check(&config.nodes[0], true, 3);
    let down = peer_check(&config.nodes[1], false, 4);
    assert_eq!((up.name.as_str(), up.host.as_str(), up.age_ms), ("Nitin", "h1", 3));
    assert_eq!(decide(&vec![]), Verdict::SafeToPromote);
    assert_eq!(
        audit_line(1, 2, "r", 3, &vec![], Verdict::SafeToPromote),
        "1,2,r,3,,SafeToPromote"
    );
    assert_eq!(decide(&vec![down, up]), Verdict::PeersStillUp);
    assert_eq!(requester_label(&config, 2), "Amit (h2)");
    assert_eq!(requester_label(&config, 8), "node 8");
}

#[test]
fn transitions_are_noticed() {
    let mut table = HealthTable::new();
    assert!(table.record(2, true, 1));
    assert!(!table.record(2, true, 2));
    assert!(table.record(2, false, 3));
    assert!(!table.record(2, false, 4));
    assert_eq!(table.get(2), Some(PeerHealth { reachable: false, last_seen: 4 }));
    assert_eq!(table.get(1), None);
    let node = &config().nodes[1];
    assert_eq!(transition_line(99, node, false), "99,2,Amit,h2,unreachable");
    assert_eq!(transition_line(100, node, true), "100,2,Amit,h2,reachable");
}

#[test]
fn probes_are_answered_with_their_nonce() {
    let probe = Probe::new(400, 10 * MS);
    let ping = probe.ping();
    assert_eq!(ping, HealthMsg::Ping { nonce: probe.nonce });
    let pong = answer_probe(ping, 2, Role::Leader, 6).unwrap();
    assert_eq!(pong, HealthMsg::Pong { node_id: 2, nonce: probe.nonce, role: 2, term: 6 });
    assert_eq!(probe.receive(pong), Some((2, 6)));
    assert_eq!(answer_probe(pong, 2, Role::Leader, 6), None);
    assert_eq!(probe.receive(ping), None);
    let stale =
        HealthMsg::Pong { node_id: 2, nonce: probe.nonce.wrapping_add(1), role: 0, term: 0 };
    assert_eq!(probe.receive(stale), None);
    assert_eq!(probe.remaining(10 * MS), Some(400 * MS));
    assert_eq!(probe.remaining(409 * MS), Some(MS));
    assert_eq!(probe.remaining(410 * MS), None);
}

#[test]
fn nonces_differ() {
    let nonces: std::collections::HashSet<u64> =
        (0..50).map(|_| Probe::new(1, 0).nonce).collect();
    assert!(nonces.len() > 1);
}

#[test]
fn probes_are_repeated_as_configured() {
    assert!(probes_again(1, 1));
    assert!(!probes_again(2, 1));
    assert!(!probes_again(1, 0));
}

#[test]
fn numbers_stand_for_roles() {
    for role in [Role::Follower, Role::Candidate, Role::Leader] {
        assert_eq!(Role::from_u8(role.as_u8()), role);
    }
    assert_eq!(Role::from_u8(9), Role::Follower);
}

#[test]
fn lines_that_are_shown() {
    let config = config();
    assert_eq!(watched(&config), "Nitin (h1:6101), Amit (h2:6102), Yousuf (h3:6103)");
    assert_eq!(leader_line(&config, Some(2)), "leader is now Amit (h2)");
    assert_eq!(leader_line(&config, Some(7)), "leader is now node 7");
    assert_eq!(leader_label(&config, None), "none");
    assert_eq!(status_line(&config, Some(1)), "all 3 nodes reachable, leader=Nitin (h1)");
    assert_eq!(
        conflict_line(&config, &vec![report(1, 2, 4), report(3, 2, 5)]),
        "WARNING: several nodes report LEADER: Nitin (h1) (term 4), Yousuf (h3) (term 5)"
    );
    assert_eq!(stamped(99, "x"), "99,x");
}

fn report(node_id: u8, role: u8, term: u64) -> Report {
    Report { node_id, reachable: true, role, term }
}

#[test]
fn highest_term_is_believed() {
    let mut board = LeaderBoard::new();
    let news = board.round(&vec![report(1, 2, 4), report(2, 0, 4), report(3, 0, 4)], 0);
    assert!(news.leader_changed && news.conflict.is_none() && news.all_well);
    assert_eq!(board.believed, Some(1));
    let news = board.round(&vec![report(1, 2, 4), report(2, 2, 5), report(3, 0, 5)], 1_000 * MS);
    assert!(news.leader_changed && !news.all_well);
    assert_eq!(
        news.conflict.unwrap().iter().map(|r| (r.node_id, r.term)).collect::<Vec<_>>(),
        vec![(1, 4), (2, 5)]
    );
    assert_eq!(board.believed, Some(2));
    let down = Report { node_id: 2, reachable: false, role: 2, term: 9 };
    let news = board.round(&vec![report(1, 0, 5), down, report(3, 0, 5)], 20_000 * MS);
    assert!(news.leader_changed && !news.all_well);
    assert_eq!(board.believed, None);
    let well = vec![report(1, 0, 5)];
    assert!(!board.round(&well, 14_999 * MS).all_well);
    assert!(board.round(&well, 15_000 * MS).all_well);
    assert!(!board.round(&vec![], 90_000 * MS).all_well);
}
