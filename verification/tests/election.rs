use oms::auth::{cluster_key, ClusterKey};
use oms::environment::{Environment, Fixed};
use oms::process::config::{load_from_env, ClusterConfig};
use oms::process::leader_election::{
    Handled, LeaderElection, MonitoringStep, Output, Proposal, ProposalStep, UNMONITORED,
};
use oms::process::frames::write_framed_entry;
use oms::process::log_entry::{LogEntry, ReplicatedCommand};
use oms::process::message::{decode_message, encode_message, Message};
use oms::process::packets::{message_frame, open_packet, open_replay_packet, Packet, ReplayWork};
use oms::process::raft_model::Role;
use oms::process::results::{result_frame, PublishStep, ResultPublisher};
use oms::process::wal::{AppendStep, Wal};
use oms::process::witness_client::{
    AttemptStep, CachedVerdict, CorroborationOutcome, Verdict, WitnessClient,
};
use oms::replay::request_frame;
use oms::wire::encode_command;

const MS: u128 = 1_000_000;

fn env(extra: &[(&str, &str)]) -> Environment {
    let mut vars: Vec<(String, String)> =
        extra.iter().map(|(k, v)| (k.to_string(), v.to_string())).collect();
    for (k, v) in [
        ("NODE1_HOST", "10.0.0.1"),
        ("NODE2_HOST", "10.0.0.2"),
        ("NODE3_HOST", "10.0.0.3"),
        ("S3_HOST", "10.0.0.9"),
        ("S1_HOST", "10.0.0.8"),
        ("CLUSTER_HMAC_KEY", "000102030405060708090a0b0c0d0e0f101112131415161718191a1b1c1d1e1f"),
    ] {
        vars.push((k.to_string(), v.to_string()));
    }
    Environment { vars }
}

fn config(extra: &[(&str, &str)]) -> ClusterConfig {
    load_from_env(&env(extra)).unwrap()
}

fn key() -> ClusterKey {
    cluster_key(&mut Fixed::new(), &env(&[])).unwrap().clone()
}

fn command(order_id: u64) -> ReplicatedCommand {
    ReplicatedCommand {
        order_id,
        symbol: "ETH-USDT".to_string(),
        side: "SELL".to_string(),
        qty: 3,
        status: "FILLED".to_string(),
        filled_qty: 3,
        processed_by: "Nitin (S2-1)".to_string(),
        term: 1,
    }
}

fn node_with(id: u8, extra: &[(&str, &str)], file: &[u8], timeout_ms: u64) -> LeaderElection {
    let config = config(extra);
    let witness = WitnessClient::new(
        config.monitoring_host.is_some(),
        true,
        config.monitoring_timeout_ms,
        config.monitoring_retry_interval_ms,
        0,
    );
    LeaderElection::start_with(config, id, Wal::load_entries(file), witness, 0, timeout_ms).unwrap()
}

fn node(id: u8) -> LeaderElection {
    node_with(id, &[], &[], 150 + id as u64)
}

/// Takes over what an append request brings, as if every write succeeded.
fn finish(e: &mut LeaderElection, handled: Handled) -> Vec<Output> {
    let mut out = handled.outputs;
    if let Some(mut work) = handled.append {
        if let Some(progress) = work.progress.as_mut() {
            loop {
                match e.append_step(progress) {
                    AppendStep::Write { .. } => e.append_written(progress),
                    AppendStep::Rewrite { .. } => e.append_rewritten(progress),
                    AppendStep::Done => break,
                }
            }
        }
        out.extend(e.finish_append(work, true));
    }
    out
}

fn deliver(e: &mut LeaderElection, now: u128, message: Message) -> Vec<Output> {
    assert!(e.can_handle(&message));
    let handled = e.handle_message_with(now, 200, message);
    finish(e, handled)
}

/// Passes messages between the nodes until none is left. Nodes in `down` are cut
/// off.
fn run(nodes: &mut [LeaderElection], from: u8, out: Vec<Output>, now: u128, down: &[u8]) {
    let key = key();
    let mut queue: Vec<(u8, Output)> = out.into_iter().map(|o| (from, o)).collect();
    while !queue.is_empty() {
        let (sender, output) = queue.remove(0);
        if let Output::Send { to, message } = output {
            if down.contains(&to) || down.contains(&sender) {
                continue;
            }
            let frame = message_frame(&message, &key);
            let Packet::Message(message) = open_packet(true, &frame, &key) else {
                panic!("a signed message is opened");
            };
            let more = deliver(&mut nodes[to as usize - 1], now, message);
            queue.extend(more.into_iter().map(|o| (to, o)));
        }
    }
}

fn lines(out: &[Output]) -> Vec<String> {
    out.iter()
        .filter_map(|o| match o {
            Output::Announce { line } => Some(line.clone()),
            _ => None,
        })
        .collect()
}

fn cluster() -> Vec<LeaderElection> {
    vec![node(1), node(2), node(3)]
}

/// A cluster that node 1 leads in term 1.
fn led_cluster() -> Vec<LeaderElection> {
    let mut nodes = cluster();
    let out = nodes[0].tick_with(200 * MS, 160);
    run(&mut nodes, 1, out, 200 * MS, &[]);
    nodes
}

fn propose(nodes: &mut [LeaderElection], ids: &[u64], now: u128, down: &[u8]) -> Proposal {
    let commands = ids.iter().map(|id| command(*id)).collect();
    let batch = nodes[0].propose_batch(commands).unwrap();
    let (out, proposal) = nodes[0].batch_written(now, batch);
    run(nodes, 1, out, now, down);
    proposal
}

#[test]
fn unknown_node_does_not_start() {
    let config = config(&[]);
    let witness = WitnessClient::new(false, false, 1500, 2000, 0);
    assert!(LeaderElection::start(config, 7, Wal::load_entries(&[]), witness, 0).is_none());
}

#[test]
fn started_replica_follows_and_says_so() {
    let e = node(2);
    assert_eq!(e.role(), Role::Follower);
    assert_eq!(e.role().as_u8(), 0);
    assert_eq!(Role::Candidate.as_u8(), 1);
    assert_eq!(Role::Leader.as_u8(), 2);
    assert_eq!((e.current_term(), e.current_leader_id(), e.is_leader()), (0, None, false));
    assert_eq!((e.commit_index(), e.last_applied()), (0, 0));
    assert_eq!(
        e.startup_lines(),
        vec!["Amit started as FOLLOWER (waiting for leader)".to_string(), UNMONITORED.to_string()]
    );
    let monitored = node_with(2, &[("monitoring_HOST", "10.0.0.7")], &[], 200);
    assert_eq!(monitored.startup_lines().len(), 1);
    assert_eq!(
        e.role_summary(0),
        "Nitin is not available; Amit is FOLLOWER; Yousuf is not available"
    );
}

#[test]
fn election_stays_within_its_timeout() {
    for _ in 0..50 {
        let config = config(&[]);
        let witness = WitnessClient::new(false, false, 1500, 2000, 0);
        let mut e =
            LeaderElection::start(config, 1, Wal::load_entries(&[]), witness, 0).unwrap();
        e.tick(149 * MS);
        assert_eq!(e.role(), Role::Follower);
        e.tick(301 * MS);
        assert_eq!(e.role(), Role::Candidate);
        assert_eq!(e.current_term(), 1);
    }
}

#[test]
fn majority_elects_a_leader() {
    let nodes = led_cluster();
    assert!(nodes[0].is_leader());
    for n in &nodes {
        assert_eq!((n.current_term(), n.current_leader_id()), (1, Some(1)));
    }
    assert_eq!(nodes.iter().filter(|n| n.is_leader()).count(), 1);
    assert_eq!(
        nodes[0].role_summary(200 * MS),
        "Nitin is LEADER; Amit is FOLLOWER; Yousuf is FOLLOWER"
    );
}

#[test]
fn candidate_asks_its_peers_for_their_votes() {
    let mut e = node(3);
    let out = e.tick_with(200 * MS, 170);
    let asked: Vec<u8> = out
        .iter()
        .filter_map(|o| match o {
            Output::Send {
                to,
                message:
                    Message::RequestVote { term: 1, candidate_id: 3, last_log_index: 0, last_log_term: 0 },
            } => Some(*to),
            _ => None,
        })
        .collect();
    assert_eq!(asked, vec![1, 2]);
    assert_eq!(e.tick_pause_ms(), 50);
}

#[test]
fn one_vote_per_term() {
    let mut e = node(1);
    let ask = |candidate_id| Message::RequestVote {
        term: 4,
        candidate_id,
        last_log_index: 0,
        last_log_term: 0,
    };
    let out = deliver(&mut e, 10 * MS, ask(2));
    assert!(matches!(
        out[0],
        Output::Send { to: 2, message: Message::VoteGranted { term: 4, voter_id: 1 } }
    ));
    assert!(deliver(&mut e, 11 * MS, ask(3)).is_empty());
    assert_eq!(deliver(&mut e, 12 * MS, ask(2)).len(), 1);
}

#[test]
fn candidate_with_a_lagging_log_gets_no_vote() {
    let entry = LogEntry { index: 1, term: 2, command: command(1) };
    let file = oms::process::frames::framed(&vec![entry]);
    let mut e = node_with(1, &[], &file, 200);
    let out = deliver(
        &mut e,
        MS,
        Message::RequestVote { term: 3, candidate_id: 2, last_log_index: 5, last_log_term: 1 },
    );
    assert!(out.is_empty());
    assert_eq!(e.current_term(), 3);
}

#[test]
fn batch_is_committed_once_a_majority_holds_it() {
    let mut nodes = led_cluster();
    let proposal = propose(&mut nodes, &[11, 12], 210 * MS, &[3]);
    assert_eq!(nodes[0].commit_index(), 2);
    assert_eq!(nodes[1].log().len(), 2);
    assert_eq!(nodes[2].log().len(), 0);
    match nodes[0].poll_batch(211 * MS, &proposal) {
        ProposalStep::Committed { commands } => {
            assert_eq!(commands.iter().map(|c| c.order_id).collect::<Vec<_>>(), vec![11, 12]);
        }
        _ => panic!("a majority holds the batch"),
    }
    let out = nodes[0].tick_with(260 * MS, 160);
    run(&mut nodes, 1, out, 260 * MS, &[]);
    for n in &nodes {
        assert_eq!((n.commit_index(), n.last_applied(), n.log().last_index()), (2, 2, 2));
    }
}

#[test]
fn leader_alone_commits_nothing() {
    let mut nodes = led_cluster();
    let proposal = propose(&mut nodes, &[11], 210 * MS, &[2, 3]);
    assert_eq!(nodes[0].commit_index(), 0);
    match nodes[0].poll_batch(211 * MS, &proposal) {
        ProposalStep::Pending { outputs } => assert_eq!(outputs.len(), 2),
        _ => panic!("nothing is committed yet"),
    }
    assert!(matches!(nodes[0].poll_batch(210 * MS + 1500 * MS, &proposal), ProposalStep::Expired));
}

#[test]
fn single_command_is_proposed_and_committed() {
    let mut nodes = led_cluster();
    let (entry, bytes) = nodes[0].propose_command(command(5)).unwrap();
    assert_eq!((entry.index, entry.term), (1, 1));
    assert_eq!(oms::process::frames::read_framed_entries(&bytes).len(), 1);
    let (out, proposal) = nodes[0].command_written(205 * MS, entry);
    assert!(matches!(
        nodes[0].poll_command(206 * MS, &proposal),
        ProposalStep::Pending { .. }
    ));
    run(&mut nodes, 1, out, 206 * MS, &[]);
    assert!(matches!(
        nodes[0].poll_command(207 * MS, &proposal),
        ProposalStep::Committed { .. }
    ));
}

#[test]
fn followers_take_no_proposals() {
    let nodes = led_cluster();
    assert!(nodes[1].propose_batch(vec![command(1)]).is_none());
    assert!(nodes[1].propose_command(command(1)).is_none());
    assert!(nodes[0].propose_batch(vec![]).is_none());
}

#[test]
fn higher_term_append_fences_a_leader() {
    let mut nodes = led_cluster();
    let proposal = propose(&mut nodes, &[1], 205 * MS, &[2, 3]);
    let out = deliver(
        &mut nodes[0],
        210 * MS,
        Message::AppendEntries {
            term: 5,
            leader_id: 2,
            prev_log_index: 0,
            prev_log_term: 0,
            entries: vec![],
            leader_commit: 0,
        },
    );
    assert!(!nodes[0].is_leader());
    assert_eq!((nodes[0].current_term(), nodes[0].current_leader_id()), (5, Some(2)));
    assert!(!lines(&out).is_empty());
    assert!(out.iter().any(|o| matches!(
        o,
        Output::Send {
            to: 2,
            message: Message::AppendAck { term: 5, follower_id: 1, success: true, match_index: 0 }
        }
    )));
    assert!(matches!(nodes[0].poll_batch(220 * MS, &proposal), ProposalStep::Lost));
}

#[test]
fn stale_candidate_does_not_displace_a_leader() {
    let mut nodes = led_cluster();
    propose(&mut nodes, &[1], 205 * MS, &[]);
    let out = deliver(
        &mut nodes[0],
        210 * MS,
        Message::RequestVote { term: 9, candidate_id: 3, last_log_index: 0, last_log_term: 0 },
    );
    assert!(nodes[0].is_leader());
    assert_eq!(nodes[0].current_term(), 9);
    assert!(out.is_empty());
}

#[test]
fn append_request_of_an_old_term_is_ignored() {
    let mut e = node(2);
    deliver(&mut e, MS, Message::VoteGranted { term: 6, voter_id: 1 });
    assert_eq!(e.current_term(), 6);
    let handled = e.handle_message(
        2 * MS,
        Message::AppendEntries {
            term: 5,
            leader_id: 1,
            prev_log_index: 0,
            prev_log_term: 0,
            entries: vec![],
            leader_commit: 0,
        },
    );
    assert!(handled.append.is_none());
    assert_eq!(e.current_leader_id(), None);
}

#[test]
fn append_request_behind_a_gap_is_rejected_with_the_last_index() {
    let mut e = node(2);
    let out = deliver(
        &mut e,
        MS,
        Message::AppendEntries {
            term: 1,
            leader_id: 1,
            prev_log_index: 4,
            prev_log_term: 1,
            entries: vec![],
            leader_commit: 4,
        },
    );
    assert!(out.iter().any(|o| matches!(
        o,
        Output::Send {
            to: 1,
            message: Message::AppendAck { success: false, match_index: 0, .. }
        }
    )));
    assert_eq!(e.commit_index(), 0);
}

#[test]
fn lagging_follower_catches_up() {
    let mut nodes = led_cluster();
    propose(&mut nodes, &(1..=40).collect::<Vec<u64>>(), 205 * MS, &[3]);
    propose(&mut nodes, &(41..=45).collect::<Vec<u64>>(), 206 * MS, &[3]);
    for step in 0..20u128 {
        let now = (260 + 60 * step) * MS;
        let out = nodes[0].tick_with(now, 160);
        run(&mut nodes, 1, out, now, &[]);
    }
    assert_eq!(nodes[2].log().last_index(), 45);
    assert_eq!(nodes[2].last_applied(), 45);
    assert_eq!(nodes[2].log().highest_order_id(), 45);
}

#[test]
fn isolated_replica_stays_passive_until_corroborated() {
    let mut e = node_with(1, &[("monitoring_HOST", "10.0.0.7")], &[], 200);
    let late = 2_500 * MS;
    e.tick_with(late, 200);
    assert_eq!(e.role(), Role::Candidate);
    assert!(e.looks_isolated(late));
    assert!(!e.peers_unreachable(late));
    assert_eq!(e.quorum_for(late), 2);
    let MonitoringStep::Ask { mut attempt } = e.monitoring_step_as(77, late) else {
        panic!("an isolated replica asks");
    };
    assert_eq!((attempt.request_id, attempt.requester_id, attempt.term), (77, 1, 1));
    assert!(matches!(attempt.step(late), AttemptStep::Wait { resend: false, .. }));
    assert!(attempt.receive(76, Verdict::SafeToPromote).is_none());
    assert_eq!(
        attempt.receive(77, Verdict::PeersStillUp),
        Some(CorroborationOutcome::DeniedByWitness)
    );
    assert_eq!(
        e.monitoring_done(CorroborationOutcome::DeniedByWitness, late).unwrap(),
        "corroboration denied: monitoring reports a peer still reachable — Nitin staying passive"
    );
    assert!(e.monitoring_done(CorroborationOutcome::DeniedByWitness, late).is_none());
    assert!(!e.peers_unreachable(late));
    assert!(matches!(e.monitoring_step_as(78, late + MS), MonitoringStep::Nothing));

    let outcome = attempt.receive(77, Verdict::SafeToPromote).unwrap();
    assert_eq!(
        e.monitoring_done(outcome, late).unwrap(),
        "corroboration confirmed both peers unreachable — Nitin eligible to self-promote"
    );
    assert!(e.peers_unreachable(late));
    assert_eq!(e.quorum_for(late), 1);
    let out = e.tick_with(late + 300 * MS, 200);
    assert!(e.is_leader());
    assert_eq!(
        lines(&out),
        vec![
            "Nitin is LEADER (single-node: other machines unreachable, monitoring-corroborated)"
                .to_string()
        ]
    );
    let planned = e.propose_batch(vec![command(1)]).unwrap();
    e.batch_written(late + 310 * MS, planned);
    assert_eq!(e.commit_index(), 1);
}

#[test]
fn replica_without_monitoring_is_told_so() {
    let mut e = node(1);
    let late = 2_500 * MS;
    assert!(matches!(e.monitoring_step(late), MonitoringStep::NotConfigured));
    assert_eq!(
        e.monitoring_done(CorroborationOutcome::NotConfigured, late).unwrap(),
        "no monitoring configured — Nitin staying passive (REQUIRE_monitoring_FOR_SINGLE_NODE_LEADER=true)"
    );
    assert_eq!(
        e.monitoring_done(CorroborationOutcome::WitnessUnreachable, late).unwrap(),
        "monitoring unreachable after 1500ms — Nitin staying passive"
    );
}

#[test]
fn contact_ends_the_isolation_and_the_confirmation() {
    let mut e = node_with(1, &[("monitoring_HOST", "10.0.0.7")], &[], 200);
    let late = 2_500 * MS;
    e.monitoring_done(CorroborationOutcome::SafeToPromote, late);
    assert!(e.peers_unreachable(late));
    deliver(&mut e, late, Message::VoteGranted { term: 0, voter_id: 2 });
    assert!(!e.looks_isolated(late));
    assert!(matches!(e.monitoring_step_as(5, late), MonitoringStep::Nothing));
    let later = late + 2_100 * MS;
    assert!(e.looks_isolated(later));
    assert!(!e.peers_unreachable(later));
}

#[test]
fn attempt_repeats_its_question_once_and_gives_up() {
    let client = WitnessClient::new(true, true, 1500, 2000, 0);
    let mut attempt = client.start_attempt_as(9, 1, 3, 0).unwrap();
    assert_eq!(
        attempt.step(0),
        AttemptStep::Wait { resend: false, wait_ns: 200 * MS }
    );
    let resends: Vec<bool> = (1..7u128)
        .map(|n| match attempt.step(n * 200 * MS) {
            AttemptStep::Wait { resend, .. } => resend,
            AttemptStep::GiveUp => panic!("time is not up"),
        })
        .collect();
    assert_eq!(resends.iter().filter(|r| **r).count(), 1);
    assert_eq!(attempt.step(1500 * MS), AttemptStep::GiveUp);
    assert!(WitnessClient::new(false, true, 1500, 2000, 0).start_attempt(1, 1, 0).is_none());
    assert!(WitnessClient::new(true, false, 1500, 2000, 0).start_attempt(1, 1, 0).is_none());
}

#[test]
fn only_a_confirmation_allows_to_act() {
    let mut client = WitnessClient::new(true, true, 1500, 2000, 0);
    assert!(client.is_configured());
    assert_eq!(client.cached_verdict(), CachedVerdict::Unknown);
    assert!(client.due_for_attempt(0));
    for (outcome, verdict) in [
        (CorroborationOutcome::NotConfigured, CachedVerdict::StayPassive),
        (CorroborationOutcome::SafeToPromote, CachedVerdict::SafeToPromote),
        (CorroborationOutcome::DeniedByWitness, CachedVerdict::StayPassive),
        (CorroborationOutcome::WitnessUnreachable, CachedVerdict::StayPassive),
    ] {
        let (given, changed) = client.attempt_corroboration(outcome, 10 * MS);
        assert_eq!((given, changed), (outcome, true));
        assert_eq!(client.cached_verdict(), verdict);
    }
    assert!(!client.due_for_attempt(2_009 * MS));
    assert!(client.due_for_attempt(2_010 * MS));
    client.reset_if_not_isolated();
    assert_eq!(client.cached_verdict(), CachedVerdict::Unknown);
}

#[test]
fn availability_follows_contact() {
    let mut e = node(1);
    assert!(!e.peer_is_available(2, 0));
    assert_eq!(e.alive_node_count(0), 1);
    deliver(&mut e, 10 * MS, Message::VoteGranted { term: 0, voter_id: 2 });
    assert!(e.peer_is_available(2, 10 * MS));
    assert_eq!(e.alive_node_count(10 * MS), 2);
    assert!(!e.peer_is_available(2, 2_010 * MS));
    assert!(!e.has_quorum_lease(10 * MS));
}

#[test]
fn messages_round_trip() {
    let entry = LogEntry { index: 3, term: 2, command: command(8) };
    let messages = vec![
        Message::RequestVote { term: 1, candidate_id: 2, last_log_index: 3, last_log_term: 4 },
        Message::VoteGranted { term: 5, voter_id: 3 },
        Message::AppendEntries {
            term: 6,
            leader_id: 1,
            prev_log_index: 2,
            prev_log_term: 2,
            entries: vec![entry.clone(), entry],
            leader_commit: 1,
        },
        Message::AppendAck { term: 7, follower_id: 2, success: true, match_index: 9 },
    ];
    for m in &messages {
        let bytes = encode_message(m);
        let back = decode_message(&bytes).unwrap();
        assert_eq!(format!("{m:?}"), format!("{back:?}"));
        assert!(decode_message(&bytes[..bytes.len() - 1]).is_none());
        assert_eq!((back.term(), back.sender()), (m.term(), m.sender()));
    }
    assert_eq!(
        encode_message(&messages[1]),
        vec![1, 0, 0, 0, 5, 0, 0, 0, 0, 0, 0, 0, 3]
    );
    assert_eq!(
        encode_message(&messages[3]),
        vec![3, 0, 0, 0, 7, 0, 0, 0, 0, 0, 0, 0, 2, 1, 9, 0, 0, 0, 0, 0, 0, 0]
    );
    assert_eq!(encode_message(&messages[0]).len(), 4 + 8 + 1 + 8 + 8);
    assert!(decode_message(&[4, 0, 0, 0]).is_none());
    assert!(decode_message(&[]).is_none());
}

#[test]
fn packets_are_opened_only_from_known_sources_with_a_right_tag() {
    let key = key();
    let message = Message::VoteGranted { term: 5, voter_id: 3 };
    let frame = message_frame(&message, &key);
    assert!(matches!(
        open_packet(true, &frame, &key),
        Packet::Message(Message::VoteGranted { term: 5, voter_id: 3 })
    ));
    assert!(matches!(open_packet(false, &frame, &key), Packet::UnknownSource));
    assert!(matches!(open_packet(true, &frame[..20], &key), Packet::BadTag));
    let other = oms::auth::sign(b"no message", &key);
    assert!(matches!(open_packet(true, &other, &key), Packet::NoMessage));
}

#[test]
fn only_the_leader_serves_replay_requests() {
    let key = key();
    let frame = request_frame(0, &vec![(3, 9), (12, u64::MAX)], &key);
    match open_replay_packet(&frame, &key, true) {
        ReplayWork::Publish { ranges } => assert_eq!(ranges, vec![(3, 9), (12, u64::MAX)]),
        other => panic!("{other:?}"),
    }
    assert!(matches!(open_replay_packet(&frame, &key, false), ReplayWork::Nothing));
    assert!(matches!(open_replay_packet(&frame[1..], &key, true), ReplayWork::BadTag));
    let other = oms::auth::sign(b"x", &key);
    assert!(matches!(open_replay_packet(&other, &key, true), ReplayWork::Nothing));
}

#[test]
fn leader_publishes_applied_results_in_order() {
    let key = key();
    let mut nodes = led_cluster();
    let mut publisher = ResultPublisher::new();
    assert!(matches!(publisher.step(&nodes[0], None, &key), PublishStep::Wait { pause_ms: 1 }));
    propose(&mut nodes, &[21, 22], 205 * MS, &[]);
    for id in [21, 22] {
        match publisher.step(&nodes[0], None, &key) {
            PublishStep::Publish { frame } => assert_eq!(frame, result_frame(&command(id), &key)),
            _ => panic!("an applied result is published"),
        }
    }
    assert!(matches!(publisher.step(&nodes[0], None, &key), PublishStep::Wait { .. }));
    match publisher.step(&nodes[0], Some((22, 40)), &key) {
        PublishStep::Replay { frames } => assert_eq!(frames, vec![result_frame(&command(22), &key)]),
        _ => panic!("a leader answers a replay request"),
    }
    assert_eq!(publisher.last_published, 2);
}

#[test]
fn replay_leaves_out_what_is_not_applied() {
    let key = key();
    let mut nodes = led_cluster();
    propose(&mut nodes, &[21], 205 * MS, &[]);
    propose(&mut nodes, &[22], 206 * MS, &[2, 3]);
    assert_eq!((nodes[0].last_applied(), nodes[0].log().last_index()), (1, 2));
    let mut publisher = ResultPublisher::new();
    match publisher.step(&nodes[0], Some((1, 99)), &key) {
        PublishStep::Replay { frames } => assert_eq!(frames, vec![result_frame(&command(21), &key)]),
        _ => panic!("a leader answers a replay request"),
    }
}

#[test]
fn candidates_and_leaders_vote_for_no_other() {
    let ask = |term| Message::RequestVote {
        term,
        candidate_id: 3,
        last_log_index: 9,
        last_log_term: 9,
    };
    let votes = |out: Vec<Output>| {
        out.iter()
            .filter(|o| matches!(o, Output::Send { message: Message::VoteGranted { .. }, .. }))
            .count()
    };
    let mut candidate = node(1);
    candidate.tick_with(200 * MS, 160);
    assert_eq!((candidate.role(), candidate.current_term()), (Role::Candidate, 1));
    assert_eq!(votes(deliver(&mut candidate, 201 * MS, ask(1))), 0);
    assert_eq!(votes(deliver(&mut candidate, 202 * MS, ask(2))), 1);

    let mut nodes = led_cluster();
    let term = nodes[0].current_term();
    assert_eq!(votes(deliver(&mut nodes[0], 201 * MS, ask(term))), 0);
    assert!(nodes[0].is_leader());
}

#[test]
fn waiting_batch_is_driven_though_the_lead_is_lost() {
    let alone =
        [("PEER_SILENT_MS", "100"), ("REQUIRE_monitoring_FOR_SINGLE_NODE_LEADER", "false")];
    let mut nodes: Vec<LeaderElection> =
        (1..=3).map(|id| node_with(id, &alone, &[], 150 + id as u64)).collect();
    let out = nodes[0].tick_with(200 * MS, 160);
    run(&mut nodes, 1, out, 200 * MS, &[]);
    assert!(nodes[0].is_leader());
    let proposal = propose(&mut nodes, &[1], 205 * MS, &[2, 3]);
    deliver(
        &mut nodes[0],
        210 * MS,
        Message::AppendEntries {
            term: 5,
            leader_id: 2,
            prev_log_index: 0,
            prev_log_term: 0,
            entries: vec![],
            leader_commit: 0,
        },
    );
    assert!(!nodes[0].is_leader());
    assert!(matches!(nodes[0].poll_batch(220 * MS, &proposal), ProposalStep::Lost));
    assert_eq!(nodes[0].commit_index(), 0);
    assert!(matches!(nodes[0].poll_batch(400 * MS, &proposal), ProposalStep::Lost));
    assert_eq!((nodes[0].commit_index(), nodes[0].last_applied()), (1, 1));
}

#[test]
fn stale_tail_is_not_acknowledged() {
    let mut file = Vec::new();
    for (index, term) in [(1, 1), (2, 1)] {
        write_framed_entry(&mut file, &LogEntry { index, term, command: command(index) });
    }
    let mut follower = node_with(2, &[], &file, 152);
    let out = deliver(
        &mut follower,
        10 * MS,
        Message::AppendEntries {
            term: 2,
            leader_id: 1,
            prev_log_index: 1,
            prev_log_term: 1,
            entries: vec![],
            leader_commit: 2,
        },
    );
    assert_eq!((follower.commit_index(), follower.last_applied()), (1, 1));
    assert_eq!(follower.log().last_index(), 2);
    assert!(out.iter().any(|o| matches!(
        o,
        Output::Send {
            to: 1,
            message: Message::AppendAck { term: 2, follower_id: 2, success: true, match_index: 1 }
        }
    )));
}

#[test]
fn new_leader_does_not_commit_over_a_stale_tail() {
    let entry = |index, term| LogEntry { index, term, command: command(index) };
    let mut short = Vec::new();
    write_framed_entry(&mut short, &entry(1, 1));
    let mut long = short.clone();
    write_framed_entry(&mut long, &entry(2, 1));
    let mut nodes =
        vec![node_with(1, &[], &short, 151), node_with(2, &[], &long, 152), node_with(3, &[], &short, 153)];
    nodes[0].tick_with(200 * MS, 160);
    let out = nodes[0].tick_with(400 * MS, 160);
    run(&mut nodes, 1, out, 400 * MS, &[2]);
    assert_eq!((nodes[0].is_leader(), nodes[0].current_term()), (true, 2));
    let out = nodes[0].tick_with(410 * MS, 160);
    run(&mut nodes, 1, out, 410 * MS, &[3]);
    assert_eq!(nodes[1].log().get_term_at(2), Some(1));
    propose(&mut nodes, &[7], 411 * MS, &[2, 3]);
    assert_eq!((nodes[0].commit_index(), nodes[0].log().last_index()), (0, 2));
    let out = nodes[0].tick_with(420 * MS, 160);
    run(&mut nodes, 1, out, 420 * MS, &[3]);
    assert_eq!((nodes[0].commit_index(), nodes[0].last_applied()), (2, 2));
    assert_eq!(nodes[1].log().get_term_at(2), Some(2));
}

#[test]
fn follower_publishes_nothing_but_keeps_up() {
    let key = key();
    let mut nodes = led_cluster();
    propose(&mut nodes, &[21, 22], 205 * MS, &[]);
    let out = nodes[0].tick_with(260 * MS, 160);
    run(&mut nodes, 1, out, 260 * MS, &[]);
    let mut publisher = ResultPublisher::new();
    assert!(matches!(
        publisher.step(&nodes[1], Some((1, 99)), &key),
        PublishStep::StandBy { pause_ms: 5 }
    ));
    assert_eq!(publisher.last_published, 2);
}

#[test]
fn result_frame_holds_the_binary_command() {
    let key = key();
    let frame = result_frame(&command(7), &key);
    let encoded = encode_command(&command(7));
    assert_eq!(frame[4..4 + encoded.len()], encoded[..]);
    assert_eq!(frame.len(), 4 + encoded.len() + 32);
}

#[test]
fn counters_at_their_end_are_refused() {
    let mut e = node(1);
    assert!(e.can_tick());
    deliver(&mut e, MS, Message::VoteGranted { term: u64::MAX, voter_id: 2 });
    assert!(!e.can_tick());
}

#[test]
fn failover_keeps_what_a_majority_holds() {
    let mut nodes = led_cluster();
    propose(&mut nodes, &[31, 32, 33], 210 * MS, &[3]);
    assert_eq!(nodes[0].commit_index(), 3);

    // node 1 is gone; node 3, which lacks the entries, cannot win
    let now = 600 * MS;
    let out = nodes[2].tick_with(now, 170);
    run(&mut nodes, 3, out, now, &[1]);
    assert_eq!(nodes[2].role(), Role::Candidate);

    // node 2, which has them, can
    let now = 1_000 * MS;
    let out = nodes[1].tick_with(now, 170);
    run(&mut nodes, 2, out, now, &[1]);
    assert!(nodes[1].is_leader());
    let ids: Vec<u64> =
        nodes[1].log().entries_from(1).iter().map(|e| e.command.order_id).collect();
    assert_eq!(ids, vec![31, 32, 33]);

    // and brings node 3 up to date
    for step in 0..5u128 {
        let now = (1_060 + 60 * step) * MS;
        let out = nodes[1].tick_with(now, 160);
        run(&mut nodes, 2, out, now, &[1]);
    }
    assert_eq!(nodes[2].log().last_index(), 3);
    for index in 1..=3 {
        assert_eq!(nodes[1].log().get_term_at(index), nodes[2].log().get_term_at(index));
    }
}

#[test]
fn strict_mode_takes_a_majority() {
    let strict = [("ALLOW_SINGLE_NODE_LEADER", "false"), ("monitoring_HOST", "10.0.0.7")];
    let mut e = node_with(1, &strict, &[], 200);
    let late = 9_000 * MS;
    e.monitoring_done(CorroborationOutcome::SafeToPromote, late);
    assert!(e.looks_isolated(late));
    assert!(!e.peers_unreachable(late));
    assert_eq!(e.quorum_for(late), 2);
    for step in 0..5u128 {
        e.tick_with(late + 400 * MS * step, 200);
        assert!(!e.is_leader());
    }
}

#[test]
fn waived_confirmation_lets_a_lone_replica_lead() {
    let waived = [("REQUIRE_monitoring_FOR_SINGLE_NODE_LEADER", "false")];
    let mut e = node_with(1, &waived, &[], 200);
    assert!(!e.peers_unreachable(1_999 * MS));
    e.tick_with(2_000 * MS, 200);
    let out = e.tick_with(2_300 * MS, 200);
    assert!(e.is_leader());
    assert_eq!(
        lines(&out),
        vec![
            "Nitin is LEADER (single-node: other machines unreachable, legacy blind timeout)"
                .to_string()
        ]
    );
}

#[test]
fn competing_candidates_do_not_both_win() {
    let mut nodes = cluster();
    let now = 200 * MS;
    let first = nodes[0].tick_with(now, 160);
    let second = nodes[1].tick_with(now, 170);
    run(&mut nodes, 1, first, now, &[]);
    run(&mut nodes, 2, second, now, &[]);
    assert_eq!(nodes.iter().filter(|n| n.is_leader()).count(), 1);
    assert!(nodes[0].is_leader());
    assert!(nodes.iter().all(|n| n.current_term() == 1));
}

#[test]
fn terms_and_commits_never_go_back() {
    let mut nodes = led_cluster();
    propose(&mut nodes, &[1, 2, 3], 210 * MS, &[]);
    let mut last = vec![(0u64, 0u64, 0u64); 3];
    for step in 0..40u128 {
        let now = (260 + 70 * step) * MS;
        let id = (step % 3) as usize;
        let down: Vec<u8> = if step % 7 == 3 { vec![1 + (step % 3) as u8] } else { vec![] };
        let out = nodes[id].tick_with(now, 150 + step as u64);
        run(&mut nodes, id as u8 + 1, out, now, &down);
        if nodes[0].is_leader() {
            propose(&mut nodes, &[100 + step as u64], now + MS, &down);
        }
        for (n, before) in nodes.iter().zip(last.iter_mut()) {
            let state = (n.current_term(), n.commit_index(), n.last_applied());
            assert!(state.0 >= before.0 && state.1 >= before.1 && state.2 >= before.2);
            assert!(state.2 <= state.1);
            *before = state;
        }
    }
    let longest = nodes.iter().map(|n| n.commit_index()).max().unwrap();
    assert!(longest > 3);
    for index in 1..=nodes.iter().map(|n| n.commit_index()).min().unwrap() {
        let terms: Vec<_> = nodes.iter().map(|n| n.log().get_term_at(index)).collect();
        assert!(terms.iter().all(|t| *t == terms[0]));
    }
}
