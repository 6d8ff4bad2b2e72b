use oms::environment::{ConfigError, Environment, Fixed};
use oms::places::{aeron_dir, udp_channel, wal_location, ORDER_STREAM_ID, RESULT_STREAM_ID};
use oms::process::config as cluster;
use oms::process::config::{
    find_node, format_role_summary, local_ipv4_addrs, node_name, own_node, resolve_node_id,
    NodeIdError,
};
use oms::receiver::config as receiver;
use oms::sending::config as sending;
use oms::text::{chars_of, lowers_to, parse_number, push_decimal, same_text, trim, words};
use oms::witness::config as witness;

fn env(vars: &[(&str, &str)]) -> Environment {
    Environment { vars: vars.iter().map(|(k, v)| (k.to_string(), v.to_string())).collect() }
}

const HOSTS: [(&str, &str); 5] = [
    ("NODE1_HOST", "10.0.0.1"),
    ("NODE2_HOST", "10.0.0.2"),
    ("NODE3_HOST", "10.0.0.3"),
    ("S3_HOST", "10.0.0.9"),
    ("S1_HOST", "10.0.0.8"),
];

fn with(extra: &[(&str, &str)]) -> Environment {
    let mut vars = extra.to_vec();
    vars.extend_from_slice(&HOSTS);
    env(&vars)
}

#[test]
fn cluster_defaults() {
    let c = cluster::load_from_env(&with(&[])).unwrap();
    assert_eq!(c.bind_host, "0.0.0.0");
    assert_eq!((c.s3_host.as_str(), c.s3_port), ("10.0.0.9", 8001));
    let nodes: Vec<(u8, &str, &str, u16, u16, u16, u16)> = c
        .nodes
        .iter()
        .map(|n| {
            (
                n.id,
                n.name.as_str(),
                n.host.as_str(),
                n.raft_port,
                n.order_port,
                n.health_port,
                n.replay_port,
            )
        })
        .collect();
    assert_eq!(
        nodes,
        vec![
            (1, "Nitin", "10.0.0.1", 6001, 7001, 6101, 6201),
            (2, "Amit", "10.0.0.2", 6002, 7002, 6102, 6202),
            (3, "Yousuf", "10.0.0.3", 6003, 7003, 6103, 6203),
        ]
    );
    assert_eq!(cluster::heartbeat_interval_ms(&c), 50);
    assert_eq!(cluster::election_timeout_min_ms(&c), 150);
    assert_eq!(cluster::election_timeout_max_ms(&c), 300);
    assert_eq!(cluster::peer_silent_ms(&c), 2000);
    assert!(!cluster::verbose_raft(&c));
    assert!(cluster::allow_single_node_leader(&c));
    assert!(cluster::require_monitoring_for_single_node_leader(&c));
    assert_eq!(cluster::monitoring_host(&c), None);
    assert_eq!(cluster::monitoring_port(&c), 9101);
    assert_eq!(cluster::monitoring_timeout_ms(&c), 1500);
    assert_eq!(cluster::monitoring_retry_interval_ms(&c), 2000);
    assert_eq!(cluster::s1_host(&c), "10.0.0.8");
    assert_eq!(cluster::s1_replay_port(&c), 9001);
    assert_eq!(cluster::health_port(&c, 3), Some(6103));
    assert_eq!(cluster::health_port(&c, 4), None);
    assert_eq!(cluster::s2_nodes(&c).len(), 3);
}

#[test]
fn cluster_settings_are_read() {
    let c = cluster::load_from_env(&with(&[
        ("NODE2_NAME", "Zoe"),
        ("NODE2_RAFT_PORT", "1234"),
        ("HEARTBEAT_INTERVAL_MS", "75"),
        ("VERBOSE_RAFT", "Yes"),
        ("ALLOW_SINGLE_NODE_LEADER", "0"),
        ("monitoring_HOST", "10.0.0.7"),
        ("S3_PORT", "70000"),
    ]))
    .unwrap();
    assert_eq!((c.nodes[1].name.as_str(), c.nodes[1].raft_port), ("Zoe", 1234));
    assert_eq!(c.heartbeat_interval_ms, 75);
    assert!(c.verbose_raft);
    assert!(!c.allow_single_node_leader);
    assert_eq!(c.monitoring_host.as_deref(), Some("10.0.0.7"));
    assert_eq!(c.s3_port, 8001);
}

#[test]
fn first_missing_variable_is_named() {
    let missing = |vars: &[(&str, &str)]| match cluster::load_from_env(&env(vars)) {
        Err(ConfigError::Missing { key }) => key,
        Ok(_) => panic!(),
    };
    assert_eq!(missing(&[]), "NODE1_HOST");
    assert_eq!(missing(&HOSTS[..2]), "NODE3_HOST");
    assert_eq!(missing(&HOSTS[..3]), "S3_HOST");
    assert_eq!(missing(&HOSTS[..4]), "S1_HOST");
    match sending::load_from_env(&with(&[])) {
        Err(ConfigError::Missing { key }) => assert_eq!(key, "BIND_HOST"),
        Ok(_) => panic!(),
    }
    match receiver::load_from_env(&env(&[])) {
        Err(ConfigError::Missing { key }) => assert_eq!(key, "NODE1_HOST"),
        Ok(_) => panic!(),
    }
    match witness::load_from_env(&env(&HOSTS[..1])) {
        Err(ConfigError::Missing { key }) => assert_eq!(key, "NODE2_HOST"),
        Ok(_) => panic!(),
    }
}

#[test]
fn other_services_have_defaults() {
    let s = sending::load_from_env(&with(&[("BIND_HOST", "10.0.0.8")])).unwrap();
    assert_eq!((s.bind_host.as_str(), s.bind_port), ("10.0.0.8", 9001));
    assert_eq!((s.nodes[2].host.as_str(), s.nodes[2].order_port), ("10.0.0.3", 7003));
    let r = receiver::load_from_env(&with(&[("S3_PORT", "8002")])).unwrap();
    assert_eq!((r.bind_host.as_str(), r.bind_port), ("0.0.0.0", 8002));
    assert_eq!(
        r.s2_nodes.iter().map(|n| (n.id, n.replay_port)).collect::<Vec<_>>(),
        vec![(1, 6201), (2, 6202), (3, 6203)]
    );
    let w = witness::load_from_env(&with(&[("WITNESS_PROBE_RETRIES", "256")])).unwrap();
    assert_eq!((w.bind_host.as_str(), w.witness_port), ("0.0.0.0", 9101));
    assert_eq!((w.poll_interval_ms, w.probe_timeout_ms, w.probe_retries), (500, 400, 1));
    assert!(!w.verbose);
    assert_eq!(w.nodes[1].label(), "Amit (10.0.0.2)");
    assert_eq!(
        witness::other_nodes(&w, 2).iter().map(|n| n.id).collect::<Vec<_>>(),
        vec![1, 3]
    );
    assert_eq!(witness::other_nodes(&w, 9).len(), 3);
    assert_eq!(witness::find_node(&w, 3).unwrap().health_port, 6103);
    assert!(witness::find_node(&w, 0).is_none());
}

#[test]
fn names_and_roles() {
    let c = cluster::load_from_env(&with(&[])).unwrap();
    assert_eq!(find_node(&c, 2).unwrap().name, "Amit");
    assert!(find_node(&c, 4).is_none());
    assert_eq!(node_name(&c, 1), "Nitin");
    assert_eq!(node_name(&c, 12), "S2-12");
    assert_eq!(
        format_role_summary(&c, Some(3), &[1, 2]),
        "Nitin is not available; Amit is not available; Yousuf is LEADER"
    );
    assert_eq!(
        format_role_summary(&c, None, &[]),
        "Nitin is FOLLOWER; Amit is FOLLOWER; Yousuf is FOLLOWER"
    );
}

#[test]
fn addresses_of_the_machine() {
    assert_eq!(
        local_ipv4_addrs("10.0.0.2 fe80::1 172.17.0.1\n"),
        vec!["10.0.0.2", "172.17.0.1", "127.0.0.1"]
    );
    assert_eq!(local_ipv4_addrs(""), vec!["127.0.0.1"]);
    assert_eq!(local_ipv4_addrs("127.0.0.1"), vec!["127.0.0.1"]);
}

#[test]
fn node_id_is_given_or_found() {
    let plain = with(&[]);
    let c = cluster::load_from_env(&plain).unwrap();
    assert_eq!(resolve_node_id(&with(&[("NODE_ID", "3")]), &c, "10.0.0.2").unwrap(), 3);
    assert_eq!(resolve_node_id(&plain, &c, "10.0.0.2 172.17.0.1").unwrap(), 2);
    match resolve_node_id(&with(&[("NODE_ID", "three")]), &c, "") {
        Err(NodeIdError::NotANumber { raw }) => assert_eq!(raw, "three"),
        other => panic!("{other:?}"),
    }
    match resolve_node_id(&plain, &c, "10.9.9.9") {
        Err(NodeIdError::NoMatch { locals }) => assert_eq!(locals, vec!["10.9.9.9", "127.0.0.1"]),
        other => panic!("{other:?}"),
    }
    match resolve_node_id(&plain, &c, "10.0.0.1 10.0.0.3") {
        Err(NodeIdError::SeveralMatch { locals }) => assert_eq!(locals.len(), 3),
        other => panic!("{other:?}"),
    }
    assert_eq!(own_node(&c, 2).unwrap().name, "Amit");
    assert!(matches!(own_node(&c, 0), Err(NodeIdError::OutOfRange { id: 0 })));
    assert!(matches!(own_node(&c, 4), Err(NodeIdError::OutOfRange { id: 4 })));
    let mut short = c;
    short.nodes.pop();
    assert!(matches!(own_node(&short, 3), Err(NodeIdError::Unknown { id: 3 })));
}

#[test]
fn places_of_files_and_channels() {
    assert_eq!(udp_channel("10.0.0.2", 7002), "aeron:udp?endpoint=10.0.0.2:7002");
    assert_eq!(aeron_dir(&env(&[]), 1000), "/dev/shm/aeron-1000");
    assert_eq!(aeron_dir(&env(&[("AERON_DIR", "/tmp/a")]), 1000), "/tmp/a");
    assert_eq!(
        wal_location(&env(&[]), 2),
        ("logs".to_string(), "orders-processed.log".to_string())
    );
    assert_eq!(
        wal_location(&env(&[("ORDER_PROCESS_DATA_DIR", "/data")]), 2),
        ("/data".to_string(), "orders-processed-s2-2.log".to_string())
    );
    assert_eq!((ORDER_STREAM_ID, RESULT_STREAM_ID), (1001, 2001));
}

#[test]
fn values_from_the_environment() {
    let e = env(&[("A", "12"), ("B", "x"), ("C", "ON"), ("D", ""), ("A", "13")]);
    assert_eq!(e.var("A").as_deref(), Some("12"));
    assert_eq!(e.var("Z"), None);
    assert_eq!(e.env_u16("A", 5), 12);
    assert_eq!(e.env_u16("B", 5), 5);
    assert_eq!(e.env_u8("Z", 6), 6);
    assert_eq!(e.env_u64("D", 7), 7);
    assert_eq!(e.env_number("A", 11, 3), 3);
    assert!(e.env_bool("C", false));
    assert!(!e.env_bool("B", true));
    assert!(e.env_bool("Z", true));
    assert_eq!(e.env_or("Z", "fallback"), "fallback");
    assert_eq!(e.env_required("D").unwrap(), "");
}

#[test]
fn flags_say_yes_in_any_case() {
    for word in ["1", "true", "TRUE", "Yes", "on", "oN"] {
        assert!(env(&[("F", word)]).env_bool("F", false), "{word}");
    }
    for word in ["0", "false", "no", "off", "", "2", " true"] {
        assert!(!env(&[("F", word)]).env_bool("F", true), "{word}");
    }
}

#[test]
fn numbers_are_written_and_read() {
    for n in [0u64, 7, 10, 255, 65_535, 1_000_000, u64::MAX] {
        let mut text = "n=".to_string();
        push_decimal(&mut text, n as u128);
        assert_eq!(text, format!("n={n}"));
        assert_eq!(parse_number(&text[2..], u64::MAX), Some(n));
    }
    let mut text = String::new();
    push_decimal(&mut text, u128::MAX);
    assert_eq!(text, u128::MAX.to_string());
    for (text, max, value) in [
        ("+5", 255, Some(5)),
        ("007", 255, Some(7)),
        ("256", 255, None),
        ("-1", 255, None),
        ("", 255, None),
        ("+", 255, None),
        ("1 ", 255, None),
        ("1.5", 255, None),
    ] {
        assert_eq!(parse_number(text, max), value, "{text}");
        assert_eq!(text.parse::<u8>().ok().map(u64::from), value, "{text}");
    }
}

#[test]
fn text_is_taken_apart() {
    assert_eq!(trim(" \t42\r\n"), "42");
    assert_eq!(trim("\u{a0}\u{2003}x y\u{3000}"), "x y");
    assert_eq!(trim("  "), "");
    assert_eq!(words(" a  bc\n\td "), vec!["a", "bc", "d"]);
    assert_eq!(words(""), Vec::<String>::new());
    assert_eq!(chars_of("aé"), vec!['a', 'é']);
    assert!(lowers_to("TrUe", "true"));
    assert!(!lowers_to("TrUe", "tru"));
    assert!(same_text("abc", "abc"));
    assert!(!same_text("abc", "abd"));
    assert!(!same_text("abc", "ab"));
}

#[test]
fn first_configuration_stays() {
    let later = with(&[("BIND_HOST", "10.9.9.9"), ("S3_PORT", "8100")]);
    let mut cell = Fixed::new();
    assert!(cluster::init_config(&mut cell, &env(&[])).is_err());
    assert!(!cell.is_set());
    assert_eq!(cluster::init_config(&mut cell, &with(&[])).unwrap().s3_port, 8001);
    assert_eq!(cluster::init_config(&mut cell, &later).unwrap().s3_port, 8001);
    assert_eq!(cluster::init_config(&mut cell, &env(&[])).unwrap().s3_port, 8001);
    assert_eq!(cluster::config(&cell).bind_host, "0.0.0.0");

    let mut cell = Fixed::new();
    assert_eq!(receiver::init_config(&mut cell, &later).unwrap().bind_port, 8100);
    assert_eq!(receiver::init_config(&mut cell, &with(&[])).unwrap().bind_port, 8100);

    let mut cell = Fixed::new();
    assert!(sending::init_config(&mut cell, &with(&[])).is_err());
    assert_eq!(sending::init_config(&mut cell, &later).unwrap().bind_host, "10.9.9.9");
    assert_eq!(sending::init_config(&mut cell, &with(&[])).unwrap().bind_host, "10.9.9.9");

    let mut cell = Fixed::new();
    assert_eq!(witness::init_config(&mut cell, &with(&[])).unwrap().bind_host, "0.0.0.0");
    assert_eq!(witness::init_config(&mut cell, &later).unwrap().bind_host, "0.0.0.0");
    assert_eq!(witness::config(&cell).witness_port, 9101);
}
