//! The configuration of a replica: the nodes of the cluster, their ports, and
//! the timing of elections and probes.

use crate::environment::{
    first_missing, flag_or, is_setting, law_numbers_are_read, lookup, number_or, says_yes, text_or,
    ConfigError, Environment, Fixed,
};
use crate::text;
use crate::text::{decimal, texts, words_of};
use crate::wire::view_of;
use vstd::prelude::*;

verus! {

/// One replica of the cluster. Each of its channels has a port of its own.
#[derive(Debug)]
pub struct S2Node {
    pub id: u8,
    pub name: String,
    pub host: String,
    pub raft_port: u16,
    pub order_port: u16,
    pub health_port: u16,
    pub replay_port: u16,
}

#[derive(Debug)]
pub struct ClusterConfig {
    pub nodes: Vec<S2Node>,
    pub bind_host: String,
    pub s3_host: String,
    pub s3_port: u16,
    pub heartbeat_interval_ms: u64,
    pub election_timeout_min_ms: u64,
    pub election_timeout_max_ms: u64,
    pub verbose_raft: bool,
    /// Whether a node whose peers are all silent may win with its own vote.
    pub allow_single_node_leader: bool,
    pub peer_silent_ms: u64,
    /// Where the independent monitoring service listens, if there is one.
    pub monitoring_host: Option<String>,
    pub monitoring_port: u16,
    pub monitoring_timeout_ms: u64,
    pub monitoring_retry_interval_ms: u64,
    /// Whether the monitoring service has to confirm that the peers are down
    /// before a lone node may win with its own vote.
    pub require_monitoring_for_single_node_leader: bool,
    pub s1_host: String,
    pub s1_replay_port: u16,
}

/// Why the id of this replica cannot be told.
#[derive(Debug)]
pub enum NodeIdError {
    /// `NODE_ID` is set to something else than a small number.
    NotANumber { raw: String },
    /// No node has one of the addresses of this machine.
    NoMatch { locals: Vec<String> },
    /// Several nodes have one of the addresses of this machine.
    SeveralMatch { locals: Vec<String> },
    /// The cluster has the ids 1 to 3.
    OutOfRange { id: u8 },
    /// No node of the configuration has the id.
    Unknown { id: u8 },
}

impl Clone for S2Node {
    fn clone(&self) -> (copy: Self)
        ensures
            copy == *self,
    {
        S2Node {
            id: self.id,
            name: self.name.clone(),
            host: self.host.clone(),
            raft_port: self.raft_port,
            order_port: self.order_port,
            health_port: self.health_port,
            replay_port: self.replay_port,
        }
    }
}

/// The names of the variables of one node, and what holds where they are unset.
pub struct NodeKeys {
    pub id: u8,
    pub name: (&'static str, &'static str),
    pub host: &'static str,
    pub raft_port: (&'static str, u16),
    pub order_port: (&'static str, u16),
    pub health_port: (&'static str, u16),
    pub replay_port: (&'static str, u16),
}

/// Whether `node` is what the variables `keys` say.
pub open spec fn node_configured(
    vars: Seq<(Seq<char>, Seq<char>)>,
    keys: NodeKeys,
    node: S2Node,
) -> bool {
    let max = u16::MAX as nat;
    &&& node.id == keys.id
    &&& node.name@ == text_or(vars, keys.name.0@, keys.name.1@)
    &&& lookup(vars, keys.host@) == Some(node.host@)
    &&& node.raft_port == number_or(vars, keys.raft_port.0@, max, keys.raft_port.1 as nat)
    &&& node.order_port == number_or(vars, keys.order_port.0@, max, keys.order_port.1 as nat)
    &&& node.health_port == number_or(vars, keys.health_port.0@, max, keys.health_port.1 as nat)
    &&& node.replay_port == number_or(vars, keys.replay_port.0@, max, keys.replay_port.1 as nat)
}

/// The variables of the first node.
pub open spec fn node1_keys() -> NodeKeys {
    NodeKeys {
        id: 1,
        name: ("NODE1_NAME", "Nitin"),
        host: "NODE1_HOST",
        raft_port: ("NODE1_RAFT_PORT", 6001),
        order_port: ("NODE1_ORDER_PORT", 7001),
        health_port: ("NODE1_HEALTH_PORT", 6101),
        replay_port: ("NODE1_REPLAY_PORT", 6201),
    }
}

/// The variables of the second node.
pub open spec fn node2_keys() -> NodeKeys {
    NodeKeys {
        id: 2,
        name: ("NODE2_NAME", "Amit"),
        host: "NODE2_HOST",
        raft_port: ("NODE2_RAFT_PORT", 6002),
        order_port: ("NODE2_ORDER_PORT", 7002),
        health_port: ("NODE2_HEALTH_PORT", 6102),
        replay_port: ("NODE2_REPLAY_PORT", 6202),
    }
}

/// The variables of the third node.
pub open spec fn node3_keys() -> NodeKeys {
    NodeKeys {
        id: 3,
        name: ("NODE3_NAME", "Yousuf"),
        host: "NODE3_HOST",
        raft_port: ("NODE3_RAFT_PORT", 6003),
        order_port: ("NODE3_ORDER_PORT", 7003),
        health_port: ("NODE3_HEALTH_PORT", 6103),
        replay_port: ("NODE3_REPLAY_PORT", 6203),
    }
}

/// The variables without a default, in the order in which they are read.
pub open spec fn required_keys() -> Seq<Seq<char>> {
    seq!["NODE1_HOST"@, "NODE2_HOST"@, "NODE3_HOST"@, "S3_HOST"@, "S1_HOST"@]
}

/// Whether `c` is what the environment says.
pub open spec fn cluster_configured(vars: Seq<(Seq<char>, Seq<char>)>, c: ClusterConfig) -> bool {
    let port = u16::MAX as nat;
    let long = u64::MAX as nat;
    &&& c.nodes@.len() == 3
    &&& node_configured(vars, node1_keys(), c.nodes@[0])
    &&& node_configured(vars, node2_keys(), c.nodes@[1])
    &&& node_configured(vars, node3_keys(), c.nodes@[2])
    &&& c.bind_host@ == text_or(vars, "BIND_HOST"@, "0.0.0.0"@)
    &&& lookup(vars, "S3_HOST"@) == Some(c.s3_host@)
    &&& c.s3_port == number_or(vars, "S3_PORT"@, port, 8001)
    &&& c.heartbeat_interval_ms == number_or(vars, "HEARTBEAT_INTERVAL_MS"@, long, 50)
    &&& c.election_timeout_min_ms == number_or(vars, "ELECTION_TIMEOUT_MIN_MS"@, long, 150)
    &&& c.election_timeout_max_ms == number_or(vars, "ELECTION_TIMEOUT_MAX_MS"@, long, 300)
    &&& c.verbose_raft == flag_or(vars, "VERBOSE_RAFT"@, false)
    &&& c.allow_single_node_leader == flag_or(vars, "ALLOW_SINGLE_NODE_LEADER"@, true)
    &&& c.peer_silent_ms == number_or(vars, "PEER_SILENT_MS"@, long, 2000)
    &&& view_of(c.monitoring_host) == lookup(vars, "monitoring_HOST"@)
    &&& c.monitoring_port == number_or(vars, "monitoring_PORT"@, port, 9101)
    &&& c.monitoring_timeout_ms == number_or(vars, "monitoring_TIMEOUT_MS"@, long, 1500)
    &&& c.monitoring_retry_interval_ms == number_or(
        vars,
        "monitoring_RETRY_INTERVAL_MS"@,
        long,
        2000,
    )
    &&& c.require_monitoring_for_single_node_leader == flag_or(
        vars,
        "REQUIRE_monitoring_FOR_SINGLE_NODE_LEADER"@,
        true,
    )
    &&& lookup(vars, "S1_HOST"@) == Some(c.s1_host@)
    &&& c.s1_replay_port == number_or(vars, "S1_REPLAY_PORT"@, port, 9001)
}

fn load_node(env: &Environment, keys: NodeKeys) -> (node: Result<S2Node, ConfigError>)
    ensures
        match node {
            Ok(n) => node_configured(env@, keys, n),
            Err(ConfigError::Missing { key }) => lookup(env@, keys.host@) is None && key@
                == keys.host@,
        },
{
    match env.env_required(keys.host) {
        Ok(host) => Ok(
            S2Node {
                id: keys.id,
                name: env.env_or(keys.name.0, keys.name.1),
                host,
                raft_port: env.env_u16(keys.raft_port.0, keys.raft_port.1),
                order_port: env.env_u16(keys.order_port.0, keys.order_port.1),
                health_port: env.env_u16(keys.health_port.0, keys.health_port.1),
                replay_port: env.env_u16(keys.replay_port.0, keys.replay_port.1),
            },
        ),
        Err(e) => Err(e),
    }
}

/// What a list of five keys says of the first one that is not set.
proof fn lemma_five_keys(vars: Seq<(Seq<char>, Seq<char>)>, keys: Seq<Seq<char>>)
    requires
        keys.len() == 5,
    ensures
        first_missing(vars, keys) == (if lookup(vars, keys[0]) is None {
            Some(keys[0])
        } else if lookup(vars, keys[1]) is None {
            Some(keys[1])
        } else if lookup(vars, keys[2]) is None {
            Some(keys[2])
        } else if lookup(vars, keys[3]) is None {
            Some(keys[3])
        } else if lookup(vars, keys[4]) is None {
            Some(keys[4])
        } else {
            None
        }),
{
    reveal_with_fuel(first_missing, 6);
}

/// Reads the configuration. Fails on the first variable that has no default and
/// is not set.
pub fn load_from_env(env: &Environment) -> (config: Result<ClusterConfig, ConfigError>)
    ensures
        match config {
            Ok(c) => first_missing(env@, required_keys()) is None && cluster_configured(env@, c),
            Err(ConfigError::Missing { key }) => first_missing(env@, required_keys()) == Some(key@),
        },
{
    proof {
        lemma_five_keys(env@, required_keys());
    }
    let node1 = match load_node(
        env,
        NodeKeys {
            id: 1,
            name: ("NODE1_NAME", "Nitin"),
            host: "NODE1_HOST",
            raft_port: ("NODE1_RAFT_PORT", 6001),
            order_port: ("NODE1_ORDER_PORT", 7001),
            health_port: ("NODE1_HEALTH_PORT", 6101),
            replay_port: ("NODE1_REPLAY_PORT", 6201),
        },
    ) {
        Ok(node) => node,
        Err(e) => return Err(e),
    };
    let node2 = match load_node(
        env,
        NodeKeys {
            id: 2,
            name: ("NODE2_NAME", "Amit"),
            host: "NODE2_HOST",
            raft_port: ("NODE2_RAFT_PORT", 6002),
            order_port: ("NODE2_ORDER_PORT", 7002),
            health_port: ("NODE2_HEALTH_PORT", 6102),
            replay_port: ("NODE2_REPLAY_PORT", 6202),
        },
    ) {
        Ok(node) => node,
        Err(e) => return Err(e),
    };
    let node3 = match load_node(
        env,
        NodeKeys {
            id: 3,
            name: ("NODE3_NAME", "Yousuf"),
            host: "NODE3_HOST",
            raft_port: ("NODE3_RAFT_PORT", 6003),
            order_port: ("NODE3_ORDER_PORT", 7003),
            health_port: ("NODE3_HEALTH_PORT", 6103),
            replay_port: ("NODE3_REPLAY_PORT", 6203),
        },
    ) {
        Ok(node) => node,
        Err(e) => return Err(e),
    };
    let s3_host = match env.env_required("S3_HOST") {
        Ok(host) => host,
        Err(e) => return Err(e),
    };
    let s1_host = match env.env_required("S1_HOST") {
        Ok(host) => host,
        Err(e) => return Err(e),
    };
    let mut nodes: Vec<S2Node> = Vec::new();
    nodes.push(node1);
    nodes.push(node2);
    nodes.push(node3);
    Ok(
        ClusterConfig {
            nodes,
            bind_host: env.env_or("BIND_HOST", "0.0.0.0"),
            s3_host,
            s3_port: env.env_u16("S3_PORT", 8001),
            heartbeat_interval_ms: env.env_u64("HEARTBEAT_INTERVAL_MS", 50),
            election_timeout_min_ms: env.env_u64("ELECTION_TIMEOUT_MIN_MS", 150),
            election_timeout_max_ms: env.env_u64("ELECTION_TIMEOUT_MAX_MS", 300),
            verbose_raft: env.env_bool("VERBOSE_RAFT", false),
            allow_single_node_leader: env.env_bool("ALLOW_SINGLE_NODE_LEADER", true),
            peer_silent_ms: env.env_u64("PEER_SILENT_MS", 2000),
            monitoring_host: env.var("monitoring_HOST"),
            monitoring_port: env.env_u16("monitoring_PORT", 9101),
            monitoring_timeout_ms: env.env_u64("monitoring_TIMEOUT_MS", 1500),
            monitoring_retry_interval_ms: env.env_u64("monitoring_RETRY_INTERVAL_MS", 2000),
            require_monitoring_for_single_node_leader: env.env_bool(
                "REQUIRE_monitoring_FOR_SINGLE_NODE_LEADER",
                true,
            ),
            s1_host,
            s1_replay_port: env.env_u16("S1_REPLAY_PORT", 9001),
        },
    )
}

/// Fixes the configuration of a replica, if it is not fixed yet, to what the
/// environment says, and gives it. What was read first stays, whatever the
/// environment says later.
pub fn init_config<'a>(cell: &'a mut Fixed<ClusterConfig>, env: &Environment) -> (config: Result<
    &'a ClusterConfig,
    ConfigError,
>)
    ensures
        match old(cell)@ {
            Some(first) => {
                &&& final(cell)@ == Some(first)
                &&& config matches Ok(c)
                &&& *c == first
            },
            None => match config {
                Ok(c) => {
                    &&& final(cell)@ == Some(*c)
                    &&& first_missing(env@, required_keys()) is None
                    &&& cluster_configured(env@, *c)
                },
                Err(ConfigError::Missing { key }) => {
                    &&& final(cell)@ is None
                    &&& first_missing(env@, required_keys()) == Some(key@)
                },
            },
        },
{
    if !cell.is_set() {
        match load_from_env(env) {
            Ok(config) => cell.set(config),
            Err(e) => return Err(e),
        }
    }
    Ok(cell.get())
}

/// The configuration, once it is fixed.
pub fn config(cell: &Fixed<ClusterConfig>) -> (config: &ClusterConfig)
    requires
        cell@ is Some,
    ensures
        Some(*config) == cell@,
{
    cell.get()
}

/// The first node with this id.
pub open spec fn node_of(nodes: Seq<S2Node>, id: u8) -> Option<S2Node>
    decreases nodes.len(),
{
    if nodes.len() == 0 {
        None
    } else if nodes[0].id == id {
        Some(nodes[0])
    } else {
        node_of(nodes.skip(1), id)
    }
}

/// The node with this id.
pub fn find_node(config: &ClusterConfig, id: u8) -> (node: Option<S2Node>)
    ensures
        node == node_of(config.nodes@, id),
{
    let mut i: usize = 0;
    proof {
        assert(config.nodes@.skip(0) =~= config.nodes@);
    }
    while i < config.nodes.len()
        invariant
            i <= config.nodes@.len(),
            node_of(config.nodes@, id) == node_of(config.nodes@.skip(i as int), id),
        decreases config.nodes@.len() - i,
    {
        proof {
            assert(config.nodes@.skip(i as int)[0] == config.nodes@[i as int]);
            assert(config.nodes@.skip(i as int).skip(1) =~= config.nodes@.skip(i + 1));
        }
        if config.nodes[i].id == id {
            return Some(config.nodes[i].clone());
        }
        i = i + 1;
    }
    None
}

/// The name of the node with this id, or `S2-` and the id.
pub open spec fn name_of(nodes: Seq<S2Node>, id: u8) -> Seq<char> {
    match node_of(nodes, id) {
        Some(node) => node.name@,
        None => "S2-"@ + decimal(id as nat),
    }
}

/// The name of the node with this id, for log lines.
pub fn node_name(config: &ClusterConfig, id: u8) -> (name: String)
    ensures
        name@ == name_of(config.nodes@, id),
{
    match find_node(config, id) {
        Some(node) => node.name,
        None => {
            let mut name = "S2-".to_owned();
            text::push_decimal(&mut name, id as u128);
            name
        },
    }
}

/// The port on which the node with this id answers probes.
pub fn health_port(config: &ClusterConfig, id: u8) -> (port: Option<u16>)
    ensures
        port == (match node_of(config.nodes@, id) {
            Some(node) => Some(node.health_port),
            None => None,
        }),
{
    match find_node(config, id) {
        Some(node) => Some(node.health_port),
        None => None,
    }
}

/// What one node is at the moment.
pub open spec fn role_word(id: u8, leader_id: Option<u8>, unavailable: Seq<u8>) -> Seq<char> {
    if leader_id == Some(id) {
        "LEADER"@
    } else if unavailable.contains(id) {
        "not available"@
    } else {
        "FOLLOWER"@
    }
}

/// What each node is at the moment, as in
/// `Nitin is not available; Amit is FOLLOWER; Yousuf is LEADER`.
pub open spec fn role_line(
    nodes: Seq<S2Node>,
    leader_id: Option<u8>,
    unavailable: Seq<u8>,
) -> Seq<char>
    decreases nodes.len(),
{
    if nodes.len() == 0 {
        Seq::empty()
    } else {
        let last = nodes.last().name@ + " is "@ + role_word(
            nodes.last().id,
            leader_id,
            unavailable,
        );
        if nodes.len() == 1 {
            last
        } else {
            role_line(nodes.drop_last(), leader_id, unavailable) + "; "@ + last
        }
    }
}

fn contains_id(ids: &[u8], id: u8) -> (found: bool)
    ensures
        found == ids@.contains(id),
{
    let mut i: usize = 0;
    while i < ids.len()
        invariant
            i <= ids@.len(),
            forall|k: int| 0 <= k < i ==> ids@[k] != id,
        decreases ids@.len() - i,
    {
        if ids[i] == id {
            assert(ids@[i as int] == id);
            return true;
        }
        i = i + 1;
    }
    false
}

/// One line that says which node leads, which follow and which are silent.
pub fn format_role_summary(
    config: &ClusterConfig,
    leader_id: Option<u8>,
    unavailable: &[u8],
) -> (line: String)
    ensures
        line@ == role_line(config.nodes@, leader_id, unavailable@),
{
    let mut line = String::new();
    let mut i: usize = 0;
    while i < config.nodes.len()
        invariant
            i <= config.nodes@.len(),
            line@ == role_line(config.nodes@.take(i as int), leader_id, unavailable@),
        decreases config.nodes@.len() - i,
    {
        let ghost before = line@;
        let node = &config.nodes[i];
        let leads = match leader_id {
            Some(id) => id == node.id,
            None => false,
        };
        let word = if leads {
            "LEADER"
        } else if contains_id(unavailable, node.id) {
            "not available"
        } else {
            "FOLLOWER"
        };
        if i > 0 {
            line.append("; ");
        }
        line.append(node.name.as_str());
        line.append(" is ");
        line.append(word);
        i = i + 1;
        proof {
            let done = config.nodes@.take(i as int);
            assert(done.drop_last() =~= config.nodes@.take(i - 1));
            assert(done.last() == config.nodes@[i - 1]);
            let last = node.name@ + " is "@ + word@;
            if i == 1 {
                assert(line@ =~= last);
            } else {
                assert(line@ =~= before + "; "@ + last);
            }
        }
    }
    proof {
        assert(config.nodes@.take(i as int) =~= config.nodes@);
    }
    line
}

pub fn verbose_raft(config: &ClusterConfig) -> (value: bool)
    ensures
        value == config.verbose_raft,
{
    config.verbose_raft
}

pub fn allow_single_node_leader(config: &ClusterConfig) -> (value: bool)
    ensures
        value == config.allow_single_node_leader,
{
    config.allow_single_node_leader
}

pub fn peer_silent_ms(config: &ClusterConfig) -> (value: u64)
    ensures
        value == config.peer_silent_ms,
{
    config.peer_silent_ms
}

pub fn heartbeat_interval_ms(config: &ClusterConfig) -> (value: u64)
    ensures
        value == config.heartbeat_interval_ms,
{
    config.heartbeat_interval_ms
}

pub fn election_timeout_min_ms(config: &ClusterConfig) -> (value: u64)
    ensures
        value == config.election_timeout_min_ms,
{
    config.election_timeout_min_ms
}

pub fn election_timeout_max_ms(config: &ClusterConfig) -> (value: u64)
    ensures
        value == config.election_timeout_max_ms,
{
    config.election_timeout_max_ms
}

pub fn monitoring_port(config: &ClusterConfig) -> (value: u16)
    ensures
        value == config.monitoring_port,
{
    config.monitoring_port
}

pub fn monitoring_timeout_ms(config: &ClusterConfig) -> (value: u64)
    ensures
        value == config.monitoring_timeout_ms,
{
    config.monitoring_timeout_ms
}

pub fn monitoring_retry_interval_ms(config: &ClusterConfig) -> (value: u64)
    ensures
        value == config.monitoring_retry_interval_ms,
{
    config.monitoring_retry_interval_ms
}

pub fn require_monitoring_for_single_node_leader(config: &ClusterConfig) -> (value: bool)
    ensures
        value == config.require_monitoring_for_single_node_leader,
{
    config.require_monitoring_for_single_node_leader
}

pub fn s1_replay_port(config: &ClusterConfig) -> (value: u16)
    ensures
        value == config.s1_replay_port,
{
    config.s1_replay_port
}

pub fn monitoring_host(config: &ClusterConfig) -> (host: Option<String>)
    ensures
        host == config.monitoring_host,
{
    match &config.monitoring_host {
        Some(host) => Some(host.clone()),
        None => None,
    }
}

pub fn s1_host(config: &ClusterConfig) -> (host: String)
    ensures
        host == config.s1_host,
{
    config.s1_host.clone()
}

pub fn s2_nodes(config: &ClusterConfig) -> (nodes: &[S2Node])
    ensures
        nodes@ == config.nodes@,
{
    config.nodes.as_slice()
}

/// Whether a word looks like an IPv4 address.
pub open spec fn dotted(word: Seq<char>) -> bool {
    word.contains('.') && !word.contains(':')
}

/// The dotted words among `words`, in order.
pub open spec fn dotted_words(words: Seq<Seq<char>>) -> Seq<Seq<char>>
    decreases words.len(),
{
    if words.len() == 0 {
        Seq::empty()
    } else if dotted(words.last()) {
        dotted_words(words.drop_last()).push(words.last())
    } else {
        dotted_words(words.drop_last())
    }
}

/// The IPv4 addresses in a list of addresses, and the loopback address.
pub open spec fn local_addrs(listing: Seq<char>) -> Seq<Seq<char>> {
    let found = dotted_words(words_of(listing));
    if found.contains("127.0.0.1"@) {
        found
    } else {
        found.push("127.0.0.1"@)
    }
}

fn has_char(text: &str, c: char) -> (found: bool)
    ensures
        found == text@.contains(c),
{
    let chars = text::chars_of(text);
    let mut i: usize = 0;
    while i < chars.len()
        invariant
            i <= chars@.len(),
            chars@ == text@,
            forall|k: int| 0 <= k < i ==> chars@[k] != c,
        decreases chars@.len() - i,
    {
        if chars[i] == c {
            assert(text@[i as int] == c);
            return true;
        }
        i = i + 1;
    }
    false
}

/// Whether a list of texts holds this one.
fn has_text(list: &Vec<String>, wanted: &str) -> (found: bool)
    ensures
        found == texts(list@).contains(wanted@),
{
    let mut i: usize = 0;
    while i < list.len()
        invariant
            i <= list@.len(),
            forall|k: int| 0 <= k < i ==> (#[trigger] list@[k])@ != wanted@,
        decreases list@.len() - i,
    {
        if text::same_text(list[i].as_str(), wanted) {
            assert(texts(list@)[i as int] == wanted@);
            return true;
        }
        i = i + 1;
    }
    proof {
        assert forall|k: int| 0 <= k < texts(list@).len() implies texts(list@)[k] != wanted@ by {
            assert(list@[k]@ != wanted@);
        }
    }
    false
}

/// The IPv4 addresses that `listing` holds, and the loopback address, which
/// stands for a machine that runs every node.
pub fn local_ipv4_addrs(listing: &str) -> (ips: Vec<String>)
    ensures
        texts(ips@) == local_addrs(listing@),
{
    let all = text::words(listing);
    let mut ips: Vec<String> = Vec::new();
    let mut i: usize = 0;
    proof {
        assert(texts(ips@) =~= dotted_words(texts(all@).take(0)));
    }
    while i < all.len()
        invariant
            i <= all@.len(),
            texts(ips@) == dotted_words(texts(all@).take(i as int)),
        decreases all@.len() - i,
    {
        let ghost before = texts(ips@);
        if has_char(all[i].as_str(), '.') && !has_char(all[i].as_str(), ':') {
            ips.push(all[i].clone());
            assert(texts(ips@) =~= before.push(all@[i as int]@));
        }
        i = i + 1;
        proof {
            let done = texts(all@).take(i as int);
            assert(done.drop_last() =~= texts(all@).take(i - 1));
            assert(done.last() == all@[i - 1]@);
        }
    }
    proof {
        assert(texts(all@).take(i as int) =~= texts(all@));
    }
    if !has_text(&ips, "127.0.0.1") {
        let ghost before = texts(ips@);
        ips.push("127.0.0.1".to_owned());
        assert(texts(ips@) =~= before.push("127.0.0.1"@));
    }
    ips
}

/// The ids of the nodes whose host is among `hosts`, in order.
pub open spec fn ids_at(nodes: Seq<S2Node>, hosts: Seq<Seq<char>>) -> Seq<u8>
    decreases nodes.len(),
{
    if nodes.len() == 0 {
        Seq::empty()
    } else if hosts.contains(nodes.last().host@) {
        ids_at(nodes.drop_last(), hosts).push(nodes.last().id)
    } else {
        ids_at(nodes.drop_last(), hosts)
    }
}

/// Which id a replica takes for its own.
pub open spec fn node_id_resolved(
    vars: Seq<(Seq<char>, Seq<char>)>,
    nodes: Seq<S2Node>,
    listing: Seq<char>,
    id: Result<u8, NodeIdError>,
) -> bool {
    match lookup(vars, "NODE_ID"@) {
        Some(raw) => match text::number_of(raw, u8::MAX as nat) {
            Some(n) => id matches Ok(i) && i == n,
            None => id matches Err(NodeIdError::NotANumber { raw: r }) && r@ == raw,
        },
        None => {
            let locals = local_addrs(listing);
            let ids = ids_at(nodes, locals);
            if ids.len() == 1 {
                id matches Ok(i) && i == ids[0]
            } else if ids.len() == 0 {
                id matches Err(NodeIdError::NoMatch { locals: l }) && texts(l@) == locals
            } else {
                id matches Err(NodeIdError::SeveralMatch { locals: l }) && texts(l@) == locals
            }
        },
    }
}

/// The id of this replica: `NODE_ID` where it is set, otherwise that of the one
/// node whose host is an address of this machine, of which `listing` holds the
/// addresses.
pub fn resolve_node_id(env: &Environment, config: &ClusterConfig, listing: &str) -> (id: Result<
    u8,
    NodeIdError,
>)
    ensures
        node_id_resolved(env@, config.nodes@, listing@, id),
{
    if let Some(raw) = env.var("NODE_ID") {
        return match text::parse_number(raw.as_str(), u8::MAX as u64) {
            Some(n) => Ok(n as u8),
            None => Err(NodeIdError::NotANumber { raw }),
        };
    }
    let locals = local_ipv4_addrs(listing);
    let mut ids: Vec<u8> = Vec::new();
    let mut i: usize = 0;
    while i < config.nodes.len()
        invariant
            i <= config.nodes@.len(),
            texts(locals@) == local_addrs(listing@),
            ids@ == ids_at(config.nodes@.take(i as int), texts(locals@)),
        decreases config.nodes@.len() - i,
    {
        if has_text(&locals, config.nodes[i].host.as_str()) {
            ids.push(config.nodes[i].id);
        }
        i = i + 1;
        proof {
            let done = config.nodes@.take(i as int);
            assert(done.drop_last() =~= config.nodes@.take(i - 1));
            assert(done.last() == config.nodes@[i - 1]);
        }
    }
    proof {
        assert(config.nodes@.take(i as int) =~= config.nodes@);
    }
    if ids.len() == 1 {
        Ok(ids[0])
    } else if ids.len() == 0 {
        Err(NodeIdError::NoMatch { locals })
    } else {
        Err(NodeIdError::SeveralMatch { locals })
    }
}

/// The node with an id that a replica may have.
pub open spec fn own_node_of(nodes: Seq<S2Node>, id: u8) -> Result<S2Node, NodeIdError> {
    if id < 1 || id > 3 {
        Err(NodeIdError::OutOfRange { id })
    } else {
        match node_of(nodes, id) {
            Some(n) => Ok(n),
            None => Err(NodeIdError::Unknown { id }),
        }
    }
}

/// The node that this replica is.
pub fn own_node(config: &ClusterConfig, id: u8) -> (node: Result<S2Node, NodeIdError>)
    ensures
        node == own_node_of(config.nodes@, id),
{
    if id < 1 || id > 3 {
        return Err(NodeIdError::OutOfRange { id });
    }
    match find_node(config, id) {
        Some(node) => Ok(node),
        None => Err(NodeIdError::Unknown { id }),
    }
}

/// The node with an id is the first one that bears it, and there is none only
/// where no node does. It is called by its name, and by its id where there is
/// none.
pub proof fn law_first_node_counts(nodes: Seq<S2Node>, id: u8)
    ensures
        match node_of(nodes, id) {
            Some(node) => (exists|k: int|
                0 <= k < nodes.len() && #[trigger] nodes[k] == node && node.id == id && forall|
                    i: int,
                |
                    0 <= i < k ==> (#[trigger] nodes[i]).id != id) && name_of(nodes, id)
                == node.name@,
            None => (forall|i: int| 0 <= i < nodes.len() ==> (#[trigger] nodes[i]).id != id)
                && name_of(nodes, id) == "S2-"@ + decimal(id as nat),
        },
    decreases nodes.len(),
{
    if nodes.len() > 0 {
        let rest = nodes.skip(1);
        law_first_node_counts(rest, id);
        if nodes[0].id == id {
            assert(nodes[0] == node_of(nodes, id)->0);
        } else {
            match node_of(rest, id) {
                Some(node) => {
                    let k = choose|k: int|
                        0 <= k < rest.len() && #[trigger] rest[k] == node && node.id == id
                            && forall|i: int| 0 <= i < k ==> (#[trigger] rest[i]).id != id;
                    assert(nodes[k + 1] == node);
                    assert forall|i: int| 0 <= i < k + 1 implies (#[trigger] nodes[i]).id != id by {
                        if i > 0 {
                            assert(rest[i - 1] == nodes[i]);
                        }
                    }
                },
                None => {
                    assert forall|i: int| 0 <= i < nodes.len() implies (#[trigger] nodes[i]).id
                        != id by {
                        if i > 0 {
                            assert(rest[i - 1] == nodes[i]);
                        }
                    }
                },
            }
        }
    }
}

/// The line of roles shows every node: its name stands at `at`, and behind it
/// that it leads, that it is not available, or that it follows.
pub proof fn law_role_lines_show_each_node(
    nodes: Seq<S2Node>,
    leader_id: Option<u8>,
    unavailable: Seq<u8>,
    k: int,
) -> (at: int)
    requires
        0 <= k < nodes.len(),
    ensures
        ({
            let line = role_line(nodes, leader_id, unavailable);
            let shown = nodes[k].name@ + " is "@ + (if leader_id == Some(nodes[k].id) {
                "LEADER"@
            } else if unavailable.contains(nodes[k].id) {
                "not available"@
            } else {
                "FOLLOWER"@
            });
            &&& 0 <= at <= at + shown.len() <= line.len()
            &&& line.subrange(at, at + shown.len()) == shown
        }),
    decreases nodes.len(),
{
    let line = role_line(nodes, leader_id, unavailable);
    let last = nodes.last().name@ + " is "@ + role_word(nodes.last().id, leader_id, unavailable);
    if k == nodes.len() - 1 {
        let at = line.len() - last.len();
        assert(line.subrange(at, at + last.len()) =~= last);
        at
    } else {
        let init = nodes.drop_last();
        let at = law_role_lines_show_each_node(init, leader_id, unavailable, k);
        let head = role_line(init, leader_id, unavailable);
        assert(init[k] == nodes[k]);
        let shown = nodes[k].name@ + " is "@ + role_word(nodes[k].id, leader_id, unavailable);
        assert(line == head + "; "@ + last);
        assert(line.subrange(at, at + shown.len()) =~= head.subrange(at, at + shown.len()));
        at
    }
}

proof fn lemma_dotted_words(words: Seq<Seq<char>>)
    ensures
        dotted_words(words) == words.filter(
            |word: Seq<char>| word.contains('.') && !word.contains(':'),
        ),
    decreases words.len(),
{
    reveal(Seq::filter);
    if words.len() > 0 {
        lemma_dotted_words(words.drop_last());
    }
}

/// The addresses of a machine are the words of its listing that hold a dot and no
/// colon, in order, and the loopback address, which is not listed twice.
pub proof fn law_local_addresses(listing: Seq<char>)
    ensures
        ({
            let found = words_of(listing).filter(
                |word: Seq<char>| word.contains('.') && !word.contains(':'),
            );
            &&& local_addrs(listing).contains("127.0.0.1"@)
            &&& found.contains("127.0.0.1"@) ==> local_addrs(listing) == found
            &&& !found.contains("127.0.0.1"@) ==> local_addrs(listing) == found.push(
                "127.0.0.1"@,
            )
        }),
{
    lemma_dotted_words(words_of(listing));
    let found = dotted_words(words_of(listing));
    if !found.contains("127.0.0.1"@) {
        assert(local_addrs(listing)[found.len() as int] == "127.0.0.1"@);
    }
}

proof fn lemma_ids_at(nodes: Seq<S2Node>, hosts: Seq<Seq<char>>)
    ensures
        ({
            let near = nodes.filter(|node: S2Node| hosts.contains(node.host@));
            &&& ids_at(nodes, hosts).len() == near.len()
            &&& forall|i: int|
                0 <= i < near.len() ==> #[trigger] ids_at(nodes, hosts)[i] == near[i].id
        }),
    decreases nodes.len(),
{
    reveal(Seq::filter);
    if nodes.len() > 0 {
        lemma_ids_at(nodes.drop_last(), hosts);
    }
}

/// A replica is the node that `NODE_ID` names. Where that is unset it is the one
/// node whose host is an address of this machine; where none is, or more than
/// one, it cannot be told.
pub proof fn law_node_ids_are_found(
    vars: Seq<(Seq<char>, Seq<char>)>,
    nodes: Seq<S2Node>,
    listing: Seq<char>,
    id: Result<u8, NodeIdError>,
    n: u8,
)
    requires
        node_id_resolved(vars, nodes, listing, id),
    ensures
        lookup(vars, "NODE_ID"@) == Some(decimal(n as nat)) ==> id == Ok::<u8, NodeIdError>(n),
        lookup(vars, "NODE_ID"@) is None ==> {
            let near = nodes.filter(|node: S2Node| local_addrs(listing).contains(node.host@));
            &&& near.len() == 1 ==> id == Ok::<u8, NodeIdError>(near[0].id)
            &&& near.len() == 0 ==> (id matches Err(NodeIdError::NoMatch { .. }))
            &&& near.len() > 1 ==> (id matches Err(NodeIdError::SeveralMatch { .. }))
        },
        id matches Err(NodeIdError::NotANumber { .. }) ==> lookup(vars, "NODE_ID"@) is Some,
{
    text::law_decimal_round_trip(n as nat, 255);
    lemma_ids_at(nodes, local_addrs(listing));
}

/// A replica bears one of the ids 1 to 3, and is the first node of the
/// configuration that does.
pub proof fn law_own_node(nodes: Seq<S2Node>, id: u8)
    ensures
        own_node_of(nodes, id) matches Ok(node) ==> 1 <= id <= 3 && node.id == id
            && nodes.contains(node),
        1 <= id <= 3 && (exists|i: int| 0 <= i < nodes.len() && (#[trigger] nodes[i]).id == id)
            ==> own_node_of(nodes, id) is Ok,
        !(1 <= id <= 3) ==> own_node_of(nodes, id) == Err::<S2Node, NodeIdError>(
            NodeIdError::OutOfRange { id },
        ),
{
    law_first_node_counts(nodes, id);
}

/// Each node has the id of its place, and its ports are what its variables say:
/// by default those of the first node and one more for each node behind it.
pub proof fn law_nodes_are_configured(
    vars: Seq<(Seq<char>, Seq<char>)>,
    c: ClusterConfig,
    k: int,
)
    requires
        cluster_configured(vars, c),
        0 <= k < 3,
    ensures
        c.nodes@.len() == 3,
        c.nodes@[k].id == k + 1,
        lookup(vars, "NODE1_HOST"@) == Some(c.nodes@[0].host@),
        lookup(vars, "NODE2_HOST"@) == Some(c.nodes@[1].host@),
        lookup(vars, "NODE3_HOST"@) == Some(c.nodes@[2].host@),
        c.nodes@[0].name@ == text_or(vars, "NODE1_NAME"@, "Nitin"@),
        c.nodes@[1].name@ == text_or(vars, "NODE2_NAME"@, "Amit"@),
        c.nodes@[2].name@ == text_or(vars, "NODE3_NAME"@, "Yousuf"@),
        is_setting(vars, "NODE1_RAFT_PORT"@, 65535, 6001, c.nodes@[0].raft_port as nat),
        is_setting(vars, "NODE2_RAFT_PORT"@, 65535, 6002, c.nodes@[1].raft_port as nat),
        is_setting(vars, "NODE3_RAFT_PORT"@, 65535, 6003, c.nodes@[2].raft_port as nat),
        is_setting(vars, "NODE1_ORDER_PORT"@, 65535, 7001, c.nodes@[0].order_port as nat),
        is_setting(vars, "NODE2_ORDER_PORT"@, 65535, 7002, c.nodes@[1].order_port as nat),
        is_setting(vars, "NODE3_ORDER_PORT"@, 65535, 7003, c.nodes@[2].order_port as nat),
        is_setting(vars, "NODE1_HEALTH_PORT"@, 65535, 6101, c.nodes@[0].health_port as nat),
        is_setting(vars, "NODE2_HEALTH_PORT"@, 65535, 6102, c.nodes@[1].health_port as nat),
        is_setting(vars, "NODE3_HEALTH_PORT"@, 65535, 6103, c.nodes@[2].health_port as nat),
        is_setting(vars, "NODE1_REPLAY_PORT"@, 65535, 6201, c.nodes@[0].replay_port as nat),
        is_setting(vars, "NODE2_REPLAY_PORT"@, 65535, 6202, c.nodes@[1].replay_port as nat),
        is_setting(vars, "NODE3_REPLAY_PORT"@, 65535, 6203, c.nodes@[2].replay_port as nat),
{
    law_numbers_are_read(vars, "NODE1_RAFT_PORT"@, 65535, 6001);
    law_numbers_are_read(vars, "NODE2_RAFT_PORT"@, 65535, 6002);
    law_numbers_are_read(vars, "NODE3_RAFT_PORT"@, 65535, 6003);
    law_numbers_are_read(vars, "NODE1_ORDER_PORT"@, 65535, 7001);
    law_numbers_are_read(vars, "NODE2_ORDER_PORT"@, 65535, 7002);
    law_numbers_are_read(vars, "NODE3_ORDER_PORT"@, 65535, 7003);
    law_numbers_are_read(vars, "NODE1_HEALTH_PORT"@, 65535, 6101);
    law_numbers_are_read(vars, "NODE2_HEALTH_PORT"@, 65535, 6102);
    law_numbers_are_read(vars, "NODE3_HEALTH_PORT"@, 65535, 6103);
    law_numbers_are_read(vars, "NODE1_REPLAY_PORT"@, 65535, 6201);
    law_numbers_are_read(vars, "NODE2_REPLAY_PORT"@, 65535, 6202);
    law_numbers_are_read(vars, "NODE3_REPLAY_PORT"@, 65535, 6203);
}

/// The settings of the cluster are what their variables say. By default a leader
/// sends several heartbeats within the shortest election timeout, a peer is
/// silent only after the longest one, and a lone node leads only if the
/// monitoring service confirms it.
pub proof fn law_cluster_settings(vars: Seq<(Seq<char>, Seq<char>)>, c: ClusterConfig)
    requires
        cluster_configured(vars, c),
    ensures
        ({
            let long = 0xffff_ffff_ffff_ffff;
            &&& is_setting(vars, "S3_PORT"@, 65535, 8001, c.s3_port as nat)
            &&& is_setting(
                vars,
                "HEARTBEAT_INTERVAL_MS"@,
                long,
                50,
                c.heartbeat_interval_ms as nat,
            )
            &&& is_setting(
                vars,
                "ELECTION_TIMEOUT_MIN_MS"@,
                long,
                150,
                c.election_timeout_min_ms as nat,
            )
            &&& is_setting(
                vars,
                "ELECTION_TIMEOUT_MAX_MS"@,
                long,
                300,
                c.election_timeout_max_ms as nat,
            )
            &&& is_setting(vars, "PEER_SILENT_MS"@, long, 2000, c.peer_silent_ms as nat)
            &&& is_setting(vars, "monitoring_PORT"@, 65535, 9101, c.monitoring_port as nat)
            &&& is_setting(
                vars,
                "monitoring_TIMEOUT_MS"@,
                long,
                1500,
                c.monitoring_timeout_ms as nat,
            )
            &&& is_setting(
                vars,
                "monitoring_RETRY_INTERVAL_MS"@,
                long,
                2000,
                c.monitoring_retry_interval_ms as nat,
            )
            &&& is_setting(vars, "S1_REPLAY_PORT"@, 65535, 9001, c.s1_replay_port as nat)
        }),
        lookup(vars, "S3_HOST"@) == Some(c.s3_host@),
        lookup(vars, "S1_HOST"@) == Some(c.s1_host@),
        lookup(vars, "BIND_HOST"@) matches Some(host) ==> c.bind_host@ == host,
        lookup(vars, "BIND_HOST"@) is None ==> c.bind_host@ == "0.0.0.0"@,
        c.monitoring_host is Some <==> lookup(vars, "monitoring_HOST"@) is Some,
        c.monitoring_host matches Some(host) ==> lookup(vars, "monitoring_HOST"@) == Some(host@),
        lookup(vars, "VERBOSE_RAFT"@) is None ==> !c.verbose_raft,
        lookup(vars, "ALLOW_SINGLE_NODE_LEADER"@) is None ==> c.allow_single_node_leader,
        lookup(vars, "REQUIRE_monitoring_FOR_SINGLE_NODE_LEADER"@) is None
            ==> c.require_monitoring_for_single_node_leader,
        lookup(vars, "VERBOSE_RAFT"@) matches Some(value) ==> c.verbose_raft == says_yes(value),
        lookup(vars, "ALLOW_SINGLE_NODE_LEADER"@) matches Some(value)
            ==> c.allow_single_node_leader == says_yes(value),
        lookup(vars, "REQUIRE_monitoring_FOR_SINGLE_NODE_LEADER"@) matches Some(value)
            ==> c.require_monitoring_for_single_node_leader == says_yes(value),
{
    let long = 0xffff_ffff_ffff_ffff;
    law_numbers_are_read(vars, "S3_PORT"@, 65535, 8001);
    law_numbers_are_read(vars, "HEARTBEAT_INTERVAL_MS"@, long, 50);
    law_numbers_are_read(vars, "ELECTION_TIMEOUT_MIN_MS"@, long, 150);
    law_numbers_are_read(vars, "ELECTION_TIMEOUT_MAX_MS"@, long, 300);
    law_numbers_are_read(vars, "PEER_SILENT_MS"@, long, 2000);
    law_numbers_are_read(vars, "monitoring_PORT"@, 65535, 9101);
    law_numbers_are_read(vars, "monitoring_TIMEOUT_MS"@, long, 1500);
    law_numbers_are_read(vars, "monitoring_RETRY_INTERVAL_MS"@, long, 2000);
    law_numbers_are_read(vars, "S1_REPLAY_PORT"@, 65535, 9001);
}

} // verus!
