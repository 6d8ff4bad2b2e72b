//! The configuration of the witness.

use crate::environment::{
    first_missing, flag_or, is_setting, law_numbers_are_read, lookup, number_or, says_yes, text_or,
    ConfigError, Environment, Fixed,
};
use vstd::prelude::*;

verus! {

/// A replica that is watched.
#[derive(Debug)]
pub struct WatchedNodeAddr {
    pub id: u8,
    pub name: String,
    pub host: String,
    pub health_port: u16,
}

#[derive(Debug)]
pub struct WitnessConfig {
    pub bind_host: String,
    pub witness_port: u16,
    pub nodes: Vec<WatchedNodeAddr>,
    pub poll_interval_ms: u64,
    pub probe_timeout_ms: u64,
    pub probe_retries: u8,
    pub verbose: bool,
}

impl Clone for WatchedNodeAddr {
    fn clone(&self) -> (copy: Self)
        ensures
            copy == *self,
    {
        WatchedNodeAddr {
            id: self.id,
            name: self.name.clone(),
            host: self.host.clone(),
            health_port: self.health_port,
        }
    }
}

/// The name of a replica, and its host in brackets.
pub open spec fn label_of(name: Seq<char>, host: Seq<char>) -> Seq<char> {
    name + " ("@ + host + ")"@
}

impl WatchedNodeAddr {
    /// How log lines call the replica, as in `Amit (172.16.13.181)`.
    pub fn label(&self) -> (label: String)
        ensures
            label@ == label_of(self.name@, self.host@),
    {
        let mut label = self.name.clone();
        label.append(" (");
        label.append(self.host.as_str());
        label.append(")");
        label
    }
}

/// The names of the variables of one replica, and what holds where they are
/// unset.
pub struct WatchKeys {
    pub id: u8,
    pub name: (&'static str, &'static str),
    pub host: &'static str,
    pub health_port: (&'static str, u16),
}

/// Whether `node` is what the variables `keys` say.
pub open spec fn node_configured(
    vars: Seq<(Seq<char>, Seq<char>)>,
    keys: WatchKeys,
    node: WatchedNodeAddr,
) -> bool {
    &&& node.id == keys.id
    &&& node.name@ == text_or(vars, keys.name.0@, keys.name.1@)
    &&& lookup(vars, keys.host@) == Some(node.host@)
    &&& node.health_port == number_or(
        vars,
        keys.health_port.0@,
        u16::MAX as nat,
        keys.health_port.1 as nat,
    )
}

/// The variables of the first replica.
pub open spec fn node1_keys() -> WatchKeys {
    WatchKeys {
        id: 1,
        name: ("NODE1_NAME", "Nitin"),
        host: "NODE1_HOST",
        health_port: ("NODE1_HEALTH_PORT", 6101),
    }
}

/// The variables of the second replica.
pub open spec fn node2_keys() -> WatchKeys {
    WatchKeys {
        id: 2,
        name: ("NODE2_NAME", "Amit"),
        host: "NODE2_HOST",
        health_port: ("NODE2_HEALTH_PORT", 6102),
    }
}

/// The variables of the third replica.
pub open spec fn node3_keys() -> WatchKeys {
    WatchKeys {
        id: 3,
        name: ("NODE3_NAME", "Yousuf"),
        host: "NODE3_HOST",
        health_port: ("NODE3_HEALTH_PORT", 6103),
    }
}

/// The variables without a default, in the order in which they are read.
pub open spec fn required_keys() -> Seq<Seq<char>> {
    seq!["NODE1_HOST"@, "NODE2_HOST"@, "NODE3_HOST"@]
}

/// Whether `c` is what the environment says.
pub open spec fn witness_configured(vars: Seq<(Seq<char>, Seq<char>)>, c: WitnessConfig) -> bool {
    &&& c.bind_host@ == text_or(vars, "BIND_HOST"@, "0.0.0.0"@)
    &&& c.witness_port == number_or(vars, "WITNESS_PORT"@, u16::MAX as nat, 9101)
    &&& c.nodes@.len() == 3
    &&& node_configured(vars, node1_keys(), c.nodes@[0])
    &&& node_configured(vars, node2_keys(), c.nodes@[1])
    &&& node_configured(vars, node3_keys(), c.nodes@[2])
    &&& c.poll_interval_ms == number_or(
        vars,
        "WITNESS_POLL_INTERVAL_MS"@,
        u64::MAX as nat,
        500,
    )
    &&& c.probe_timeout_ms == number_or(
        vars,
        "WITNESS_PROBE_TIMEOUT_MS"@,
        u64::MAX as nat,
        400,
    )
    &&& c.probe_retries == number_or(vars, "WITNESS_PROBE_RETRIES"@, u8::MAX as nat, 1)
    &&& c.verbose == flag_or(vars, "VERBOSE_WITNESS"@, false)
}

fn load_node(env: &Environment, keys: WatchKeys) -> (node: Result<WatchedNodeAddr, ConfigError>)
    ensures
        match node {
            Ok(n) => node_configured(env@, keys, n),
            Err(ConfigError::Missing { key }) => lookup(env@, keys.host@) is None && key@
                == keys.host@,
        },
{
    match env.env_required(keys.host) {
        Ok(host) => Ok(
            WatchedNodeAddr {
                id: keys.id,
                name: env.env_or(keys.name.0, keys.name.1),
                host,
                health_port: env.env_u16(keys.health_port.0, keys.health_port.1),
            },
        ),
        Err(e) => Err(e),
    }
}

proof fn lemma_three_keys(vars: Seq<(Seq<char>, Seq<char>)>, keys: Seq<Seq<char>>)
    requires
        keys.len() == 3,
    ensures
        first_missing(vars, keys) == (if lookup(vars, keys[0]) is None {
            Some(keys[0])
        } else if lookup(vars, keys[1]) is None {
            Some(keys[1])
        } else if lookup(vars, keys[2]) is None {
            Some(keys[2])
        } else {
            None
        }),
{
    reveal_with_fuel(first_missing, 4);
}

/// Reads the configuration. Fails on the first variable that has no default and
/// is not set.
pub fn load_from_env(env: &Environment) -> (config: Result<WitnessConfig, ConfigError>)
    ensures
        match config {
            Ok(c) => first_missing(env@, required_keys()) is None && witness_configured(env@, c),
            Err(ConfigError::Missing { key }) => first_missing(env@, required_keys()) == Some(key@),
        },
{
    proof {
        lemma_three_keys(env@, required_keys());
    }
    let node1 = match load_node(
        env,
        WatchKeys {
            id: 1,
            name: ("NODE1_NAME", "Nitin"),
            host: "NODE1_HOST",
            health_port: ("NODE1_HEALTH_PORT", 6101),
        },
    ) {
        Ok(node) => node,
        Err(e) => return Err(e),
    };
    let node2 = match load_node(
        env,
        WatchKeys {
            id: 2,
            name: ("NODE2_NAME", "Amit"),
            host: "NODE2_HOST",
            health_port: ("NODE2_HEALTH_PORT", 6102),
        },
    ) {
        Ok(node) => node,
        Err(e) => return Err(e),
    };
    let node3 = match load_node(
        env,
        WatchKeys {
            id: 3,
            name: ("NODE3_NAME", "Yousuf"),
            host: "NODE3_HOST",
            health_port: ("NODE3_HEALTH_PORT", 6103),
        },
    ) {
        Ok(node) => node,
        Err(e) => return Err(e),
    };
    let mut nodes: Vec<WatchedNodeAddr> = Vec::new();
    nodes.push(node1);
    nodes.push(node2);
    nodes.push(node3);
    Ok(
        WitnessConfig {
            bind_host: env.env_or("BIND_HOST", "0.0.0.0"),
            witness_port: env.env_u16("WITNESS_PORT", 9101),
            nodes,
            poll_interval_ms: env.env_u64("WITNESS_POLL_INTERVAL_MS", 500),
            probe_timeout_ms: env.env_u64("WITNESS_PROBE_TIMEOUT_MS", 400),
            probe_retries: env.env_u8("WITNESS_PROBE_RETRIES", 1),
            verbose: env.env_bool("VERBOSE_WITNESS", false),
        },
    )
}

/// Fixes the configuration of the witness, if it is not fixed yet, to what the
/// environment says, and gives it. What was read first stays, whatever the
/// environment says later.
pub fn init_config<'a>(cell: &'a mut Fixed<WitnessConfig>, env: &Environment) -> (config: Result<
    &'a WitnessConfig,
    ConfigError,
>)
    ensures
        match old(cell)@ {
            Some(first) => {
                &&& final(cell)@ == Some(first)
                &&& config matches Ok(c)
                &&& *c == first
            },
            None => match config {
                Ok(c) => {
                    &&& final(cell)@ == Some(*c)
                    &&& first_missing(env@, required_keys()) is None
                    &&& witness_configured(env@, *c)
                },
                Err(ConfigError::Missing { key }) => {
                    &&& final(cell)@ is None
                    &&& first_missing(env@, required_keys()) == Some(key@)
                },
            },
        },
{
    if !cell.is_set() {
        match load_from_env(env) {
            Ok(config) => cell.set(config),
            Err(e) => return Err(e),
        }
    }
    Ok(cell.get())
}

/// The configuration, once it is fixed.
pub fn config(cell: &Fixed<WitnessConfig>) -> (config: &WitnessConfig)
    requires
        cell@ is Some,
    ensures
        Some(*config) == cell@,
{
    cell.get()
}

/// The nodes other than this one, in order.
pub open spec fn others(nodes: Seq<WatchedNodeAddr>, id: u8) -> Seq<WatchedNodeAddr>
    decreases nodes.len(),
{
    if nodes.len() == 0 {
        Seq::empty()
    } else if nodes.last().id != id {
        others(nodes.drop_last(), id).push(nodes.last())
    } else {
        others(nodes.drop_last(), id)
    }
}

/// The nodes that a requester is checked against: all but itself.
pub fn other_nodes(config: &WitnessConfig, requester_id: u8) -> (nodes: Vec<WatchedNodeAddr>)
    ensures
        nodes@ == others(config.nodes@, requester_id),
{
    let mut nodes: Vec<WatchedNodeAddr> = Vec::new();
    let mut i: usize = 0;
    while i < config.nodes.len()
        invariant
            i <= config.nodes@.len(),
            nodes@ == others(config.nodes@.take(i as int), requester_id),
        decreases config.nodes@.len() - i,
    {
        if config.nodes[i].id != requester_id {
            nodes.push(config.nodes[i].clone());
        }
        i = i + 1;
        proof {
            let done = config.nodes@.take(i as int);
            assert(done.drop_last() =~= config.nodes@.take(i - 1));
            assert(done.last() == config.nodes@[i - 1]);
        }
    }
    proof {
        assert(config.nodes@.take(i as int) =~= config.nodes@);
    }
    nodes
}

/// The first node with this id.
pub open spec fn node_of(nodes: Seq<WatchedNodeAddr>, id: u8) -> Option<WatchedNodeAddr>
    decreases nodes.len(),
{
    if nodes.len() == 0 {
        None
    } else if nodes[0].id == id {
        Some(nodes[0])
    } else {
        node_of(nodes.skip(1), id)
    }
}

/// The node with this id.
pub fn find_node(config: &WitnessConfig, id: u8) -> (node: Option<WatchedNodeAddr>)
    ensures
        node == node_of(config.nodes@, id),
{
    let mut i: usize = 0;
    proof {
        assert(config.nodes@.skip(0) =~= config.nodes@);
    }
    while i < config.nodes.len()
        invariant
            i <= config.nodes@.len(),
            node_of(config.nodes@, id) == node_of(config.nodes@.skip(i as int), id),
        decreases config.nodes@.len() - i,
    {
        proof {
            assert(config.nodes@.skip(i as int)[0] == config.nodes@[i as int]);
            assert(config.nodes@.skip(i as int).skip(1) =~= config.nodes@.skip(i + 1));
        }
        if config.nodes[i].id == id {
            return Some(config.nodes[i].clone());
        }
        i = i + 1;
    }
    None
}

/// The settings of the witness are what their variables say. Each replica that it
/// watches has the id of its place.
pub proof fn law_witness_settings(
    vars: Seq<(Seq<char>, Seq<char>)>,
    c: WitnessConfig,
    k: int,
)
    requires
        witness_configured(vars, c),
        0 <= k < 3,
    ensures
        c.nodes@.len() == 3,
        c.nodes@[k].id == k + 1,
        lookup(vars, "NODE1_HOST"@) == Some(c.nodes@[0].host@),
        lookup(vars, "NODE2_HOST"@) == Some(c.nodes@[1].host@),
        lookup(vars, "NODE3_HOST"@) == Some(c.nodes@[2].host@),
        c.nodes@[0].name@ == text_or(vars, "NODE1_NAME"@, "Nitin"@),
        c.nodes@[1].name@ == text_or(vars, "NODE2_NAME"@, "Amit"@),
        c.nodes@[2].name@ == text_or(vars, "NODE3_NAME"@, "Yousuf"@),
        is_setting(vars, "NODE1_HEALTH_PORT"@, 65535, 6101, c.nodes@[0].health_port as nat),
        is_setting(vars, "NODE2_HEALTH_PORT"@, 65535, 6102, c.nodes@[1].health_port as nat),
        is_setting(vars, "NODE3_HEALTH_PORT"@, 65535, 6103, c.nodes@[2].health_port as nat),
        is_setting(vars, "WITNESS_PORT"@, 65535, 9101, c.witness_port as nat),
        is_setting(
            vars,
            "WITNESS_POLL_INTERVAL_MS"@,
            0xffff_ffff_ffff_ffff,
            500,
            c.poll_interval_ms as nat,
        ),
        is_setting(
            vars,
            "WITNESS_PROBE_TIMEOUT_MS"@,
            0xffff_ffff_ffff_ffff,
            400,
            c.probe_timeout_ms as nat,
        ),
        is_setting(vars, "WITNESS_PROBE_RETRIES"@, 255, 1, c.probe_retries as nat),
        lookup(vars, "BIND_HOST"@) matches Some(host) ==> c.bind_host@ == host,
        lookup(vars, "BIND_HOST"@) is None ==> c.bind_host@ == "0.0.0.0"@,
        lookup(vars, "VERBOSE_WITNESS"@) is None ==> !c.verbose,
        lookup(vars, "VERBOSE_WITNESS"@) matches Some(value) ==> c.verbose == says_yes(value),
{
    law_numbers_are_read(vars, "NODE1_HEALTH_PORT"@, 65535, 6101);
    law_numbers_are_read(vars, "NODE2_HEALTH_PORT"@, 65535, 6102);
    law_numbers_are_read(vars, "NODE3_HEALTH_PORT"@, 65535, 6103);
    law_numbers_are_read(vars, "WITNESS_PORT"@, 65535, 9101);
    law_numbers_are_read(vars, "WITNESS_POLL_INTERVAL_MS"@, 0xffff_ffff_ffff_ffff, 500);
    law_numbers_are_read(vars, "WITNESS_PROBE_TIMEOUT_MS"@, 0xffff_ffff_ffff_ffff, 400);
    law_numbers_are_read(vars, "WITNESS_PROBE_RETRIES"@, 255, 1);
}

/// The replicas that a requester is checked against are all others, in order.
pub proof fn law_others_keep_their_order(nodes: Seq<WatchedNodeAddr>, id: u8)
    ensures
        others(nodes, id) == nodes.filter(|node: WatchedNodeAddr| node.id != id),
    decreases nodes.len(),
{
    reveal(Seq::filter);
    if nodes.len() > 0 {
        law_others_keep_their_order(nodes.drop_last(), id);
    }
}

/// The replica with an id is one that bears it, and there is none only where no
/// replica does.
pub proof fn law_watched_node_is_found(nodes: Seq<WatchedNodeAddr>, id: u8)
    ensures
        node_of(nodes, id) matches Some(node) ==> node.id == id && nodes.contains(node),
        node_of(nodes, id) is None ==> forall|i: int|
            0 <= i < nodes.len() ==> (#[trigger] nodes[i]).id != id,
    decreases nodes.len(),
{
    if nodes.len() > 0 {
        let rest = nodes.skip(1);
        law_watched_node_is_found(rest, id);
        if nodes[0].id == id {
            assert(nodes.contains(nodes[0]));
        } else {
            if let Some(node) = node_of(rest, id) {
                let k = choose|k: int| 0 <= k < rest.len() && rest[k] == node;
                assert(nodes[k + 1] == node);
            } else {
                assert forall|i: int| 0 <= i < nodes.len() implies (#[trigger] nodes[i]).id
                    != id by {
                    if i > 0 {
                        assert(rest[i - 1] == nodes[i]);
                    }
                }
            }
        }
    }
}

} // verus!
