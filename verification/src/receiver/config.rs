//! The configuration of the receiver.

use crate::environment::{
    first_missing, is_setting, law_numbers_are_read, lookup, number_or, text_or, ConfigError,
    Environment, Fixed,
};
use vstd::prelude::*;

verus! {

/// Where one replica takes replay requests.
#[derive(Debug)]
pub struct S2NodeAddr {
    pub id: u8,
    pub host: String,
    pub replay_port: u16,
}

#[derive(Debug)]
pub struct ReceiverConfig {
    pub bind_host: String,
    pub bind_port: u16,
    pub s2_nodes: Vec<S2NodeAddr>,
}

/// The variables without a default, in the order in which they are read.
pub open spec fn required_keys() -> Seq<Seq<char>> {
    seq!["NODE1_HOST"@, "NODE2_HOST"@, "NODE3_HOST"@]
}

/// Whether a node is what two variables say.
pub open spec fn node_configured(
    vars: Seq<(Seq<char>, Seq<char>)>,
    node: S2NodeAddr,
    id: u8,
    host: Seq<char>,
    replay_port: Seq<char>,
    default: nat,
) -> bool {
    &&& node.id == id
    &&& lookup(vars, host) == Some(node.host@)
    &&& node.replay_port == number_or(vars, replay_port, u16::MAX as nat, default)
}

/// Whether `c` is what the environment says.
pub open spec fn receiver_configured(vars: Seq<(Seq<char>, Seq<char>)>, c: ReceiverConfig) -> bool {
    &&& c.bind_host@ == text_or(vars, "BIND_HOST"@, "0.0.0.0"@)
    &&& c.bind_port == number_or(vars, "S3_PORT"@, u16::MAX as nat, 8001)
    &&& c.s2_nodes@.len() == 3
    &&& node_configured(vars, c.s2_nodes@[0], 1, "NODE1_HOST"@, "NODE1_REPLAY_PORT"@, 6201)
    &&& node_configured(vars, c.s2_nodes@[1], 2, "NODE2_HOST"@, "NODE2_REPLAY_PORT"@, 6202)
    &&& node_configured(vars, c.s2_nodes@[2], 3, "NODE3_HOST"@, "NODE3_REPLAY_PORT"@, 6203)
}

proof fn lemma_three_keys(vars: Seq<(Seq<char>, Seq<char>)>, keys: Seq<Seq<char>>)
    requires
        keys.len() == 3,
    ensures
        first_missing(vars, keys) == (if lookup(vars, keys[0]) is None {
            Some(keys[0])
        } else if lookup(vars, keys[1]) is None {
            Some(keys[1])
        } else if lookup(vars, keys[2]) is None {
            Some(keys[2])
        } else {
            None
        }),
{
    reveal_with_fuel(first_missing, 4);
}

/// Reads the configuration. Fails on the first variable that has no default and
/// is not set.
pub fn load_from_env(env: &Environment) -> (config: Result<ReceiverConfig, ConfigError>)
    ensures
        match config {
            Ok(c) => first_missing(env@, required_keys()) is None && receiver_configured(env@, c),
            Err(ConfigError::Missing { key }) => first_missing(env@, required_keys()) == Some(key@),
        },
{
    proof {
        lemma_three_keys(env@, required_keys());
    }
    let host1 = match env.env_required("NODE1_HOST") {
        Ok(host) => host,
        Err(e) => return Err(e),
    };
    let host2 = match env.env_required("NODE2_HOST") {
        Ok(host) => host,
        Err(e) => return Err(e),
    };
    let host3 = match env.env_required("NODE3_HOST") {
        Ok(host) => host,
        Err(e) => return Err(e),
    };
    let mut s2_nodes: Vec<S2NodeAddr> = Vec::new();
    s2_nodes.push(
        S2NodeAddr { id: 1, host: host1, replay_port: env.env_u16("NODE1_REPLAY_PORT", 6201) },
    );
    s2_nodes.push(
        S2NodeAddr { id: 2, host: host2, replay_port: env.env_u16("NODE2_REPLAY_PORT", 6202) },
    );
    s2_nodes.push(
        S2NodeAddr { id: 3, host: host3, replay_port: env.env_u16("NODE3_REPLAY_PORT", 6203) },
    );
    Ok(
        ReceiverConfig {
            bind_host: env.env_or("BIND_HOST", "0.0.0.0"),
            bind_port: env.env_u16("S3_PORT", 8001),
            s2_nodes,
        },
    )
}

/// Fixes the configuration of the receiver, if it is not fixed yet, to what the
/// environment says, and gives it. What was read first stays, whatever the
/// environment says later.
pub fn init_config<'a>(cell: &'a mut Fixed<ReceiverConfig>, env: &Environment) -> (config: Result<
    &'a ReceiverConfig,
    ConfigError,
>)
    ensures
        match old(cell)@ {
            Some(first) => {
                &&& final(cell)@ == Some(first)
                &&& config matches Ok(c)
                &&& *c == first
            },
            None => match config {
                Ok(c) => {
                    &&& final(cell)@ == Some(*c)
                    &&& first_missing(env@, required_keys()) is None
                    &&& receiver_configured(env@, *c)
                },
                Err(ConfigError::Missing { key }) => {
                    &&& final(cell)@ is None
                    &&& first_missing(env@, required_keys()) == Some(key@)
                },
            },
        },
{
    if !cell.is_set() {
        match load_from_env(env) {
            Ok(config) => cell.set(config),
            Err(e) => return Err(e),
        }
    }
    Ok(cell.get())
}

/// The settings of the receiver are what their variables say.
pub proof fn law_receiver_settings(
    vars: Seq<(Seq<char>, Seq<char>)>,
    c: ReceiverConfig,
    k: int,
)
    requires
        receiver_configured(vars, c),
        0 <= k < 3,
    ensures
        lookup(vars, "BIND_HOST"@) matches Some(host) ==> c.bind_host@ == host,
        lookup(vars, "BIND_HOST"@) is None ==> c.bind_host@ == "0.0.0.0"@,
        is_setting(vars, "S3_PORT"@, 65535, 8001, c.bind_port as nat),
        c.s2_nodes@.len() == 3,
        c.s2_nodes@[k].id == k + 1,
        lookup(vars, "NODE1_HOST"@) == Some(c.s2_nodes@[0].host@),
        lookup(vars, "NODE2_HOST"@) == Some(c.s2_nodes@[1].host@),
        lookup(vars, "NODE3_HOST"@) == Some(c.s2_nodes@[2].host@),
        is_setting(vars, "NODE1_REPLAY_PORT"@, 65535, 6201, c.s2_nodes@[0].replay_port as nat),
        is_setting(vars, "NODE2_REPLAY_PORT"@, 65535, 6202, c.s2_nodes@[1].replay_port as nat),
        is_setting(vars, "NODE3_REPLAY_PORT"@, 65535, 6203, c.s2_nodes@[2].replay_port as nat),
{
    law_numbers_are_read(vars, "S3_PORT"@, 65535, 8001);
    law_numbers_are_read(vars, "NODE1_REPLAY_PORT"@, 65535, 6201);
    law_numbers_are_read(vars, "NODE2_REPLAY_PORT"@, 65535, 6202);
    law_numbers_are_read(vars, "NODE3_REPLAY_PORT"@, 65535, 6203);
}

} // verus!
