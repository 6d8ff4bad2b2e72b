//! The configuration of the sender.

use crate::environment::{
    first_missing, is_setting, law_numbers_are_read, lookup, number_or, ConfigError, Environment,
    Fixed,
};
use vstd::prelude::*;

verus! {

/// Where one replica takes orders.
#[derive(Debug)]
pub struct S2Node {
    pub host: String,
    pub order_port: u16,
}

#[derive(Debug)]
pub struct SenderConfig {
    pub bind_host: String,
    pub bind_port: u16,
    pub nodes: Vec<S2Node>,
}

/// The variables without a default, in the order in which they are read.
pub open spec fn required_keys() -> Seq<Seq<char>> {
    seq!["BIND_HOST"@, "NODE1_HOST"@, "NODE2_HOST"@, "NODE3_HOST"@]
}

/// Whether a node is what two variables say.
pub open spec fn node_configured(
    vars: Seq<(Seq<char>, Seq<char>)>,
    node: S2Node,
    host: Seq<char>,
    order_port: Seq<char>,
    default: nat,
) -> bool {
    &&& lookup(vars, host) == Some(node.host@)
    &&& node.order_port == number_or(vars, order_port, u16::MAX as nat, default)
}

/// Whether `c` is what the environment says.
pub open spec fn sender_configured(vars: Seq<(Seq<char>, Seq<char>)>, c: SenderConfig) -> bool {
    &&& lookup(vars, "BIND_HOST"@) == Some(c.bind_host@)
    &&& c.bind_port == number_or(vars, "SENDER_BIND_PORT"@, u16::MAX as nat, 9001)
    &&& c.nodes@.len() == 3
    &&& node_configured(vars, c.nodes@[0], "NODE1_HOST"@, "NODE1_ORDER_PORT"@, 7001)
    &&& node_configured(vars, c.nodes@[1], "NODE2_HOST"@, "NODE2_ORDER_PORT"@, 7002)
    &&& node_configured(vars, c.nodes@[2], "NODE3_HOST"@, "NODE3_ORDER_PORT"@, 7003)
}

proof fn lemma_four_keys(vars: Seq<(Seq<char>, Seq<char>)>, keys: Seq<Seq<char>>)
    requires
        keys.len() == 4,
    ensures
        first_missing(vars, keys) == (if lookup(vars, keys[0]) is None {
            Some(keys[0])
        } else if lookup(vars, keys[1]) is None {
            Some(keys[1])
        } else if lookup(vars, keys[2]) is None {
            Some(keys[2])
        } else if lookup(vars, keys[3]) is None {
            Some(keys[3])
        } else {
            None
        }),
{
    reveal_with_fuel(first_missing, 5);
}

/// Reads the configuration. Fails on the first variable that has no default and
/// is not set.
pub fn load_from_env(env: &Environment) -> (config: Result<SenderConfig, ConfigError>)
    ensures
        match config {
            Ok(c) => first_missing(env@, required_keys()) is None && sender_configured(env@, c),
            Err(ConfigError::Missing { key }) => first_missing(env@, required_keys()) == Some(key@),
        },
{
    proof {
        lemma_four_keys(env@, required_keys());
    }
    let bind_host = match env.env_required("BIND_HOST") {
        Ok(host) => host,
        Err(e) => return Err(e),
    };
    let host1 = match env.env_required("NODE1_HOST") {
        Ok(host) => host,
        Err(e) => return Err(e),
    };
    let host2 = match env.env_required("NODE2_HOST") {
        Ok(host) => host,
        Err(e) => return Err(e),
    };
    let host3 = match env.env_required("NODE3_HOST") {
        Ok(host) => host,
        Err(e) => return Err(e),
    };
    let mut nodes: Vec<S2Node> = Vec::new();
    nodes.push(S2Node { host: host1, order_port: env.env_u16("NODE1_ORDER_PORT", 7001) });
    nodes.push(S2Node { host: host2, order_port: env.env_u16("NODE2_ORDER_PORT", 7002) });
    nodes.push(S2Node { host: host3, order_port: env.env_u16("NODE3_ORDER_PORT", 7003) });
    Ok(SenderConfig { bind_host, bind_port: env.env_u16("SENDER_BIND_PORT", 9001), nodes })
}

/// Fixes the configuration of the sender, if it is not fixed yet, to what the
/// environment says, and gives it. What was read first stays, whatever the
/// environment says later.
pub fn init_config<'a>(cell: &'a mut Fixed<SenderConfig>, env: &Environment) -> (config: Result<
    &'a SenderConfig,
    ConfigError,
>)
    ensures
        match old(cell)@ {
            Some(first) => {
                &&& final(cell)@ == Some(first)
                &&& config matches Ok(c)
                &&& *c == first
            },
            None => match config {
                Ok(c) => {
                    &&& final(cell)@ == Some(*c)
                    &&& first_missing(env@, required_keys()) is None
                    &&& sender_configured(env@, *c)
                },
                Err(ConfigError::Missing { key }) => {
                    &&& final(cell)@ is None
                    &&& first_missing(env@, required_keys()) == Some(key@)
                },
            },
        },
{
    if !cell.is_set() {
        match load_from_env(env) {
            Ok(config) => cell.set(config),
            Err(e) => return Err(e),
        }
    }
    Ok(cell.get())
}

/// The settings of the sender are what their variables say.
pub proof fn law_sender_settings(vars: Seq<(Seq<char>, Seq<char>)>, c: SenderConfig)
    requires
        sender_configured(vars, c),
    ensures
        lookup(vars, "BIND_HOST"@) == Some(c.bind_host@),
        is_setting(vars, "SENDER_BIND_PORT"@, 65535, 9001, c.bind_port as nat),
        c.nodes@.len() == 3,
        lookup(vars, "NODE1_HOST"@) == Some(c.nodes@[0].host@),
        lookup(vars, "NODE2_HOST"@) == Some(c.nodes@[1].host@),
        lookup(vars, "NODE3_HOST"@) == Some(c.nodes@[2].host@),
        is_setting(vars, "NODE1_ORDER_PORT"@, 65535, 7001, c.nodes@[0].order_port as nat),
        is_setting(vars, "NODE2_ORDER_PORT"@, 65535, 7002, c.nodes@[1].order_port as nat),
        is_setting(vars, "NODE3_ORDER_PORT"@, 65535, 7003, c.nodes@[2].order_port as nat),
{
    law_numbers_are_read(vars, "SENDER_BIND_PORT"@, 65535, 9001);
    law_numbers_are_read(vars, "NODE1_ORDER_PORT"@, 65535, 7001);
    law_numbers_are_read(vars, "NODE2_ORDER_PORT"@, 65535, 7002);
    law_numbers_are_read(vars, "NODE3_ORDER_PORT"@, 65535, 7003);
}

} // verus!
