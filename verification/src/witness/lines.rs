//! What the witness shows of the cluster.

use crate::text::{decimal, push_decimal};
use crate::witness::config::{WatchedNodeAddr, WitnessConfig};
use crate::witness::corroboration::{requester_label, requester_label_of};
use crate::witness::health_poll::Report;
use vstd::prelude::*;

verus! {

/// A line of a log behind the time.
pub open spec fn stamped_of(now_ms: u128, line: Seq<char>) -> Seq<char> {
    decimal(now_ms as nat) + ","@ + line
}

/// A line of a log behind the time.
pub fn stamped(now_ms: u128, line: &str) -> (stamped: String)
    ensures
        stamped@ == stamped_of(now_ms, line@),
{
    let mut text = String::new();
    push_decimal(&mut text, now_ms);
    proof {
        assert(text@ =~= decimal(now_ms as nat));
    }
    text.append(",");
    text.append(line);
    text
}

/// How a replica that is watched is shown: its name, and where it is probed.
pub open spec fn watched_text(node: WatchedNodeAddr) -> Seq<char> {
    node.name@ + " ("@ + node.host@ + ":"@ + decimal(node.health_port as nat) + ")"@
}

/// The replicas that are watched, in order.
pub open spec fn watched_list(nodes: Seq<WatchedNodeAddr>) -> Seq<char>
    decreases nodes.len(),
{
    if nodes.len() == 0 {
        Seq::empty()
    } else if nodes.len() == 1 {
        watched_text(nodes[0])
    } else {
        watched_list(nodes.drop_last()) + ", "@ + watched_text(nodes.last())
    }
}

fn push_watched(text: &mut String, node: &WatchedNodeAddr)
    ensures
        final(text)@ == old(text)@ + watched_text(*node),
{
    text.append(node.name.as_str());
    text.append(" (");
    text.append(node.host.as_str());
    text.append(":");
    push_decimal(text, node.health_port as u128);
    text.append(")");
    proof {
        assert(text@ =~= old(text)@ + watched_text(*node));
    }
}

/// The replicas that are watched.
pub fn watched(config: &WitnessConfig) -> (list: String)
    ensures
        list@ == watched_list(config.nodes@),
{
    let mut list = String::new();
    let mut i: usize = 0;
    proof {
        assert(list@ =~= watched_list(config.nodes@.take(0)));
    }
    while i < config.nodes.len()
        invariant
            i <= config.nodes@.len(),
            list@ == watched_list(config.nodes@.take(i as int)),
        decreases config.nodes@.len() - i,
    {
        let ghost before = list@;
        proof {
            let done = config.nodes@.take(i + 1);
            assert(done.drop_last() =~= config.nodes@.take(i as int));
            assert(done.last() == config.nodes@[i as int]);
        }
        if i > 0 {
            list.append(", ");
        }
        push_watched(&mut list, &config.nodes[i]);
        proof {
            if i == 0 {
                assert(list@ =~= watched_text(config.nodes@[0]));
            }
        }
        i = i + 1;
    }
    proof {
        assert(config.nodes@.take(i as int) =~= config.nodes@);
    }
    list
}

/// How the believed leader is shown.
pub open spec fn leader_text(nodes: Seq<WatchedNodeAddr>, believed: Option<u8>) -> Seq<char> {
    match believed {
        Some(id) => requester_label_of(nodes, id),
        None => "none"@,
    }
}

/// How the believed leader is shown.
pub fn leader_label(config: &WitnessConfig, believed: Option<u8>) -> (label: String)
    ensures
        label@ == leader_text(config.nodes@, believed),
{
    match believed {
        Some(id) => requester_label(config, id),
        None => "none".to_owned(),
    }
}

/// The line that says who is believed to lead from now on.
pub fn leader_line(config: &WitnessConfig, believed: Option<u8>) -> (line: String)
    ensures
        line@ == "leader is now "@ + leader_text(config.nodes@, believed),
{
    let mut line = "leader is now ".to_owned();
    line.append(leader_label(config, believed).as_str());
    line
}

/// The line that says that every replica is reached.
pub fn status_line(config: &WitnessConfig, believed: Option<u8>) -> (line: String)
    ensures
        line@ == "all "@ + decimal(config.nodes@.len()) + " nodes reachable, leader="@
            + leader_text(config.nodes@, believed),
{
    let mut line = "all ".to_owned();
    push_decimal(&mut line, config.nodes.len() as u128);
    line.append(" nodes reachable, leader=");
    line.append(leader_label(config, believed).as_str());
    line
}

/// How one replica that says that it leads is shown: with its term.
pub open spec fn claim_text(nodes: Seq<WatchedNodeAddr>, claim: Report) -> Seq<char> {
    requester_label_of(nodes, claim.node_id) + " (term "@ + decimal(claim.term as nat) + ")"@
}

/// The replicas that say that they lead, in order.
pub open spec fn claims_text(nodes: Seq<WatchedNodeAddr>, claims: Seq<Report>) -> Seq<char>
    decreases claims.len(),
{
    if claims.len() == 0 {
        Seq::empty()
    } else if claims.len() == 1 {
        claim_text(nodes, claims[0])
    } else {
        claims_text(nodes, claims.drop_last()) + ", "@ + claim_text(nodes, claims.last())
    }
}

fn push_claim(text: &mut String, config: &WitnessConfig, claim: Report)
    ensures
        final(text)@ == old(text)@ + claim_text(config.nodes@, claim),
{
    text.append(requester_label(config, claim.node_id).as_str());
    text.append(" (term ");
    push_decimal(text, claim.term as u128);
    text.append(")");
    proof {
        assert(text@ =~= old(text)@ + claim_text(config.nodes@, claim));
    }
}

/// The line that warns that several replicas say that they lead. It names each of
/// them, and its term.
pub fn conflict_line(config: &WitnessConfig, claims: &Vec<Report>) -> (line: String)
    ensures
        line@ == "WARNING: several nodes report LEADER: "@ + claims_text(
            config.nodes@,
            claims@,
        ),
{
    let mut line = "WARNING: several nodes report LEADER: ".to_owned();
    let ghost start = line@;
    let mut i: usize = 0;
    proof {
        assert(line@ =~= start + claims_text(config.nodes@, claims@.take(0)));
    }
    while i < claims.len()
        invariant
            i <= claims@.len(),
            start == "WARNING: several nodes report LEADER: "@,
            line@ == start + claims_text(config.nodes@, claims@.take(i as int)),
        decreases claims@.len() - i,
    {
        proof {
            let done = claims@.take(i + 1);
            assert(done.drop_last() =~= claims@.take(i as int));
            assert(done.last() == claims@[i as int]);
        }
        if i > 0 {
            line.append(", ");
        }
        push_claim(&mut line, config, claims[i]);
        i = i + 1;
        proof {
            assert(line@ =~= start + claims_text(config.nodes@, claims@.take(i as int)));
        }
    }
    proof {
        assert(claims@.take(i as int) =~= claims@);
    }
    line
}

} // verus!
