//! Where the services keep their files and reach each other.

use crate::environment::{lookup, Environment};
use crate::text::{decimal, law_decimals_differ, push_decimal};
use vstd::prelude::*;

verus! {

/// The stream of orders.
pub const ORDER_STREAM_ID: i32 = 1001;

/// The stream of results.
pub const RESULT_STREAM_ID: i32 = 2001;

/// The channel to one endpoint.
pub open spec fn channel_of(host: Seq<char>, port: u16) -> Seq<char> {
    "aeron:udp?endpoint="@ + host + ":"@ + decimal(port as nat)
}

/// The channel to one endpoint.
pub fn udp_channel(host: &str, port: u16) -> (channel: String)
    ensures
        channel@ == channel_of(host@, port),
{
    let mut channel = "aeron:udp?endpoint=".to_owned();
    channel.append(host);
    channel.append(":");
    push_decimal(&mut channel, port as u128);
    channel
}

/// The directory of the media driver.
pub open spec fn aeron_dir_of(vars: Seq<(Seq<char>, Seq<char>)>, uid: u32) -> Seq<char> {
    match lookup(vars, "AERON_DIR"@) {
        Some(dir) => dir,
        None => "/dev/shm/aeron-"@ + decimal(uid as nat),
    }
}

/// The directory of the media driver: `AERON_DIR` where it is set, otherwise one
/// that bears the id of the user.
pub fn aeron_dir(env: &Environment, uid: u32) -> (dir: String)
    ensures
        dir@ == aeron_dir_of(env@, uid),
{
    match env.var("AERON_DIR") {
        Some(dir) => dir,
        None => {
            let mut dir = "/dev/shm/aeron-".to_owned();
            push_decimal(&mut dir, uid as u128);
            dir
        },
    }
}

/// The directory and the file of a replica's log.
pub open spec fn wal_place(vars: Seq<(Seq<char>, Seq<char>)>, node_id: u8) -> (
    Seq<char>,
    Seq<char>,
) {
    match lookup(vars, "ORDER_PROCESS_DATA_DIR"@) {
        Some(dir) => (dir, "orders-processed-s2-"@ + decimal(node_id as nat) + ".log"@),
        None => ("logs"@, "orders-processed.log"@),
    }
}

/// The directory and the file of a replica's log. Replicas that share a
/// directory, which `ORDER_PROCESS_DATA_DIR` names, bear their id in the name of
/// the file.
pub fn wal_location(env: &Environment, node_id: u8) -> (location: (String, String))
    ensures
        (location.0@, location.1@) == wal_place(env@, node_id),
{
    match env.var("ORDER_PROCESS_DATA_DIR") {
        Some(dir) => {
            let mut file = "orders-processed-s2-".to_owned();
            push_decimal(&mut file, node_id as u128);
            file.append(".log");
            (dir, file)
        },
        None => ("logs".to_owned(), "orders-processed.log".to_owned()),
    }
}

/// Replicas that share a directory keep their logs in files of their own, in the
/// directory that was named. A replica without one keeps its log in `logs`.
pub proof fn law_logs_are_kept_apart(vars: Seq<(Seq<char>, Seq<char>)>, a: u8, b: u8)
    ensures
        lookup(vars, "ORDER_PROCESS_DATA_DIR"@) matches Some(dir) ==> {
            &&& wal_place(vars, a).0 == dir
            &&& a != b ==> wal_place(vars, a).1 != wal_place(vars, b).1
        },
        lookup(vars, "ORDER_PROCESS_DATA_DIR"@) is None ==> wal_place(vars, a) == (
            "logs"@,
            "orders-processed.log"@,
        ),
{
    if wal_place(vars, a).1 == wal_place(vars, b).1 && lookup(vars, "ORDER_PROCESS_DATA_DIR"@)
        is Some {
        lemma_number_between("orders-processed-s2-"@, a as nat, b as nat, ".log"@);
    }
}

/// A number between two texts is told by the whole.
proof fn lemma_number_between(head: Seq<char>, a: nat, b: nat, tail: Seq<char>)
    requires
        head + decimal(a) + tail == head + decimal(b) + tail,
    ensures
        a == b,
{
    let x = decimal(a);
    let y = decimal(b);
    let one = head + x + tail;
    let two = head + y + tail;
    assert(one.len() == head.len() + x.len() + tail.len());
    assert(two.len() == head.len() + y.len() + tail.len());
    assert forall|i: int| 0 <= i < x.len() implies x[i] == y[i] by {
        assert(one[head.len() + i] == x[i]);
        assert(two[head.len() + i] == y[i]);
    }
    assert(x =~= y);
    law_decimals_differ(a, b);
}

/// Users have directories of their own for the media driver, unless one is named.
pub proof fn law_drivers_are_kept_apart(vars: Seq<(Seq<char>, Seq<char>)>, a: u32, b: u32)
    ensures
        lookup(vars, "AERON_DIR"@) matches Some(dir) ==> aeron_dir_of(vars, a) == dir,
        lookup(vars, "AERON_DIR"@) is None && a != b ==> aeron_dir_of(vars, a) != aeron_dir_of(
            vars,
            b,
        ),
{
    let head = "/dev/shm/aeron-"@;
    if head + decimal(a as nat) == head + decimal(b as nat) {
        assert(head + decimal(a as nat) + Seq::<char>::empty() =~= head + decimal(a as nat));
        assert(head + decimal(b as nat) + Seq::<char>::empty() =~= head + decimal(b as nat));
        lemma_number_between(head, a as nat, b as nat, Seq::empty());
    }
}

/// Channels to different ports of one host differ.
pub proof fn law_channels_differ(host: Seq<char>, a: u16, b: u16)
    requires
        channel_of(host, a) == channel_of(host, b),
    ensures
        a == b,
{
    let head = "aeron:udp?endpoint="@ + host + ":"@;
    assert(head + decimal(a as nat) + Seq::<char>::empty() =~= head + decimal(a as nat));
    assert(head + decimal(b as nat) + Seq::<char>::empty() =~= head + decimal(b as nat));
    lemma_number_between(head, a as nat, b as nat, Seq::empty());
}

} // verus!
