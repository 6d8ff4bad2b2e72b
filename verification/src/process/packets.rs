//! Packets between the replicas, and on their replay channel.

use crate::auth::{frame_of, payload_of, sign, verify, ClusterKey};
use crate::process::message::{
    decode_message, encode_message, law_message_round_trip, message_in, message_layout, Message,
    MessageView,
};
use crate::replay::{open_request, Incoming};
use crate::wire::{law_request_round_trip, request_in, request_layout};
use vstd::prelude::*;

verus! {

/// What a packet on the control channel comes to.
#[derive(Debug)]
pub enum Packet {
    /// It is not from a node of the cluster.
    UnknownSource,
    /// Its tag is wrong.
    BadTag,
    /// Its tag is right, but it holds no message.
    NoMessage,
    Message(Message),
}

/// The signed frame of a message. Whoever has the key finds the message in it.
pub fn message_frame(message: &Message, key: &ClusterKey) -> (frame: Vec<u8>)
    ensures
        frame@ == frame_of(message_layout(message@), key@),
        message_layout(message@).len() < 0x1_0000_0000 ==> {
            &&& payload_of(frame@, key@) == Some(message_layout(message@))
            &&& message_in(message_layout(message@)) == Some(message@)
        },
{
    proof {
        let layout = message_layout(message@);
        if layout.len() < 0x1_0000_0000 {
            law_message_round_trip(message@, Seq::empty());
            assert(layout + Seq::<u8>::empty() =~= layout);
        }
    }
    let encoded = encode_message(message);
    sign(encoded.as_slice(), key)
}

/// What a packet on the control channel comes to.
pub open spec fn packet_opened(
    known_source: bool,
    frame: Seq<u8>,
    key: Seq<u8>,
    packet: Packet,
) -> bool {
    if !known_source {
        packet is UnknownSource
    } else {
        match payload_of(frame, key) {
            None => packet is BadTag,
            Some(payload) => match message_in(payload) {
                None => packet is NoMessage,
                Some(message) => packet matches Packet::Message(m) && m@ == message,
            },
        }
    }
}

/// Opens a packet on the control channel. Nothing is decoded that is not from a
/// node of the cluster and authenticated.
pub fn open_packet(known_source: bool, frame: &[u8], key: &ClusterKey) -> (packet: Packet)
    ensures
        packet_opened(known_source, frame@, key@, packet),
{
    if !known_source {
        return Packet::UnknownSource;
    }
    match verify(frame, key) {
        None => Packet::BadTag,
        Some(payload) => match decode_message(payload) {
            None => Packet::NoMessage,
            Some(message) => Packet::Message(message),
        },
    }
}

/// What a packet on the replay channel comes to.
#[derive(Debug)]
pub enum ReplayWork {
    /// Its tag is wrong.
    BadTag,
    /// It holds no request, or this replica does not lead.
    Nothing,
    /// These ranges are to be published again.
    Publish { ranges: Vec<(u64, u64)> },
}

/// What a packet on the replay channel comes to.
pub open spec fn replay_opened(
    frame: Seq<u8>,
    key: Seq<u8>,
    leads: bool,
    work: ReplayWork,
) -> bool {
    match payload_of(frame, key) {
        None => work is BadTag,
        Some(payload) => match request_in(payload) {
            Some((_, wanted)) if leads => {
                work matches ReplayWork::Publish { ranges } && ranges@ == wanted
            },
            _ => work is Nothing,
        },
    }
}

/// Opens a packet on the replay channel. Only the leader acts on a request;
/// the other replicas stay silent.
pub fn open_replay_packet(frame: &[u8], key: &ClusterKey, leads: bool) -> (work: ReplayWork)
    ensures
        replay_opened(frame@, key@, leads, work),
{
    match open_request(frame, key) {
        Incoming::BadTag => ReplayWork::BadTag,
        Incoming::NoRequest => ReplayWork::Nothing,
        Incoming::Request(request) => if leads {
            ReplayWork::Publish { ranges: request.ranges }
        } else {
            ReplayWork::Nothing
        },
    }
}

/// A message that arrives from a node of the cluster as it was signed is that
/// message. One from elsewhere, or whose tag is wrong, is never taken for one.
pub proof fn law_messages_arrive(
    message: MessageView,
    known_source: bool,
    frame: Seq<u8>,
    key: Seq<u8>,
    packet: Packet,
)
    requires
        packet_opened(known_source, frame, key, packet),
        message_layout(message).len() <= u64::MAX,
    ensures
        known_source && payload_of(frame, key) == Some(message_layout(message)) ==> (
        packet matches Packet::Message(m) && m@ == message),
        !known_source ==> packet is UnknownSource,
        packet is Message ==> known_source && payload_of(frame, key) is Some,
        known_source && payload_of(frame, key) is None ==> packet is BadTag,
{
    law_message_round_trip(message, Seq::empty());
    assert(message_layout(message) + Seq::<u8>::empty() =~= message_layout(message));
}

/// The leader acts on every range of a request that arrives as it was signed, and
/// no other replica on any.
pub proof fn law_leaders_serve_requests(
    requester_id: u8,
    ranges: Seq<(u64, u64)>,
    frame: Seq<u8>,
    key: Seq<u8>,
    leads: bool,
    work: ReplayWork,
)
    requires
        replay_opened(frame, key, leads, work),
        request_layout(requester_id, ranges).len() <= u64::MAX,
    ensures
        leads && payload_of(frame, key) == Some(request_layout(requester_id, ranges)) ==> (
        work matches ReplayWork::Publish { ranges: wanted } && wanted@ == ranges),
        !leads ==> !(work is Publish),
        payload_of(frame, key) is None ==> work is BadTag,
{
    law_request_round_trip(requester_id, ranges, Seq::empty());
    assert(request_layout(requester_id, ranges) + Seq::<u8>::empty() =~= request_layout(
        requester_id,
        ranges,
    ));
}

} // verus!
