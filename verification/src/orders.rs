//! Orders on their way from the sender to the cluster, and what becomes of them.

use crate::auth::{frame_of, payload_of, sign, verify, ClusterKey};
use crate::chance;
use crate::process::config::{name_of, node_name, ClusterConfig};
use crate::process::log_entry::{CommandView, ReplicatedCommand};
use crate::sequence_tracker::{is_prefix_end, SequenceTracker};
use crate::text::{decimal, push_decimal};
use crate::wire;
use crate::wire::{law_order_round_trip, law_order_size, order_in, order_layout};
use vstd::prelude::*;

verus! {

/// One order, as the sender publishes it. The symbol is an index into the list
/// of traded symbols; the side is true for a purchase.
#[derive(Debug, Clone, Copy, PartialEq, Eq, Structural)]
pub struct OrderWire {
    pub order_id: u64,
    pub symbol: u8,
    pub side: bool,
    pub qty: u32,
    pub ts_ms: u64,
}

/// How many symbols are traded.
pub const SYMBOL_COUNT: u8 = 3;

/// The most orders that one batch takes.
pub const BATCH_LIMIT: usize = 20_000;

/// The name of a traded symbol.
pub open spec fn symbol_name(symbol: u8) -> Seq<char> {
    if symbol == 0 {
        "BTC-USDT"@
    } else if symbol == 1 {
        "ETH-USDT"@
    } else if symbol == 2 {
        "SOL-USDT"@
    } else {
        "UNKNOWN"@
    }
}

/// The name of a side.
pub open spec fn side_name(side: bool) -> Seq<char> {
    if side {
        "BUY"@
    } else {
        "SELL"@
    }
}

impl OrderWire {
    pub fn symbol_str(&self) -> (name: &'static str)
        ensures
            name@ == symbol_name(self.symbol),
    {
        match self.symbol {
            0 => "BTC-USDT",
            1 => "ETH-USDT",
            2 => "SOL-USDT",
            _ => "UNKNOWN",
        }
    }

    pub fn side_str(&self) -> (name: &'static str)
        ensures
            name@ == side_name(self.side),
    {
        if self.side {
            "BUY"
        } else {
            "SELL"
        }
    }
}

/// A new order for a random symbol and a random quantity of one to ten.
pub fn random_order(order_id: u64, side: bool, ts_ms: u64) -> (order: OrderWire)
    ensures
        order.order_id == order_id,
        order.side == side,
        order.ts_ms == ts_ms,
        order.symbol < SYMBOL_COUNT,
        1 <= order.qty <= 10,
{
    let symbol: u64 = chance::random_in(0, (SYMBOL_COUNT - 1) as u64);
    let qty: u64 = chance::random_in(1, 10);
    OrderWire { order_id, symbol: symbol as u8, side, qty: qty as u32, ts_ms }
}

/// The signed frame of an order. Whoever has the key finds the order in it.
pub fn order_frame(order: &OrderWire, key: &ClusterKey) -> (frame: Vec<u8>)
    ensures
        frame@ == frame_of(order_layout(*order), key@),
        payload_of(frame@, key@) == Some(order_layout(*order)),
        order_in(order_layout(*order)) == Some(*order),
{
    proof {
        law_order_size(*order);
        law_order_round_trip(*order, Seq::empty());
        assert(order_layout(*order) + Seq::<u8>::empty() =~= order_layout(*order));
    }
    let encoded = wire::encode_order(order);
    sign(encoded.as_slice(), key)
}

/// What a packet on the order channel comes to.
#[derive(Debug, Clone, Copy, PartialEq, Eq, Structural)]
pub enum Ingest {
    /// Its tag is wrong.
    BadTag,
    /// Its tag is right, but it holds no order.
    NoOrder,
    /// Its order was seen before.
    Duplicate,
    /// Its order is new, and to be processed.
    Forward(OrderWire),
}

/// What a packet on the order channel comes to, and how its order is noted.
pub open spec fn order_ingested(
    frame: Seq<u8>,
    key: Seq<u8>,
    before: SequenceTracker,
    after: SequenceTracker,
    ingest: Ingest,
) -> bool {
    match payload_of(frame, key) {
        None => ingest == Ingest::BadTag && after == before,
        Some(payload) => match order_in(payload) {
            None => ingest == Ingest::NoOrder && after == before,
            Some(order) => {
                &&& ingest == (if before@.contains(order.order_id) {
                    Ingest::Duplicate
                } else {
                    Ingest::Forward(order)
                })
                &&& after@ == before@.insert(order.order_id)
                &&& after.highest() == (if order.order_id > before.highest() {
                    order.order_id
                } else {
                    before.highest()
                })
                &&& is_prefix_end(after@, after.watermark())
            },
        },
    }
}

/// Opens a packet on the order channel, and takes note of its order. Each order
/// is forwarded once, however often it arrives.
pub fn ingest_order(frame: &[u8], key: &ClusterKey, tracker: &mut SequenceTracker) -> (ingest: Ingest)
    requires
        old(tracker).wf(),
    ensures
        final(tracker).wf(),
        order_ingested(frame@, key@, *old(tracker), *final(tracker), ingest),
{
    match verify(frame, key) {
        None => Ingest::BadTag,
        Some(payload) => match wire::decode_order(payload) {
            None => Ingest::NoOrder,
            Some(order) => if tracker.mark(order.order_id) {
                Ingest::Forward(order)
            } else {
                Ingest::Duplicate
            },
        },
    }
}

/// What can become of an order.
#[derive(Debug, Clone, Copy, PartialEq, Eq, Structural)]
pub enum Status {
    Filled,
    PartiallyFilled,
    Rejected,
}

/// The name of a status.
pub open spec fn status_name(status: Status) -> Seq<char> {
    match status {
        Status::Filled => "FILLED"@,
        Status::PartiallyFilled => "PARTIALLY_FILLED"@,
        Status::Rejected => "REJECTED"@,
    }
}

/// The outcome of an order as a command, with its status and, unless it is
/// rejected, the quantity that was filled.
pub open spec fn outcome_command(
    order: OrderWire,
    leader: Seq<char>,
    node_id: u8,
    term: u64,
    status: Status,
    filled: u32,
) -> CommandView {
    CommandView {
        order_id: order.order_id,
        symbol: symbol_name(order.symbol),
        side: side_name(order.side),
        qty: order.qty,
        status: status_name(status),
        filled_qty: if status == Status::Rejected {
            0
        } else {
            filled
        },
        processed_by: leader + " (S2-"@ + decimal(node_id as nat) + ")"@,
        term,
    }
}

/// The outcome of an order as a command.
pub fn outcome_of(
    order: &OrderWire,
    leader: &str,
    node_id: u8,
    term: u64,
    status: Status,
    filled: u32,
) -> (command: ReplicatedCommand)
    ensures
        command@ == outcome_command(*order, leader@, node_id, term, status, filled),
{
    let name = match status {
        Status::Filled => "FILLED",
        Status::PartiallyFilled => "PARTIALLY_FILLED",
        Status::Rejected => "REJECTED",
    };
    let filled_qty: u32 = match status {
        Status::Rejected => 0,
        _ => filled,
    };
    let mut processed_by = leader.to_owned();
    processed_by.append(" (S2-");
    push_decimal(&mut processed_by, node_id as u128);
    processed_by.append(")");
    let command = ReplicatedCommand {
        order_id: order.order_id,
        symbol: order.symbol_str().to_owned(),
        side: order.side_str().to_owned(),
        qty: order.qty,
        status: name.to_owned(),
        filled_qty,
        processed_by,
        term,
    };
    proof {
        assert(command@ =~= outcome_command(*order, leader@, node_id, term, status, filled));
    }
    command
}

/// Whether a command is a possible outcome of an order: any status, and any
/// quantity from one to the ordered one unless it is rejected.
pub open spec fn possible_outcome(
    order: OrderWire,
    leader: Seq<char>,
    node_id: u8,
    term: u64,
    command: CommandView,
) -> bool {
    exists|status: Status, filled: u32|
        1 <= filled <= order.qty && command == #[trigger] outcome_command(
            order,
            leader,
            node_id,
            term,
            status,
            filled,
        )
}

/// Decides at random what becomes of each order of a batch.
pub fn process_orders_batch_as_leader(
    config: &ClusterConfig,
    node_id: u8,
    term: u64,
    orders: &Vec<OrderWire>,
) -> (commands: Vec<ReplicatedCommand>)
    requires
        forall|i: int| 0 <= i < orders@.len() ==> (#[trigger] orders@[i]).qty >= 1,
    ensures
        commands@.len() == orders@.len(),
        forall|i: int|
            0 <= i < orders@.len() ==> possible_outcome(
                orders@[i],
                name_of(config.nodes@, node_id),
                node_id,
                term,
                (#[trigger] commands@[i])@,
            ),
{
    let leader = node_name(config, node_id);
    let mut commands: Vec<ReplicatedCommand> = Vec::new();
    let mut i: usize = 0;
    while i < orders.len()
        invariant
            i <= orders@.len(),
            commands@.len() == i,
            leader@ == name_of(config.nodes@, node_id),
            forall|k: int| 0 <= k < orders@.len() ==> (#[trigger] orders@[k]).qty >= 1,
            forall|k: int|
                0 <= k < i ==> possible_outcome(
                    orders@[k],
                    leader@,
                    node_id,
                    term,
                    (#[trigger] commands@[k])@,
                ),
        decreases orders@.len() - i,
    {
        let order = orders[i];
        let draw: u64 = chance::random_in(0, 2);
        let status = if draw == 0 {
            Status::Filled
        } else if draw == 1 {
            Status::PartiallyFilled
        } else {
            Status::Rejected
        };
        assert(orders@[i as int].qty >= 1);
        let filled: u64 = match status {
            Status::Rejected => 1,
            _ => chance::random_in(1, order.qty as u64),
        };
        let command = outcome_of(&order, leader.as_str(), node_id, term, status, filled as u32);
        commands.push(command);
        i = i + 1;
    }
    commands
}

/// Each order is forwarded once: a packet that holds it is forwarded if it was
/// not seen before, and of two packets that hold it never the second. A packet
/// without an order changes nothing.
pub proof fn law_orders_are_forwarded_once(
    order: OrderWire,
    frame: Seq<u8>,
    again: Seq<u8>,
    key: Seq<u8>,
    first: SequenceTracker,
    second: SequenceTracker,
    third: SequenceTracker,
    ingest: Ingest,
    repeated: Ingest,
)
    requires
        order_ingested(frame, key, first, second, ingest),
        order_ingested(again, key, second, third, repeated),
        payload_of(frame, key) == Some(order_layout(order)),
    ensures
        ingest == Ingest::Forward(order) <==> !first@.contains(order.order_id),
        ingest == Ingest::Duplicate <==> first@.contains(order.order_id),
        forall|id: u64| #[trigger]
            second@.contains(id) <==> first@.contains(id) || id == order.order_id,
        payload_of(again, key) == Some(order_layout(order)) ==> repeated == Ingest::Duplicate,
        repeated matches Ingest::Forward(other) ==> other.order_id != order.order_id,
        repeated == Ingest::BadTag || repeated == Ingest::NoOrder ==> third == second,
{
    law_order_size(order);
    law_order_round_trip(order, Seq::empty());
    assert(order_layout(order) + Seq::<u8>::empty() =~= order_layout(order));
}

/// The outcome of an order is about that order: its id, symbol, side and
/// quantity. It is filled with at least one and at most all of it, or rejected
/// with none, and says which.
pub proof fn law_outcomes_fit_their_order(
    order: OrderWire,
    leader: Seq<char>,
    node_id: u8,
    term: u64,
    command: CommandView,
)
    requires
        possible_outcome(order, leader, node_id, term, command),
    ensures
        command.order_id == order.order_id,
        command.symbol == symbol_name(order.symbol),
        command.side == (if order.side {
            "BUY"@
        } else {
            "SELL"@
        }),
        command.qty == order.qty,
        command.term == term,
        command.filled_qty <= order.qty,
        command.filled_qty == 0 <==> command.status == "REJECTED"@,
        command.status == "FILLED"@ || command.status == "PARTIALLY_FILLED"@ || command.status
            == "REJECTED"@,
        command.processed_by == leader + " (S2-"@ + decimal(node_id as nat) + ")"@,
{
    reveal_strlit("FILLED");
    reveal_strlit("PARTIALLY_FILLED");
    reveal_strlit("REJECTED");
    assert("FILLED"@.len() != "REJECTED"@.len());
    assert("PARTIALLY_FILLED"@.len() != "REJECTED"@.len());
}

/// The three traded symbols have names of their own.
pub proof fn law_symbols(symbol: u8)
    ensures
        symbol_name(0) == "BTC-USDT"@,
        symbol_name(1) == "ETH-USDT"@,
        symbol_name(2) == "SOL-USDT"@,
        symbol > 2 ==> symbol_name(symbol) == "UNKNOWN"@,
{
}

} // verus!
