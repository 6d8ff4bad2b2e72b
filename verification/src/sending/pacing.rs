//! How fast the sender goes, and when it gives up.

use crate::environment::{number_or, Environment};
use crate::orders::OrderWire;
use vstd::prelude::*;

verus! {

/// The rate of the sender, and its resources.
#[derive(Debug, Clone, Copy, PartialEq, Eq, Structural)]
pub struct Pacing {
    pub target_tps: u64,
    pub threads: u64,
    pub channel_capacity: u64,
}

/// The least capacity of a channel.
pub const MIN_CHANNEL_CAPACITY: u64 = 10_000;

/// How often an offer is repeated while it may still succeed.
pub const MAX_BACKPRESSURE_RETRIES: u32 = 100_000;

/// What one record is taken to weigh in a batch.
pub const RECORD_ESTIMATE: usize = 32;

/// The weight at which a batch is written.
pub const FLUSH_BYTES: usize = 65_536;

/// Whether the variables give this pacing.
pub open spec fn pacing_configured(vars: Seq<(Seq<char>, Seq<char>)>, pacing: Pacing) -> bool {
    &&& pacing.target_tps == number_or(vars, "TARGET_TPS"@, u64::MAX as nat, 5000)
    &&& pacing.threads == number_or(vars, "SENDER_THREADS"@, usize::MAX as nat, 8)
    &&& pacing.channel_capacity == (if pacing.target_tps > MIN_CHANNEL_CAPACITY {
        pacing.target_tps
    } else {
        MIN_CHANNEL_CAPACITY
    })
}

/// Reads the rate of the sender.
pub fn load_pacing(env: &Environment) -> (pacing: Pacing)
    ensures
        pacing_configured(env@, pacing),
{
    let target_tps: u64 = env.env_u64("TARGET_TPS", 5000);
    let threads: u64 = env.env_number("SENDER_THREADS", usize::MAX as u64, 8);
    let channel_capacity: u64 = if target_tps > MIN_CHANNEL_CAPACITY {
        target_tps
    } else {
        MIN_CHANNEL_CAPACITY
    };
    Pacing { target_tps, threads, channel_capacity }
}

/// How far a generator is ahead of its rate.
pub open spec fn wait_of(sent: u64, nanos_per_order: u64, spent: u128) -> int {
    if sent * nanos_per_order > spent {
        sent * nanos_per_order - spent
    } else {
        0
    }
}

/// How long a generator waits after its `sent`-th order so as not to run ahead
/// of its rate, in nanoseconds.
pub fn pace_wait(sent: u64, nanos_per_order: u64, spent: u128) -> (wait: u128)
    ensures
        wait == wait_of(sent, nanos_per_order, spent),
{
    proof {
        assert(sent as int * nanos_per_order as int <= u128::MAX) by (nonlinear_arith)
            requires
                0 <= sent <= u64::MAX,
                0 <= nanos_per_order <= u64::MAX,
        ;
    }
    let expected: u128 = sent as u128 * nanos_per_order as u128;
    if expected > spent {
        expected - spent
    } else {
        0
    }
}

/// Whether a failed offer is repeated.
pub open spec fn is_repeated(retryable: bool, retries: u32) -> bool {
    retryable && retries < MAX_BACKPRESSURE_RETRIES
}

/// Whether a failed offer is repeated: it may still succeed, and has not been
/// repeated too often.
pub fn offers_again(retryable: bool, retries: u32) -> (again: bool)
    ensures
        again == is_repeated(retryable, retries),
{
    retryable && retries < MAX_BACKPRESSURE_RETRIES
}

/// How a batch takes an order: once it is heavy enough it is given away.
pub open spec fn order_pushed(
    before: Seq<OrderWire>,
    order: OrderWire,
    after: Seq<OrderWire>,
    full: Option<Vec<OrderWire>>,
) -> bool {
    let grown = before.push(order);
    if grown.len() * RECORD_ESTIMATE >= FLUSH_BYTES {
        &&& full matches Some(orders)
        &&& orders@ == grown
        &&& after == Seq::<OrderWire>::empty()
    } else {
        full is None && after == grown
    }
}

/// How a batch is given away, if there is one.
pub open spec fn batch_flushed(
    before: Seq<OrderWire>,
    after: Seq<OrderWire>,
    orders: Option<Vec<OrderWire>>,
) -> bool {
    &&& after == Seq::<OrderWire>::empty()
    &&& orders is Some <==> before.len() > 0
    &&& orders matches Some(o) ==> o@ == before
}

/// Orders that wait to be written together.
pub struct SendBatch {
    orders: Vec<OrderWire>,
}

impl View for SendBatch {
    type V = Seq<OrderWire>;

    closed spec fn view(&self) -> Seq<OrderWire> {
        self.orders@
    }
}

impl SendBatch {
    pub open spec fn wf(self) -> bool {
        self@.len() * RECORD_ESTIMATE < FLUSH_BYTES
    }

    pub fn new() -> (batch: Self)
        ensures
            batch.wf(),
            batch@ == Seq::<OrderWire>::empty(),
    {
        let batch = SendBatch { orders: Vec::new() };
        proof {
            assert(batch@ =~= Seq::<OrderWire>::empty());
        }
        batch
    }

    /// Adds an order. Gives the batch away once it is heavy enough.
    pub fn push(&mut self, order: OrderWire) -> (full: Option<Vec<OrderWire>>)
        requires
            old(self).wf(),
        ensures
            final(self).wf(),
            order_pushed(old(self)@, order, final(self)@, full),
    {
        self.orders.push(order);
        if self.orders.len() * RECORD_ESTIMATE >= FLUSH_BYTES {
            self.flush()
        } else {
            None
        }
    }

    /// Gives the batch away, if there is one.
    pub fn flush(&mut self) -> (orders: Option<Vec<OrderWire>>)
        ensures
            batch_flushed(old(self)@, final(self)@, orders),
    {
        let mut given: Vec<OrderWire> = Vec::new();
        std::mem::swap(&mut given, &mut self.orders);
        proof {
            assert(self@ =~= Seq::<OrderWire>::empty());
        }
        if given.len() > 0 {
            Some(given)
        } else {
            None
        }
    }
}

/// A generator that waits as long as it is told keeps to its rate: when it goes
/// on, its orders have taken their time, and where it waits at all, no more.
pub proof fn law_pace_is_kept(sent: u64, nanos_per_order: u64, spent: u128)
    ensures
        ({
            let wait = wait_of(sent, nanos_per_order, spent);
            &&& wait >= 0
            &&& spent + wait >= sent * nanos_per_order
            &&& wait > 0 ==> spent + wait == sent * nanos_per_order
        }),
{
}

/// An offer that cannot succeed is not repeated; one that may is repeated a
/// hundred thousand times at most.
pub proof fn law_offers_end(retryable: bool, retries: u32)
    ensures
        is_repeated(retryable, retries) ==> retryable && retries < 100_000,
        retryable && retries < 100_000 ==> is_repeated(retryable, retries),
{
}

/// No order is lost in a batch and none is moved: what is given away and what
/// stays are together what was there, with the new order behind it. The batch
/// is given away with its 2048th order, and when it is flushed.
pub proof fn law_batches_lose_nothing(
    before: Seq<OrderWire>,
    order: OrderWire,
    after: Seq<OrderWire>,
    full: Option<Vec<OrderWire>>,
    flushed: Seq<OrderWire>,
    rest: Option<Vec<OrderWire>>,
)
    requires
        order_pushed(before, order, after, full),
        batch_flushed(after, flushed, rest),
    ensures
        full is Some <==> before.len() + 1 >= 2048,
        full matches Some(orders) ==> orders@ == before.push(order) && after.len() == 0,
        full is None ==> after == before.push(order),
        rest is Some <==> after.len() > 0,
        rest matches Some(orders) ==> orders@ == after,
        flushed.len() == 0,
{
}

/// The channels of the sender hold a second's worth of orders, and ten thousand
/// at least.
pub proof fn law_channels_have_room(vars: Seq<(Seq<char>, Seq<char>)>, pacing: Pacing)
    requires
        pacing_configured(vars, pacing),
    ensures
        pacing.channel_capacity >= 10_000,
        pacing.channel_capacity >= pacing.target_tps,
        pacing.channel_capacity == 10_000 || pacing.channel_capacity == pacing.target_tps,
        pacing.target_tps == number_or(vars, "TARGET_TPS"@, 0xffff_ffff_ffff_ffff, 5000),
        pacing.threads == number_or(vars, "SENDER_THREADS"@, usize::MAX as nat, 8),
{
}

} // verus!
