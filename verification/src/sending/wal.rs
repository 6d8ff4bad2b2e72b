//! The durable record of every order that was sent.
//!
//! The file holds one record for each order, behind the four bytes of its
//! length. In memory there is only an index from order ids to offsets. Replay
//! requests are served from the file; after a restart the order ids go on
//! behind the highest one that it holds.

use crate::bytes::{
    le_bytes, le_value, lemma_byte_span, lemma_le_value, low_u32, push_u32_le, read_u32_le,
    truncated,
};
use crate::orders::OrderWire;
use crate::wire;
use crate::wire::{lemma_order_in, order_in, order_layout, reads_order};
use std::collections::HashMap;
use vstd::prelude::*;
use vstd::slice::slice_subrange;

verus! {

broadcast use {vstd::std_specs::hash::group_hash_axioms, crate::bytes::lemma_le_len};

/// The size of the record of an order.
pub const RECORD_SIZE: u64 = 26;

/// One record: the size of the order, then the order.
pub open spec fn record(o: OrderWire) -> Seq<u8> {
    le_bytes(order_layout(o).len() % 0x1_0000_0000, 4) + order_layout(o)
}

/// Records one after the other.
pub open spec fn records(orders: Seq<OrderWire>) -> Seq<u8>
    decreases orders.len(),
{
    if orders.len() == 0 {
        Seq::empty()
    } else {
        records(orders.drop_last()) + record(orders.last())
    }
}

/// The order in the record that `bytes` begin with, if it is complete and holds
/// one.
pub open spec fn record_order(bytes: Seq<u8>) -> Option<OrderWire> {
    if truncated(bytes) {
        None
    } else {
        order_in(bytes.subrange(4, 4 + le_value(bytes.take(4)) as int))
    }
}

/// What is known of a file after reading some of its records: where each order
/// is, the highest order id, and where the reading stands.
#[verifier::ext_equal]
pub struct Scan {
    pub index: Map<u64, u64>,
    pub last: u64,
    pub end: int,
}

/// What is known of a file after reading on to its end, or to a truncated
/// record. A record that holds no order is skipped; of several records of one
/// order the last one counts.
pub open spec fn scan(raw: Seq<u8>, known: Scan) -> Scan
    decreases raw.len() - known.end,
{
    let rest = raw.skip(known.end);
    if known.end < 0 || known.end > raw.len() || truncated(rest) {
        known
    } else {
        let end = known.end + 4 + le_value(rest.take(4));
        match record_order(rest) {
            Some(o) => scan(
                raw,
                Scan {
                    index: known.index.insert(o.order_id, known.end as u64),
                    last: if o.order_id > known.last {
                        o.order_id
                    } else {
                        known.last
                    },
                    end,
                },
            ),
            None => scan(raw, Scan { end, ..known }),
        }
    }
}

/// What is known before anything was read.
pub open spec fn nothing_read() -> Scan {
    Scan { index: Map::empty(), last: 0, end: 0 }
}

/// The index once the records of `orders` stand at `offset`.
pub open spec fn index_after(
    index: Map<u64, u64>,
    offset: u64,
    orders: Seq<OrderWire>,
) -> Map<u64, u64>
    decreases orders.len(),
{
    if orders.len() == 0 {
        index
    } else {
        index_after(index, offset, orders.drop_last()).insert(
            orders.last().order_id,
            (offset + RECORD_SIZE * (orders.len() - 1)) as u64,
        )
    }
}

/// The highest of `last` and the ids of `orders`.
pub open spec fn last_after(last: u64, orders: Seq<OrderWire>) -> u64
    decreases orders.len(),
{
    if orders.len() == 0 {
        last
    } else {
        let before = last_after(last, orders.drop_last());
        if orders.last().order_id > before {
            orders.last().order_id
        } else {
            before
        }
    }
}

/// The index of the sender's file.
pub struct SenderWal {
    index: HashMap<u64, u64>,
    next_offset: u64,
    last_order_id: u64,
}

/// Appends the record of an order to `buf`.
pub fn write_framed(buf: &mut Vec<u8>, order: &OrderWire)
    ensures
        final(buf)@ == old(buf)@ + record(*order),
{
    let encoded = wire::encode_order(order);
    push_u32_le(buf, low_u32(encoded.len()));
    buf.extend_from_slice(encoded.as_slice());
    proof {
        assert(buf@ =~= old(buf)@ + record(*order));
    }
}

/// How many bytes of a record follow its first four.
pub fn body_len(head: &[u8]) -> (len: u32)
    requires
        head@.len() >= 4,
    ensures
        len == le_value(head@.take(4)),
{
    let len: u32 = read_u32_le(head, 0);
    proof {
        lemma_byte_span();
        lemma_le_value(len as nat, 4);
        assert(head@.take(4) =~= head@.subrange(0, 4));
    }
    len
}

/// The order in the record that `bytes` begin with.
pub fn read_record(bytes: &[u8]) -> (order: Option<OrderWire>)
    ensures
        order == record_order(bytes@),
{
    if bytes.len() < 4 {
        return None;
    }
    let len: u32 = body_len(bytes);
    if len as usize > bytes.len() - 4 {
        return None;
    }
    wire::decode_order(slice_subrange(bytes, 4, 4 + len as usize))
}

impl SenderWal {
    /// Where each order stands in the file.
    pub closed spec fn index(self) -> Map<u64, u64> {
        self.index@
    }

    /// Where the next record goes.
    pub closed spec fn end(self) -> u64 {
        self.next_offset
    }

    /// The highest order id.
    pub closed spec fn last(self) -> u64 {
        self.last_order_id
    }

    /// Reads the index of a file.
    pub fn open_in(raw: &[u8]) -> (wal: SenderWal)
        ensures
            ({
                let read = scan(raw@, nothing_read());
                &&& wal.index() == read.index
                &&& wal.last() == read.last
                &&& wal.end() == read.end
                &&& wal.end() <= raw@.len()
            }),
    {
        let mut index: HashMap<u64, u64> = HashMap::new();
        let mut last: u64 = 0;
        let mut at: usize = 0;
        proof {
            assert(index@ =~= Map::empty());
        }
        while raw.len() - at >= 4
            invariant_except_break
                at <= raw@.len(),
                scan(raw@, nothing_read()) == scan(
                    raw@,
                    Scan { index: index@, last, end: at as int },
                ),
            ensures
                at <= raw@.len(),
                scan(raw@, nothing_read()) == (Scan { index: index@, last, end: at as int }),
            decreases raw@.len() - at,
        {
            let ghost rest = raw@.skip(at as int);
            let len: u32 = read_u32_le(raw, at);
            proof {
                lemma_byte_span();
                lemma_le_value(len as nat, 4);
                assert(rest.take(4) =~= raw@.subrange(at as int, at + 4));
            }
            if len as usize > raw.len() - at - 4 {
                assert(truncated(rest));
                break;
            }
            let start: usize = at + 4;
            let end: usize = start + len as usize;
            let body = slice_subrange(raw, start, end);
            proof {
                assert(body@ =~= rest.subrange(4, 4 + len as int));
            }
            if let Some(order) = wire::decode_order(body) {
                index.insert(order.order_id, at as u64);
                if order.order_id > last {
                    last = order.order_id;
                }
            }
            at = end;
            proof {
                if raw@.len() - at < 4 {
                    assert(truncated(raw@.skip(at as int)));
                }
            }
        }
        SenderWal { index, next_offset: at as u64, last_order_id: last }
    }

    pub fn last_order_id(&self) -> (last: u64)
        ensures
            last == self.last(),
    {
        self.last_order_id
    }

    /// Where the next record goes.
    pub fn next_offset(&self) -> (end: u64)
        ensures
            end == self.end(),
    {
        self.next_offset
    }

    /// The records of `orders`, to be written at the end of the file. Nothing is
    /// entered before they are.
    pub fn plan_batch(&self, orders: &Vec<OrderWire>) -> (bytes: Vec<u8>)
        ensures
            bytes@ == records(orders@),
            bytes@.len() == RECORD_SIZE * orders@.len(),
    {
        let mut bytes: Vec<u8> = Vec::new();
        let mut i: usize = 0;
        while i < orders.len()
            invariant
                i <= orders@.len(),
                bytes@ == records(orders@.take(i as int)),
                bytes@.len() == RECORD_SIZE * i,
            decreases orders@.len() - i,
        {
            let order = orders[i];
            proof {
                let done = orders@.take(i + 1);
                assert(done.drop_last() =~= orders@.take(i as int));
                assert(done.last() == order);
            }
            write_framed(&mut bytes, &order);
            proof {
                lemma_record_head(order, Seq::empty());
            }
            i = i + 1;
        }
        proof {
            assert(orders@.take(i as int) =~= orders@);
        }
        bytes
    }

    /// Enters `orders`, once their records were written at the end of the file.
    /// Where that has failed, nothing is entered: the orders are not recorded,
    /// and what was recorded before is found as before.
    pub fn append_batch(&mut self, orders: &Vec<OrderWire>, written: bool)
        requires
            written ==> old(self).end() + RECORD_SIZE * orders@.len() <= u64::MAX,
        ensures
            written ==> {
                &&& final(self).index() == index_after(old(self).index(), old(self).end(), orders@)
                &&& final(self).last() == last_after(old(self).last(), orders@)
                &&& final(self).end() == old(self).end() + RECORD_SIZE * orders@.len()
            },
            !written ==> {
                &&& final(self).index() == old(self).index()
                &&& final(self).last() == old(self).last()
                &&& final(self).end() == old(self).end()
            },
    {
        if !written {
            return;
        }
        let mut i: usize = 0;
        while i < orders.len()
            invariant
                i <= orders@.len(),
                old(self).end() + RECORD_SIZE * orders@.len() <= u64::MAX,
                self.next_offset == old(self).end() + RECORD_SIZE * i,
                self.index@ == index_after(
                    old(self).index(),
                    old(self).end(),
                    orders@.take(i as int),
                ),
                self.last_order_id == last_after(old(self).last(), orders@.take(i as int)),
            decreases orders@.len() - i,
        {
            let order = orders[i];
            proof {
                let done = orders@.take(i + 1);
                assert(done.drop_last() =~= orders@.take(i as int));
                assert(done.last() == order);
            }
            self.index.insert(order.order_id, self.next_offset);
            if order.order_id > self.last_order_id {
                self.last_order_id = order.order_id;
            }
            self.next_offset = self.next_offset + RECORD_SIZE;
            i = i + 1;
        }
        proof {
            assert(orders@.take(i as int) =~= orders@);
        }
    }

    /// Where the record of an order stands.
    pub fn locate(&self, order_id: u64) -> (offset: Option<u64>)
        ensures
            offset == (if self.index().dom().contains(order_id) {
                Some(self.index()[order_id])
            } else {
                None
            }),
    {
        match self.index.get(&order_id) {
            Some(offset) => Some(*offset),
            None => None,
        }
    }

    /// The order with this id, from the contents of the file.
    pub fn get(&self, file: &[u8], order_id: u64) -> (order: Option<OrderWire>)
        ensures
            order == order_from(self.index(), file@, order_id),
    {
        match self.locate(order_id) {
            Some(offset) => if offset <= file.len() as u64 {
                let at: usize = offset as usize;
                let rest = slice_subrange(file, at, file.len());
                proof {
                    assert(rest@ =~= file@.skip(offset as int));
                }
                read_record(rest)
            } else {
                None
            },
            None => None,
        }
    }
}

/// The order with this id, as an index finds it in a file.
pub open spec fn order_from(
    index: Map<u64, u64>,
    file: Seq<u8>,
    order_id: u64,
) -> Option<OrderWire> {
    if index.dom().contains(order_id) && index[order_id] <= file.len() {
        record_order(file.skip(index[order_id] as int))
    } else {
        None
    }
}

/// Whether an index finds in a file, under each id that it knows, the order with
/// that id.
pub open spec fn indexes(index: Map<u64, u64>, file: Seq<u8>) -> bool {
    forall|id: u64| #[trigger]
        index.dom().contains(id) ==> (order_from(index, file, id) matches Some(o) && o.order_id
            == id)
}

proof fn lemma_record_head(o: OrderWire, rest: Seq<u8>)
    ensures
        record_order(record(o) + rest) == Some(o),
        record(o).len() == RECORD_SIZE,
{
    let bytes = record(o) + rest;
    let layout = order_layout(o);
    lemma_byte_span();
    lemma_le_value(22, 4);
    wire::law_order_size(o);
    assert(bytes.take(4) =~= le_bytes(22, 4));
    assert(bytes.subrange(4, 26) =~= layout);
    assert(layout =~= layout.subrange(0, layout.len() as int));
    assert(reads_order(layout, Some(o)));
    lemma_order_in(layout, Some(o));
}

proof fn lemma_records_len(orders: Seq<OrderWire>)
    ensures
        records(orders).len() == RECORD_SIZE * orders.len(),
    decreases orders.len(),
{
    if orders.len() > 0 {
        lemma_records_len(orders.drop_last());
        lemma_record_head(orders.last(), Seq::empty());
    }
}

/// A complete record reads the same whatever is written behind it.
proof fn lemma_record_kept(bytes: Seq<u8>, more: Seq<u8>)
    requires
        record_order(bytes) is Some,
    ensures
        record_order(bytes + more) == record_order(bytes),
{
    assert((bytes + more).take(4) =~= bytes.take(4));
    let end = 4 + le_value(bytes.take(4)) as int;
    assert((bytes + more).subrange(4, end) =~= bytes.subrange(4, end));
}

/// One more record at the end of the file.
proof fn lemma_append_one(index: Map<u64, u64>, file: Seq<u8>, o: OrderWire)
    requires
        indexes(index, file),
        file.len() + RECORD_SIZE <= u64::MAX,
    ensures
        ({
            let after = index.insert(o.order_id, file.len() as u64);
            let written = file + record(o);
            &&& indexes(after, written)
            &&& order_from(after, written, o.order_id) == Some(o)
            &&& forall|id: u64|
                id != o.order_id ==> #[trigger] order_from(after, written, id) == order_from(
                    index,
                    file,
                    id,
                )
        }),
{
    let after = index.insert(o.order_id, file.len() as u64);
    let written = file + record(o);
    lemma_record_head(o, Seq::empty());
    assert(written.skip(file.len() as int) =~= record(o) + Seq::<u8>::empty());
    assert forall|id: u64| id != o.order_id implies #[trigger] order_from(after, written, id)
        == order_from(index, file, id) by {
        if index.dom().contains(id) {
            let off = index[id] as int;
            assert(order_from(index, file, id) is Some);
            assert(written.skip(off) =~= file.skip(off) + record(o));
            lemma_record_kept(file.skip(off), record(o));
        }
    }
    assert forall|id: u64| #[trigger] after.dom().contains(id) implies (order_from(
        after,
        written,
        id,
    ) matches Some(p) && p.order_id == id) by {
        if id != o.order_id {
            assert(index.dom().contains(id));
            assert(order_from(after, written, id) == order_from(index, file, id));
        }
    }
}

/// The last of the orders with this id.
pub open spec fn last_with(orders: Seq<OrderWire>, id: u64) -> Option<OrderWire>
    decreases orders.len(),
{
    if orders.len() == 0 {
        None
    } else if orders.last().order_id == id {
        Some(orders.last())
    } else {
        last_with(orders.drop_last(), id)
    }
}

/// What was written is read back: once the records of some orders are written
/// at the end of the file, each of them is found under its id, the last one
/// where an id repeats, and every other order is found as before.
pub proof fn law_written_orders_are_found(
    index: Map<u64, u64>,
    file: Seq<u8>,
    orders: Seq<OrderWire>,
)
    requires
        indexes(index, file),
        file.len() + RECORD_SIZE * orders.len() <= u64::MAX,
    ensures
        ({
            let after = index_after(index, file.len() as u64, orders);
            let written = file + records(orders);
            &&& indexes(after, written)
            &&& forall|id: u64| #[trigger]
                order_from(after, written, id) == (match last_with(orders, id) {
                    Some(o) => Some(o),
                    None => order_from(index, file, id),
                })
        }),
    decreases orders.len(),
{
    if orders.len() == 0 {
        assert(file + records(orders) =~= file);
    } else {
        let init = orders.drop_last();
        let last = orders.last();
        law_written_orders_are_found(index, file, init);
        let before = index_after(index, file.len() as u64, init);
        let shorter = file + records(init);
        lemma_records_len(init);
        assert(file + records(orders) =~= shorter + record(last));
        lemma_append_one(before, shorter, last);
    }
}

/// A file that is opened is indexed up to the end of its last complete record,
/// and the ids go on behind the highest one.
pub proof fn law_opened_file_is_indexed(raw: Seq<u8>)
    requires
        raw.len() <= u64::MAX,
    ensures
        ({
            let read = scan(raw, nothing_read());
            &&& 0 <= read.end <= raw.len()
            &&& truncated(raw.skip(read.end))
            &&& indexes(read.index, raw.take(read.end))
            &&& forall|id: u64| #[trigger] read.index.dom().contains(id) ==> id <= read.last
        }),
{
    assert(indexes(nothing_read().index, raw.take(0)));
    lemma_scan(raw, nothing_read());
}

proof fn lemma_scan(raw: Seq<u8>, known: Scan)
    requires
        raw.len() <= u64::MAX,
        0 <= known.end <= raw.len(),
        indexes(known.index, raw.take(known.end)),
        forall|id: u64| #[trigger] known.index.dom().contains(id) ==> id <= known.last,
    ensures
        ({
            let read = scan(raw, known);
            &&& 0 <= read.end <= raw.len()
            &&& truncated(raw.skip(read.end))
            &&& indexes(read.index, raw.take(read.end))
            &&& forall|id: u64| #[trigger] read.index.dom().contains(id) ==> id <= read.last
        }),
    decreases raw.len() - known.end,
{
    let rest = raw.skip(known.end);
    if !truncated(rest) {
        let end = known.end + 4 + le_value(rest.take(4));
        let old_file = raw.take(known.end);
        let file = raw.take(end as int);
        let piece = raw.subrange(known.end, end as int);
        assert(file =~= old_file + piece);
        assert forall|id: u64| #[trigger] known.index.dom().contains(id) implies order_from(
            known.index,
            file,
            id,
        ) == order_from(known.index, old_file, id) by {
            let off = known.index[id] as int;
            assert(order_from(known.index, old_file, id) is Some);
            assert(file.skip(off) =~= old_file.skip(off) + piece);
            lemma_record_kept(old_file.skip(off), piece);
        }
        match record_order(rest) {
            Some(o) => {
                let next = Scan {
                    index: known.index.insert(o.order_id, known.end as u64),
                    last: if o.order_id > known.last {
                        o.order_id
                    } else {
                        known.last
                    },
                    end: end as int,
                };
                assert(file.skip(known.end) =~= piece);
                assert(piece.take(4) =~= rest.take(4));
                assert(piece.subrange(4, 4 + le_value(rest.take(4)) as int) =~= rest.subrange(
                    4,
                    4 + le_value(rest.take(4)) as int,
                ));
                assert(record_order(piece) == Some(o));
                assert forall|id: u64| #[trigger] next.index.dom().contains(id) implies (
                order_from(next.index, file, id) matches Some(p) && p.order_id == id) by {
                    if id != o.order_id {
                        assert(known.index.dom().contains(id));
                        assert(order_from(next.index, file, id) == order_from(
                            known.index,
                            file,
                            id,
                        ));
                    }
                }
                lemma_scan(raw, next);
            },
            None => {
                let next = Scan { end: end as int, ..known };
                lemma_scan(raw, next);
            },
        }
    }
}

/// Records behind those that were read do not change how they read.
proof fn lemma_scan_resumes(raw: Seq<u8>, more: Seq<u8>, known: Scan)
    requires
        0 <= known.end <= raw.len(),
    ensures
        scan(raw + more, known) == scan(raw + more, scan(raw, known)),
    decreases raw.len() - known.end,
{
    let rest = raw.skip(known.end);
    if !truncated(rest) {
        let both = (raw + more).skip(known.end);
        let end = known.end + 4 + le_value(rest.take(4));
        assert(both =~= rest + more);
        assert(both.take(4) =~= rest.take(4));
        let n = 4 + le_value(rest.take(4)) as int;
        assert(both.subrange(4, n) =~= rest.subrange(4, n));
        match record_order(rest) {
            Some(o) => {
                lemma_scan_resumes(
                    raw,
                    more,
                    Scan {
                        index: known.index.insert(o.order_id, known.end as u64),
                        last: if o.order_id > known.last {
                            o.order_id
                        } else {
                            known.last
                        },
                        end: end as int,
                    },
                );
            },
            None => {
                lemma_scan_resumes(raw, more, Scan { end: end as int, ..known });
            },
        }
    }
}

/// Opening a file again finds what was known when it was written: the same
/// index, the same end, and a highest id that no order of the file exceeds, so
/// that the ids which follow it are new.
pub proof fn law_reopened_file_is_known(raw: Seq<u8>, orders: Seq<OrderWire>)
    requires
        scan(raw, nothing_read()).end == raw.len(),
        raw.len() + RECORD_SIZE * orders.len() <= u64::MAX,
    ensures
        ({
            let first = scan(raw, nothing_read());
            let again = scan(raw + records(orders), nothing_read());
            &&& again.index == index_after(first.index, raw.len() as u64, orders)
            &&& again.last == last_after(first.last, orders)
            &&& again.end == raw.len() + RECORD_SIZE * orders.len()
            &&& again.last >= first.last
            &&& forall|i: int| 0 <= i < orders.len() ==> (#[trigger] orders[i]).order_id
                <= again.last
        }),
    decreases orders.len(),
{
    let first = scan(raw, nothing_read());
    if orders.len() == 0 {
        assert(raw + records(orders) =~= raw);
    } else {
        let init = orders.drop_last();
        let last = orders.last();
        law_reopened_file_is_known(raw, init);
        let shorter = raw + records(init);
        let known = scan(shorter, nothing_read());
        let whole = shorter + record(last);
        assert(raw + records(orders) =~= whole);
        lemma_records_len(init);
        lemma_record_head(last, Seq::empty());
        lemma_scan_resumes(shorter, record(last), nothing_read());
        assert(whole.skip(known.end) =~= record(last) + Seq::<u8>::empty());
        lemma_record_complete(last);
        let next = Scan {
            index: known.index.insert(last.order_id, known.end as u64),
            last: if last.order_id > known.last {
                last.order_id
            } else {
                known.last
            },
            end: whole.len() as int,
        };
        assert(scan(whole, known) == scan(whole, next));
        assert(truncated(whole.skip(whole.len() as int)));
        assert(scan(whole, next) == next);
        assert forall|i: int| 0 <= i < orders.len() implies (#[trigger] orders[i]).order_id
            <= next.last by {
            if i < init.len() {
                assert(init[i] == orders[i]);
            }
        }
    }
}

/// Reading on never goes back.
proof fn lemma_scan_goes_on(raw: Seq<u8>, known: Scan)
    requires
        0 <= known.end <= raw.len(),
    ensures
        known.end <= scan(raw, known).end <= raw.len(),
    decreases raw.len() - known.end,
{
    let rest = raw.skip(known.end);
    if !truncated(rest) {
        let end = known.end + 4 + le_value(rest.take(4));
        match record_order(rest) {
            Some(o) => lemma_scan_goes_on(
                raw,
                Scan {
                    index: known.index.insert(o.order_id, known.end as u64),
                    last: if o.order_id > known.last {
                        o.order_id
                    } else {
                        known.last
                    },
                    end: end as int,
                },
            ),
            None => lemma_scan_goes_on(raw, Scan { end: end as int, ..known }),
        }
    }
}

/// A file that is cut behind its last complete record reads as before.
proof fn lemma_cut_reads_the_same(raw: Seq<u8>, known: Scan)
    requires
        0 <= known.end <= raw.len(),
    ensures
        scan(raw.take(scan(raw, known).end), known) == scan(raw, known),
    decreases raw.len() - known.end,
{
    let e = scan(raw, known).end;
    let cut = raw.take(e);
    lemma_scan_goes_on(raw, known);
    let rest = raw.skip(known.end);
    if truncated(rest) {
        assert(cut.skip(known.end) =~= Seq::<u8>::empty());
        assert(truncated(cut.skip(known.end)));
    } else {
        let size = 4 + le_value(rest.take(4));
        let end = known.end + size;
        let part = cut.skip(known.end);
        let next = match record_order(rest) {
            Some(o) => Scan {
                index: known.index.insert(o.order_id, known.end as u64),
                last: if o.order_id > known.last {
                    o.order_id
                } else {
                    known.last
                },
                end: end as int,
            },
            None => Scan { end: end as int, ..known },
        };
        assert(scan(raw, known) == scan(raw, next));
        lemma_scan_goes_on(raw, next);
        lemma_cut_reads_the_same(raw, next);
        assert(part.take(4) =~= rest.take(4));
        assert(part.subrange(4, size as int) =~= rest.subrange(4, size as int));
        assert(!truncated(part));
        assert(record_order(part) == record_order(rest));
        assert(scan(cut, known) == scan(cut, next));
    }
}

/// A truncated record at the end of the file counts as dropped and does not
/// disturb what is appended after it: once the file is opened and cut where its
/// complete records end, orders that are appended are found under their ids,
/// the last one where an id repeats, every other order is found as before, and
/// opening the file again finds the same.
pub proof fn law_appending_behind_a_torn_record(raw: Seq<u8>, orders: Seq<OrderWire>)
    requires
        raw.len() + RECORD_SIZE * orders.len() <= u64::MAX,
    ensures
        ({
            let opened = scan(raw, nothing_read());
            let cut = raw.take(opened.end);
            let file = cut + records(orders);
            let index = index_after(opened.index, opened.end as u64, orders);
            let again = scan(file, nothing_read());
            &&& 0 <= opened.end <= raw.len()
            &&& again.index == index
            &&& again.last == last_after(opened.last, orders)
            &&& again.end == file.len()
            &&& indexes(index, file)
            &&& forall|id: u64| #[trigger]
                order_from(index, file, id) == (match last_with(orders, id) {
                    Some(o) => Some(o),
                    None => order_from(opened.index, cut, id),
                })
        }),
{
    let opened = scan(raw, nothing_read());
    let cut = raw.take(opened.end);
    law_opened_file_is_indexed(raw);
    lemma_cut_reads_the_same(raw, nothing_read());
    law_reopened_file_is_known(cut, orders);
    law_written_orders_are_found(opened.index, cut, orders);
    lemma_records_len(orders);
}

proof fn lemma_record_complete(o: OrderWire)
    ensures
        ({
            let bytes = record(o) + Seq::<u8>::empty();
            &&& !truncated(bytes)
            &&& 4 + le_value(bytes.take(4)) == RECORD_SIZE
        }),
{
    let bytes = record(o) + Seq::<u8>::empty();
    lemma_byte_span();
    lemma_le_value(22, 4);
    wire::law_order_size(o);
    assert(bytes.take(4) =~= le_bytes(22, 4));
}

/// The highest order id that is known is one that was known or written, and none
/// that was is higher.
pub proof fn law_last_is_the_highest(last: u64, orders: Seq<OrderWire>)
    ensures
        last_after(last, orders) >= last,
        forall|i: int|
            0 <= i < orders.len() ==> (#[trigger] orders[i]).order_id <= last_after(last, orders),
        last_after(last, orders) == last || exists|i: int|
            0 <= i < orders.len() && (#[trigger] orders[i]).order_id == last_after(last, orders),
    decreases orders.len(),
{
    if orders.len() > 0 {
        let init = orders.drop_last();
        law_last_is_the_highest(last, init);
        assert forall|i: int| 0 <= i < orders.len() implies (#[trigger] orders[i]).order_id
            <= last_after(last, orders) by {
            if i < init.len() {
                assert(init[i] == orders[i]);
            }
        }
        if orders.last().order_id > last_after(last, init) {
            assert(orders[orders.len() - 1].order_id == last_after(last, orders));
        } else if last_after(last, init) != last {
            let i = choose|i: int|
                0 <= i < init.len() && (#[trigger] init[i]).order_id == last_after(last, init);
            assert(orders[i].order_id == last_after(last, orders));
        }
    }
}

/// After a restart the order ids go on behind the highest one in the file: the
/// one that is known as the last stands in the file, unless none does.
pub proof fn law_restart_goes_on(raw: Seq<u8>)
    ensures
        ({
            let read = scan(raw, nothing_read());
            read.last == 0 || read.index.dom().contains(read.last)
        }),
{
    lemma_last_is_indexed(raw, nothing_read());
}

proof fn lemma_last_is_indexed(raw: Seq<u8>, known: Scan)
    requires
        known.last == 0 || known.index.dom().contains(known.last),
    ensures
        ({
            let read = scan(raw, known);
            read.last == 0 || read.index.dom().contains(read.last)
        }),
    decreases raw.len() - known.end,
{
    let rest = raw.skip(known.end);
    if !(known.end < 0 || known.end > raw.len() || truncated(rest)) {
        let end = known.end + 4 + le_value(rest.take(4));
        match record_order(rest) {
            Some(o) => {
                lemma_last_is_indexed(
                    raw,
                    Scan {
                        index: known.index.insert(o.order_id, known.end as u64),
                        last: if o.order_id > known.last {
                            o.order_id
                        } else {
                            known.last
                        },
                        end,
                    },
                );
            },
            None => {
                lemma_last_is_indexed(raw, Scan { end, ..known });
            },
        }
    }
}

/// The record of an order is its size in four bytes, the lowest first, and then the
/// order: 26 bytes in all. Records stand one after the other.
pub proof fn law_order_record_layout(orders: Seq<OrderWire>, o: OrderWire)
    ensures
        record(o).len() == 26,
        record(o)[0] == 22,
        record(o)[1] == 0,
        record(o)[2] == 0,
        record(o)[3] == 0,
        record(o).skip(4) == order_layout(o),
        records(orders.push(o)) == records(orders) + record(o),
        records(Seq::empty()) == Seq::<u8>::empty(),
{
    lemma_record_head(o, Seq::empty());
    reveal_with_fuel(le_bytes, 5);
    assert(order_layout(o).len() == 22);
    assert(record(o).skip(4) =~= order_layout(o));
    assert(orders.push(o).drop_last() =~= orders);
}

} // verus!
