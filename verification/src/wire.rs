//! The binary form of records and messages: integers of fixed width, least
//! significant byte first, and texts and lists behind an eight-byte length.
//!
//! A `*_layout` function states the bytes of a value. A decoder accepts exactly
//! the byte strings that begin with the layout of some value, and the lemmas
//! `*_unique` show that they begin with the layout of only one.

use crate::bytes::{
    byte_span, le_bytes, lemma_byte_span, lemma_le_injective, lemma_same_head,
};
use crate::orders::OrderWire;
use crate::process::log_entry::{CommandView, EntryView, LogEntry, ReplicatedCommand};
use vstd::prelude::*;
use vstd::utf8::encode_utf8;

verus! {

broadcast use {vstd::utf8::encode_utf8_decode_utf8, crate::bytes::lemma_le_len};

/// A text: the length of its UTF-8 form, then that form.
pub open spec fn text_layout(text: Seq<char>) -> Seq<u8> {
    le_bytes(encode_utf8(text).len(), 8) + encode_utf8(text)
}

/// A flag: one byte, 1 or 0.
pub open spec fn flag_layout(flag: bool) -> Seq<u8> {
    seq![if flag { 1u8 } else { 0u8 }]
}

/// A command: its fields in the order of their declaration.
pub open spec fn command_layout(c: CommandView) -> Seq<u8> {
    le_bytes(c.order_id as nat, 8) + (text_layout(c.symbol) + (text_layout(c.side) + (le_bytes(
        c.qty as nat,
        4,
    ) + (text_layout(c.status) + (le_bytes(c.filled_qty as nat, 4) + (text_layout(c.processed_by)
        + le_bytes(c.term as nat, 8)))))))
}

/// A log entry: its index, its term, its command.
#[verifier::opaque]
pub open spec fn entry_layout(e: EntryView) -> Seq<u8> {
    le_bytes(e.index as nat, 8) + (le_bytes(e.term as nat, 8) + command_layout(e.command))
}

/// Log entries one after the other, without their count.
pub open spec fn entries_layout(entries: Seq<EntryView>) -> Seq<u8>
    decreases entries.len(),
{
    if entries.len() == 0 {
        Seq::empty()
    } else {
        entry_layout(entries[0]) + entries_layout(entries.skip(1))
    }
}

/// An order: its fields in the order of their declaration.
#[verifier::opaque]
pub open spec fn order_layout(o: OrderWire) -> Seq<u8> {
    le_bytes(o.order_id as nat, 8) + (seq![o.symbol] + (flag_layout(o.side) + (le_bytes(
        o.qty as nat,
        4,
    ) + le_bytes(o.ts_ms as nat, 8))))
}

/// Ranges of ids one after the other, without their count.
pub open spec fn ranges_layout(ranges: Seq<(u64, u64)>) -> Seq<u8>
    decreases ranges.len(),
{
    if ranges.len() == 0 {
        Seq::empty()
    } else {
        le_bytes(ranges[0].0 as nat, 8) + (le_bytes(ranges[0].1 as nat, 8) + ranges_layout(
            ranges.skip(1),
        ))
    }
}

/// A replay request: who asks, how many ranges, the ranges.
pub open spec fn request_layout(requester_id: u8, ranges: Seq<(u64, u64)>) -> Seq<u8> {
    seq![requester_id] + (le_bytes(ranges.len(), 8) + ranges_layout(ranges))
}

/// A kind of message, then four numbers.
pub open spec fn ballot_layout(kind: u32, term: u64, id: u8, a: u64, b: u64) -> Seq<u8> {
    le_bytes(kind as nat, 4) + (le_bytes(term as nat, 8) + (seq![id] + (le_bytes(a as nat, 8)
        + le_bytes(b as nat, 8))))
}

/// A kind of message, then a term and an id.
pub open spec fn vote_layout(kind: u32, term: u64, id: u8) -> Seq<u8> {
    le_bytes(kind as nat, 4) + (le_bytes(term as nat, 8) + seq![id])
}

/// A kind of message, then a term, an id, a flag and an index.
pub open spec fn ack_layout(kind: u32, term: u64, id: u8, flag: bool, index: u64) -> Seq<u8> {
    le_bytes(kind as nat, 4) + (le_bytes(term as nat, 8) + (seq![id] + (flag_layout(flag)
        + le_bytes(index as nat, 8))))
}

/// A kind of message, then three numbers and an id, a counted run of log
/// entries and one more number.
pub open spec fn append_layout(
    kind: u32,
    term: u64,
    id: u8,
    a: u64,
    b: u64,
    entries: Seq<EntryView>,
    c: u64,
) -> Seq<u8> {
    le_bytes(kind as nat, 4) + (le_bytes(term as nat, 8) + (seq![id] + (le_bytes(a as nat, 8) + (
    le_bytes(b as nat, 8) + (le_bytes(entries.len(), 8) + (entries_layout(entries) + le_bytes(
        c as nat,
        8,
    )))))))
}

/// Integers of one width that begin the same bytes are equal.
pub proof fn lemma_int_unique(
    v1: nat,
    rest1: Seq<u8>,
    v2: nat,
    rest2: Seq<u8>,
    n: nat,
    bytes: Seq<u8>,
)
    requires
        (le_bytes(v1, n) + rest1).is_prefix_of(bytes),
        (le_bytes(v2, n) + rest2).is_prefix_of(bytes),
        v1 < byte_span(n),
        v2 < byte_span(n),
    ensures
        v1 == v2,
        rest1.is_prefix_of(bytes.skip(n as int)),
        rest2.is_prefix_of(bytes.skip(n as int)),
{
    lemma_same_head(le_bytes(v1, n), rest1, le_bytes(v2, n), rest2, bytes);
    lemma_le_injective(v1, v2, n);
}

proof fn lemma_concat_assoc(a: Seq<u8>, b: Seq<u8>, c: Seq<u8>)
    ensures
        (a + b) + c == a + (b + c),
{
    assert((a + b) + c =~= a + (b + c));
}

proof fn lemma_skip_skip(bytes: Seq<u8>, m: int, n: int)
    requires
        0 <= m,
        0 <= n,
        m + n <= bytes.len(),
    ensures
        bytes.skip(m).skip(n) == bytes.skip(m + n),
{
    assert(bytes.skip(m).skip(n) =~= bytes.skip(m + n));
}

/// Texts that begin the same bytes are equal.
pub proof fn lemma_text_unique(
    t1: Seq<char>,
    rest1: Seq<u8>,
    t2: Seq<char>,
    rest2: Seq<u8>,
    bytes: Seq<u8>,
)
    requires
        (text_layout(t1) + rest1).is_prefix_of(bytes),
        (text_layout(t2) + rest2).is_prefix_of(bytes),
        bytes.len() <= u64::MAX,
    ensures
        t1 == t2,
        rest1.is_prefix_of(bytes.skip(text_layout(t1).len() as int)),
        rest2.is_prefix_of(bytes.skip(text_layout(t1).len() as int)),
{
    lemma_byte_span();
    let u1 = encode_utf8(t1);
    let u2 = encode_utf8(t2);
    lemma_concat_assoc(le_bytes(u1.len(), 8), u1, rest1);
    lemma_concat_assoc(le_bytes(u2.len(), 8), u2, rest2);
    lemma_int_unique(u1.len(), u1 + rest1, u2.len(), u2 + rest2, 8, bytes);
    lemma_same_head(u1, rest1, u2, rest2, bytes.skip(8));
    assert(vstd::utf8::decode_utf8(u1) == t1);
    assert(vstd::utf8::decode_utf8(u2) == t2);
    lemma_skip_skip(bytes, 8, u1.len() as int);
}

// What follows each field of a command that is followed by `rest`.

spec fn after_processed_by(c: CommandView, rest: Seq<u8>) -> Seq<u8> {
    le_bytes(c.term as nat, 8) + rest
}

spec fn after_filled_qty(c: CommandView, rest: Seq<u8>) -> Seq<u8> {
    text_layout(c.processed_by) + after_processed_by(c, rest)
}

spec fn after_status(c: CommandView, rest: Seq<u8>) -> Seq<u8> {
    le_bytes(c.filled_qty as nat, 4) + after_filled_qty(c, rest)
}

spec fn after_qty(c: CommandView, rest: Seq<u8>) -> Seq<u8> {
    text_layout(c.status) + after_status(c, rest)
}

spec fn after_side(c: CommandView, rest: Seq<u8>) -> Seq<u8> {
    le_bytes(c.qty as nat, 4) + after_qty(c, rest)
}

spec fn after_symbol(c: CommandView, rest: Seq<u8>) -> Seq<u8> {
    text_layout(c.side) + after_side(c, rest)
}

spec fn after_order_id(c: CommandView, rest: Seq<u8>) -> Seq<u8> {
    text_layout(c.symbol) + after_symbol(c, rest)
}

proof fn lemma_command_with(c: CommandView, rest: Seq<u8>)
    ensures
        command_layout(c) + rest == le_bytes(c.order_id as nat, 8) + after_order_id(c, rest),
{
    let f1 = le_bytes(c.term as nat, 8);
    let f2 = text_layout(c.processed_by) + f1;
    let f3 = le_bytes(c.filled_qty as nat, 4) + f2;
    let f4 = text_layout(c.status) + f3;
    let f5 = le_bytes(c.qty as nat, 4) + f4;
    let f6 = text_layout(c.side) + f5;
    let f7 = text_layout(c.symbol) + f6;
    lemma_concat_assoc(text_layout(c.processed_by), f1, rest);
    lemma_concat_assoc(le_bytes(c.filled_qty as nat, 4), f2, rest);
    lemma_concat_assoc(text_layout(c.status), f3, rest);
    lemma_concat_assoc(le_bytes(c.qty as nat, 4), f4, rest);
    lemma_concat_assoc(text_layout(c.side), f5, rest);
    lemma_concat_assoc(text_layout(c.symbol), f6, rest);
    lemma_concat_assoc(le_bytes(c.order_id as nat, 8), f7, rest);
}

/// Commands that begin the same bytes are equal.
pub proof fn lemma_command_unique(
    c1: CommandView,
    rest1: Seq<u8>,
    c2: CommandView,
    rest2: Seq<u8>,
    bytes: Seq<u8>,
)
    requires
        (command_layout(c1) + rest1).is_prefix_of(bytes),
        (command_layout(c2) + rest2).is_prefix_of(bytes),
        bytes.len() <= u64::MAX,
    ensures
        c1 == c2,
        rest1.is_prefix_of(bytes.skip(command_layout(c1).len() as int)),
        rest2.is_prefix_of(bytes.skip(command_layout(c1).len() as int)),
{
    lemma_byte_span();
    lemma_command_with(c1, rest1);
    lemma_command_with(c2, rest2);
    let b = bytes;
    lemma_int_unique(
        c1.order_id as nat,
        after_order_id(c1, rest1),
        c2.order_id as nat,
        after_order_id(c2, rest2),
        8,
        b,
    );
    let b = b.skip(8);
    lemma_text_unique(c1.symbol, after_symbol(c1, rest1), c2.symbol, after_symbol(c2, rest2), b);
    let b = b.skip(text_layout(c1.symbol).len() as int);
    lemma_text_unique(c1.side, after_side(c1, rest1), c2.side, after_side(c2, rest2), b);
    let b = b.skip(text_layout(c1.side).len() as int);
    lemma_int_unique(c1.qty as nat, after_qty(c1, rest1), c2.qty as nat, after_qty(c2, rest2), 4, b);
    let b = b.skip(4);
    lemma_text_unique(c1.status, after_status(c1, rest1), c2.status, after_status(c2, rest2), b);
    let b = b.skip(text_layout(c1.status).len() as int);
    lemma_int_unique(
        c1.filled_qty as nat,
        after_filled_qty(c1, rest1),
        c2.filled_qty as nat,
        after_filled_qty(c2, rest2),
        4,
        b,
    );
    let b = b.skip(4);
    lemma_text_unique(c1.processed_by, after_processed_by(c1, rest1), c2.processed_by, after_processed_by(c2, rest2), b);
    let b = b.skip(text_layout(c1.processed_by).len() as int);
    lemma_int_unique(c1.term as nat, rest1, c2.term as nat, rest2, 8, b);
    assert(c1 =~= c2);
    lemma_same_head(command_layout(c1), rest1, command_layout(c2), rest2, bytes);
}

/// Log entries that begin the same bytes are equal.
pub proof fn lemma_entry_unique(
    e1: EntryView,
    rest1: Seq<u8>,
    e2: EntryView,
    rest2: Seq<u8>,
    bytes: Seq<u8>,
)
    requires
        (entry_layout(e1) + rest1).is_prefix_of(bytes),
        (entry_layout(e2) + rest2).is_prefix_of(bytes),
        bytes.len() <= u64::MAX,
    ensures
        e1 == e2,
        rest1.is_prefix_of(bytes.skip(entry_layout(e1).len() as int)),
        rest2.is_prefix_of(bytes.skip(entry_layout(e1).len() as int)),
{
    lemma_byte_span();
    reveal(entry_layout);
    let inner = |e: EntryView, r: Seq<u8>| command_layout(e.command) + r;
    let middle = |e: EntryView, r: Seq<u8>| le_bytes(e.term as nat, 8) + inner(e, r);
    assert(entry_layout(e1) + rest1 =~= le_bytes(e1.index as nat, 8) + middle(e1, rest1));
    assert(entry_layout(e2) + rest2 =~= le_bytes(e2.index as nat, 8) + middle(e2, rest2));
    lemma_int_unique(
        e1.index as nat,
        middle(e1, rest1),
        e2.index as nat,
        middle(e2, rest2),
        8,
        bytes,
    );
    let b = bytes.skip(8);
    lemma_int_unique(e1.term as nat, inner(e1, rest1), e2.term as nat, inner(e2, rest2), 8, b);
    let b = b.skip(8);
    lemma_command_unique(e1.command, rest1, e2.command, rest2, b);
    assert(e1 =~= e2);
    lemma_same_head(entry_layout(e1), rest1, entry_layout(e2), rest2, bytes);
}

/// Runs of as many log entries that begin the same bytes are equal.
pub proof fn lemma_entries_unique(
    s1: Seq<EntryView>,
    rest1: Seq<u8>,
    s2: Seq<EntryView>,
    rest2: Seq<u8>,
    bytes: Seq<u8>,
)
    requires
        (entries_layout(s1) + rest1).is_prefix_of(bytes),
        (entries_layout(s2) + rest2).is_prefix_of(bytes),
        s1.len() == s2.len(),
        bytes.len() <= u64::MAX,
    ensures
        s1 == s2,
        rest1.is_prefix_of(bytes.skip(entries_layout(s1).len() as int)),
        rest2.is_prefix_of(bytes.skip(entries_layout(s1).len() as int)),
    decreases s1.len(),
{
    if s1.len() == 0 {
        assert(s1 =~= s2);
    } else {
        let t1 = entries_layout(s1.skip(1)) + rest1;
        let t2 = entries_layout(s2.skip(1)) + rest2;
        assert(entries_layout(s1) + rest1 =~= entry_layout(s1[0]) + t1);
        assert(entries_layout(s2) + rest2 =~= entry_layout(s2[0]) + t2);
        lemma_entry_unique(s1[0], t1, s2[0], t2, bytes);
        let b = bytes.skip(entry_layout(s1[0]).len() as int);
        lemma_entries_unique(s1.skip(1), rest1, s2.skip(1), rest2, b);
        assert(s1 =~= seq![s1[0]] + s1.skip(1));
        assert(s2 =~= seq![s2[0]] + s2.skip(1));
    }
    lemma_same_head(entries_layout(s1), rest1, entries_layout(s2), rest2, bytes);
}

/// A run of log entries takes at least a byte for each.
pub proof fn lemma_entries_len(entries: Seq<EntryView>)
    ensures
        entries_layout(entries).len() >= entries.len(),
    decreases entries.len(),
{
    reveal(entry_layout);
    if entries.len() > 0 {
        lemma_entries_len(entries.skip(1));
    }
}

/// A run of ranges takes at least a byte for each.
pub proof fn lemma_ranges_len(ranges: Seq<(u64, u64)>)
    ensures
        ranges_layout(ranges).len() >= ranges.len(),
    decreases ranges.len(),
{
    if ranges.len() > 0 {
        lemma_ranges_len(ranges.skip(1));
    }
}

/// Orders that begin the same bytes are equal.
pub proof fn lemma_order_unique(o1: OrderWire, o2: OrderWire, bytes: Seq<u8>)
    requires
        order_layout(o1).is_prefix_of(bytes),
        order_layout(o2).is_prefix_of(bytes),
    ensures
        o1 == o2,
{
    lemma_byte_span();
    reveal(order_layout);
    let t1 = |o: OrderWire| le_bytes(o.qty as nat, 4) + le_bytes(o.ts_ms as nat, 8);
    let t2 = |o: OrderWire| flag_layout(o.side) + t1(o);
    let t3 = |o: OrderWire| seq![o.symbol] + t2(o);
    let none = Seq::<u8>::empty();
    lemma_int_unique(o1.order_id as nat, t3(o1), o2.order_id as nat, t3(o2), 8, bytes);
    let b = bytes.skip(8);
    lemma_same_head(seq![o1.symbol], t2(o1), seq![o2.symbol], t2(o2), b);
    assert(seq![o1.symbol][0] == seq![o2.symbol][0]);
    let b = b.skip(1);
    lemma_same_head(flag_layout(o1.side), t1(o1), flag_layout(o2.side), t1(o2), b);
    assert(flag_layout(o1.side)[0] == flag_layout(o2.side)[0]);
    let b = b.skip(1);
    lemma_int_unique(
        o1.qty as nat,
        le_bytes(o1.ts_ms as nat, 8),
        o2.qty as nat,
        le_bytes(o2.ts_ms as nat, 8),
        4,
        b,
    );
    let b = b.skip(4);
    assert(le_bytes(o1.ts_ms as nat, 8) + none =~= le_bytes(o1.ts_ms as nat, 8));
    assert(le_bytes(o2.ts_ms as nat, 8) + none =~= le_bytes(o2.ts_ms as nat, 8));
    lemma_int_unique(o1.ts_ms as nat, none, o2.ts_ms as nat, none, 8, b);
}

proof fn lemma_ranges_unique(r1: Seq<(u64, u64)>, r2: Seq<(u64, u64)>, bytes: Seq<u8>)
    requires
        ranges_layout(r1).is_prefix_of(bytes),
        ranges_layout(r2).is_prefix_of(bytes),
        r1.len() == r2.len(),
    ensures
        r1 == r2,
    decreases r1.len(),
{
    if r1.len() == 0 {
        assert(r1 =~= r2);
    } else {
        lemma_byte_span();
        let low = |r: Seq<(u64, u64)>| le_bytes(r[0].1 as nat, 8) + ranges_layout(r.skip(1));
        lemma_int_unique(r1[0].0 as nat, low(r1), r2[0].0 as nat, low(r2), 8, bytes);
        let b = bytes.skip(8);
        lemma_int_unique(
            r1[0].1 as nat,
            ranges_layout(r1.skip(1)),
            r2[0].1 as nat,
            ranges_layout(r2.skip(1)),
            8,
            b,
        );
        lemma_ranges_unique(r1.skip(1), r2.skip(1), b.skip(8));
        assert(r1 =~= seq![r1[0]] + r1.skip(1));
        assert(r2 =~= seq![r2[0]] + r2.skip(1));
    }
}

/// Replay requests that begin the same bytes are equal.
pub proof fn lemma_request_unique(
    id1: u8,
    r1: Seq<(u64, u64)>,
    id2: u8,
    r2: Seq<(u64, u64)>,
    bytes: Seq<u8>,
)
    requires
        request_layout(id1, r1).is_prefix_of(bytes),
        request_layout(id2, r2).is_prefix_of(bytes),
        bytes.len() <= u64::MAX,
    ensures
        id1 == id2,
        r1 == r2,
{
    lemma_byte_span();
    lemma_ranges_len(r1);
    lemma_ranges_len(r2);
    let t = |r: Seq<(u64, u64)>| le_bytes(r.len(), 8) + ranges_layout(r);
    lemma_same_head(seq![id1], t(r1), seq![id2], t(r2), bytes);
    assert(seq![id1][0] == seq![id2][0]);
    let b = bytes.skip(1);
    lemma_int_unique(r1.len(), ranges_layout(r1), r2.len(), ranges_layout(r2), 8, b);
    lemma_ranges_unique(r1, r2, b.skip(8));
}

/// What decoding a command from `bytes` gives: the command that they begin
/// with, or nothing if they begin with none.
pub open spec fn reads_command(bytes: Seq<u8>, decoded: Option<CommandView>) -> bool {
    match decoded {
        Some(c) => command_layout(c).is_prefix_of(bytes),
        None => forall|c: CommandView| !(#[trigger] command_layout(c)).is_prefix_of(bytes),
    }
}

/// What decoding a log entry from `bytes` gives.
pub open spec fn reads_entry(bytes: Seq<u8>, decoded: Option<EntryView>) -> bool {
    match decoded {
        Some(e) => entry_layout(e).is_prefix_of(bytes),
        None => forall|e: EntryView| !(#[trigger] entry_layout(e)).is_prefix_of(bytes),
    }
}

/// What decoding an order from `bytes` gives.
pub open spec fn reads_order(bytes: Seq<u8>, decoded: Option<OrderWire>) -> bool {
    match decoded {
        Some(o) => order_layout(o).is_prefix_of(bytes),
        None => forall|o: OrderWire| !(#[trigger] order_layout(o)).is_prefix_of(bytes),
    }
}

/// What decoding a replay request from `bytes` gives.
pub open spec fn reads_request(
    bytes: Seq<u8>,
    decoded: Option<(u8, Seq<(u64, u64)>)>,
) -> bool {
    match decoded {
        Some((id, ranges)) => request_layout(id, ranges).is_prefix_of(bytes),
        None => forall|id: u8, ranges: Seq<(u64, u64)>|
            !(#[trigger] request_layout(id, ranges)).is_prefix_of(bytes),
    }
}

/// The command that `bytes` begin with, if they begin with one.
pub open spec fn command_in(bytes: Seq<u8>) -> Option<CommandView> {
    if exists|c: CommandView| (#[trigger] command_layout(c)).is_prefix_of(bytes) {
        Some(choose|c: CommandView| (#[trigger] command_layout(c)).is_prefix_of(bytes))
    } else {
        None
    }
}

/// The log entry that `bytes` begin with, if they begin with one.
pub open spec fn entry_in(bytes: Seq<u8>) -> Option<EntryView> {
    if exists|e: EntryView| (#[trigger] entry_layout(e)).is_prefix_of(bytes) {
        Some(choose|e: EntryView| (#[trigger] entry_layout(e)).is_prefix_of(bytes))
    } else {
        None
    }
}

/// The order that `bytes` begin with, if they begin with one.
pub open spec fn order_in(bytes: Seq<u8>) -> Option<OrderWire> {
    if exists|o: OrderWire| (#[trigger] order_layout(o)).is_prefix_of(bytes) {
        Some(choose|o: OrderWire| (#[trigger] order_layout(o)).is_prefix_of(bytes))
    } else {
        None
    }
}

/// The replay request that `bytes` begin with, if they begin with one.
pub open spec fn request_in(bytes: Seq<u8>) -> Option<(u8, Seq<(u64, u64)>)> {
    if exists|id: u8, ranges: Seq<(u64, u64)>|
        (#[trigger] request_layout(id, ranges)).is_prefix_of(bytes) {
        Some(
            choose|id: u8, ranges: Seq<(u64, u64)>|
                (#[trigger] request_layout(id, ranges)).is_prefix_of(bytes),
        )
    } else {
        None
    }
}

/// Bytes hold one command at most: decoding gives that one.
pub proof fn lemma_command_in(bytes: Seq<u8>, decoded: Option<CommandView>)
    requires
        reads_command(bytes, decoded),
        bytes.len() <= u64::MAX,
    ensures
        decoded == command_in(bytes),
{
    if let Some(c) = decoded {
        assert(command_layout(c).is_prefix_of(bytes));
        let other = choose|c: CommandView| (#[trigger] command_layout(c)).is_prefix_of(bytes);
        let none = Seq::<u8>::empty();
        assert(command_layout(c) + none =~= command_layout(c));
        assert(command_layout(other) + none =~= command_layout(other));
        lemma_command_unique(c, none, other, none, bytes);
    }
}

/// Bytes hold one log entry at most: decoding gives that one.
pub proof fn lemma_entry_in(bytes: Seq<u8>, decoded: Option<EntryView>)
    requires
        reads_entry(bytes, decoded),
        bytes.len() <= u64::MAX,
    ensures
        decoded == entry_in(bytes),
{
    if let Some(e) = decoded {
        assert(entry_layout(e).is_prefix_of(bytes));
        let other = choose|e: EntryView| (#[trigger] entry_layout(e)).is_prefix_of(bytes);
        let none = Seq::<u8>::empty();
        assert(entry_layout(e) + none =~= entry_layout(e));
        assert(entry_layout(other) + none =~= entry_layout(other));
        lemma_entry_unique(e, none, other, none, bytes);
    }
}

/// Bytes hold one order at most: decoding gives that one.
pub proof fn lemma_order_in(bytes: Seq<u8>, decoded: Option<OrderWire>)
    requires
        reads_order(bytes, decoded),
    ensures
        decoded == order_in(bytes),
{
    if let Some(o) = decoded {
        assert(order_layout(o).is_prefix_of(bytes));
        let other = choose|o: OrderWire| (#[trigger] order_layout(o)).is_prefix_of(bytes);
        lemma_order_unique(o, other, bytes);
    }
}

/// Bytes hold one replay request at most: decoding gives that one.
pub proof fn lemma_request_in(bytes: Seq<u8>, decoded: Option<(u8, Seq<(u64, u64)>)>)
    requires
        reads_request(bytes, decoded),
        bytes.len() <= u64::MAX,
    ensures
        decoded == request_in(bytes),
{
    if let Some((id, ranges)) = decoded {
        assert(request_layout(id, ranges).is_prefix_of(bytes));
        let other = choose|id: u8, ranges: Seq<(u64, u64)>|
            (#[trigger] request_layout(id, ranges)).is_prefix_of(bytes);
        lemma_request_unique(id, ranges, other.0, other.1, bytes);
    }
}

/// The contents of an optional value.
pub open spec fn view_of<T: View>(value: Option<T>) -> Option<T::V> {
    match value {
        Some(v) => Some(v@),
        None => None,
    }
}

/// A command as the tuple of its fields, which encodes as the command does.
pub type CommandRow = (u64, String, String, u32, String, u32, String, u64);

/// A log entry as the tuple of its fields.
pub type EntryRow = (u64, u64, CommandRow);

pub open spec fn command_of_row(row: CommandRow) -> CommandView {
    CommandView {
        order_id: row.0,
        symbol: row.1@,
        side: row.2@,
        qty: row.3,
        status: row.4@,
        filled_qty: row.5,
        processed_by: row.6@,
        term: row.7,
    }
}

pub open spec fn entry_of_row(row: EntryRow) -> EntryView {
    EntryView { index: row.0, term: row.1, command: command_of_row(row.2) }
}

pub open spec fn entries_of_rows(rows: Seq<EntryRow>) -> Seq<EntryView> {
    Seq::new(rows.len(), |i: int| entry_of_row(rows[i]))
}

/// `bincode::serialize` on a command's fields. It writes them one after the
/// other in fixed-width little-endian form, a text behind its eight-byte
/// length, and cannot fail on them.
#[verifier::external_body]
pub(crate) fn serialize_command(c: &ReplicatedCommand) -> (bytes: Vec<u8>)
    ensures
        bytes@ == command_layout(c@),
{
    let row =
        (c.order_id, &c.symbol, &c.side, c.qty, &c.status, c.filled_qty, &c.processed_by, c.term);
    bincode::serialize(&row).expect("a command always encodes")
}

/// `bincode::deserialize` of a command's fields. It succeeds exactly on bytes
/// that begin with the encoding of a command, and returns that command; bytes
/// after it are ignored.
#[verifier::external_body]
pub(crate) fn deserialize_command(bytes: &[u8]) -> (decoded: Option<CommandRow>)
    ensures
        reads_command(
            bytes@,
            match decoded {
                Some(row) => Some(command_of_row(row)),
                None => None,
            },
        ),
{
    bincode::deserialize::<CommandRow>(bytes).ok()
}

/// `bincode::serialize` on a log entry's fields: see `serialize_command`.
#[verifier::external_body]
pub(crate) fn serialize_entry(e: &LogEntry) -> (bytes: Vec<u8>)
    ensures
        bytes@ == entry_layout(e@),
{
    let c = &e.command;
    let row =
        (c.order_id, &c.symbol, &c.side, c.qty, &c.status, c.filled_qty, &c.processed_by, c.term);
    bincode::serialize(&(e.index, e.term, row)).expect("an entry always encodes")
}

/// `bincode::serialized_size` on a log entry's fields: the number of bytes that
/// `bincode::serialize` writes for them.
#[verifier::external_body]
pub(crate) fn serialized_entry_size(e: &LogEntry) -> (size: u64)
    ensures
        size == entry_layout(e@).len(),
{
    let c = &e.command;
    let row =
        (c.order_id, &c.symbol, &c.side, c.qty, &c.status, c.filled_qty, &c.processed_by, c.term);
    bincode::serialized_size(&(e.index, e.term, row)).expect("an entry always encodes")
}

/// `bincode::deserialize` of a log entry's fields: see `deserialize_command`.
#[verifier::external_body]
pub(crate) fn deserialize_entry(bytes: &[u8]) -> (decoded: Option<EntryRow>)
    ensures
        reads_entry(
            bytes@,
            match decoded {
                Some(row) => Some(entry_of_row(row)),
                None => None,
            },
        ),
{
    bincode::deserialize::<EntryRow>(bytes).ok()
}

/// `bincode::serialize` on an order's fields: eight, one, one, four and eight
/// bytes, and no failure.
#[verifier::external_body]
pub(crate) fn serialize_order(o: &OrderWire) -> (bytes: Vec<u8>)
    ensures
        bytes@ == order_layout(*o),
{
    bincode::serialize(&(o.order_id, o.symbol, o.side, o.qty, o.ts_ms)).expect("an order always encodes")
}

/// `bincode::deserialize` of an order's fields. It succeeds exactly on bytes
/// that begin with the encoding of an order; a side other than 0 or 1 fails.
#[verifier::external_body]
pub(crate) fn deserialize_order(bytes: &[u8]) -> (decoded: Option<(u64, u8, bool, u32, u64)>)
    ensures
        reads_order(
            bytes@,
            match decoded {
                Some((order_id, symbol, side, qty, ts_ms)) => Some(
                    (OrderWire { order_id, symbol, side, qty, ts_ms }),
                ),
                None => None,
            },
        ),
{
    bincode::deserialize::<(u64, u8, bool, u32, u64)>(bytes).ok()
}

/// `bincode::serialize` on the fields of a replay request: the requester's
/// byte, an eight-byte count, and two eight-byte numbers for each range.
#[verifier::external_body]
pub(crate) fn serialize_request(requester_id: u8, ranges: &Vec<(u64, u64)>) -> (bytes: Vec<u8>)
    ensures
        bytes@ == request_layout(requester_id, ranges@),
{
    bincode::serialize(&(requester_id, ranges)).expect("a replay request always encodes")
}

/// `bincode::deserialize` of the fields of a replay request. It succeeds exactly
/// on bytes that begin with the encoding of a request.
#[verifier::external_body]
pub(crate) fn deserialize_request(bytes: &[u8]) -> (decoded: Option<(u8, Vec<(u64, u64)>)>)
    ensures
        reads_request(
            bytes@,
            match decoded {
                Some((requester_id, ranges)) => Some((requester_id, ranges@)),
                None => None,
            },
        ),
{
    bincode::deserialize::<(u8, Vec<(u64, u64)>)>(bytes).ok()
}

/// `bincode::deserialize` of the number that leads a message. It succeeds
/// exactly on four bytes or more.
#[verifier::external_body]
pub(crate) fn deserialize_kind(bytes: &[u8]) -> (decoded: Option<u32>)
    ensures
        match decoded {
            Some(kind) => le_bytes(kind as nat, 4).is_prefix_of(bytes@),
            None => bytes@.len() < 4,
        },
{
    bincode::deserialize::<u32>(bytes).ok()
}

/// `bincode::serialize` on a leading kind and the fields of a vote request.
#[verifier::external_body]
pub(crate) fn serialize_ballot(fields: &(u32, u64, u8, u64, u64)) -> (bytes: Vec<u8>)
    ensures
        bytes@ == ballot_layout(fields.0, fields.1, fields.2, fields.3, fields.4),
{
    bincode::serialize(fields).expect("a vote request always encodes")
}

/// `bincode::deserialize` of a leading kind and the fields of a vote request.
#[verifier::external_body]
pub(crate) fn deserialize_ballot(bytes: &[u8]) -> (decoded: Option<(u32, u64, u8, u64, u64)>)
    ensures
        match decoded {
            Some(f) => ballot_layout(f.0, f.1, f.2, f.3, f.4).is_prefix_of(bytes@),
            None => forall|kind: u32, term: u64, id: u8, a: u64, b: u64|
                !(#[trigger] ballot_layout(kind, term, id, a, b)).is_prefix_of(bytes@),
        },
{
    bincode::deserialize::<(u32, u64, u8, u64, u64)>(bytes).ok()
}

/// `bincode::serialize` on a leading kind and the fields of a vote.
#[verifier::external_body]
pub(crate) fn serialize_vote(fields: &(u32, u64, u8)) -> (bytes: Vec<u8>)
    ensures
        bytes@ == vote_layout(fields.0, fields.1, fields.2),
{
    bincode::serialize(fields).expect("a vote always encodes")
}

/// `bincode::deserialize` of a leading kind and the fields of a vote.
#[verifier::external_body]
pub(crate) fn deserialize_vote(bytes: &[u8]) -> (decoded: Option<(u32, u64, u8)>)
    ensures
        match decoded {
            Some(f) => vote_layout(f.0, f.1, f.2).is_prefix_of(bytes@),
            None => forall|kind: u32, term: u64, id: u8|
                !(#[trigger] vote_layout(kind, term, id)).is_prefix_of(bytes@),
        },
{
    bincode::deserialize::<(u32, u64, u8)>(bytes).ok()
}

/// `bincode::serialize` on a leading kind and the fields of an acknowledgement.
#[verifier::external_body]
pub(crate) fn serialize_ack(fields: &(u32, u64, u8, bool, u64)) -> (bytes: Vec<u8>)
    ensures
        bytes@ == ack_layout(fields.0, fields.1, fields.2, fields.3, fields.4),
{
    bincode::serialize(fields).expect("an acknowledgement always encodes")
}

/// `bincode::deserialize` of a leading kind and the fields of an acknowledgement.
#[verifier::external_body]
pub(crate) fn deserialize_ack(bytes: &[u8]) -> (decoded: Option<(u32, u64, u8, bool, u64)>)
    ensures
        match decoded {
            Some(f) => ack_layout(f.0, f.1, f.2, f.3, f.4).is_prefix_of(bytes@),
            None => forall|kind: u32, term: u64, id: u8, flag: bool, index: u64|
                !(#[trigger] ack_layout(kind, term, id, flag, index)).is_prefix_of(bytes@),
        },
{
    bincode::deserialize::<(u32, u64, u8, bool, u64)>(bytes).ok()
}

/// `bincode::serialize` on a leading kind and the fields of an append request.
#[verifier::external_body]
pub(crate) fn serialize_append(
    fields: &(u32, u64, u8, u64, u64, Vec<EntryRow>, u64),
) -> (bytes: Vec<u8>)
    ensures
        bytes@ == append_layout(
            fields.0,
            fields.1,
            fields.2,
            fields.3,
            fields.4,
            entries_of_rows(fields.5@),
            fields.6,
        ),
{
    bincode::serialize(fields).expect("an append request always encodes")
}

/// `bincode::deserialize` of a leading kind and the fields of an append request.
#[verifier::external_body]
pub(crate) fn deserialize_append(
    bytes: &[u8],
) -> (decoded: Option<(u32, u64, u8, u64, u64, Vec<EntryRow>, u64)>)
    ensures
        match decoded {
            Some(f) => append_layout(
                f.0,
                f.1,
                f.2,
                f.3,
                f.4,
                entries_of_rows(f.5@),
                f.6,
            ).is_prefix_of(bytes@),
            None => forall|kind: u32, term: u64, id: u8, a: u64, b: u64, s: Seq<EntryView>, c: u64|
                !(#[trigger] append_layout(kind, term, id, a, b, s, c)).is_prefix_of(bytes@),
        },
{
    bincode::deserialize::<(u32, u64, u8, u64, u64, Vec<EntryRow>, u64)>(bytes).ok()
}

/// The number of bytes that `entry` takes in binary form.
pub fn entry_size(entry: &LogEntry) -> (size: u64)
    ensures
        size == entry_layout(entry@).len(),
{
    serialized_entry_size(entry)
}

fn command_from_row(row: CommandRow) -> (c: ReplicatedCommand)
    ensures
        c@ == command_of_row(row),
{
    ReplicatedCommand {
        order_id: row.0,
        symbol: row.1,
        side: row.2,
        qty: row.3,
        status: row.4,
        filled_qty: row.5,
        processed_by: row.6,
        term: row.7,
    }
}

/// The entry that a row holds.
pub fn entry_from_row(row: EntryRow) -> (e: LogEntry)
    ensures
        e@ == entry_of_row(row),
{
    LogEntry { index: row.0, term: row.1, command: command_from_row(row.2) }
}

/// The row that holds a copy of an entry.
pub fn entry_to_row(e: &LogEntry) -> (row: EntryRow)
    ensures
        entry_of_row(row) == e@,
{
    let c = e.command.clone();
    (
        e.index,
        e.term,
        (c.order_id, c.symbol, c.side, c.qty, c.status, c.filled_qty, c.processed_by, c.term),
    )
}

/// The binary form of a command, which is also a published result.
pub fn encode_command(c: &ReplicatedCommand) -> (bytes: Vec<u8>)
    ensures
        bytes@ == command_layout(c@),
{
    serialize_command(c)
}

/// The command that `bytes` begin with, if they begin with one.
pub fn decode_command(bytes: &[u8]) -> (decoded: Option<ReplicatedCommand>)
    ensures
        reads_command(bytes@, view_of(decoded)),
        view_of(decoded) == command_in(bytes@),
{
    let decoded = match deserialize_command(bytes) {
        Some(row) => Some(command_from_row(row)),
        None => None,
    };
    proof {
        assert(bytes@.len() == bytes.len());
        lemma_command_in(bytes@, view_of(decoded));
    }
    decoded
}

/// The binary form of a log entry.
pub fn encode_entry(e: &LogEntry) -> (bytes: Vec<u8>)
    ensures
        bytes@ == entry_layout(e@),
{
    serialize_entry(e)
}

/// The log entry that `bytes` begin with, if they begin with one.
pub fn decode_entry(bytes: &[u8]) -> (decoded: Option<LogEntry>)
    ensures
        reads_entry(bytes@, view_of(decoded)),
        view_of(decoded) == entry_in(bytes@),
{
    let decoded = match deserialize_entry(bytes) {
        Some(row) => Some(entry_from_row(row)),
        None => None,
    };
    proof {
        assert(bytes@.len() == bytes.len());
        lemma_entry_in(bytes@, view_of(decoded));
    }
    decoded
}

/// The binary form of an order.
pub fn encode_order(o: &OrderWire) -> (bytes: Vec<u8>)
    ensures
        bytes@ == order_layout(*o),
{
    serialize_order(o)
}

/// The order that `bytes` begin with, if they begin with one.
pub fn decode_order(bytes: &[u8]) -> (decoded: Option<OrderWire>)
    ensures
        reads_order(bytes@, decoded),
        decoded == order_in(bytes@),
{
    let decoded = match deserialize_order(bytes) {
        Some((order_id, symbol, side, qty, ts_ms)) => Some(
            OrderWire { order_id, symbol, side, qty, ts_ms },
        ),
        None => None,
    };
    proof {
        lemma_order_in(bytes@, decoded);
    }
    decoded
}

/// Decoding gives back the command that was encoded, whatever follows it.
pub proof fn law_command_round_trip(c: CommandView, rest: Seq<u8>)
    requires
        command_layout(c).len() + rest.len() <= u64::MAX,
    ensures
        command_in(command_layout(c) + rest) == Some(c),
{
    let bytes = command_layout(c) + rest;
    assert(command_layout(c) =~= bytes.subrange(0, command_layout(c).len() as int));
    lemma_command_in(bytes, Some(c));
}

/// Decoding gives back the log entry that was encoded, whatever follows it.
pub proof fn law_entry_round_trip(e: EntryView, rest: Seq<u8>)
    requires
        entry_layout(e).len() + rest.len() <= u64::MAX,
    ensures
        entry_in(entry_layout(e) + rest) == Some(e),
{
    let bytes = entry_layout(e) + rest;
    assert(entry_layout(e) =~= bytes.subrange(0, entry_layout(e).len() as int));
    lemma_entry_in(bytes, Some(e));
}

/// Decoding gives back the order that was encoded, whatever follows it.
pub proof fn law_order_round_trip(o: OrderWire, rest: Seq<u8>)
    ensures
        order_in(order_layout(o) + rest) == Some(o),
{
    let bytes = order_layout(o) + rest;
    assert(order_layout(o) =~= bytes.subrange(0, order_layout(o).len() as int));
    lemma_order_in(bytes, Some(o));
}

/// Decoding gives back the replay request that was encoded, whatever follows it.
pub proof fn law_request_round_trip(id: u8, ranges: Seq<(u64, u64)>, rest: Seq<u8>)
    requires
        request_layout(id, ranges).len() + rest.len() <= u64::MAX,
    ensures
        request_in(request_layout(id, ranges) + rest) == Some((id, ranges)),
{
    let bytes = request_layout(id, ranges) + rest;
    assert(request_layout(id, ranges) =~= bytes.subrange(
        0,
        request_layout(id, ranges).len() as int,
    ));
    lemma_request_in(bytes, Some((id, ranges)));
}

/// An order takes 22 bytes.
pub proof fn law_order_size(o: OrderWire)
    ensures
        order_layout(o).len() == 22,
{
    reveal(order_layout);
}

} // verus!
