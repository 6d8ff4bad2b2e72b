//! Results from the cluster, and the log of them.

use crate::auth::{payload_of, verify, ClusterKey};
use crate::process::log_entry::{CommandView, ReplicatedCommand};
use crate::sequence_tracker::{is_prefix_end, SequenceTracker};
use crate::text::{decimal, push_decimal};
use crate::wire;
use crate::wire::command_in;
use vstd::prelude::*;

verus! {

/// The number of bytes at which the log is written.
pub const FLUSH_BYTES: usize = 65_536;

/// The line that the log holds for a result: its fields and the time of its
/// arrival, with spaces between them.
pub open spec fn result_line_of(c: CommandView, received_ts_ms: u128) -> Seq<char> {
    decimal(c.order_id as nat) + " "@ + c.symbol + " "@ + c.side + " "@ + decimal(c.qty as nat)
        + " "@ + c.status + " "@ + decimal(c.filled_qty as nat) + " "@ + c.processed_by + " "@
        + decimal(c.term as nat) + " "@ + decimal(received_ts_ms as nat)
}

/// The line that the log holds for a result.
pub fn result_line(c: &ReplicatedCommand, received_ts_ms: u128) -> (line: String)
    ensures
        line@ == result_line_of(c@, received_ts_ms),
{
    let mut line = String::new();
    push_decimal(&mut line, c.order_id as u128);
    proof {
        assert(line@ =~= decimal(c.order_id as nat));
    }
    line.append(" ");
    line.append(c.symbol.as_str());
    line.append(" ");
    line.append(c.side.as_str());
    line.append(" ");
    push_decimal(&mut line, c.qty as u128);
    line.append(" ");
    line.append(c.status.as_str());
    line.append(" ");
    push_decimal(&mut line, c.filled_qty as u128);
    line.append(" ");
    line.append(c.processed_by.as_str());
    line.append(" ");
    push_decimal(&mut line, c.term as u128);
    line.append(" ");
    push_decimal(&mut line, received_ts_ms);
    line
}

/// What a packet on the result channel comes to.
#[derive(Debug)]
pub enum Received {
    /// Its tag is wrong.
    BadTag,
    /// Its tag is right, but it holds no result.
    NoResult,
    /// Its result was received before.
    Duplicate,
    /// Its result is new; this is its line.
    Line(String),
}

/// What a packet on the result channel comes to, and how its order is noted.
pub open spec fn result_received(
    frame: Seq<u8>,
    key: Seq<u8>,
    before: SequenceTracker,
    after: SequenceTracker,
    received_ts_ms: u128,
    received: Received,
) -> bool {
    match payload_of(frame, key) {
        None => received is BadTag && after == before,
        Some(payload) => match command_in(payload) {
            None => received is NoResult && after == before,
            Some(result) => {
                &&& if before@.contains(result.order_id) {
                    received is Duplicate
                } else {
                    received matches Received::Line(line) && line@ == result_line_of(
                        result,
                        received_ts_ms,
                    )
                }
                &&& after@ == before@.insert(result.order_id)
                &&& after.highest() == (if result.order_id > before.highest() {
                    result.order_id
                } else {
                    before.highest()
                })
                &&& is_prefix_end(after@, after.watermark())
            },
        },
    }
}

/// Opens a packet on the result channel, and takes note of its order. Each
/// result is logged once, however often it arrives.
pub fn receive_result(
    frame: &[u8],
    key: &ClusterKey,
    tracker: &mut SequenceTracker,
    received_ts_ms: u128,
) -> (received: Received)
    requires
        old(tracker).wf(),
    ensures
        final(tracker).wf(),
        result_received(frame@, key@, *old(tracker), *final(tracker), received_ts_ms, received),
{
    match verify(frame, key) {
        None => Received::BadTag,
        Some(payload) => match wire::decode_command(payload) {
            None => Received::NoResult,
            Some(result) => if tracker.mark(result.order_id) {
                Received::Line(result_line(&result, received_ts_ms))
            } else {
                Received::Duplicate
            },
        },
    }
}

/// How the lines take another one: once they are long enough they are given
/// away.
pub open spec fn line_pushed(
    before: Seq<char>,
    line: Seq<char>,
    after: Seq<char>,
    full: Option<String>,
) -> bool {
    let grown = before + line + "\n"@;
    if vstd::utf8::encode_utf8(grown).len() >= FLUSH_BYTES {
        full matches Some(text) && text@ == grown && after == Seq::<char>::empty()
    } else {
        full is None && after == grown
    }
}

/// How the lines are given away, if there are any.
pub open spec fn lines_flushed(before: Seq<char>, after: Seq<char>, lines: Option<String>) -> bool {
    &&& after == Seq::<char>::empty()
    &&& lines is Some <==> before.len() > 0
    &&& lines matches Some(text) ==> text@ == before
}

/// Lines that wait to be written to the log.
pub struct LogBuffer {
    text: String,
}

impl View for LogBuffer {
    type V = Seq<char>;

    closed spec fn view(&self) -> Seq<char> {
        self.text@
    }
}

impl LogBuffer {
    pub fn new() -> (buffer: Self)
        ensures
            buffer@ == Seq::<char>::empty(),
    {
        LogBuffer { text: String::new() }
    }

    /// Adds a line. Gives the lines away once they are long enough.
    pub fn push(&mut self, line: &str) -> (full: Option<String>)
        ensures
            line_pushed(old(self)@, line@, final(self)@, full),
    {
        self.text.append(line);
        self.text.append("\n");
        if self.text.as_str().as_bytes().len() >= FLUSH_BYTES {
            let mut full = String::new();
            std::mem::swap(&mut full, &mut self.text);
            Some(full)
        } else {
            None
        }
    }

    /// Gives the lines away, if there are any.
    pub fn flush(&mut self) -> (lines: Option<String>)
        ensures
            lines_flushed(old(self)@, final(self)@, lines),
    {
        let mut given = String::new();
        std::mem::swap(&mut given, &mut self.text);
        if given.as_str().is_empty() {
            None
        } else {
            Some(given)
        }
    }
}

/// Each result is logged once: of two packets with results of one order at most
/// the first is, and it is if that order was not received before. A packet
/// without a result changes nothing.
pub proof fn law_results_are_logged_once(
    frame: Seq<u8>,
    again: Seq<u8>,
    key: Seq<u8>,
    first: SequenceTracker,
    second: SequenceTracker,
    third: SequenceTracker,
    now_ms: u128,
    later_ms: u128,
    received: Received,
    repeated: Received,
)
    requires
        result_received(frame, key, first, second, now_ms, received),
        result_received(again, key, second, third, later_ms, repeated),
        payload_of(frame, key) is Some,
        command_in(payload_of(frame, key)->0) is Some,
    ensures
        ({
            let id = command_in(payload_of(frame, key)->0)->0.order_id;
            &&& received is Line <==> !first@.contains(id)
            &&& received is Duplicate <==> first@.contains(id)
            &&& second@.contains(id)
            &&& payload_of(again, key) matches Some(payload) ==> command_in(payload) matches Some(
                result,
            ) ==> (repeated is Line <==> !first@.contains(result.order_id) && result.order_id != id)
            &&& repeated is BadTag || repeated is NoResult ==> third == second
        }),
{
}

/// No line is lost and none is moved: what is given away and what stays are
/// together what was there, with the new line and a line feed behind it. The
/// lines are given away once they take 65,536 bytes, and when they are flushed.
pub proof fn law_lines_are_kept(
    before: Seq<char>,
    line: Seq<char>,
    after: Seq<char>,
    full: Option<String>,
    flushed: Seq<char>,
    rest: Option<String>,
)
    requires
        line_pushed(before, line, after, full),
        lines_flushed(after, flushed, rest),
    ensures
        full is Some <==> vstd::utf8::encode_utf8(before + line + "\n"@).len() >= 65_536,
        full matches Some(text) ==> text@ == before + line + "\n"@ && after.len() == 0,
        full is None ==> after == before + line + "\n"@,
        rest is Some <==> after.len() > 0,
        rest matches Some(text) ==> text@ == after,
        flushed.len() == 0,
{
}

} // verus!
