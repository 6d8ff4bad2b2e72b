//! Log entries in a file: each behind the four bytes of its length.

use crate::bytes::{
    le_bytes, le_value, lemma_byte_span, lemma_le_value, low_u32, push_u32_le, read_u32_le, truncated,
};
use crate::process::log_entry::{views, EntryView, LogEntry};
use crate::wire;
use crate::wire::{entry_in, entry_layout, lemma_entry_in, reads_entry, view_of};
use vstd::prelude::*;

verus! {

broadcast use crate::bytes::lemma_le_len;

/// One record: the low 32 bits of the entry's size, then the entry.
pub open spec fn frame(e: EntryView) -> Seq<u8> {
    le_bytes(entry_layout(e).len() % 0x1_0000_0000, 4) + entry_layout(e)
}

/// Records one after the other.
pub open spec fn frames(entries: Seq<EntryView>) -> Seq<u8>
    decreases entries.len(),
{
    if entries.len() == 0 {
        Seq::empty()
    } else {
        frames(entries.drop_last()) + frame(entries.last())
    }
}

/// The entries of the complete records that `bytes` begin with. A record that
/// holds no entry is skipped; a truncated one ends the reading.
pub open spec fn read_frames(bytes: Seq<u8>) -> Seq<EntryView>
    decreases bytes.len(),
{
    if truncated(bytes) {
        Seq::empty()
    } else {
        let end = 4 + le_value(bytes.take(4));
        let rest = read_frames(bytes.skip(end as int));
        match entry_in(bytes.subrange(4, end as int)) {
            Some(e) => seq![e] + rest,
            None => rest,
        }
    }
}

/// How many of `bytes` the complete records take that they begin with.
pub open spec fn complete_len(bytes: Seq<u8>) -> nat
    decreases bytes.len(),
{
    if truncated(bytes) {
        0
    } else {
        let end = 4 + le_value(bytes.take(4));
        end + complete_len(bytes.skip(end as int))
    }
}

/// The complete records of a file take no more than the file.
pub proof fn lemma_complete_len(bytes: Seq<u8>)
    ensures
        complete_len(bytes) <= bytes.len(),
    decreases bytes.len(),
{
    if !truncated(bytes) {
        lemma_complete_len(bytes.skip((4 + le_value(bytes.take(4))) as int));
    }
}

/// A file that is cut where its complete records end holds the same entries, and
/// nothing but complete records.
pub proof fn law_cut_file_reads_the_same(bytes: Seq<u8>)
    ensures
        ({
            let cut = bytes.take(complete_len(bytes) as int);
            &&& complete_len(bytes) <= bytes.len()
            &&& read_frames(cut) == read_frames(bytes)
            &&& complete_len(cut) == cut.len()
        }),
    decreases bytes.len(),
{
    lemma_complete_len(bytes);
    let n = complete_len(bytes) as int;
    let cut = bytes.take(n);
    if !truncated(bytes) {
        let end = (4 + le_value(bytes.take(4))) as int;
        let rest = bytes.skip(end);
        lemma_complete_len(rest);
        law_cut_file_reads_the_same(rest);
        assert(cut.take(4) =~= bytes.take(4));
        assert(cut.subrange(4, end) =~= bytes.subrange(4, end));
        assert(cut.skip(end) =~= rest.take(complete_len(rest) as int));
    }
}

/// Behind complete records, reading goes on with whatever follows them.
pub proof fn law_reading_goes_on(bytes: Seq<u8>, more: Seq<u8>)
    requires
        complete_len(bytes) == bytes.len(),
    ensures
        read_frames(bytes + more) == read_frames(bytes) + read_frames(more),
        complete_len(bytes + more) == bytes.len() + complete_len(more),
    decreases bytes.len(),
{
    if truncated(bytes) {
        assert(bytes + more =~= more);
        assert(read_frames(bytes) + read_frames(more) =~= read_frames(more));
    } else {
        let both = bytes + more;
        let end = (4 + le_value(bytes.take(4))) as int;
        let rest = bytes.skip(end);
        law_reading_goes_on(rest, more);
        assert(both.take(4) =~= bytes.take(4));
        assert(both.subrange(4, end) =~= bytes.subrange(4, end));
        assert(both.skip(end) =~= rest + more);
        match entry_in(bytes.subrange(4, end)) {
            Some(e) => {
                assert((seq![e] + read_frames(rest)) + read_frames(more) =~= seq![e] + (
                read_frames(rest) + read_frames(more)));
            },
            None => {},
        }
    }
}

/// Written records are complete.
pub proof fn lemma_frames_complete(entries: Seq<EntryView>)
    requires
        forall|i: int|
            0 <= i < entries.len() ==> entry_layout(#[trigger] entries[i]).len() < 0x1_0000_0000,
    ensures
        complete_len(frames(entries)) == frames(entries).len(),
    decreases entries.len(),
{
    if entries.len() > 0 {
        let init = entries.drop_last();
        let e = entries.last();
        assert forall|i: int| 0 <= i < init.len() implies entry_layout(#[trigger] init[i]).len()
            < 0x1_0000_0000 by {
            assert(init[i] == entries[i]);
        }
        lemma_frames_complete(init);
        law_reading_goes_on(frames(init), frame(e));
        let layout = entry_layout(e);
        assert(entry_layout(entries[entries.len() - 1]).len() < 0x1_0000_0000);
        lemma_byte_span();
        lemma_le_value(layout.len(), 4);
        assert(frame(e).take(4) =~= le_bytes(layout.len(), 4));
        assert(frame(e).skip(4 + layout.len() as int) =~= Seq::<u8>::empty());
        assert(complete_len(Seq::<u8>::empty()) == 0);
    }
}

/// How many of `bytes` the complete records take: what lies behind them was left
/// by a process that was killed while it wrote, and is to be cut off before
/// anything is appended.
pub fn complete_records(bytes: &[u8]) -> (len: usize)
    ensures
        len == complete_len(bytes@),
        len <= bytes@.len(),
{
    let mut pos: usize = 0;
    proof {
        assert(bytes@.skip(0) =~= bytes@);
    }
    while bytes.len() - pos >= 4
        invariant_except_break
            pos <= bytes@.len(),
            bytes@.len() == bytes.len(),
            pos + complete_len(bytes@.skip(pos as int)) == complete_len(bytes@),
        ensures
            pos <= bytes@.len(),
            pos == complete_len(bytes@),
        decreases bytes@.len() - pos,
    {
        let ghost here = bytes@.skip(pos as int);
        let len: u32 = read_u32_le(bytes, pos);
        proof {
            assert(here.take(4) =~= bytes@.subrange(pos as int, pos + 4));
            lemma_byte_span();
            lemma_le_value(len as nat, 4);
        }
        if len as usize > bytes.len() - pos - 4 {
            assert(truncated(here));
            break;
        }
        proof {
            assert(here.skip(4 + len as int) =~= bytes@.skip(pos + 4 + len));
        }
        pos = pos + 4 + len as usize;
        proof {
            if bytes@.len() - pos < 4 {
                assert(truncated(bytes@.skip(pos as int)));
            }
        }
    }
    pos
}

proof fn lemma_first_frame(e: EntryView, tail: Seq<u8>)
    requires
        entry_layout(e).len() < 0x1_0000_0000,
    ensures
        read_frames(frame(e) + tail) == seq![e] + read_frames(tail),
{
    let layout = entry_layout(e);
    let n = layout.len();
    let bytes = frame(e) + tail;
    lemma_byte_span();
    lemma_le_value(n, 4);
    assert(bytes.take(4) =~= le_bytes(n, 4));
    assert(bytes.subrange(4, 4 + n as int) =~= layout);
    assert(bytes.skip(4 + n as int) =~= tail);
    assert(layout =~= layout.subrange(0, layout.len() as int));
    assert(reads_entry(layout, Some(e)));
    lemma_entry_in(layout, Some(e));
}

/// Reading gives back the entries that were written, and then goes on with
/// whatever follows them.
pub proof fn law_frames_round_trip(entries: Seq<EntryView>, tail: Seq<u8>)
    requires
        forall|i: int|
            0 <= i < entries.len() ==> entry_layout(#[trigger] entries[i]).len() < 0x1_0000_0000,
    ensures
        read_frames(frames(entries) + tail) == entries + read_frames(tail),
    decreases entries.len(),
{
    if entries.len() == 0 {
        assert(frames(entries) + tail =~= tail);
        assert(entries + read_frames(tail) =~= read_frames(tail));
    } else {
        let init = entries.drop_last();
        let e = entries.last();
        assert(frames(entries) + tail =~= frames(init) + (frame(e) + tail));
        assert forall|i: int| 0 <= i < init.len() implies entry_layout(#[trigger] init[i]).len()
            < 0x1_0000_0000 by {
            assert(init[i] == entries[i]);
        }
        law_frames_round_trip(init, frame(e) + tail);
        assert(entry_layout(entries[entries.len() - 1]).len() < 0x1_0000_0000);
        lemma_first_frame(e, tail);
        assert(entries + read_frames(tail) =~= init + (seq![e] + read_frames(tail)));
    }
}

/// A truncated record at the end is dropped, and nothing else.
pub proof fn law_truncated_tail_is_dropped(entries: Seq<EntryView>, tail: Seq<u8>)
    requires
        forall|i: int|
            0 <= i < entries.len() ==> entry_layout(#[trigger] entries[i]).len() < 0x1_0000_0000,
        truncated(tail),
    ensures
        read_frames(frames(entries) + tail) == entries,
{
    law_frames_round_trip(entries, tail);
    assert(entries + read_frames(tail) =~= entries);
}

/// Appends one record to `buf`.
pub fn write_framed_entry(buf: &mut Vec<u8>, entry: &LogEntry)
    ensures
        final(buf)@ == old(buf)@ + frame(entry@),
{
    let encoded = wire::encode_entry(entry);
    push_u32_le(buf, low_u32(encoded.len()));
    buf.extend_from_slice(encoded.as_slice());
    proof {
        assert(buf@ =~= old(buf)@ + frame(entry@));
    }
}

/// The records of `entries`.
pub fn framed(entries: &Vec<LogEntry>) -> (buf: Vec<u8>)
    ensures
        buf@ == frames(views(entries@)),
{
    let mut buf: Vec<u8> = Vec::new();
    let mut i: usize = 0;
    while i < entries.len()
        invariant
            i <= entries@.len(),
            buf@ == frames(views(entries@).take(i as int)),
        decreases entries@.len() - i,
    {
        write_framed_entry(&mut buf, &entries[i]);
        i = i + 1;
        proof {
            let done = views(entries@).take(i as int);
            assert(done.drop_last() =~= views(entries@).take(i - 1));
            assert(done.last() == entries@[i - 1]@);
        }
    }
    proof {
        assert(views(entries@).take(i as int) =~= views(entries@));
    }
    buf
}

/// Reads as many complete records as `bytes` hold. Stops at a truncated record,
/// as a process that was killed while it wrote leaves one, and skips records
/// that hold no entry.
pub fn read_framed_entries(bytes: &[u8]) -> (entries: Vec<LogEntry>)
    ensures
        views(entries@) == read_frames(bytes@),
{
    let mut entries: Vec<LogEntry> = Vec::new();
    let mut pos: usize = 0;
    proof {
        assert(bytes@.skip(0) =~= bytes@);
        assert(views(entries@) + read_frames(bytes@) =~= read_frames(bytes@));
    }
    while bytes.len() - pos >= 4
        invariant_except_break
            pos <= bytes@.len(),
            bytes@.len() == bytes.len(),
            views(entries@) + read_frames(bytes@.skip(pos as int)) == read_frames(bytes@),
        ensures
            views(entries@) == read_frames(bytes@),
        decreases bytes@.len() - pos,
    {
        let ghost here = bytes@.skip(pos as int);
        let ghost before = views(entries@);
        let len: u32 = read_u32_le(bytes, pos);
        proof {
            assert(here.take(4) =~= bytes@.subrange(pos as int, pos + 4));
            lemma_byte_span();
            lemma_le_value(len as nat, 4);
        }
        let start: usize = pos + 4;
        if len as usize > bytes.len() - start {
            assert(truncated(here));
            assert(before + read_frames(here) =~= before);
            break;
        }
        let end: usize = start + len as usize;
        let body = vstd::slice::slice_subrange(bytes, start, end);
        let decoded = wire::decode_entry(body);
        proof {
            assert(body@ =~= here.subrange(4, 4 + len as int));
            lemma_entry_in(body@, view_of(decoded));
            assert(here.skip(4 + len as int) =~= bytes@.skip(end as int));
        }
        if let Some(entry) = decoded {
            entries.push(entry);
            proof {
                let rest = read_frames(bytes@.skip(end as int));
                assert(views(entries@) =~= before.push(entry@));
                assert(before + (seq![entry@] + rest) =~= before.push(entry@) + rest);
            }
        }
        pos = end;
        proof {
            if bytes@.len() - pos < 4 {
                assert(truncated(bytes@.skip(pos as int)));
                assert(views(entries@) + read_frames(bytes@.skip(pos as int)) =~= views(entries@));
            }
        }
    }
    entries
}

/// A record is the length of the entry in four bytes, the lowest first, and then
/// the entry. Records stand one after the other.
pub proof fn law_record_layout(entries: Seq<EntryView>, e: EntryView)
    requires
        entry_layout(e).len() < 0x1_0000_0000,
    ensures
        ({
            let n = entry_layout(e).len();
            &&& frame(e).len() == 4 + n
            &&& frame(e)[0] == n % 256
            &&& frame(e)[1] == n / 256 % 256
            &&& frame(e)[2] == n / 0x1_0000 % 256
            &&& frame(e)[3] == n / 0x100_0000
            &&& frame(e).skip(4) == entry_layout(e)
            &&& frames(entries.push(e)) == frames(entries) + frame(e)
            &&& frames(Seq::empty()) == Seq::<u8>::empty()
        }),
{
    let n = entry_layout(e).len();
    reveal_with_fuel(le_bytes, 5);
    assert(n / 256 / 256 == n / 0x1_0000);
    assert(n / 256 / 256 / 256 == n / 0x100_0000);
    assert(n / 0x100_0000 < 256);
    assert(frame(e).skip(4) =~= entry_layout(e));
    assert(entries.push(e).drop_last() =~= entries);
}

} // verus!
