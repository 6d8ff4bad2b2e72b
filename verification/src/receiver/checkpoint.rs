//! The checkpoint: how far the results were contiguous when it was written.
//!
//! It may lag behind. A restart then asks for a little more than it lacks, and
//! the duplicates are recognised.

use crate::text;
use crate::text::{decimal, is_white, law_decimal_round_trip, number_of, trim_end, trim_of, trim_start};
use vstd::prelude::*;

verus! {

/// The pause between two looks at whether the checkpoint has to be written.
pub const CHECKPOINT_INTERVAL_MS: u64 = 200;

/// The watermark that the text of a checkpoint holds; 0 if it holds none.
pub open spec fn watermark_in(text: Seq<char>) -> nat {
    match number_of(trim_of(text), u64::MAX as nat) {
        Some(n) => n,
        None => 0,
    }
}

/// The watermark of a checkpoint file; 0 if it could not be read.
pub open spec fn watermark_of(contents: Option<&str>) -> nat {
    match contents {
        Some(text) => watermark_in(text@),
        None => 0,
    }
}

/// The watermark of a checkpoint file, of which `contents` is the text if it
/// could be read.
pub fn load(contents: Option<&str>) -> (watermark: u64)
    ensures
        watermark == watermark_of(contents),
{
    match contents {
        Some(text) => match text::parse_number(text::trim(text), u64::MAX) {
            Some(n) => n,
            None => 0,
        },
        None => 0,
    }
}

/// What is written of a watermark, and what is then known to be written.
pub open spec fn checkpoint_saved(
    before: u64,
    after: u64,
    watermark: u64,
    contents: Option<String>,
) -> bool {
    &&& after == watermark
    &&& contents is Some <==> watermark != before
    &&& contents matches Some(text) ==> text@ == decimal(watermark as nat)
}

/// The last watermark that was written.
pub struct CheckpointWriter {
    pub last_written: u64,
}

impl CheckpointWriter {
    pub fn new() -> (writer: Self)
        ensures
            writer.last_written == 0,
    {
        CheckpointWriter { last_written: 0 }
    }

    /// The text to write for a watermark; none if it has not changed.
    pub fn save(&mut self, last_contiguous: u64) -> (contents: Option<String>)
        ensures
            checkpoint_saved(
                old(self).last_written,
                final(self).last_written,
                last_contiguous,
                contents,
            ),
    {
        if last_contiguous == self.last_written {
            return None;
        }
        self.last_written = last_contiguous;
        let mut contents = String::new();
        text::push_decimal(&mut contents, last_contiguous as u128);
        proof {
            assert(contents@ =~= decimal(last_contiguous as nat));
        }
        Some(contents)
    }
}

proof fn lemma_decimal_not_white(n: nat)
    ensures
        decimal(n).len() > 0,
        !is_white(decimal(n)[0]),
        !is_white(decimal(n).last()),
    decreases n,
{
    if n >= 10 {
        lemma_decimal_not_white(n / 10);
        assert(decimal(n)[0] == decimal(n / 10)[0]);
    }
}

/// A restart goes on from the watermark that was written.
pub proof fn law_checkpoint_round_trip(watermark: u64)
    ensures
        watermark_in(decimal(watermark as nat)) == watermark,
{
    let text = decimal(watermark as nat);
    lemma_decimal_not_white(watermark as nat);
    assert(trim_start(text) == text);
    assert(trim_end(text) == text);
    law_decimal_round_trip(watermark as nat, u64::MAX as nat);
}

/// Each new watermark is written, and none twice in a row. Whoever reads what was
/// written has the watermark again.
pub proof fn law_new_watermarks_are_written(
    before: u64,
    after: u64,
    later: u64,
    watermark: u64,
    next: u64,
    contents: Option<String>,
    more: Option<String>,
)
    requires
        checkpoint_saved(before, after, watermark, contents),
        checkpoint_saved(after, later, next, more),
    ensures
        contents is Some <==> watermark != before,
        contents matches Some(text) ==> watermark_in(text@) == watermark,
        more is Some <==> next != watermark,
        more matches Some(text) ==> watermark_in(text@) == next,
{
    law_checkpoint_round_trip(watermark);
    law_checkpoint_round_trip(next);
}

} // verus!
