//! The commands that the cluster replicates, and the log entries that hold them.

use vstd::prelude::*;

verus! {

/// The outcome of one order, as the cluster replicates and publishes it.
#[derive(Debug)]
pub struct ReplicatedCommand {
    pub order_id: u64,
    pub symbol: String,
    pub side: String,
    pub qty: u32,
    pub status: String,
    pub filled_qty: u32,
    pub processed_by: String,
    pub term: u64,
}

/// One slot of the replicated log.
#[derive(Debug)]
pub struct LogEntry {
    pub index: u64,
    pub term: u64,
    pub command: ReplicatedCommand,
}

/// The contents of a command, its texts as characters.
#[verifier::ext_equal]
pub struct CommandView {
    pub order_id: u64,
    pub symbol: Seq<char>,
    pub side: Seq<char>,
    pub qty: u32,
    pub status: Seq<char>,
    pub filled_qty: u32,
    pub processed_by: Seq<char>,
    pub term: u64,
}

/// The contents of a log entry.
#[verifier::ext_equal]
pub struct EntryView {
    pub index: u64,
    pub term: u64,
    pub command: CommandView,
}

impl View for ReplicatedCommand {
    type V = CommandView;

    open spec fn view(&self) -> CommandView {
        CommandView {
            order_id: self.order_id,
            symbol: self.symbol@,
            side: self.side@,
            qty: self.qty,
            status: self.status@,
            filled_qty: self.filled_qty,
            processed_by: self.processed_by@,
            term: self.term,
        }
    }
}

impl View for LogEntry {
    type V = EntryView;

    open spec fn view(&self) -> EntryView {
        EntryView { index: self.index, term: self.term, command: self.command@ }
    }
}

impl Clone for ReplicatedCommand {
    fn clone(&self) -> (copy: Self)
        ensures
            copy == *self,
    {
        ReplicatedCommand {
            order_id: self.order_id,
            symbol: self.symbol.clone(),
            side: self.side.clone(),
            qty: self.qty,
            status: self.status.clone(),
            filled_qty: self.filled_qty,
            processed_by: self.processed_by.clone(),
            term: self.term,
        }
    }
}

impl Clone for LogEntry {
    fn clone(&self) -> (copy: Self)
        ensures
            copy == *self,
    {
        LogEntry { index: self.index, term: self.term, command: self.command.clone() }
    }
}

/// The contents of a run of entries.
pub open spec fn views(entries: Seq<LogEntry>) -> Seq<EntryView> {
    Seq::new(entries.len(), |i: int| entries[i]@)
}

/// Copies the entries from position `start` on.
pub fn copy_from(entries: &Vec<LogEntry>, start: usize) -> (copy: Vec<LogEntry>)
    requires
        start <= entries@.len(),
    ensures
        copy@ == entries@.skip(start as int),
{
    let mut copy: Vec<LogEntry> = Vec::new();
    let mut i: usize = start;
    while i < entries.len()
        invariant
            start <= i <= entries@.len(),
            copy@ == entries@.subrange(start as int, i as int),
        decreases entries@.len() - i,
    {
        copy.push(entries[i].clone());
        i = i + 1;
    }
    proof {
        assert(copy@ =~= entries@.skip(start as int));
    }
    copy
}

} // verus!
