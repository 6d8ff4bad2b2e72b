//! The replicated log of one replica, and the records that make it durable.
//!
//! The log lives in memory; every change names the bytes that have to reach the
//! file first. A leader plans a batch, has its records written, and then adds
//! the batch to the log. A follower walks through the entries that its leader
//! sent and has one record written for each entry that it lacks. Where it holds
//! an entry of another term, it plans the whole log anew, has its records
//! written in place of all others, and then takes it.

use crate::process::frames::{frame, framed, frames, read_frames, read_framed_entries, write_framed_entry};
use crate::process::log_entry::{copy_from, views, LogEntry, ReplicatedCommand};
use vstd::prelude::*;

verus! {

/// Whether the entries stand in ascending order of their index.
pub open spec fn ascending(log: Seq<LogEntry>) -> bool {
    forall|i: int, j: int|
        0 <= i <= j < log.len() ==> (#[trigger] log[i]).index <= (#[trigger] log[j]).index
}

/// The index of the last entry, or 0.
pub open spec fn last_index_of(log: Seq<LogEntry>) -> u64 {
    if log.len() == 0 {
        0
    } else {
        log.last().index
    }
}

/// The term of the last entry, or 0.
pub open spec fn last_term_of(log: Seq<LogEntry>) -> u64 {
    if log.len() == 0 {
        0
    } else {
        log.last().term
    }
}

/// The first entry with this index.
pub open spec fn first_with(log: Seq<LogEntry>, index: u64) -> Option<LogEntry>
    decreases log.len(),
{
    if log.len() == 0 {
        None
    } else if log[0].index == index {
        Some(log[0])
    } else {
        first_with(log.skip(1), index)
    }
}

/// The entry with this index: the one in its own slot if that slot holds it,
/// otherwise the first one. Indexes start at 1.
pub open spec fn entry_of(log: Seq<LogEntry>, index: u64) -> Option<LogEntry> {
    if index == 0 {
        None
    } else if index <= log.len() && log[index - 1].index == index {
        Some(log[index - 1])
    } else {
        first_with(log, index)
    }
}

/// The term of the entry with this index. Before the first entry it is 0.
pub open spec fn term_of(log: Seq<LogEntry>, index: u64) -> Option<u64> {
    if index == 0 {
        Some(0)
    } else {
        match entry_of(log, index) {
            Some(e) => Some(e.term),
            None => None,
        }
    }
}

/// The log from the first entry at or above this index on.
pub open spec fn from_index_of(log: Seq<LogEntry>, index: u64) -> Seq<LogEntry>
    decreases log.len(),
{
    if log.len() == 0 || log[0].index >= index {
        log
    } else {
        from_index_of(log.skip(1), index)
    }
}

/// The entries whose order id lies in `from ..= to`.
pub open spec fn with_order_ids(log: Seq<LogEntry>, from: u64, to: u64) -> Seq<LogEntry> {
    log.filter(|e: LogEntry| from <= e.command.order_id <= to)
}

/// The entries below this index.
pub open spec fn below(log: Seq<LogEntry>, index: u64) -> Seq<LogEntry>
    decreases log.len(),
{
    if log.len() == 0 {
        log
    } else if log.last().index < index {
        below(log.drop_last(), index).push(log.last())
    } else {
        below(log.drop_last(), index)
    }
}

/// `log` with `entry` behind the entries whose index is at most its own.
pub open spec fn insert_by_index(log: Seq<LogEntry>, entry: LogEntry) -> Seq<LogEntry>
    decreases log.len(),
{
    if log.len() == 0 || log.last().index <= entry.index {
        log.push(entry)
    } else {
        insert_by_index(log.drop_last(), entry).push(log.last())
    }
}

/// The entries in ascending order of their index; those of one index keep
/// their order.
pub open spec fn sort_by_index(log: Seq<LogEntry>) -> Seq<LogEntry>
    decreases log.len(),
{
    if log.len() == 0 {
        log
    } else {
        insert_by_index(sort_by_index(log.drop_last()), log.last())
    }
}

/// A follower's log once it has taken over one entry of its leader: an entry
/// that it holds with another term goes, with everything at or above it.
pub open spec fn merge_one(log: Seq<LogEntry>, incoming: LogEntry) -> Seq<LogEntry> {
    match entry_of(log, incoming.index) {
        Some(held) => if held.term != incoming.term {
            below(log, incoming.index).push(incoming)
        } else {
            log
        },
        None => log.push(incoming),
    }
}

/// A follower's log once it has taken over `incoming`, in order.
pub open spec fn merge(log: Seq<LogEntry>, incoming: Seq<LogEntry>) -> Seq<LogEntry>
    decreases incoming.len(),
{
    if incoming.len() == 0 {
        log
    } else {
        merge_one(merge(log, incoming.drop_last()), incoming.last())
    }
}

/// Whether taking over `incoming` replaces an entry that the log holds.
pub open spec fn merge_replaces(log: Seq<LogEntry>, incoming: Seq<LogEntry>) -> bool
    decreases incoming.len(),
{
    if incoming.len() == 0 {
        false
    } else {
        ||| merge_replaces(log, incoming.drop_last())
        ||| {
            let held = entry_of(merge(log, incoming.drop_last()), incoming.last().index);
            held is Some && held->0.term != incoming.last().term
        }
    }
}

/// Whether the log holds an entry for the index of each of `incoming` by the
/// time it takes that one over.
pub open spec fn merge_adds_nothing(log: Seq<LogEntry>, incoming: Seq<LogEntry>) -> bool
    decreases incoming.len(),
{
    if incoming.len() == 0 {
        true
    } else {
        &&& merge_adds_nothing(log, incoming.drop_last())
        &&& entry_of(merge(log, incoming.drop_last()), incoming.last().index) is Some
    }
}

/// Whether a leader that has `prev_log_index` and `prev_log_term` before its
/// entries may append them to `log`.
pub open spec fn accepts_append(log: Seq<LogEntry>, prev_log_index: u64, prev_log_term: u64) -> bool {
    prev_log_index <= last_index_of(log) && term_of(log, prev_log_index) == Some(prev_log_term)
}

/// Leading entries below an index do not matter to what lies at or above it.
pub proof fn lemma_skip_below(log: Seq<LogEntry>, index: u64, p: int)
    requires
        0 <= p <= log.len(),
        forall|i: int| 0 <= i < p ==> (#[trigger] log[i]).index < index,
    ensures
        from_index_of(log, index) == from_index_of(log.skip(p), index),
    decreases p,
{
    if p == 0 {
        assert(log.skip(0) =~= log);
    } else {
        assert(log[0].index < index);
        let rest = log.skip(1);
        assert forall|i: int| 0 <= i < p - 1 implies (#[trigger] rest[i]).index < index by {
            assert(rest[i] == log[i + 1]);
        }
        lemma_skip_below(rest, index, p - 1);
        assert(rest.skip(p - 1) =~= log.skip(p));
    }
}

proof fn lemma_skip_others(log: Seq<LogEntry>, index: u64, p: int)
    requires
        0 <= p <= log.len(),
        forall|i: int| 0 <= i < p ==> (#[trigger] log[i]).index != index,
    ensures
        first_with(log, index) == first_with(log.skip(p), index),
    decreases p,
{
    if p == 0 {
        assert(log.skip(0) =~= log);
    } else {
        assert(log[0].index != index);
        let rest = log.skip(1);
        assert forall|i: int| 0 <= i < p - 1 implies (#[trigger] rest[i]).index != index by {
            assert(rest[i] == log[i + 1]);
        }
        lemma_skip_others(rest, index, p - 1);
        assert(rest.skip(p - 1) =~= log.skip(p));
    }
}

/// Where a log in ascending order has no entry of an index.
proof fn lemma_absent_above(log: Seq<LogEntry>, index: u64)
    requires
        forall|i: int| 0 <= i < log.len() ==> (#[trigger] log[i]).index > index,
    ensures
        first_with(log, index) is None,
    decreases log.len(),
{
    if log.len() > 0 {
        assert(log[0].index > index);
        let rest = log.skip(1);
        assert forall|i: int| 0 <= i < rest.len() implies (#[trigger] rest[i]).index > index by {
            assert(rest[i] == log[i + 1]);
        }
        lemma_absent_above(rest, index);
    }
}

proof fn lemma_first_with(log: Seq<LogEntry>, index: u64)
    ensures
        first_with(log, index) matches Some(e) ==> e.index == index && log.contains(e),
        first_with(log, index) is None ==> forall|i: int|
            0 <= i < log.len() ==> (#[trigger] log[i]).index != index,
    decreases log.len(),
{
    if log.len() > 0 {
        let rest = log.skip(1);
        lemma_first_with(rest, index);
        if log[0].index == index {
            assert(log.contains(log[0]));
        } else {
            if let Some(e) = first_with(rest, index) {
                let i = choose|i: int| 0 <= i < rest.len() && rest[i] == e;
                assert(log[i + 1] == e);
            } else {
                assert forall|i: int| 0 <= i < log.len() implies (#[trigger] log[i]).index
                    != index by {
                    if i > 0 {
                        assert(rest[i - 1] == log[i]);
                    }
                }
            }
        }
    }
}

/// The entry with an index is one of the log that bears it, and there is none
/// only where no entry of the log does.
pub proof fn lemma_entry_of(log: Seq<LogEntry>, index: u64)
    ensures
        index == 0 ==> entry_of(log, index) is None,
        entry_of(log, index) matches Some(e) ==> exists|i: int|
            0 <= i < log.len() && #[trigger] log[i] == e && e.index == index,
        index > 0 && entry_of(log, index) is None ==> forall|i: int|
            0 <= i < log.len() ==> (#[trigger] log[i]).index != index,
{
    lemma_first_with(log, index);
}

/// Whether the log has the entries 1, 2, 3, ... and no others.
pub open spec fn contiguous(log: Seq<LogEntry>) -> bool {
    forall|i: int| 0 <= i < log.len() ==> (#[trigger] log[i]).index == i + 1
}

/// The entry with an index in a contiguous log.
pub proof fn lemma_contiguous_entry(log: Seq<LogEntry>, index: u64)
    requires
        contiguous(log),
    ensures
        entry_of(log, index) == (if 0 < index <= log.len() {
            Some(log[index - 1])
        } else {
            None
        }),
{
    lemma_first_with(log, index);
    if 0 < index <= log.len() {
        assert(log[index - 1].index == index);
    } else if let Some(e) = first_with(log, index) {
        let i = choose|i: int| 0 <= i < log.len() && log[i] == e;
        assert(log[i].index == i + 1);
    }
}

/// The entries below an index in a contiguous log.
pub proof fn lemma_contiguous_below(log: Seq<LogEntry>, index: u64)
    requires
        contiguous(log),
        0 < index,
    ensures
        below(log, index) == (if index <= log.len() {
            log.take(index - 1)
        } else {
            log
        }),
    decreases log.len(),
{
    if log.len() > 0 {
        let init = log.drop_last();
        assert(log[log.len() - 1].index == log.len());
        assert(contiguous(init)) by {
            assert forall|i: int| 0 <= i < init.len() implies (#[trigger] init[i]).index == i
                + 1 by {
                assert(init[i] == log[i]);
            }
        }
        lemma_contiguous_below(init, index);
        if index > log.len() {
            assert(init.push(log.last()) =~= log);
        } else if index == log.len() {
            assert(log.take(index - 1) =~= init);
        } else {
            assert(init.take(index - 1) =~= log.take(index - 1));
        }
    }
}

/// A follower whose log is contiguous, and which takes over a contiguous run of
/// entries that continues it somewhere, ends with a contiguous log that agrees
/// with its leader on every entry of the run and that has kept everything
/// before the run.
pub proof fn law_merge_matches_leader(log: Seq<LogEntry>, prev: int, incoming: Seq<LogEntry>)
    requires
        contiguous(log),
        0 <= prev <= log.len(),
        forall|j: int|
            0 <= j < incoming.len() ==> (#[trigger] incoming[j]).index == prev + 1 + j,
    ensures
        contiguous(merge(log, incoming)),
        merge(log, incoming).len() >= prev + incoming.len(),
        forall|i: int| 0 <= i < prev ==> #[trigger] merge(log, incoming)[i] == log[i],
        forall|j: int|
            0 <= j < incoming.len() ==> merge(log, incoming)[prev + j].term == (
            #[trigger] incoming[j]).term,
    decreases incoming.len(),
{
    if incoming.len() > 0 {
        let init = incoming.drop_last();
        let e = incoming.last();
        let n = init.len() as int;
        assert forall|j: int| 0 <= j < init.len() implies (#[trigger] init[j]).index == prev + 1
            + j by {
            assert(init[j] == incoming[j]);
        }
        law_merge_matches_leader(log, prev, init);
        let m = merge(log, init);
        assert(incoming[n].index == prev + 1 + n);
        lemma_contiguous_entry(m, e.index);
        lemma_contiguous_below(m, e.index);
        let after = merge(log, incoming);
        assert(after == merge_one(m, e));
        assert forall|i: int| 0 <= i < after.len() implies (#[trigger] after[i]).index == i + 1 by {
            if i < m.len() {
                assert(m[i].index == i + 1);
            }
        }
        assert forall|j: int| 0 <= j < incoming.len() implies after[prev + j].term == (
        #[trigger] incoming[j]).term by {
            if j < n {
                assert(init[j] == incoming[j]);
                assert(m[prev + j].term == init[j].term);
            }
        }
        assert forall|i: int| 0 <= i < prev implies #[trigger] after[i] == log[i] by {
            assert(m[i] == log[i]);
        }
    }
}

/// Taking over two runs one after the other takes over both.
pub proof fn law_merge_in_parts(log: Seq<LogEntry>, first: Seq<LogEntry>, second: Seq<LogEntry>)
    ensures
        merge(log, first + second) == merge(merge(log, first), second),
        merge_replaces(log, first + second) == (merge_replaces(log, first) || merge_replaces(
            merge(log, first),
            second,
        )),
    decreases second.len(),
{
    if second.len() == 0 {
        assert(first + second =~= first);
    } else {
        law_merge_in_parts(log, first, second.drop_last());
        assert((first + second).drop_last() =~= first + second.drop_last());
        assert((first + second).last() == second.last());
    }
}

/// Recording a written entry that the log lacked continues the merge: however
/// the writes interrupt it, a follower that has taken over the first `k`
/// entries and one more that it lacked has merged the first `k + 1`.
pub proof fn law_written_entry_is_merged(log: Seq<LogEntry>, incoming: Seq<LogEntry>, k: int)
    requires
        0 <= k < incoming.len(),
        entry_of(merge(log, incoming.take(k)), incoming[k].index) is None,
    ensures
        merge(log, incoming.take(k)).push(incoming[k]) == merge(log, incoming.take(k + 1)),
        merge_replaces(log, incoming.take(k)) == merge_replaces(log, incoming.take(k + 1)),
{
    let next = incoming.take(k + 1);
    assert(next.drop_last() =~= incoming.take(k));
    assert(next.last() == incoming[k]);
}

/// Sorting keeps the entries and puts them in ascending order.
pub proof fn law_sort_by_index(log: Seq<LogEntry>)
    ensures
        ascending(sort_by_index(log)),
        sort_by_index(log).to_multiset() == log.to_multiset(),
        ascending(log) ==> sort_by_index(log) == log,
    decreases log.len(),
{
    broadcast use vstd::seq_lib::group_to_multiset_ensures;

    if log.len() > 0 {
        let init = log.drop_last();
        law_sort_by_index(init);
        lemma_insert_by_index(sort_by_index(init), log.last());
        assert(log =~= init.push(log.last()));
        if ascending(log) {
            assert(ascending(init)) by {
                assert forall|i: int, j: int| 0 <= i <= j < init.len() implies (
                #[trigger] init[i]).index <= (#[trigger] init[j]).index by {
                    assert(init[i] == log[i] && init[j] == log[j]);
                }
            }
            if init.len() > 0 {
                assert(log[init.len() - 1].index <= log[init.len() as int].index);
            }
        }
    }
}

proof fn lemma_insert_by_index(log: Seq<LogEntry>, entry: LogEntry)
    requires
        ascending(log),
    ensures
        ascending(insert_by_index(log, entry)),
        insert_by_index(log, entry).to_multiset() == log.to_multiset().insert(entry),
        insert_by_index(log, entry).len() > 0,
        insert_by_index(log, entry).last().index == (if log.len() > 0 && log.last().index
            > entry.index {
            log.last().index
        } else {
            entry.index
        }),
    decreases log.len(),
{
    broadcast use vstd::seq_lib::group_to_multiset_ensures;

    if log.len() == 0 || log.last().index <= entry.index {
        let after = log.push(entry);
        assert forall|i: int, j: int| 0 <= i <= j < after.len() implies (#[trigger] after[i]).index
            <= (#[trigger] after[j]).index by {
            if j < log.len() {
                assert(log[i].index <= log[j].index);
            } else if i < log.len() {
                assert(log[i].index <= log[log.len() - 1].index);
            }
        }
    } else {
        let init = log.drop_last();
        assert(ascending(init)) by {
            assert forall|i: int, j: int| 0 <= i <= j < init.len() implies (#[trigger] init[i]).index
                <= (#[trigger] init[j]).index by {
                assert(init[i] == log[i] && init[j] == log[j]);
            }
        }
        lemma_insert_by_index(init, entry);
        let inner = insert_by_index(init, entry);
        let after = inner.push(log.last());
        if init.len() > 0 {
            assert(log[init.len() - 1].index <= log[init.len() as int].index);
        }
        assert(inner.last().index <= log.last().index);
        assert forall|i: int, j: int| 0 <= i <= j < after.len() implies (#[trigger] after[i]).index
            <= (#[trigger] after[j]).index by {
            if j < inner.len() {
                assert(inner[i].index <= inner[j].index);
            } else if i < inner.len() {
                assert(inner[i].index <= inner[inner.len() - 1].index);
            }
        }
        assert(log =~= init.push(log.last()));
        assert(init.to_multiset().insert(entry).insert(log.last())
            =~= init.to_multiset().insert(log.last()).insert(entry));
    }
}

/// The in-memory log of one replica.
pub struct Wal {
    entries: Vec<LogEntry>,
    ordered: bool,
}

/// Entries that a leader is about to add, with the records to write first.
pub struct LeaderBatch {
    pub entries: Vec<LogEntry>,
    pub bytes: Vec<u8>,
}

/// How far a follower has taken over the entries of an append request.
pub struct FollowerAppend {
    incoming: Vec<LogEntry>,
    next: usize,
    pending: Option<Vec<LogEntry>>,
}

impl FollowerAppend {
    /// The entries that the leader sent.
    pub closed spec fn incoming(self) -> Seq<LogEntry> {
        self.incoming@
    }

    /// How many of them have been taken over.
    pub closed spec fn next(self) -> int {
        self.next as int
    }

    /// The log that takes the place of the present one once its records are
    /// written.
    pub closed spec fn pending(self) -> Option<Seq<LogEntry>> {
        match self.pending {
            Some(log) => Some(log@),
            None => None,
        }
    }

    pub open spec fn wf(self) -> bool {
        &&& 0 <= self.next() <= self.incoming().len()
        &&& self.pending() matches Some(log) ==> ascending(log)
    }
}

/// What a follower needs next to take over the entries of an append request.
pub enum AppendStep {
    /// The next entry is missing: write this record behind the others, and then
    /// record the entry.
    Write { bytes: Vec<u8> },
    /// The next entry replaces another one: write these records in place of all
    /// others, and then record the log that they hold.
    Rewrite { bytes: Vec<u8> },
    /// Nothing is left to write.
    Done,
}

impl View for Wal {
    type V = Seq<LogEntry>;

    closed spec fn view(&self) -> Seq<LogEntry> {
        self.entries@
    }
}

impl Wal {
    pub closed spec fn wf(self) -> bool {
        self.ordered ==> ascending(self.entries@)
    }

    /// The log that the complete records of a file hold, in ascending order.
    pub fn load_entries(bytes: &[u8]) -> (wal: Wal)
        ensures
            wal.wf(),
            exists|read: Seq<LogEntry>|
                views(read) == read_frames(bytes@) && wal@ == #[trigger] sort_by_index(read),
    {
        let read = read_framed_entries(bytes);
        let entries = sorted(read);
        Wal { entries, ordered: true }
    }

    pub fn len(&self) -> (n: usize)
        ensures
            n == self@.len(),
    {
        self.entries.len()
    }

    pub fn last_index(&self) -> (index: u64)
        ensures
            index == last_index_of(self@),
    {
        let n: usize = self.entries.len();
        if n == 0 {
            0
        } else {
            self.entries[n - 1].index
        }
    }

    pub fn last_term(&self) -> (term: u64)
        ensures
            term == last_term_of(self@),
    {
        let n: usize = self.entries.len();
        if n == 0 {
            0
        } else {
            self.entries[n - 1].term
        }
    }

    /// The position of the first entry at or above `index`.
    fn lower_bound(&self, index: u64) -> (p: usize)
        requires
            self.wf(),
        ensures
            p <= self@.len(),
            forall|i: int| 0 <= i < p ==> (#[trigger] self@[i]).index < index,
            p < self@.len() ==> self@[p as int].index >= index,
    {
        if !self.ordered {
            let mut p: usize = 0;
            while p < self.entries.len() && self.entries[p].index < index
                invariant
                    p <= self.entries@.len(),
                    forall|i: int| 0 <= i < p ==> (#[trigger] self.entries@[i]).index < index,
                decreases self.entries@.len() - p,
            {
                p = p + 1;
            }
            return p;
        }
        let mut low: usize = 0;
        let mut high: usize = self.entries.len();
        while low < high
            invariant
                low <= high <= self.entries@.len(),
                ascending(self.entries@),
                forall|i: int| 0 <= i < low ==> (#[trigger] self.entries@[i]).index < index,
                forall|i: int|
                    high <= i < self.entries@.len() ==> (#[trigger] self.entries@[i]).index
                        >= index,
            decreases high - low,
        {
            let mid: usize = low + (high - low) / 2;
            if self.entries[mid].index < index {
                low = mid + 1;
            } else {
                high = mid;
            }
        }
        low
    }

    /// The position of the entry with this index.
    fn position(&self, index: u64) -> (found: Option<usize>)
        requires
            self.wf(),
        ensures
            match found {
                Some(p) => p < self@.len() && entry_of(self@, index) == Some(self@[p as int]),
                None => entry_of(self@, index) is None,
            },
    {
        if index == 0 {
            return None;
        }
        if index - 1 < self.entries.len() as u64 && self.entries[(index - 1) as usize].index
            == index {
            return Some((index - 1) as usize);
        }
        if self.ordered {
            let p: usize = self.lower_bound(index);
            proof {
                lemma_skip_others(self.entries@, index, p as int);
                let rest = self.entries@.skip(p as int);
                if p < self.entries@.len() {
                    assert(rest[0] == self.entries@[p as int]);
                    if rest[0].index > index {
                        assert forall|i: int| 0 <= i < rest.len() implies (#[trigger] rest[i]).index
                            > index by {
                            assert(rest[i] == self.entries@[p + i]);
                        }
                        lemma_absent_above(rest, index);
                    }
                }
            }
            if p < self.entries.len() && self.entries[p].index == index {
                Some(p)
            } else {
                None
            }
        } else {
            let mut p: usize = 0;
            while p < self.entries.len()
                invariant
                    p <= self.entries@.len(),
                    forall|i: int| 0 <= i < p ==> (#[trigger] self.entries@[i]).index != index,
                    first_with(self.entries@, index) == entry_of(self.entries@, index),
                decreases self.entries@.len() - p,
            {
                if self.entries[p].index == index {
                    proof {
                        lemma_skip_others(self.entries@, index, p as int);
                        assert(self.entries@.skip(p as int)[0] == self.entries@[p as int]);
                    }
                    return Some(p);
                }
                p = p + 1;
            }
            proof {
                lemma_skip_others(self.entries@, index, p as int);
            }
            None
        }
    }

    pub fn get_term_at(&self, index: u64) -> (term: Option<u64>)
        requires
            self.wf(),
        ensures
            term == term_of(self@, index),
    {
        if index == 0 {
            return Some(0);
        }
        match self.position(index) {
            Some(p) => Some(self.entries[p].term),
            None => None,
        }
    }

    pub fn entry_at(&self, index: u64) -> (entry: Option<LogEntry>)
        requires
            self.wf(),
        ensures
            entry == entry_of(self@, index),
    {
        match self.position(index) {
            Some(p) => Some(self.entries[p].clone()),
            None => None,
        }
    }

    /// Whether the log has an entry with this index.
    pub fn has_entry(&self, index: u64) -> (held: bool)
        requires
            self.wf(),
        ensures
            held == (entry_of(self@, index) is Some),
    {
        self.position(index).is_some()
    }

    pub fn entries_from(&self, from_index: u64) -> (entries: Vec<LogEntry>)
        requires
            self.wf(),
        ensures
            entries@ == from_index_of(self@, from_index),
    {
        let start: usize = self.lower_bound(from_index);
        proof {
            lemma_skip_below(self.entries@, from_index, start as int);
            let rest = self.entries@.skip(start as int);
            if start < self.entries@.len() {
                assert(rest[0] == self.entries@[start as int]);
            }
        }
        copy_from(&self.entries, start)
    }

    /// The entries that carry the orders `from ..= to`, in log order.
    pub fn entries_with_order_id_range(&self, from: u64, to: u64) -> (found: Vec<LogEntry>)
        ensures
            found@ == with_order_ids(self@, from, to),
    {
        let mut found: Vec<LogEntry> = Vec::new();
        let mut i: usize = 0;
        proof {
            reveal(Seq::filter);
            assert(with_order_ids(self.entries@.take(0), from, to) =~= found@);
        }
        while i < self.entries.len()
            invariant
                i <= self.entries@.len(),
                found@ == with_order_ids(self.entries@.take(i as int), from, to),
            decreases self.entries@.len() - i,
        {
            let id: u64 = self.entries[i].command.order_id;
            if from <= id && id <= to {
                found.push(self.entries[i].clone());
            }
            proof {
                reveal(Seq::filter);
                let next = self.entries@.take(i + 1);
                assert(next.drop_last() =~= self.entries@.take(i as int));
                assert(next.last() == self.entries@[i as int]);
            }
            i = i + 1;
        }
        proof {
            assert(self.entries@.take(i as int) =~= self.entries@);
        }
        found
    }

    /// The highest order id in the log, or 0.
    pub fn highest_order_id(&self) -> (highest: u64)
        ensures
            forall|i: int|
                0 <= i < self@.len() ==> (#[trigger] self@[i]).command.order_id <= highest,
            highest == 0 || exists|i: int|
                0 <= i < self@.len() && (#[trigger] self@[i]).command.order_id == highest,
    {
        let mut highest: u64 = 0;
        let mut i: usize = 0;
        while i < self.entries.len()
            invariant
                i <= self.entries@.len(),
                forall|k: int|
                    0 <= k < i ==> (#[trigger] self.entries@[k]).command.order_id <= highest,
                highest == 0 || exists|k: int|
                    0 <= k < i && (#[trigger] self.entries@[k]).command.order_id == highest,
            decreases self.entries@.len() - i,
        {
            let id: u64 = self.entries[i].command.order_id;
            if id > highest {
                highest = id;
                assert(self.entries@[i as int].command.order_id == highest);
            }
            i = i + 1;
        }
        proof {
            if highest != 0 {
                let k = choose|k: int|
                    0 <= k < self.entries@.len() && (#[trigger] self.entries@[k]).command.order_id
                        == highest;
                assert(self@[k].command.order_id == highest);
            }
        }
        highest
    }

    /// Adds `entry` at the end.
    fn push(&mut self, entry: LogEntry)
        requires
            old(self).wf(),
        ensures
            final(self).wf(),
            final(self)@ == old(self)@.push(entry),
    {
        self.ordered = self.ordered && self.last_index() <= entry.index;
        self.entries.push(entry);
    }

    /// The entry that a leader would append next, with the record to write
    /// before it does.
    pub fn leader_entry(&self, term: u64, command: ReplicatedCommand) -> (planned: (
        LogEntry,
        Vec<u8>,
    ))
        requires
            last_index_of(self@) < u64::MAX,
        ensures
            planned.0 == (LogEntry {
                index: (last_index_of(self@) + 1) as u64,
                term,
                command,
            }),
            planned.1@ == frame(planned.0@),
    {
        let entry = LogEntry { index: self.last_index() + 1, term, command };
        let mut bytes: Vec<u8> = Vec::new();
        write_framed_entry(&mut bytes, &entry);
        proof {
            assert(Seq::<u8>::empty() + frame(entry@) =~= frame(entry@));
        }
        (entry, bytes)
    }

    /// Appends the entry that `leader_entry` planned, once its record is written.
    pub fn append_leader_entry(&mut self, entry: LogEntry) -> (appended: LogEntry)
        requires
            old(self).wf(),
        ensures
            final(self).wf(),
            final(self)@ == old(self)@.push(entry),
            appended == entry,
    {
        self.push(entry.clone());
        entry
    }

    /// The entries that a leader would append next, one for each command, with
    /// the records to write before it does.
    pub fn leader_batch(&self, term: u64, commands: Vec<ReplicatedCommand>) -> (batch: LeaderBatch)
        requires
            last_index_of(self@) + commands@.len() <= u64::MAX,
        ensures
            batch.entries@ == batch_entries(last_index_of(self@), term, commands@),
            batch.bytes@ == frames(views(batch.entries@)),
    {
        let mut entries: Vec<LogEntry> = Vec::new();
        let first: u64 = self.last_index();
        let mut i: usize = 0;
        while i < commands.len()
            invariant
                i <= commands@.len(),
                first == last_index_of(self@),
                first + commands@.len() <= u64::MAX,
                entries@ == batch_entries(first, term, commands@).take(i as int),
            decreases commands@.len() - i,
        {
            let entry = LogEntry { index: first + 1 + i as u64, term, command: commands[i].clone() };
            entries.push(entry);
            i = i + 1;
            proof {
                assert(entries@ =~= batch_entries(first, term, commands@).take(i as int));
            }
        }
        proof {
            assert(entries@ =~= batch_entries(first, term, commands@));
        }
        let bytes = framed(&entries);
        LeaderBatch { entries, bytes }
    }

    /// Appends the entries that `leader_batch` planned, once their records are
    /// written.
    pub fn append_leader_batch(&mut self, batch: LeaderBatch) -> (appended: Vec<LogEntry>)
        requires
            old(self).wf(),
        ensures
            final(self).wf(),
            final(self)@ == old(self)@ + batch.entries@,
            appended@ == batch.entries@,
    {
        let mut i: usize = 0;
        while i < batch.entries.len()
            invariant
                i <= batch.entries@.len(),
                self.wf(),
                self@ == old(self)@ + batch.entries@.take(i as int),
            decreases batch.entries@.len() - i,
        {
            self.push(batch.entries[i].clone());
            i = i + 1;
            proof {
                assert(self@ =~= old(self)@ + batch.entries@.take(i as int));
            }
        }
        proof {
            assert(batch.entries@.take(i as int) =~= batch.entries@);
        }
        batch.entries
    }

    /// Starts to take over the entries of an append request. Nothing is taken
    /// over from a leader whose log does not continue this one.
    pub fn begin_append(
        &self,
        prev_log_index: u64,
        prev_log_term: u64,
        incoming: Vec<LogEntry>,
    ) -> (progress: Option<FollowerAppend>)
        requires
            self.wf(),
        ensures
            progress is Some <==> accepts_append(self@, prev_log_index, prev_log_term),
            progress matches Some(p) ==> p.wf() && p.incoming() == incoming@ && p.next() == 0
                && p.pending() is None,
    {
        if prev_log_index > self.last_index() {
            return None;
        }
        match self.get_term_at(prev_log_index) {
            Some(term) if term == prev_log_term => Some(
                FollowerAppend { incoming, next: 0, pending: None },
            ),
            _ => None,
        }
    }

    /// Passes over the entries of an append request that the log holds, and says
    /// what has to be written next.
    pub fn append_entries_from_leader(&self, progress: &mut FollowerAppend) -> (step: AppendStep)
        requires
            self.wf(),
            old(progress).wf(),
        ensures
            final(progress).wf(),
            final(progress).incoming() == old(progress).incoming(),
            final(progress).next() >= old(progress).next(),
            append_stepped(*old(progress), *final(progress), self@, step),
    {
        let ghost from = progress.next as int;
        let ghost all = progress.incoming@;
        progress.pending = None;
        proof {
            assert(all.subrange(from, from) =~= Seq::empty());
        }
        while progress.next < progress.incoming.len()
            invariant
                self.wf(),
                progress.incoming@ == all,
                progress.pending is None,
                from <= progress.next <= all.len(),
                from == old(progress).next,
                all == old(progress).incoming@,
                merge_adds_nothing(self@, all.subrange(from, progress.next as int)),
                !merge_replaces(self@, all.subrange(from, progress.next as int)),
            decreases all.len() - progress.next,
        {
            let at: usize = progress.next;
            let ghost done = all.subrange(from, at as int);
            let ghost more = all.subrange(from, at + 1);
            proof {
                assert(more.drop_last() =~= done);
                assert(more.last() == all[at as int]);
                lemma_merged_as_it_was(self@, done);
            }
            let index: u64 = progress.incoming[at].index;
            match self.position(index) {
                Some(p) => {
                    if self.entries[p].term != progress.incoming[at].term {
                        let pending = self.merged_with(&progress.incoming, at);
                        let bytes = framed(&pending);
                        progress.pending = Some(pending);
                        return AppendStep::Rewrite { bytes };
                    }
                    progress.next = at + 1;
                },
                None => {
                    let mut bytes: Vec<u8> = Vec::new();
                    write_framed_entry(&mut bytes, &progress.incoming[at]);
                    proof {
                        assert(Seq::<u8>::empty() + frame(all[at as int]@) =~= frame(
                            all[at as int]@,
                        ));
                    }
                    return AppendStep::Write { bytes };
                },
            }
        }
        AppendStep::Done
    }

    /// The log with the entries from position `from` on taken over, in ascending
    /// order.
    fn merged_with(&self, incoming: &Vec<LogEntry>, from: usize) -> (log: Vec<LogEntry>)
        requires
            self.wf(),
            from <= incoming@.len(),
        ensures
            log@ == sort_by_index(merge(self@, incoming@.skip(from as int))),
            ascending(log@),
    {
        let mut merged = Wal { entries: copy_from(&self.entries, 0), ordered: self.ordered };
        let ghost all = incoming@;
        proof {
            assert(self.entries@.skip(0) =~= self.entries@);
            assert(all.subrange(from as int, from as int) =~= Seq::empty());
        }
        let mut i: usize = from;
        while i < incoming.len()
            invariant
                all == incoming@,
                from <= i <= all.len(),
                merged.wf(),
                merged@ == merge(self@, all.subrange(from as int, i as int)),
            decreases all.len() - i,
        {
            proof {
                let more = all.subrange(from as int, i + 1);
                assert(more.drop_last() =~= all.subrange(from as int, i as int));
                assert(more.last() == all[i as int]);
            }
            match merged.position(incoming[i].index) {
                Some(p) => {
                    if merged.entries[p].term != incoming[i].term {
                        merged.replace_from(incoming[i].clone());
                    }
                },
                None => {
                    merged.push(incoming[i].clone());
                },
            }
            i = i + 1;
        }
        proof {
            assert(all.subrange(from as int, i as int) =~= all.skip(from as int));
        }
        sorted(merged.entries)
    }

    /// Takes over the entry whose record `append_entries_from_leader` had
    /// written.
    pub fn record_written(&mut self, progress: &mut FollowerAppend)
        requires
            old(self).wf(),
            old(progress).wf(),
            old(progress).next() < old(progress).incoming().len(),
        ensures
            final(self).wf(),
            final(progress).wf(),
            final(progress).incoming() == old(progress).incoming(),
            final(progress).next() == old(progress).next() + 1,
            final(progress).pending() == old(progress).pending(),
            final(self)@ == old(self)@.push(old(progress).incoming()[old(progress).next()]),
    {
        let at: usize = progress.next;
        assert(at < progress.incoming.len());
        self.push(progress.incoming[at].clone());
        progress.next = at + 1;
    }

    /// Takes the log whose records `append_entries_from_leader` had written in
    /// place of all others. Without one the log stays as it is.
    pub fn record_rewritten(&mut self, progress: &mut FollowerAppend)
        requires
            old(self).wf(),
            old(progress).wf(),
        ensures
            final(self).wf(),
            final(progress).wf(),
            final(progress).incoming() == old(progress).incoming(),
            final(progress).pending() is None,
            match old(progress).pending() {
                Some(log) => {
                    &&& final(self)@ == log
                    &&& final(progress).next() == old(progress).incoming().len()
                },
                None => {
                    &&& final(self)@ == old(self)@
                    &&& final(progress).next() == old(progress).next()
                },
            },
    {
        let mut pending: Option<Vec<LogEntry>> = None;
        std::mem::swap(&mut pending, &mut progress.pending);
        if let Some(entries) = pending {
            self.entries = entries;
            self.ordered = true;
            progress.next = progress.incoming.len();
        }
    }

    /// Drops the entries at or above the index of `entry`, and adds it.
    fn replace_from(&mut self, entry: LogEntry)
        requires
            old(self).wf(),
        ensures
            final(self).wf(),
            final(self)@ == below(old(self)@, entry.index).push(entry),
    {
        let mut kept: Vec<LogEntry> = Vec::new();
        let mut i: usize = 0;
        let ordered = self.ordered;
        while i < self.entries.len()
            invariant
                i <= self.entries@.len(),
                self.entries@ == old(self).entries@,
                kept@ == below(self.entries@.take(i as int), entry.index),
                ordered == old(self).ordered,
                ordered ==> ascending(self.entries@),
                ordered ==> ascending(kept@),
                i > 0 && kept@.len() > 0 ==> last_is_below(
                    kept@,
                    self.entries@.take(i as int),
                    ordered,
                ),
                forall|k: int| 0 <= k < kept@.len() ==> (#[trigger] kept@[k]).index < entry.index,
            decreases self.entries@.len() - i,
        {
            proof {
                let next = self.entries@.take(i + 1);
                assert(next.drop_last() =~= self.entries@.take(i as int));
                assert(next.last() == self.entries@[i as int]);
            }
            if self.entries[i].index < entry.index {
                kept.push(self.entries[i].clone());
            }
            i = i + 1;
        }
        proof {
            assert(self.entries@.take(i as int) =~= self.entries@);
        }
        self.entries = kept;
        self.push(entry);
    }
}

/// In a log in ascending order, what has been kept lies below what comes next.
spec fn last_is_below(kept: Seq<LogEntry>, seen: Seq<LogEntry>, ordered: bool) -> bool {
    ordered ==> kept.last().index <= seen.last().index
}

/// The entries that a leader makes of `commands` behind the index `last`.
pub open spec fn batch_entries(
    last: u64,
    term: u64,
    commands: Seq<ReplicatedCommand>,
) -> Seq<LogEntry> {
    Seq::new(
        commands.len(),
        |i: int| LogEntry { index: (last + 1 + i) as u64, term, command: commands[i] },
    )
}

/// How `append_entries_from_leader` goes on: it passes over the entries that the
/// log holds with the same term, up to the first one that the log lacks or that
/// replaces another one. Where one does, the log with that entry and all behind
/// it is planned.
pub open spec fn append_stepped(
    before: FollowerAppend,
    after: FollowerAppend,
    log: Seq<LogEntry>,
    step: AppendStep,
) -> bool {
    let passed = before.incoming().subrange(before.next(), after.next());
    &&& merge_adds_nothing(log, passed)
    &&& !merge_replaces(log, passed)
    &&& match step {
        AppendStep::Write { bytes } => {
            &&& after.next() < after.incoming().len()
            &&& entry_of(log, after.incoming()[after.next()].index) is None
            &&& bytes@ == frame(after.incoming()[after.next()]@)
            &&& after.pending() is None
        },
        AppendStep::Rewrite { bytes } => {
            &&& after.next() < after.incoming().len()
            &&& entry_of(log, after.incoming()[after.next()].index) matches Some(held)
            &&& held.term != after.incoming()[after.next()].term
            &&& after.pending() == Some(
                sort_by_index(merge(log, after.incoming().skip(after.next()))),
            )
            &&& bytes@ == frames(views(after.pending()->0))
        },
        AppendStep::Done => {
            &&& after.next() == after.incoming().len()
            &&& after.pending() is None
        },
    }
}

/// Entries that the log holds with the same term leave it as it is.
pub proof fn lemma_merged_as_it_was(log: Seq<LogEntry>, incoming: Seq<LogEntry>)
    requires
        merge_adds_nothing(log, incoming),
        !merge_replaces(log, incoming),
    ensures
        merge(log, incoming) == log,
    decreases incoming.len(),
{
    if incoming.len() > 0 {
        lemma_merged_as_it_was(log, incoming.drop_last());
    }
}

/// The entries in ascending order of their index, stably.
fn sorted(entries: Vec<LogEntry>) -> (result: Vec<LogEntry>)
    ensures
        result@ == sort_by_index(entries@),
        ascending(result@),
{
    let ghost all = entries@;
    let mut result: Vec<LogEntry> = Vec::new();
    let mut i: usize = 0;
    while i < entries.len()
        invariant
            entries@ == all,
            i <= entries@.len(),
            result@ == sort_by_index(all.take(i as int)),
            ascending(result@),
        decreases entries@.len() - i,
    {
        let ghost before = result@;
        let entry = entries[i].clone();
        let mut at: usize = result.len();
        while at > 0 && result[at - 1].index > entry.index
            invariant
                at <= result@.len(),
                result@ == before,
                forall|k: int|
                    at <= k < before.len() ==> (#[trigger] before[k]).index > entry.index,
            decreases at,
        {
            at = at - 1;
        }
        result.insert(at, entry);
        proof {
            lemma_insert_at(before, entry, at as int);
            let next = all.take(i + 1);
            assert(next.drop_last() =~= all.take(i as int));
        }
        i = i + 1;
    }
    proof {
        assert(all.take(i as int) =~= all);
    }
    result
}

proof fn lemma_insert_at(log: Seq<LogEntry>, entry: LogEntry, at: int)
    requires
        0 <= at <= log.len(),
        ascending(log),
        at > 0 ==> log[at - 1].index <= entry.index,
        forall|k: int| at <= k < log.len() ==> (#[trigger] log[k]).index > entry.index,
    ensures
        insert_by_index(log, entry) == log.insert(at, entry),
        ascending(log.insert(at, entry)),
    decreases log.len(),
{
    let inserted = log.insert(at, entry);
    assert forall|i: int, j: int| 0 <= i <= j < inserted.len() implies (#[trigger] inserted[i]).index
        <= (#[trigger] inserted[j]).index by {
        let a = if i < at { i } else { i - 1 };
        let b = if j < at { j } else { j - 1 };
        if i != at && j != at {
            assert(inserted[i] == log[a] && inserted[j] == log[b]);
        } else if i == at && j != at {
            assert(inserted[j] == log[b]);
        } else if j == at && i != at {
            assert(inserted[i] == log[a]);
            assert(log[a].index <= log[at - 1].index);
        }
    }
    if at == log.len() {
        assert(inserted =~= log.push(entry));
        if log.len() > 0 {
            assert(log.last().index <= entry.index);
        }
    } else {
        assert(log[log.len() - 1].index > entry.index);
        let init = log.drop_last();
        assert forall|k: int| at <= k < init.len() implies (#[trigger] init[k]).index
            > entry.index by {
            assert(init[k] == log[k]);
        }
        assert forall|i: int, j: int| 0 <= i <= j < init.len() implies (#[trigger] init[i]).index
            <= (#[trigger] init[j]).index by {
            assert(init[i] == log[i] && init[j] == log[j]);
        }
        lemma_insert_at(init, entry, at);
        assert(inserted =~= init.insert(at, entry).push(log.last()));
    }
}

} // verus!
