//! The log of a follower and its file, once it has taken over entries.

use crate::process::frames::{
    complete_len, frame, frames, law_cut_file_reads_the_same, law_frames_round_trip,
    law_reading_goes_on, lemma_frames_complete, read_frames,
};
use crate::process::log_entry::{views, LogEntry, ReplicatedCommand};
use crate::process::wal::{
    append_stepped, ascending, batch_entries, contiguous, insert_by_index, last_index_of,
    law_merge_in_parts, law_merge_matches_leader, law_sort_by_index, law_written_entry_is_merged,
    lemma_contiguous_below, lemma_contiguous_entry, lemma_merged_as_it_was, merge,
    merge_adds_nothing, merge_one, merge_replaces, sort_by_index, term_of, AppendStep, FollowerAppend,
};
use crate::wire::entry_layout;
use vstd::prelude::*;

verus! {

// ---- what taking over entries does to a log ----

/// Whether entries have the indexes behind `prev`, one after the other.
pub open spec fn runs_behind(prev: int, incoming: Seq<LogEntry>) -> bool {
    forall|j: int| 0 <= j < incoming.len() ==> (#[trigger] incoming[j]).index == prev + 1 + j
}

/// Whether the log has an entry of another term in the place of incoming entry
/// number `j`.
pub open spec fn differs(log: Seq<LogEntry>, prev: int, incoming: Seq<LogEntry>, j: int) -> bool {
    &&& 0 <= j < incoming.len()
    &&& prev + j < log.len()
    &&& log[prev + j].term != incoming[j].term
}

/// The number of the first incoming entry that differs in its term from the one
/// in its place, if there is one.
pub open spec fn first_difference(
    log: Seq<LogEntry>,
    prev: int,
    incoming: Seq<LogEntry>,
    k: int,
) -> bool {
    &&& differs(log, prev, incoming, k)
    &&& forall|j: int| 0 <= j < k ==> !#[trigger] differs(log, prev, incoming, j)
}

/// What a follower's log becomes when it takes over entries behind `prev`. If
/// none of them differs in its term from the entry in its place, everything that
/// the log has stays, and those that it lacks come behind it. Otherwise what
/// stands before the first one that differs stays, everything from there on
/// goes, and the entries from that one on take its place.
pub proof fn law_merge_outcome(log: Seq<LogEntry>, prev: int, incoming: Seq<LogEntry>)
    requires
        contiguous(log),
        0 <= prev <= log.len(),
        runs_behind(prev, incoming),
    ensures
        (forall|j: int| !#[trigger] differs(log, prev, incoming, j)) ==> {
            &&& !merge_replaces(log, incoming)
            &&& prev + incoming.len() <= log.len() ==> merge(log, incoming) == log
                && merge_adds_nothing(log, incoming)
            &&& prev + incoming.len() > log.len() ==> merge(log, incoming) == log + incoming.skip(
                log.len() - prev,
            )
        },
        forall|k: int| #[trigger]
            first_difference(log, prev, incoming, k) ==> {
                &&& merge_replaces(log, incoming)
                &&& merge(log, incoming) == log.take(prev + k) + incoming.skip(k)
            },
    decreases incoming.len(),
{
    if incoming.len() == 0 {
        assert(log + incoming.skip(0) =~= log);
    } else {
        let init = incoming.drop_last();
        let e = incoming.last();
        let n = init.len() as int;
        assert(runs_behind(prev, init)) by {
            assert forall|j: int| 0 <= j < init.len() implies (#[trigger] init[j]).index == prev
                + 1 + j by {
                assert(init[j] == incoming[j]);
            }
        }
        law_merge_outcome(log, prev, init);
        law_merge_matches_leader(log, prev, init);
        let held = merge(log, init);
        assert(incoming[n].index == prev + 1 + n);
        lemma_contiguous_entry(held, e.index);
        lemma_contiguous_below(held, e.index);
        let after = merge(log, incoming);
        assert(after == merge_one(held, e));
        if forall|j: int| !#[trigger] differs(log, prev, incoming, j) {
            assert forall|j: int| !#[trigger] differs(log, prev, init, j) by {
                assert(!differs(log, prev, incoming, j));
            }
            if prev + n < log.len() {
                assert(held == log);
                assert(!differs(log, prev, incoming, n));
                assert(after == log);
            } else {
                assert(held =~= log + init.skip(log.len() - prev)) by {
                    if prev + n == log.len() {
                        assert(log + init.skip(n) =~= log);
                    }
                }
                assert(held.len() == prev + n);
                assert(after =~= log + incoming.skip(log.len() - prev));
            }
        }
        assert forall|k: int| #[trigger]
            first_difference(log, prev, incoming, k) implies merge_replaces(log, incoming)
            && after == log.take(prev + k) + incoming.skip(k) by {
            assert(differs(log, prev, incoming, k));
            if k < n {
                assert(first_difference(log, prev, init, k)) by {
                    assert(differs(log, prev, init, k));
                    assert forall|j: int| 0 <= j < k implies !#[trigger] differs(
                        log,
                        prev,
                        init,
                        j,
                    ) by {
                        assert(!differs(log, prev, incoming, j));
                    }
                }
                assert(held == log.take(prev + k) + init.skip(k));
                assert(held.len() == prev + n);
                assert(after =~= log.take(prev + k) + incoming.skip(k));
            } else {
                assert forall|j: int| !#[trigger] differs(log, prev, init, j) by {
                    if 0 <= j < n {
                        assert(!differs(log, prev, incoming, j));
                    }
                }
                assert(held == log);
                assert(after =~= log.take(prev + k) + incoming.skip(k));
            }
        }
    }
}

/// Taking over entries behind `prev` leaves a log with the indexes 1, 2, 3, ...
/// that has the term of each of them in its place. What the log had behind the
/// last of them stays exactly if none of them differed. Taking over the same
/// entries once more changes nothing, and leaves nothing to write.
pub proof fn law_take_over(log: Seq<LogEntry>, prev: int, incoming: Seq<LogEntry>)
    requires
        contiguous(log),
        0 <= prev <= log.len(),
        runs_behind(prev, incoming),
    ensures
        ({
            let after = merge(log, incoming);
            let end = prev + incoming.len();
            &&& contiguous(after)
            &&& last_index_of(after) == after.len()
            &&& after.len() >= end
            &&& forall|j: int|
                0 <= j < incoming.len() ==> term_of(after, (#[trigger] incoming[j]).index) == Some(
                    incoming[j].term,
                )
            &&& forall|i: int|
                0 <= i < after.len() && i < log.len() && (forall|j: int|
                    0 <= j <= i - prev ==> !#[trigger] differs(log, prev, incoming, j))
                    ==> #[trigger] after[i] == log[i]
            &&& end < log.len() ==> (after.len() == log.len() && after.skip(end) == log.skip(end)
                <==> !merge_replaces(log, incoming))
            &&& merge_replaces(log, incoming) <==> exists|j: int| #[trigger]
                differs(log, prev, incoming, j)
            &&& merge(after, incoming) == after
            &&& !merge_replaces(after, incoming)
            &&& merge_adds_nothing(after, incoming)
        }),
{
    let after = merge(log, incoming);
    let end = prev + incoming.len();
    law_merge_matches_leader(log, prev, incoming);
    law_merge_outcome(log, prev, incoming);
    if after.len() > 0 {
        assert(after[after.len() - 1].index == after.len());
    }
    assert forall|j: int| 0 <= j < incoming.len() implies term_of(
        after,
        (#[trigger] incoming[j]).index,
    ) == Some(incoming[j].term) by {
        lemma_contiguous_entry(after, incoming[j].index);
        assert(after[prev + j].term == incoming[j].term);
    }
    if exists|j: int| #[trigger] differs(log, prev, incoming, j) {
        let some = choose|j: int| #[trigger] differs(log, prev, incoming, j);
        let k = lemma_first_difference(log, prev, incoming, some);
        assert(first_difference(log, prev, incoming, k));
        assert forall|i: int|
            0 <= i < after.len() && i < log.len() && (forall|j: int|
                0 <= j <= i - prev ==> !#[trigger] differs(
                    log,
                    prev,
                    incoming,
                    j,
                )) implies #[trigger] after[i] == log[i] by {
            if i >= prev + k {
                assert(!differs(log, prev, incoming, k));
            }
        }
        assert(after.len() == end);
    } else {
        assert forall|i: int| 0 <= i < after.len() && i < log.len() implies #[trigger] after[i]
            == log[i] by {}
    }
    assert forall|j: int| !#[trigger] differs(after, prev, incoming, j) by {
        if 0 <= j < incoming.len() {
            assert(after[prev + j].term == incoming[j].term);
        }
    }
    law_merge_outcome(after, prev, incoming);
}

/// Where some entry differs, there is a first one that does.
proof fn lemma_first_difference(
    log: Seq<LogEntry>,
    prev: int,
    incoming: Seq<LogEntry>,
    some: int,
) -> (k: int)
    requires
        differs(log, prev, incoming, some),
    ensures
        first_difference(log, prev, incoming, k),
    decreases some,
{
    if exists|j: int| 0 <= j < some && #[trigger] differs(log, prev, incoming, j) {
        let j = choose|j: int| 0 <= j < some && #[trigger] differs(log, prev, incoming, j);
        lemma_first_difference(log, prev, incoming, j)
    } else {
        some
    }
}

// ---- the file ----

/// Whether every entry of a log fits a record.
pub open spec fn storable(log: Seq<LogEntry>) -> bool {
    forall|i: int| 0 <= i < log.len() ==> entry_layout((#[trigger] log[i])@).len() < 0x1_0000_0000
}

/// Whether a file consists of complete records, and a replica that starts with
/// it has this log.
pub open spec fn loads(file: Seq<u8>, log: Seq<LogEntry>) -> bool {
    &&& complete_len(file) == file.len()
    &&& exists|read: Seq<LogEntry>|
        views(read) == read_frames(file) && views(log) == views(#[trigger] sort_by_index(read))
}

proof fn lemma_storable_views(log: Seq<LogEntry>)
    requires
        storable(log),
    ensures
        forall|i: int|
            0 <= i < views(log).len() ==> entry_layout(#[trigger] views(log)[i]).len()
                < 0x1_0000_0000,
{
    assert forall|i: int| 0 <= i < views(log).len() implies entry_layout(
        #[trigger] views(log)[i],
    ).len() < 0x1_0000_0000 by {
        assert(views(log)[i] == log[i]@);
    }
}

/// Sorting looks at the indexes alone.
proof fn lemma_sort_views(a: Seq<LogEntry>, b: Seq<LogEntry>)
    requires
        views(a) == views(b),
    ensures
        views(sort_by_index(a)) == views(sort_by_index(b)),
    decreases a.len(),
{
    assert(a.len() == views(a).len() && b.len() == views(b).len());
    if a.len() > 0 {
        assert(views(a.drop_last()) =~= views(a).drop_last());
        assert(views(b.drop_last()) =~= views(b).drop_last());
        lemma_sort_views(a.drop_last(), b.drop_last());
        assert(a.last()@ == views(a).last() && b.last()@ == views(b).last());
        lemma_insert_views(
            sort_by_index(a.drop_last()),
            sort_by_index(b.drop_last()),
            a.last(),
            b.last(),
        );
    }
}

proof fn lemma_insert_views(a: Seq<LogEntry>, b: Seq<LogEntry>, x: LogEntry, y: LogEntry)
    requires
        views(a) == views(b),
        x@ == y@,
    ensures
        views(insert_by_index(a, x)) == views(insert_by_index(b, y)),
    decreases a.len(),
{
    assert(a.len() == views(a).len() && b.len() == views(b).len());
    assert(views(a.push(x)) =~= views(a).push(x@));
    assert(views(b.push(y)) =~= views(b).push(y@));
    if a.len() > 0 {
        assert(a.last()@ == views(a).last() && b.last()@ == views(b).last());
        assert(views(a.drop_last()) =~= views(a).drop_last());
        assert(views(b.drop_last()) =~= views(b).drop_last());
        lemma_insert_views(a.drop_last(), b.drop_last(), x, y);
        let p = insert_by_index(a.drop_last(), x);
        let q = insert_by_index(b.drop_last(), y);
        assert(views(p.push(a.last())) =~= views(p).push(a.last()@));
        assert(views(q.push(b.last())) =~= views(q).push(b.last()@));
    }
}

/// A file loads to one log.
pub proof fn law_file_loads_one_log(file: Seq<u8>, a: Seq<LogEntry>, b: Seq<LogEntry>)
    requires
        loads(file, a),
        loads(file, b),
    ensures
        views(a) == views(b),
{
    let p = choose|read: Seq<LogEntry>|
        views(read) == read_frames(file) && views(a) == views(#[trigger] sort_by_index(read));
    let q = choose|read: Seq<LogEntry>|
        views(read) == read_frames(file) && views(b) == views(#[trigger] sort_by_index(read));
    lemma_sort_views(p, q);
}

/// A replica that starts with a file has the log that the file loads to.
pub proof fn law_started_replica_has_its_log(
    file: Seq<u8>,
    log: Seq<LogEntry>,
    read: Seq<LogEntry>,
)
    requires
        loads(file, log),
        views(read) == read_frames(file),
    ensures
        views(sort_by_index(read)) == views(log),
{
    let p = choose|read: Seq<LogEntry>|
        views(read) == read_frames(file) && views(log) == views(#[trigger] sort_by_index(read));
    lemma_sort_views(p, read);
}

/// A file that is opened, and cut where its complete records end, goes on to load
/// the log that was read from it.
pub proof fn law_opened_file_loads(raw: Seq<u8>, read: Seq<LogEntry>)
    requires
        views(read) == read_frames(raw),
    ensures
        complete_len(raw) <= raw.len(),
        loads(raw.take(complete_len(raw) as int), sort_by_index(read)),
{
    law_cut_file_reads_the_same(raw);
}

/// Records that are appended to a file are loaded with it: after a leader has
/// added entries behind its log, or a follower one that it lacked.
pub proof fn law_appended_records_load(file: Seq<u8>, log: Seq<LogEntry>, added: Seq<LogEntry>)
    requires
        loads(file, log),
        ascending(log + added),
        storable(added),
    ensures
        loads(file + frames(views(added)), log + added),
{
    let read = choose|read: Seq<LogEntry>|
        views(read) == read_frames(file) && views(log) == views(#[trigger] sort_by_index(read));
    lemma_storable_views(added);
    lemma_frames_complete(views(added));
    law_reading_goes_on(file, frames(views(added)));
    law_frames_round_trip(views(added), Seq::empty());
    assert(frames(views(added)) + Seq::<u8>::empty() =~= frames(views(added)));
    assert(views(added) + read_frames(Seq::empty()) =~= views(added));
    assert(views(read + added) =~= views(read) + views(added));
    lemma_sort_goes_on(read, log, added);
}

proof fn lemma_sort_goes_on(read: Seq<LogEntry>, log: Seq<LogEntry>, added: Seq<LogEntry>)
    requires
        views(log) == views(sort_by_index(read)),
        ascending(log + added),
    ensures
        views(log + added) == views(sort_by_index(read + added)),
    decreases added.len(),
{
    if added.len() == 0 {
        assert(read + added =~= read);
        assert(log + added =~= log);
    } else {
        let init = added.drop_last();
        let e = added.last();
        let all = log + added;
        let before = log + init;
        assert(all =~= before.push(e));
        assert(ascending(before)) by {
            assert forall|i: int, j: int| 0 <= i <= j < before.len() implies (
            #[trigger] before[i]).index <= (#[trigger] before[j]).index by {
                assert(all[i] == before[i] && all[j] == before[j]);
            }
        }
        lemma_sort_goes_on(read, log, init);
        assert((read + added).drop_last() =~= read + init);
        let sorted = sort_by_index(read + init);
        assert(sorted.len() == views(sorted).len() && before.len() == views(before).len());
        if sorted.len() > 0 {
            assert(sorted.last()@ == views(sorted).last());
            assert(before.last()@ == views(before).last());
            assert(all[before.len() - 1].index <= all[before.len() as int].index);
        }
        assert(views(sorted.push(e)) =~= views(sorted).push(e@));
        assert(views(all) =~= views(before).push(e@));
    }
}

/// The records of the entries that a leader adds are loaded with its log.
pub proof fn law_leader_batch_loads(
    file: Seq<u8>,
    log: Seq<LogEntry>,
    term: u64,
    commands: Seq<ReplicatedCommand>,
)
    requires
        loads(file, log),
        ascending(log),
        last_index_of(log) + commands.len() <= u64::MAX,
        storable(batch_entries(last_index_of(log), term, commands)),
    ensures
        ({
            let added = batch_entries(last_index_of(log), term, commands);
            &&& loads(file + frames(views(added)), log + added)
            &&& ascending(log + added)
        }),
{
    let added = batch_entries(last_index_of(log), term, commands);
    let all = log + added;
    assert forall|i: int, j: int| 0 <= i <= j < all.len() implies (#[trigger] all[i]).index <= (
    #[trigger] all[j]).index by {
        if j >= log.len() && i < log.len() {
            assert(log[i].index <= log[log.len() - 1].index);
            assert(all[j] == added[j - log.len()]);
        }
    }
    law_appended_records_load(file, log, added);
}

/// The records of a whole log in ascending order load to it.
pub proof fn law_rewritten_records_load(log: Seq<LogEntry>)
    requires
        ascending(log),
        storable(log),
    ensures
        loads(frames(views(log)), log),
{
    lemma_storable_views(log);
    lemma_frames_complete(views(log));
    law_frames_round_trip(views(log), Seq::empty());
    assert(frames(views(log)) + Seq::<u8>::empty() =~= frames(views(log)));
    assert(views(log) + read_frames(Seq::empty()) =~= views(log));
    law_sort_by_index(log);
}

// ---- taking over entries, record by record ----

/// How far a follower that started with `log0` and `file0` has come in taking
/// over entries, before one of them replaces another entry: its log has merged
/// those up to here, and its file has the records of those that it lacked.
pub open spec fn taking_over(
    log0: Seq<LogEntry>,
    file0: Seq<u8>,
    progress: FollowerAppend,
    log: Seq<LogEntry>,
    file: Seq<u8>,
) -> bool {
    &&& progress.wf()
    &&& log == merge(log0, progress.incoming().take(progress.next()))
    &&& log0.is_prefix_of(log)
    &&& file == file0 + frames(views(log.skip(log0.len() as int)))
}

/// Nothing is taken over at the beginning.
pub proof fn law_take_over_begins(
    log0: Seq<LogEntry>,
    file0: Seq<u8>,
    progress: FollowerAppend,
)
    requires
        progress.wf(),
        progress.next() == 0,
    ensures
        taking_over(log0, file0, progress, log0, file0),
{
    assert(progress.incoming().take(0) =~= Seq::empty());
    assert(log0 =~= log0.subrange(0, log0.len() as int));
    assert(views(log0.skip(log0.len() as int)) =~= Seq::empty());
    assert(file0 + frames(Seq::empty()) =~= file0);
}

/// Entries that are passed over are merged.
proof fn lemma_passed_over(
    log0: Seq<LogEntry>,
    before: FollowerAppend,
    after: FollowerAppend,
    log: Seq<LogEntry>,
    step: AppendStep,
)
    requires
        before.wf(),
        after.wf(),
        after.incoming() == before.incoming(),
        after.next() >= before.next(),
        log == merge(log0, before.incoming().take(before.next())),
        append_stepped(before, after, log, step),
    ensures
        log == merge(log0, after.incoming().take(after.next())),
{
    let passed = before.incoming().subrange(before.next(), after.next());
    let done = before.incoming().take(before.next());
    assert(after.incoming().take(after.next()) =~= done + passed);
    law_merge_in_parts(log0, done, passed);
    lemma_merged_as_it_was(log, passed);
}

/// A record that is written, and then recorded, takes over one more entry.
pub proof fn law_take_over_goes_on(
    log0: Seq<LogEntry>,
    file0: Seq<u8>,
    before: FollowerAppend,
    log: Seq<LogEntry>,
    file: Seq<u8>,
    stepped: FollowerAppend,
    step: AppendStep,
    after: FollowerAppend,
)
    requires
        taking_over(log0, file0, before, log, file),
        append_stepped(before, stepped, log, step),
        stepped.wf(),
        stepped.incoming() == before.incoming(),
        stepped.next() >= before.next(),
        step is Write,
        after.wf(),
        after.incoming() == stepped.incoming(),
        after.next() == stepped.next() + 1,
    ensures
        taking_over(
            log0,
            file0,
            after,
            log.push(stepped.incoming()[stepped.next()]),
            file + step->Write_bytes@,
        ),
{
    let incoming = stepped.incoming();
    let k = stepped.next();
    let e = incoming[k];
    lemma_passed_over(log0, before, stepped, log, step);
    law_written_entry_is_merged(log0, incoming, k);
    let log2 = log.push(e);
    let n = log0.len() as int;
    assert(log0.is_prefix_of(log2)) by {
        assert(log2.subrange(0, n) =~= log.subrange(0, n));
    }
    let old_views = views(log.skip(n));
    let new_views = views(log2.skip(n));
    assert(new_views =~= old_views.push(e@));
    assert(new_views.drop_last() =~= old_views);
    assert(file + frame(e@) =~= file0 + frames(new_views));
}

/// The log once the last step of taking over entries is done, and what it asked
/// for was written.
pub open spec fn log_after(log: Seq<LogEntry>, progress: FollowerAppend) -> Seq<LogEntry> {
    match progress.pending() {
        Some(pending) => pending,
        None => log,
    }
}

/// The file once the last step of taking over entries is done, and what it asked
/// for was written.
pub open spec fn file_after(file: Seq<u8>, step: AppendStep) -> Seq<u8> {
    match step {
        AppendStep::Rewrite { bytes } => bytes@,
        _ => file,
    }
}

/// Once all entries are taken over, the log has merged them, and the file loads
/// to the log. Up to then, also where a write fails, the log has merged a part of
/// them, and the file of what was written loads to it.
pub proof fn law_take_over_ends(
    log0: Seq<LogEntry>,
    file0: Seq<u8>,
    prev: int,
    before: FollowerAppend,
    log: Seq<LogEntry>,
    file: Seq<u8>,
    after: FollowerAppend,
    step: AppendStep,
)
    requires
        taking_over(log0, file0, before, log, file),
        append_stepped(before, after, log, step),
        after.wf(),
        after.incoming() == before.incoming(),
        after.next() >= before.next(),
        contiguous(log0),
        0 <= prev <= log0.len(),
        runs_behind(prev, before.incoming()),
        storable(log0),
        storable(before.incoming()),
        loads(file0, log0),
    ensures
        log == merge(log0, before.incoming().take(after.next())),
        contiguous(log),
        loads(file, log),
        !(step is Write) ==> {
            &&& log_after(log, after) == merge(log0, before.incoming())
            &&& contiguous(log_after(log, after))
            &&& storable(log_after(log, after))
            &&& loads(file_after(file, step), log_after(log, after))
        },
{
    let incoming = before.incoming();
    let next = after.next();
    let done = incoming.take(next);
    lemma_passed_over(log0, before, after, log, step);
    assert(runs_behind(prev, done)) by {
        assert forall|j: int| 0 <= j < done.len() implies (#[trigger] done[j]).index == prev + 1
            + j by {
            assert(done[j] == incoming[j]);
        }
    }
    assert(storable(done)) by {
        assert forall|i: int| 0 <= i < done.len() implies entry_layout((#[trigger] done[i])@).len()
            < 0x1_0000_0000 by {
            assert(done[i] == incoming[i]);
        }
    }
    law_merge_matches_leader(log0, prev, done);
    lemma_merge_storable(log0, prev, done);
    lemma_contiguous_is_ascending(log);
    let n = log0.len() as int;
    let added = log.skip(n);
    assert(log0 + added =~= log) by {
        assert(log0 =~= log.subrange(0, n));
    }
    assert forall|i: int| 0 <= i < added.len() implies entry_layout((#[trigger] added[i])@).len()
        < 0x1_0000_0000 by {
        assert(added[i] == log[n + i]);
    }
    law_appended_records_load(file0, log0, added);
    match step {
        AppendStep::Rewrite { .. } => {
            let merged = merge(log0, incoming);
            assert(incoming =~= done + incoming.skip(next));
            law_merge_in_parts(log0, done, incoming.skip(next));
            law_merge_matches_leader(log0, prev, incoming);
            lemma_merge_storable(log0, prev, incoming);
            lemma_contiguous_is_ascending(merged);
            law_sort_by_index(merged);
            law_rewritten_records_load(merged);
        },
        AppendStep::Done => {
            assert(done =~= incoming);
        },
        _ => {},
    }
}

proof fn lemma_contiguous_is_ascending(log: Seq<LogEntry>)
    requires
        contiguous(log),
    ensures
        ascending(log),
{
    assert forall|i: int, j: int| 0 <= i <= j < log.len() implies (#[trigger] log[i]).index <= (
    #[trigger] log[j]).index by {
        assert(log[i].index == i + 1);
        assert(log[j].index == j + 1);
    }
}

proof fn lemma_merge_storable(log: Seq<LogEntry>, prev: int, incoming: Seq<LogEntry>)
    requires
        contiguous(log),
        0 <= prev <= log.len(),
        runs_behind(prev, incoming),
        storable(log),
        storable(incoming),
    ensures
        storable(merge(log, incoming)),
{
    law_merge_outcome(log, prev, incoming);
    let after = merge(log, incoming);
    assert forall|i: int| 0 <= i < after.len() implies entry_layout((#[trigger] after[i])@).len()
        < 0x1_0000_0000 by {
        if exists|j: int| #[trigger] differs(log, prev, incoming, j) {
            let some = choose|j: int| #[trigger] differs(log, prev, incoming, j);
            let k = lemma_first_difference(log, prev, incoming, some);
            assert(first_difference(log, prev, incoming, k));
            if i < prev + k {
                assert(after[i] == log[i]);
            } else {
                assert(after[i] == incoming[i - prev]);
            }
        } else if i < log.len() {
            assert(after[i] == log[i]);
        } else {
            assert(after[i] == incoming[i - prev]);
        }
    }
}

} // verus!
