//! The control messages that the replicas exchange.

use crate::bytes::{le_bytes, lemma_byte_span, lemma_same_head};
use crate::process::log_entry::{views, EntryView, LogEntry};
use crate::wire;
use crate::wire::{
    ack_layout, append_layout, ballot_layout, entries_layout, entries_of_rows, flag_layout,
    lemma_entries_len, lemma_entries_unique, lemma_int_unique, view_of, vote_layout, EntryRow,
};
use vstd::prelude::*;

verus! {

broadcast use crate::bytes::lemma_le_len;

#[derive(Debug)]
pub enum Message {
    RequestVote { term: u64, candidate_id: u8, last_log_index: u64, last_log_term: u64 },
    VoteGranted { term: u64, voter_id: u8 },
    AppendEntries {
        term: u64,
        leader_id: u8,
        prev_log_index: u64,
        prev_log_term: u64,
        entries: Vec<LogEntry>,
        leader_commit: u64,
    },
    AppendAck { term: u64, follower_id: u8, success: bool, match_index: u64 },
}

/// The contents of a message.
#[verifier::ext_equal]
pub enum MessageView {
    RequestVote { term: u64, candidate_id: u8, last_log_index: u64, last_log_term: u64 },
    VoteGranted { term: u64, voter_id: u8 },
    AppendEntries {
        term: u64,
        leader_id: u8,
        prev_log_index: u64,
        prev_log_term: u64,
        entries: Seq<EntryView>,
        leader_commit: u64,
    },
    AppendAck { term: u64, follower_id: u8, success: bool, match_index: u64 },
}

impl View for Message {
    type V = MessageView;

    open spec fn view(&self) -> MessageView {
        match *self {
            Message::RequestVote { term, candidate_id, last_log_index, last_log_term } => {
                MessageView::RequestVote { term, candidate_id, last_log_index, last_log_term }
            },
            Message::VoteGranted { term, voter_id } => MessageView::VoteGranted { term, voter_id },
            Message::AppendEntries {
                term,
                leader_id,
                prev_log_index,
                prev_log_term,
                entries,
                leader_commit,
            } => MessageView::AppendEntries {
                term,
                leader_id,
                prev_log_index,
                prev_log_term,
                entries: views(entries@),
                leader_commit,
            },
            Message::AppendAck { term, follower_id, success, match_index } => {
                MessageView::AppendAck { term, follower_id, success, match_index }
            },
        }
    }
}

impl Message {
    /// The term that the sender was in.
    pub open spec fn spec_term(self) -> u64 {
        match self {
            Message::RequestVote { term, .. } => term,
            Message::VoteGranted { term, .. } => term,
            Message::AppendEntries { term, .. } => term,
            Message::AppendAck { term, .. } => term,
        }
    }

    /// The replica that sent the message.
    pub open spec fn spec_sender(self) -> u8 {
        match self {
            Message::RequestVote { candidate_id, .. } => candidate_id,
            Message::VoteGranted { voter_id, .. } => voter_id,
            Message::AppendEntries { leader_id, .. } => leader_id,
            Message::AppendAck { follower_id, .. } => follower_id,
        }
    }

    /// The term that the sender was in.
    pub fn term(&self) -> (term: u64)
        ensures
            term == self.spec_term(),
    {
        match self {
            Message::RequestVote { term, .. } => *term,
            Message::VoteGranted { term, .. } => *term,
            Message::AppendEntries { term, .. } => *term,
            Message::AppendAck { term, .. } => *term,
        }
    }

    /// The replica that sent the message.
    pub fn sender(&self) -> (id: u8)
        ensures
            id == self.spec_sender(),
    {
        match self {
            Message::RequestVote { candidate_id, .. } => *candidate_id,
            Message::VoteGranted { voter_id, .. } => *voter_id,
            Message::AppendEntries { leader_id, .. } => *leader_id,
            Message::AppendAck { follower_id, .. } => *follower_id,
        }
    }
}

/// The number that leads a vote request.
pub const REQUEST_VOTE: u32 = 0;

/// The number that leads a vote.
pub const VOTE_GRANTED: u32 = 1;

/// The number that leads an append request.
pub const APPEND_ENTRIES: u32 = 2;

/// The number that leads an acknowledgement.
pub const APPEND_ACK: u32 = 3;

/// The binary form of a message: the number of its kind, then its fields.
pub open spec fn message_layout(m: MessageView) -> Seq<u8> {
    match m {
        MessageView::RequestVote { term, candidate_id, last_log_index, last_log_term } => {
            ballot_layout(REQUEST_VOTE, term, candidate_id, last_log_index, last_log_term)
        },
        MessageView::VoteGranted { term, voter_id } => vote_layout(VOTE_GRANTED, term, voter_id),
        MessageView::AppendEntries {
            term,
            leader_id,
            prev_log_index,
            prev_log_term,
            entries,
            leader_commit,
        } => append_layout(
            APPEND_ENTRIES,
            term,
            leader_id,
            prev_log_index,
            prev_log_term,
            entries,
            leader_commit,
        ),
        MessageView::AppendAck { term, follower_id, success, match_index } => {
            ack_layout(APPEND_ACK, term, follower_id, success, match_index)
        },
    }
}

/// What decoding a message from `bytes` gives: the message that they begin
/// with, or nothing if they begin with none.
pub open spec fn reads_message(bytes: Seq<u8>, decoded: Option<MessageView>) -> bool {
    match decoded {
        Some(m) => message_layout(m).is_prefix_of(bytes),
        None => forall|m: MessageView| !(#[trigger] message_layout(m)).is_prefix_of(bytes),
    }
}

spec fn kind_of(m: MessageView) -> u32 {
    match m {
        MessageView::RequestVote { .. } => REQUEST_VOTE,
        MessageView::VoteGranted { .. } => VOTE_GRANTED,
        MessageView::AppendEntries { .. } => APPEND_ENTRIES,
        MessageView::AppendAck { .. } => APPEND_ACK,
    }
}

/// The bytes of a message after its kind.
spec fn body_of(m: MessageView) -> Seq<u8> {
    message_layout(m).skip(4)
}

proof fn lemma_kind_leads(m: MessageView)
    ensures
        message_layout(m) == le_bytes(kind_of(m) as nat, 4) + body_of(m),
{
    assert(message_layout(m) =~= le_bytes(kind_of(m) as nat, 4) + body_of(m));
}

proof fn lemma_same_kind(m: MessageView, kind: u32, bytes: Seq<u8>)
    requires
        message_layout(m).is_prefix_of(bytes),
        le_bytes(kind as nat, 4).is_prefix_of(bytes),
    ensures
        kind_of(m) == kind,
{
    lemma_byte_span();
    lemma_kind_leads(m);
    let none = Seq::<u8>::empty();
    assert(le_bytes(kind as nat, 4) + none =~= le_bytes(kind as nat, 4));
    lemma_int_unique(kind_of(m) as nat, body_of(m), kind as nat, none, 4, bytes);
}

proof fn lemma_ballot_unique(
    f1: (u32, u64, u8, u64, u64),
    f2: (u32, u64, u8, u64, u64),
    bytes: Seq<u8>,
)
    requires
        ballot_layout(f1.0, f1.1, f1.2, f1.3, f1.4).is_prefix_of(bytes),
        ballot_layout(f2.0, f2.1, f2.2, f2.3, f2.4).is_prefix_of(bytes),
    ensures
        f1 == f2,
{
    lemma_byte_span();
    let none = Seq::<u8>::empty();
    let t1 = |f: (u32, u64, u8, u64, u64)| le_bytes(f.3 as nat, 8) + le_bytes(f.4 as nat, 8);
    let t2 = |f: (u32, u64, u8, u64, u64)| seq![f.2] + t1(f);
    let t3 = |f: (u32, u64, u8, u64, u64)| le_bytes(f.1 as nat, 8) + t2(f);
    lemma_int_unique(f1.0 as nat, t3(f1), f2.0 as nat, t3(f2), 4, bytes);
    let b = bytes.skip(4);
    lemma_int_unique(f1.1 as nat, t2(f1), f2.1 as nat, t2(f2), 8, b);
    let b = b.skip(8);
    lemma_same_head(seq![f1.2], t1(f1), seq![f2.2], t1(f2), b);
    assert(seq![f1.2][0] == seq![f2.2][0]);
    let b = b.skip(1);
    let last1 = le_bytes(f1.4 as nat, 8);
    let last2 = le_bytes(f2.4 as nat, 8);
    lemma_int_unique(f1.3 as nat, last1, f2.3 as nat, last2, 8, b);
    let b = b.skip(8);
    assert(last1 + none =~= last1);
    assert(last2 + none =~= last2);
    lemma_int_unique(f1.4 as nat, none, f2.4 as nat, none, 8, b);
}

proof fn lemma_vote_unique(f1: (u32, u64, u8), f2: (u32, u64, u8), bytes: Seq<u8>)
    requires
        vote_layout(f1.0, f1.1, f1.2).is_prefix_of(bytes),
        vote_layout(f2.0, f2.1, f2.2).is_prefix_of(bytes),
    ensures
        f1 == f2,
{
    lemma_byte_span();
    let none = Seq::<u8>::empty();
    let t = |f: (u32, u64, u8)| le_bytes(f.1 as nat, 8) + seq![f.2];
    lemma_int_unique(f1.0 as nat, t(f1), f2.0 as nat, t(f2), 4, bytes);
    let b = bytes.skip(4);
    lemma_int_unique(f1.1 as nat, seq![f1.2], f2.1 as nat, seq![f2.2], 8, b);
    let b = b.skip(8);
    assert(seq![f1.2] + none =~= seq![f1.2]);
    assert(seq![f2.2] + none =~= seq![f2.2]);
    lemma_same_head(seq![f1.2], none, seq![f2.2], none, b);
    assert(seq![f1.2][0] == seq![f2.2][0]);
}

proof fn lemma_ack_unique(
    f1: (u32, u64, u8, bool, u64),
    f2: (u32, u64, u8, bool, u64),
    bytes: Seq<u8>,
)
    requires
        ack_layout(f1.0, f1.1, f1.2, f1.3, f1.4).is_prefix_of(bytes),
        ack_layout(f2.0, f2.1, f2.2, f2.3, f2.4).is_prefix_of(bytes),
    ensures
        f1 == f2,
{
    lemma_byte_span();
    let none = Seq::<u8>::empty();
    let t1 = |f: (u32, u64, u8, bool, u64)| flag_layout(f.3) + le_bytes(f.4 as nat, 8);
    let t2 = |f: (u32, u64, u8, bool, u64)| seq![f.2] + t1(f);
    let t3 = |f: (u32, u64, u8, bool, u64)| le_bytes(f.1 as nat, 8) + t2(f);
    lemma_int_unique(f1.0 as nat, t3(f1), f2.0 as nat, t3(f2), 4, bytes);
    let b = bytes.skip(4);
    lemma_int_unique(f1.1 as nat, t2(f1), f2.1 as nat, t2(f2), 8, b);
    let b = b.skip(8);
    lemma_same_head(seq![f1.2], t1(f1), seq![f2.2], t1(f2), b);
    assert(seq![f1.2][0] == seq![f2.2][0]);
    let b = b.skip(1);
    let last1 = le_bytes(f1.4 as nat, 8);
    let last2 = le_bytes(f2.4 as nat, 8);
    lemma_same_head(flag_layout(f1.3), last1, flag_layout(f2.3), last2, b);
    assert(flag_layout(f1.3)[0] == flag_layout(f2.3)[0]);
    let b = b.skip(1);
    assert(last1 + none =~= last1);
    assert(last2 + none =~= last2);
    lemma_int_unique(f1.4 as nat, none, f2.4 as nat, none, 8, b);
}

// What follows each field of an append request.

spec fn after_prev_term(entries: Seq<EntryView>, commit: u64) -> Seq<u8> {
    le_bytes(entries.len(), 8) + (entries_layout(entries) + le_bytes(commit as nat, 8))
}

spec fn after_leader(index: u64, term: u64, entries: Seq<EntryView>, commit: u64) -> Seq<u8> {
    le_bytes(index as nat, 8) + (le_bytes(term as nat, 8) + after_prev_term(entries, commit))
}

proof fn lemma_append_unique(
    f1: (u32, u64, u8, u64, u64, Seq<EntryView>, u64),
    f2: (u32, u64, u8, u64, u64, Seq<EntryView>, u64),
    bytes: Seq<u8>,
)
    requires
        append_layout(f1.0, f1.1, f1.2, f1.3, f1.4, f1.5, f1.6).is_prefix_of(bytes),
        append_layout(f2.0, f2.1, f2.2, f2.3, f2.4, f2.5, f2.6).is_prefix_of(bytes),
        bytes.len() <= u64::MAX,
    ensures
        f1 == f2,
{
    lemma_byte_span();
    lemma_entries_len(f1.5);
    lemma_entries_len(f2.5);
    let none = Seq::<u8>::empty();
    let a1 = after_leader(f1.3, f1.4, f1.5, f1.6);
    let a2 = after_leader(f2.3, f2.4, f2.5, f2.6);
    let h1 = le_bytes(f1.1 as nat, 8) + (seq![f1.2] + a1);
    let h2 = le_bytes(f2.1 as nat, 8) + (seq![f2.2] + a2);
    lemma_int_unique(f1.0 as nat, h1, f2.0 as nat, h2, 4, bytes);
    let b = bytes.skip(4);
    lemma_int_unique(f1.1 as nat, seq![f1.2] + a1, f2.1 as nat, seq![f2.2] + a2, 8, b);
    let b = b.skip(8);
    lemma_same_head(seq![f1.2], a1, seq![f2.2], a2, b);
    assert(seq![f1.2][0] == seq![f2.2][0]);
    let b = b.skip(1);
    let p1 = after_prev_term(f1.5, f1.6);
    let p2 = after_prev_term(f2.5, f2.6);
    lemma_int_unique(
        f1.3 as nat,
        le_bytes(f1.4 as nat, 8) + p1,
        f2.3 as nat,
        le_bytes(f2.4 as nat, 8) + p2,
        8,
        b,
    );
    let b = b.skip(8);
    lemma_int_unique(f1.4 as nat, p1, f2.4 as nat, p2, 8, b);
    let b = b.skip(8);
    let last1 = le_bytes(f1.6 as nat, 8);
    let last2 = le_bytes(f2.6 as nat, 8);
    let e1 = entries_layout(f1.5) + last1;
    let e2 = entries_layout(f2.5) + last2;
    lemma_int_unique(f1.5.len(), e1, f2.5.len(), e2, 8, b);
    let b = b.skip(8);
    lemma_entries_unique(f1.5, last1, f2.5, last2, b);
    let b = b.skip(entries_layout(f1.5).len() as int);
    assert(last1 + none =~= last1);
    assert(last2 + none =~= last2);
    lemma_int_unique(f1.6 as nat, none, f2.6 as nat, none, 8, b);
}

/// Messages that begin the same bytes are equal.
pub proof fn lemma_message_unique(m1: MessageView, m2: MessageView, bytes: Seq<u8>)
    requires
        message_layout(m1).is_prefix_of(bytes),
        message_layout(m2).is_prefix_of(bytes),
        bytes.len() <= u64::MAX,
    ensures
        m1 == m2,
{
    lemma_kind_leads(m2);
    assert(le_bytes(kind_of(m2) as nat, 4).is_prefix_of(bytes)) by {
        assert(le_bytes(kind_of(m2) as nat, 4) =~= message_layout(m2).subrange(0, 4));
    }
    lemma_same_kind(m1, kind_of(m2), bytes);
    match (m1, m2) {
        (
            MessageView::RequestVote { term, candidate_id, last_log_index, last_log_term },
            MessageView::RequestVote { term: t2, candidate_id: c2, last_log_index: i2, last_log_term: l2 },
        ) => {
            lemma_ballot_unique(
                (REQUEST_VOTE, term, candidate_id, last_log_index, last_log_term),
                (REQUEST_VOTE, t2, c2, i2, l2),
                bytes,
            );
        },
        (
            MessageView::VoteGranted { term, voter_id },
            MessageView::VoteGranted { term: t2, voter_id: v2 },
        ) => {
            lemma_vote_unique((VOTE_GRANTED, term, voter_id), (VOTE_GRANTED, t2, v2), bytes);
        },
        (
            MessageView::AppendEntries {
                term,
                leader_id,
                prev_log_index,
                prev_log_term,
                entries,
                leader_commit,
            },
            MessageView::AppendEntries {
                term: t2,
                leader_id: l2,
                prev_log_index: i2,
                prev_log_term: p2,
                entries: e2,
                leader_commit: c2,
            },
        ) => {
            lemma_append_unique(
                (APPEND_ENTRIES, term, leader_id, prev_log_index, prev_log_term, entries, leader_commit),
                (APPEND_ENTRIES, t2, l2, i2, p2, e2, c2),
                bytes,
            );
        },
        (
            MessageView::AppendAck { term, follower_id, success, match_index },
            MessageView::AppendAck { term: t2, follower_id: f2, success: s2, match_index: m2 },
        ) => {
            lemma_ack_unique(
                (APPEND_ACK, term, follower_id, success, match_index),
                (APPEND_ACK, t2, f2, s2, m2),
                bytes,
            );
        },
        _ => {},
    }
}

/// The message that `bytes` begin with, if they begin with one.
pub open spec fn message_in(bytes: Seq<u8>) -> Option<MessageView> {
    if exists|m: MessageView| (#[trigger] message_layout(m)).is_prefix_of(bytes) {
        Some(choose|m: MessageView| (#[trigger] message_layout(m)).is_prefix_of(bytes))
    } else {
        None
    }
}

/// Bytes hold one message at most: decoding gives that one.
pub proof fn lemma_message_in(bytes: Seq<u8>, decoded: Option<MessageView>)
    requires
        reads_message(bytes, decoded),
        bytes.len() <= u64::MAX,
    ensures
        decoded == message_in(bytes),
{
    if let Some(m) = decoded {
        assert(message_layout(m).is_prefix_of(bytes));
        let other = choose|m: MessageView| (#[trigger] message_layout(m)).is_prefix_of(bytes);
        lemma_message_unique(m, other, bytes);
    }
}

/// Decoding gives back the message that was encoded, whatever follows it.
pub proof fn law_message_round_trip(m: MessageView, rest: Seq<u8>)
    requires
        message_layout(m).len() + rest.len() <= u64::MAX,
    ensures
        message_in(message_layout(m) + rest) == Some(m),
{
    let bytes = message_layout(m) + rest;
    assert(message_layout(m) =~= bytes.subrange(0, message_layout(m).len() as int));
    lemma_message_in(bytes, Some(m));
}

fn rows_of(entries: &Vec<LogEntry>) -> (rows: Vec<EntryRow>)
    ensures
        entries_of_rows(rows@) == views(entries@),
{
    let mut rows: Vec<EntryRow> = Vec::new();
    let mut i: usize = 0;
    while i < entries.len()
        invariant
            i <= entries@.len(),
            rows@.len() == i,
            forall|k: int| 0 <= k < i ==> wire::entry_of_row(#[trigger] rows@[k]) == entries@[k]@,
        decreases entries@.len() - i,
    {
        rows.push(wire::entry_to_row(&entries[i]));
        i = i + 1;
    }
    proof {
        assert(entries_of_rows(rows@) =~= views(entries@));
    }
    rows
}

fn entries_of(rows: Vec<EntryRow>) -> (entries: Vec<LogEntry>)
    ensures
        views(entries@) == entries_of_rows(rows@),
{
    let ghost all = rows@;
    let mut rows = rows;
    let mut reversed: Vec<LogEntry> = Vec::new();
    while rows.len() > 0
        invariant
            rows@.len() + reversed@.len() == all.len(),
            rows@ == all.take(rows@.len() as int),
            forall|k: int|
                0 <= k < reversed@.len() ==> (#[trigger] reversed@[k])@ == wire::entry_of_row(
                    all[all.len() - 1 - k],
                ),
        decreases rows@.len(),
    {
        if let Some(row) = rows.pop() {
            reversed.push(wire::entry_from_row(row));
        }
    }
    let mut entries: Vec<LogEntry> = Vec::new();
    let ghost back = reversed@;
    while reversed.len() > 0
        invariant
            back.len() == all.len(),
            reversed@.len() + entries@.len() == back.len(),
            reversed@ == back.take(reversed@.len() as int),
            forall|k: int|
                0 <= k < back.len() ==> (#[trigger] back[k])@ == wire::entry_of_row(
                    all[all.len() - 1 - k],
                ),
            forall|k: int|
                0 <= k < entries@.len() ==> (#[trigger] entries@[k])@ == wire::entry_of_row(
                    all[k],
                ),
        decreases reversed@.len(),
    {
        let ghost n = reversed@.len() as int;
        if let Some(entry) = reversed.pop() {
            assert(entry == back[n - 1]);
            entries.push(entry);
        }
    }
    proof {
        assert(views(entries@) =~= entries_of_rows(all));
    }
    entries
}

/// The binary form of a message.
pub fn encode_message(m: &Message) -> (bytes: Vec<u8>)
    ensures
        bytes@ == message_layout(m@),
{
    match m {
        Message::RequestVote { term, candidate_id, last_log_index, last_log_term } => {
            wire::serialize_ballot(
                &(REQUEST_VOTE, *term, *candidate_id, *last_log_index, *last_log_term),
            )
        },
        Message::VoteGranted { term, voter_id } => {
            wire::serialize_vote(&(VOTE_GRANTED, *term, *voter_id))
        },
        Message::AppendEntries {
            term,
            leader_id,
            prev_log_index,
            prev_log_term,
            entries,
            leader_commit,
        } => {
            let rows = rows_of(entries);
            wire::serialize_append(
                &(
                    APPEND_ENTRIES,
                    *term,
                    *leader_id,
                    *prev_log_index,
                    *prev_log_term,
                    rows,
                    *leader_commit,
                ),
            )
        },
        Message::AppendAck { term, follower_id, success, match_index } => {
            wire::serialize_ack(&(APPEND_ACK, *term, *follower_id, *success, *match_index))
        },
    }
}

fn decode_body(kind: u32, bytes: &[u8]) -> (decoded: Option<Message>)
    requires
        le_bytes(kind as nat, 4).is_prefix_of(bytes@),
    ensures
        reads_message(bytes@, view_of(decoded)),
{
    proof {
        assert forall|m: MessageView| (#[trigger] message_layout(m)).is_prefix_of(bytes@) implies
            kind_of(m) == kind by {
            lemma_same_kind(m, kind, bytes@);
        }
    }
    if kind == REQUEST_VOTE {
        match wire::deserialize_ballot(bytes) {
            Some((tag, term, candidate_id, last_log_index, last_log_term)) => {
                proof {
                    lemma_leading_kind(tag, kind, ballot_layout(
                        tag,
                        term,
                        candidate_id,
                        last_log_index,
                        last_log_term,
                    ), bytes@);
                }
                Some(Message::RequestVote { term, candidate_id, last_log_index, last_log_term })
            },
            None => None,
        }
    } else if kind == VOTE_GRANTED {
        match wire::deserialize_vote(bytes) {
            Some((tag, term, voter_id)) => {
                proof {
                    lemma_leading_kind(tag, kind, vote_layout(tag, term, voter_id), bytes@);
                }
                Some(Message::VoteGranted { term, voter_id })
            },
            None => None,
        }
    } else if kind == APPEND_ENTRIES {
        match wire::deserialize_append(bytes) {
            Some((tag, term, leader_id, prev_log_index, prev_log_term, rows, leader_commit)) => {
                proof {
                    lemma_leading_kind(tag, kind, append_layout(
                        tag,
                        term,
                        leader_id,
                        prev_log_index,
                        prev_log_term,
                        entries_of_rows(rows@),
                        leader_commit,
                    ), bytes@);
                }
                let entries = entries_of(rows);
                Some(
                    Message::AppendEntries {
                        term,
                        leader_id,
                        prev_log_index,
                        prev_log_term,
                        entries,
                        leader_commit,
                    },
                )
            },
            None => None,
        }
    } else if kind == APPEND_ACK {
        match wire::deserialize_ack(bytes) {
            Some((tag, term, follower_id, success, match_index)) => {
                proof {
                    lemma_leading_kind(tag, kind, ack_layout(
                        tag,
                        term,
                        follower_id,
                        success,
                        match_index,
                    ), bytes@);
                }
                Some(Message::AppendAck { term, follower_id, success, match_index })
            },
            None => None,
        }
    } else {
        None
    }
}

proof fn lemma_leading_kind(tag: u32, kind: u32, layout: Seq<u8>, bytes: Seq<u8>)
    requires
        layout.is_prefix_of(bytes),
        layout.len() >= 4,
        layout.subrange(0, 4) =~= le_bytes(tag as nat, 4),
        le_bytes(kind as nat, 4).is_prefix_of(bytes),
    ensures
        tag == kind,
{
    lemma_byte_span();
    assert(le_bytes(tag as nat, 4) =~= bytes.subrange(0, 4));
    assert(le_bytes(kind as nat, 4) =~= bytes.subrange(0, 4));
    crate::bytes::lemma_le_injective(tag as nat, kind as nat, 4);
}

/// The message that `bytes` begin with, if they begin with one.
pub fn decode_message(bytes: &[u8]) -> (decoded: Option<Message>)
    ensures
        reads_message(bytes@, view_of(decoded)),
        view_of(decoded) == message_in(bytes@),
{
    let decoded = match wire::deserialize_kind(bytes) {
        Some(kind) => decode_body(kind, bytes),
        None => {
            proof {
                assert forall|m: MessageView| !(#[trigger] message_layout(m)).is_prefix_of(
                    bytes@,
                ) by {
                    lemma_kind_leads(m);
                }
            }
            None
        },
    };
    proof {
        assert(bytes@.len() == bytes.len());
        lemma_message_in(bytes@, view_of(decoded));
    }
    decoded
}

} // verus!
