//! Messages as bytes.
//!
//! A payload is the number of the message's variant in four bytes, then its
//! fields in order, all little-endian: integers in eight bytes, flags in one,
//! byte strings and lists behind their length in eight bytes, an optional
//! integer behind a presence byte. On the wire a payload stands behind its
//! length in four bytes.

use vstd::prelude::*;
use vstd::string::*;

use crate::bytes::{self, copy_range, push_bytes, push_u32, push_u64, read_u32, read_u64};
use crate::error::{self, corruption, Error, Fault, IoFault, IoKind, Result};
use crate::raft::rpc::{
    AppendEntriesReq, AppendEntriesResp, AppendView, InstallSnapshotReq, InstallSnapshotResp,
    InstallView, Message, MessageView, RequestVoteReq, RequestVoteResp,
};
use crate::raft::types::{self, EntryType, EntryView, LogEntry};
use crate::text::{self, push_decimal};

verus! {

/// The fewest bytes that an entry takes.
pub(crate) const MIN_LOG_ENTRY_BYTES: usize = 25;

// ---- writing ----

pub open spec fn flag(b: bool) -> Seq<u8> {
    seq![if b {
        1u8
    } else {
        0u8
    }]
}

/// A byte string behind its length.
pub open spec fn string_bytes(s: Seq<u8>) -> Seq<u8> {
    bytes::le64(s.len() as u64) + s
}

pub open spec fn entry_bytes(e: EntryView) -> Seq<u8> {
    bytes::le64(e.term) + bytes::le64(e.index) + string_bytes(e.command) + seq![
        e.entry_type.tag(),
    ]
}

pub open spec fn entries_bytes(s: Seq<EntryView>) -> Seq<u8>
    decreases s.len(),
{
    if s.len() == 0 {
        Seq::empty()
    } else {
        entries_bytes(s.drop_last()) + entry_bytes(s.last())
    }
}

/// The payload of a message.
pub open spec fn payload_of(m: MessageView) -> Seq<u8> {
    match m {
        MessageView::RequestVote(m) => bytes::le32(0) + bytes::le64(m.term) + bytes::le64(
            m.candidate_id,
        ) + bytes::le64(m.last_log_index) + bytes::le64(m.last_log_term) + flag(m.pre_vote),
        MessageView::RequestVoteResp(m) => bytes::le32(1) + bytes::le64(m.term) + flag(
            m.vote_granted,
        ) + flag(m.pre_vote),
        MessageView::AppendEntries(m) => bytes::le32(2) + bytes::le64(m.term) + bytes::le64(
            m.leader_id,
        ) + bytes::le64(m.prev_log_index) + bytes::le64(m.prev_log_term) + bytes::le64(
            m.entries.len() as u64,
        ) + entries_bytes(m.entries) + bytes::le64(m.leader_commit),
        MessageView::AppendEntriesResp(m) => bytes::le32(3) + bytes::le64(m.term) + flag(
            m.success,
        ) + optional_bytes(m.conflict_index),
        MessageView::InstallSnapshot(m) => bytes::le32(4) + bytes::le64(m.term) + bytes::le64(
            m.leader_id,
        ) + bytes::le64(m.last_index) + bytes::le64(m.last_term) + string_bytes(m.data)
            + string_bytes(m.config),
        MessageView::InstallSnapshotResp(m) => bytes::le32(5) + bytes::le64(m.term),
    }
}

pub open spec fn optional_bytes(x: Option<u64>) -> Seq<u8> {
    match x {
        Some(n) => seq![1u8] + bytes::le64(n),
        None => seq![0u8],
    }
}

/// A payload behind its length.
pub open spec fn frame_of(m: MessageView) -> Seq<u8> {
    bytes::le32(payload_of(m).len() as u32) + payload_of(m)
}

/// How long the payload of a message is, if the length fits the frame.
pub open spec fn frame_len(m: MessageView) -> core::result::Result<u32, Fault> {
    let len = payload_of(m).len();
    if len > usize::MAX {
        Err(error::corrupt("message size calculation overflowed usize"@))
    } else if len > u32::MAX {
        Err(error::corrupt("message payload does not fit in a u32 frame length"@))
    } else {
        Ok(len as u32)
    }
}

// ---- reading ----

/// What a part of a payload says, and what is left behind it.
pub type Parsed<T> = core::result::Result<(T, Seq<u8>), Fault>;

pub open spec fn short_field(need: nat, left: nat) -> Fault {
    error::corrupt(
        "message field requires "@ + text::decimal(need) + " bytes but only "@ + text::decimal(
            left,
        ) + " frame bytes remain"@,
    )
}

pub open spec fn parse_u8(s: Seq<u8>) -> Parsed<u8> {
    if s.len() < 1 {
        Err(short_field(1, s.len()))
    } else {
        Ok((s[0], s.skip(1)))
    }
}

pub open spec fn parse_u32(s: Seq<u8>) -> Parsed<u32> {
    if s.len() < 4 {
        Err(short_field(4, s.len()))
    } else {
        Ok((bytes::u32_at(s, 0), s.skip(4)))
    }
}

pub open spec fn parse_u64(s: Seq<u8>) -> Parsed<u64> {
    if s.len() < 8 {
        Err(short_field(8, s.len()))
    } else {
        Ok((bytes::u64_at(s, 0), s.skip(8)))
    }
}

/// `n` integers in a row.
pub open spec fn parse_fields(s: Seq<u8>, n: nat) -> Parsed<Seq<u64>>
    decreases n,
{
    if n == 0 {
        Ok((Seq::empty(), s))
    } else {
        match parse_fields(s, (n - 1) as nat) {
            Err(fault) => Err(fault),
            Ok((fields, rest)) => match parse_u64(rest) {
                Err(fault) => Err(fault),
                Ok((x, rest)) => Ok((fields.push(x), rest)),
            },
        }
    }
}

pub open spec fn parse_bool(s: Seq<u8>) -> Parsed<bool> {
    match parse_u8(s) {
        Err(fault) => Err(fault),
        Ok((b, rest)) => if b == 0 {
            Ok((false, rest))
        } else if b == 1 {
            Ok((true, rest))
        } else {
            Err(
                error::corrupt(
                    "invalid bincode boolean encoding "@ + text::decimal(b as nat) + ""@,
                ),
            )
        },
    }
}

pub open spec fn parse_optional(s: Seq<u8>) -> Parsed<Option<u64>> {
    match parse_u8(s) {
        Err(fault) => Err(fault),
        Ok((b, rest)) => if b == 0 {
            Ok((None, rest))
        } else if b == 1 {
            match parse_u64(rest) {
                Err(fault) => Err(fault),
                Ok((x, rest)) => Ok((Some(x), rest)),
            }
        } else {
            Err(
                error::corrupt(
                    "invalid bincode option encoding "@ + text::decimal(b as nat) + ""@,
                ),
            )
        },
    }
}

pub open spec fn parse_string(s: Seq<u8>) -> Parsed<Seq<u8>> {
    match parse_u64(s) {
        Err(fault) => Err(fault),
        Ok((len, rest)) => if len > rest.len() {
            Err(
                error::corrupt(
                    "message byte sequence length "@ + text::decimal(len as nat) + " exceeds "@
                        + text::decimal(rest.len()) + " remaining frame bytes"@,
                ),
            )
        } else {
            Ok((rest.take(len as int), rest.skip(len as int)))
        },
    }
}

pub open spec fn parse_entry(s: Seq<u8>) -> Parsed<EntryView> {
    match parse_fields(s, 2) {
        Err(fault) => Err(fault),
        Ok((fields, rest)) => match parse_string(rest) {
            Err(fault) => Err(fault),
            Ok((command, rest)) => match parse_u8(rest) {
                Err(fault) => Err(fault),
                Ok((tag, rest)) => match EntryType::of_tag(tag) {
                    None => Err(
                        error::corrupt(
                            "invalid entry type encoding "@ + text::decimal(tag as nat) + ""@,
                        ),
                    ),
                    Some(entry_type) => Ok(
                        (
                            EntryView { term: fields[0], index: fields[1], command, entry_type },
                            rest,
                        ),
                    ),
                },
            },
        },
    }
}

/// `n` entries in a row.
pub open spec fn parse_entry_list(s: Seq<u8>, n: nat) -> Parsed<Seq<EntryView>>
    decreases n,
{
    if n == 0 {
        Ok((Seq::empty(), s))
    } else {
        match parse_entry_list(s, (n - 1) as nat) {
            Err(fault) => Err(fault),
            Ok((entries, rest)) => match parse_entry(rest) {
                Err(fault) => Err(fault),
                Ok((e, rest)) => Ok((entries.push(e), rest)),
            },
        }
    }
}

/// A list of entries behind its length. The length is held against what is
/// there, with eight bytes still to come behind the list, before any entry is
/// read.
pub open spec fn parse_entries(s: Seq<u8>) -> Parsed<Seq<EntryView>> {
    match parse_u64(s) {
        Err(fault) => Err(fault),
        Ok((count, rest)) => if rest.len() < 8 {
            Err(error::corrupt("append entries frame is missing leader_commit"@))
        } else if count > (rest.len() - 8) / 25 {
            Err(
                error::corrupt(
                    "append entries count "@ + text::decimal(count as nat)
                        + " exceeds the remaining frame boundary"@,
                ),
            )
        } else {
            parse_entry_list(rest, count as nat)
        },
    }
}

pub open spec fn parse_vote_req(s: Seq<u8>) -> Parsed<MessageView> {
    match parse_fields(s, 4) {
        Err(fault) => Err(fault),
        Ok((f, rest)) => match parse_bool(rest) {
            Err(fault) => Err(fault),
            Ok((pre_vote, rest)) => Ok(
                (
                    MessageView::RequestVote(
                        RequestVoteReq {
                            term: f[0],
                            candidate_id: f[1],
                            last_log_index: f[2],
                            last_log_term: f[3],
                            pre_vote,
                        },
                    ),
                    rest,
                ),
            ),
        },
    }
}

pub open spec fn parse_vote_resp(s: Seq<u8>) -> Parsed<MessageView> {
    match parse_u64(s) {
        Err(fault) => Err(fault),
        Ok((term, rest)) => match parse_bool(rest) {
            Err(fault) => Err(fault),
            Ok((vote_granted, rest)) => match parse_bool(rest) {
                Err(fault) => Err(fault),
                Ok((pre_vote, rest)) => Ok(
                    (
                        MessageView::RequestVoteResp(
                            RequestVoteResp { term, vote_granted, pre_vote },
                        ),
                        rest,
                    ),
                ),
            },
        },
    }
}

pub open spec fn parse_append_req(s: Seq<u8>) -> Parsed<MessageView> {
    match parse_fields(s, 4) {
        Err(fault) => Err(fault),
        Ok((f, rest)) => match parse_entries(rest) {
            Err(fault) => Err(fault),
            Ok((entries, rest)) => match parse_u64(rest) {
                Err(fault) => Err(fault),
                Ok((leader_commit, rest)) => Ok(
                    (
                        MessageView::AppendEntries(
                            AppendView {
                                term: f[0],
                                leader_id: f[1],
                                prev_log_index: f[2],
                                prev_log_term: f[3],
                                entries,
                                leader_commit,
                            },
                        ),
                        rest,
                    ),
                ),
            },
        },
    }
}

pub open spec fn parse_append_resp(s: Seq<u8>) -> Parsed<MessageView> {
    match parse_u64(s) {
        Err(fault) => Err(fault),
        Ok((term, rest)) => match parse_bool(rest) {
            Err(fault) => Err(fault),
            Ok((success, rest)) => match parse_optional(rest) {
                Err(fault) => Err(fault),
                Ok((conflict_index, rest)) => Ok(
                    (
                        MessageView::AppendEntriesResp(
                            AppendEntriesResp { term, success, conflict_index },
                        ),
                        rest,
                    ),
                ),
            },
        },
    }
}

pub open spec fn parse_install_req(s: Seq<u8>) -> Parsed<MessageView> {
    match parse_fields(s, 4) {
        Err(fault) => Err(fault),
        Ok((f, rest)) => match parse_string(rest) {
            Err(fault) => Err(fault),
            Ok((data, rest)) => match parse_string(rest) {
                Err(fault) => Err(fault),
                Ok((config, rest)) => Ok(
                    (
                        MessageView::InstallSnapshot(
                            InstallView {
                                term: f[0],
                                leader_id: f[1],
                                last_index: f[2],
                                last_term: f[3],
                                data,
                                config,
                            },
                        ),
                        rest,
                    ),
                ),
            },
        },
    }
}

pub open spec fn parse_install_resp(s: Seq<u8>) -> Parsed<MessageView> {
    match parse_u64(s) {
        Err(fault) => Err(fault),
        Ok((term, rest)) => Ok(
            (MessageView::InstallSnapshotResp(InstallSnapshotResp { term }), rest),
        ),
    }
}

/// The message of the given variant.
pub open spec fn parse_variant(variant: u32, s: Seq<u8>) -> Parsed<MessageView> {
    if variant == 0 {
        parse_vote_req(s)
    } else if variant == 1 {
        parse_vote_resp(s)
    } else if variant == 2 {
        parse_append_req(s)
    } else if variant == 3 {
        parse_append_resp(s)
    } else if variant == 4 {
        parse_install_req(s)
    } else if variant == 5 {
        parse_install_resp(s)
    } else {
        Err(
            error::corrupt(
                "invalid bincode Message variant "@ + text::decimal(variant as nat) + ""@,
            ),
        )
    }
}

/// The message at the front.
pub open spec fn parse_message(s: Seq<u8>) -> Parsed<MessageView> {
    match parse_u32(s) {
        Err(fault) => Err(fault),
        Ok((variant, rest)) => parse_variant(variant, rest),
    }
}

/// The message that a payload holds, all of it, or what is wrong with it.
pub open spec fn message_of(s: Seq<u8>) -> core::result::Result<MessageView, Fault> {
    match parse_message(s) {
        Err(fault) => Err(fault),
        Ok((m, rest)) => if rest.len() > 0 {
            Err(trailing(rest.len()))
        } else {
            Ok(m)
        },
    }
}

pub open spec fn trailing(n: nat) -> Fault {
    error::corrupt(
        "message deserialization left "@ + text::decimal(n) + " trailing payload bytes"@,
    )
}

// ---- reading what was written ----

proof fn u64_parses(x: u64, tail: Seq<u8>)
    ensures
        parse_u64(bytes::le64(x) + tail) == Ok::<(u64, Seq<u8>), Fault>((x, tail)),
{
    let s = bytes::le64(x) + tail;
    bytes::le64_round_trip(x);
    assert(s.subrange(0, 8) =~= bytes::le64(x));
    assert(s.skip(8) =~= tail);
}

proof fn u32_parses(x: u32, tail: Seq<u8>)
    ensures
        parse_u32(bytes::le32(x) + tail) == Ok::<(u32, Seq<u8>), Fault>((x, tail)),
{
    let s = bytes::le32(x) + tail;
    bytes::le32_round_trip(x);
    assert(s.subrange(0, 4) =~= bytes::le32(x));
    assert(s.skip(4) =~= tail);
}

proof fn bool_parses(b: bool, tail: Seq<u8>)
    ensures
        parse_bool(flag(b) + tail) == Ok::<(bool, Seq<u8>), Fault>((b, tail)),
{
    assert((flag(b) + tail).skip(1) =~= tail);
}

proof fn optional_parses(x: Option<u64>, tail: Seq<u8>)
    ensures
        parse_optional(optional_bytes(x) + tail) == Ok::<(Option<u64>, Seq<u8>), Fault>(
            (x, tail),
        ),
{
    let s = optional_bytes(x) + tail;
    match x {
        Some(n) => {
            assert(s.skip(1) =~= bytes::le64(n) + tail);
            u64_parses(n, tail);
        },
        None => {
            assert(s.skip(1) =~= tail);
        },
    }
}

proof fn string_parses(x: Seq<u8>, tail: Seq<u8>)
    requires
        x.len() <= u64::MAX,
    ensures
        parse_string(string_bytes(x) + tail) == Ok::<(Seq<u8>, Seq<u8>), Fault>((x, tail)),
{
    let s = string_bytes(x) + tail;
    assert(s =~= bytes::le64(x.len() as u64) + (x + tail));
    u64_parses(x.len() as u64, x + tail);
    assert((x + tail).take(x.len() as int) =~= x);
    assert((x + tail).skip(x.len() as int) =~= tail);
}

proof fn fields_4_parse(a: u64, b: u64, c: u64, d: u64, tail: Seq<u8>)
    ensures
        parse_fields(
            bytes::le64(a) + bytes::le64(b) + bytes::le64(c) + bytes::le64(d) + tail,
            4,
        ) == Ok::<(Seq<u64>, Seq<u8>), Fault>((seq![a, b, c, d], tail)),
{
    let s = bytes::le64(a) + bytes::le64(b) + bytes::le64(c) + bytes::le64(d) + tail;
    let (t3, t2) = (bytes::le64(d) + tail, bytes::le64(c) + (bytes::le64(d) + tail));
    let t1 = bytes::le64(b) + t2;
    assert(s =~= bytes::le64(a) + t1);
    u64_parses(a, t1);
    u64_parses(b, t2);
    u64_parses(c, t3);
    u64_parses(d, tail);
    reveal_with_fuel(parse_fields, 5);
    assert(Seq::<u64>::empty().push(a).push(b).push(c).push(d) =~= seq![a, b, c, d]);
}

proof fn entry_parses(e: EntryView, tail: Seq<u8>)
    requires
        e.command.len() <= u64::MAX,
    ensures
        parse_entry(entry_bytes(e) + tail) == Ok::<(EntryView, Seq<u8>), Fault>((e, tail)),
        entry_bytes(e).len() == 25 + e.command.len(),
{
    let tag = seq![e.entry_type.tag()];
    let t2 = tag + tail;
    let t1 = string_bytes(e.command) + t2;
    let s = entry_bytes(e) + tail;
    bytes::le64_round_trip(e.term);
    bytes::le64_round_trip(e.index);
    bytes::le64_round_trip(e.command.len() as u64);
    assert(s =~= bytes::le64(e.term) + (bytes::le64(e.index) + t1));
    u64_parses(e.term, bytes::le64(e.index) + t1);
    u64_parses(e.index, t1);
    reveal_with_fuel(parse_fields, 3);
    assert(parse_fields(s, 2) == Ok::<(Seq<u64>, Seq<u8>), Fault>(
        (Seq::<u64>::empty().push(e.term).push(e.index), t1),
    ));
    string_parses(e.command, t2);
    assert(t2.skip(1) =~= tail);
    assert(t2[0] == e.entry_type.tag());
}

proof fn entry_list_parses(s: Seq<EntryView>, tail: Seq<u8>)
    requires
        forall|i: int| 0 <= i < s.len() ==> (#[trigger] s[i]).command.len() <= u64::MAX,
    ensures
        parse_entry_list(entries_bytes(s) + tail, s.len()) == Ok::<
            (Seq<EntryView>, Seq<u8>),
            Fault,
        >((s, tail)),
        entries_bytes(s).len() >= 25 * s.len(),
    decreases s.len(),
{
    if s.len() == 0 {
        assert(entries_bytes(s) + tail =~= tail);
        assert(s =~= Seq::empty());
    } else {
        let (front, last) = (s.drop_last(), s.last());
        let rest = entry_bytes(last) + tail;
        assert(s[s.len() - 1].command.len() <= u64::MAX);
        assert forall|i: int| 0 <= i < front.len() implies (#[trigger] front[i]).command.len()
            <= u64::MAX by {
            assert(s[i] == front[i]);
        }
        entry_list_parses(front, rest);
        entry_parses(last, tail);
        assert(entries_bytes(s) + tail =~= entries_bytes(front) + rest);
        assert(front.push(last) =~= s);
    }
}

proof fn entries_parse(s: Seq<EntryView>, tail: Seq<u8>)
    requires
        s.len() <= u64::MAX,
        forall|i: int| 0 <= i < s.len() ==> (#[trigger] s[i]).command.len() <= u64::MAX,
        tail.len() >= 8,
    ensures
        parse_entries(bytes::le64(s.len() as u64) + (entries_bytes(s) + tail)) == Ok::<
            (Seq<EntryView>, Seq<u8>),
            Fault,
        >((s, tail)),
{
    u64_parses(s.len() as u64, entries_bytes(s) + tail);
    entry_list_parses(s, tail);
}

/// The lengths in a message can be written in eight bytes.
pub open spec fn lengths_fit(m: MessageView) -> bool {
    match m {
        MessageView::AppendEntries(m) => m.entries.len() <= u64::MAX && forall|i: int|
            0 <= i < m.entries.len() ==> (#[trigger] m.entries[i]).command.len() <= u64::MAX,
        MessageView::InstallSnapshot(m) => m.data.len() <= u64::MAX && m.config.len() <= u64::MAX,
        _ => true,
    }
}

/// The fields of an append, each with all that follows it.
spec fn append_fields(v: AppendView, tail: Seq<u8>) -> Seq<u8> {
    bytes::le64(v.term) + bytes::le64(v.leader_id) + bytes::le64(v.prev_log_index) + bytes::le64(
        v.prev_log_term,
    ) + (bytes::le64(v.entries.len() as u64) + (entries_bytes(v.entries) + (bytes::le64(
        v.leader_commit,
    ) + tail)))
}

proof fn append_layout(v: AppendView, tail: Seq<u8>)
    ensures
        payload_of(MessageView::AppendEntries(v)) + tail == bytes::le32(2) + append_fields(v, tail),
{
    assert(payload_of(MessageView::AppendEntries(v)) + tail =~= bytes::le32(2) + append_fields(
        v,
        tail,
    ));
}

proof fn append_fields_parse(v: AppendView, tail: Seq<u8>)
    requires
        lengths_fit(MessageView::AppendEntries(v)),
    ensures
        parse_append_req(append_fields(v, tail)) == Ok::<(MessageView, Seq<u8>), Fault>(
            (MessageView::AppendEntries(v), tail),
        ),
{
    let t3 = bytes::le64(v.leader_commit) + tail;
    let t1 = bytes::le64(v.entries.len() as u64) + (entries_bytes(v.entries) + t3);
    fields_4_parse(v.term, v.leader_id, v.prev_log_index, v.prev_log_term, t1);
    assert(parse_fields(append_fields(v, tail), 4)->Ok_0.1 == t1);
    bytes::le64_round_trip(v.leader_commit);
    entries_parse(v.entries, t3);
    u64_parses(v.leader_commit, tail);
}

proof fn append_parses(v: AppendView, tail: Seq<u8>)
    requires
        lengths_fit(MessageView::AppendEntries(v)),
    ensures
        parse_message(payload_of(MessageView::AppendEntries(v)) + tail) == Ok::<
            (MessageView, Seq<u8>),
            Fault,
        >((MessageView::AppendEntries(v), tail)),
{
    append_layout(v, tail);
    append_fields_parse(v, tail);
    u32_parses(2, append_fields(v, tail));
}

proof fn install_parses(v: InstallView, tail: Seq<u8>)
    requires
        lengths_fit(MessageView::InstallSnapshot(v)),
    ensures
        parse_message(payload_of(MessageView::InstallSnapshot(v)) + tail) == Ok::<
            (MessageView, Seq<u8>),
            Fault,
        >((MessageView::InstallSnapshot(v), tail)),
{
    let t2 = string_bytes(v.config) + tail;
    let t1 = string_bytes(v.data) + t2;
    let t0 = bytes::le64(v.term) + bytes::le64(v.leader_id) + bytes::le64(v.last_index)
        + bytes::le64(v.last_term) + t1;
    assert(payload_of(MessageView::InstallSnapshot(v)) + tail =~= bytes::le32(4) + t0);
    u32_parses(4, t0);
    fields_4_parse(v.term, v.leader_id, v.last_index, v.last_term, t1);
    string_parses(v.data, t2);
    string_parses(v.config, tail);
}

proof fn vote_req_parses(v: RequestVoteReq, tail: Seq<u8>)
    ensures
        parse_message(payload_of(MessageView::RequestVote(v)) + tail) == Ok::<
            (MessageView, Seq<u8>),
            Fault,
        >((MessageView::RequestVote(v), tail)),
{
    let t1 = flag(v.pre_vote) + tail;
    let t0 = bytes::le64(v.term) + bytes::le64(v.candidate_id) + bytes::le64(v.last_log_index)
        + bytes::le64(v.last_log_term) + t1;
    assert(payload_of(MessageView::RequestVote(v)) + tail =~= bytes::le32(0) + t0);
    u32_parses(0, t0);
    fields_4_parse(v.term, v.candidate_id, v.last_log_index, v.last_log_term, t1);
    bool_parses(v.pre_vote, tail);
}

proof fn vote_resp_parses(v: RequestVoteResp, tail: Seq<u8>)
    ensures
        parse_message(payload_of(MessageView::RequestVoteResp(v)) + tail) == Ok::<
            (MessageView, Seq<u8>),
            Fault,
        >((MessageView::RequestVoteResp(v), tail)),
{
    let t2 = flag(v.pre_vote) + tail;
    let t1 = flag(v.vote_granted) + t2;
    let t0 = bytes::le64(v.term) + t1;
    assert(payload_of(MessageView::RequestVoteResp(v)) + tail =~= bytes::le32(1) + t0);
    u32_parses(1, t0);
    u64_parses(v.term, t1);
    bool_parses(v.vote_granted, t2);
    bool_parses(v.pre_vote, tail);
}

proof fn append_resp_parses(v: AppendEntriesResp, tail: Seq<u8>)
    ensures
        parse_message(payload_of(MessageView::AppendEntriesResp(v)) + tail) == Ok::<
            (MessageView, Seq<u8>),
            Fault,
        >((MessageView::AppendEntriesResp(v), tail)),
{
    let t2 = optional_bytes(v.conflict_index) + tail;
    let t1 = flag(v.success) + t2;
    let t0 = bytes::le64(v.term) + t1;
    assert(payload_of(MessageView::AppendEntriesResp(v)) + tail =~= bytes::le32(3) + t0);
    u32_parses(3, t0);
    u64_parses(v.term, t1);
    bool_parses(v.success, t2);
    optional_parses(v.conflict_index, tail);
}

proof fn install_resp_parses(v: InstallSnapshotResp, tail: Seq<u8>)
    ensures
        parse_message(payload_of(MessageView::InstallSnapshotResp(v)) + tail) == Ok::<
            (MessageView, Seq<u8>),
            Fault,
        >((MessageView::InstallSnapshotResp(v), tail)),
{
    let t0 = bytes::le64(v.term) + tail;
    assert(payload_of(MessageView::InstallSnapshotResp(v)) + tail =~= bytes::le32(5) + t0);
    u32_parses(5, t0);
    u64_parses(v.term, tail);
}

proof fn payload_parses(m: MessageView, tail: Seq<u8>)
    requires
        lengths_fit(m),
    ensures
        parse_message(payload_of(m) + tail) == Ok::<(MessageView, Seq<u8>), Fault>((m, tail)),
{
    match m {
        MessageView::AppendEntries(v) => append_parses(v, tail),
        MessageView::InstallSnapshot(v) => install_parses(v, tail),
        MessageView::RequestVote(v) => vote_req_parses(v, tail),
        MessageView::RequestVoteResp(v) => vote_resp_parses(v, tail),
        MessageView::AppendEntriesResp(v) => append_resp_parses(v, tail),
        MessageView::InstallSnapshotResp(v) => install_resp_parses(v, tail),
    }
}

/// Every message reads back from its payload.
pub proof fn messages_read_back(m: MessageView)
    requires
        lengths_fit(m),
    ensures
        message_of(payload_of(m)) == Ok::<MessageView, Fault>(m),
{
    payload_parses(m, Seq::empty());
    assert(payload_of(m) + Seq::<u8>::empty() =~= payload_of(m));
}

/// A payload with anything behind it is refused.
pub proof fn trailing_bytes_are_refused(m: MessageView, tail: Seq<u8>)
    requires
        lengths_fit(m),
        tail.len() > 0,
    ensures
        message_of(payload_of(m) + tail) == Err::<MessageView, Fault>(trailing(tail.len())),
{
    payload_parses(m, tail);
}

// ---- the codec ----

fn push_flag(out: &mut Vec<u8>, b: bool)
    ensures
        final(out)@ == old(out)@ + flag(b),
{
    out.push(if b { 1 } else { 0 });
    assert(out@ =~= old(out)@ + flag(b));
}

fn push_string(out: &mut Vec<u8>, s: &[u8])
    ensures
        final(out)@ == old(out)@ + string_bytes(s@),
{
    push_u64(out, s.len() as u64);
    push_bytes(out, s);
    assert(out@ =~= old(out)@ + string_bytes(s@));
}

fn push_optional(out: &mut Vec<u8>, x: Option<u64>)
    ensures
        final(out)@ == old(out)@ + optional_bytes(x),
{
    match x {
        Some(n) => {
            out.push(1);
            push_u64(out, n);
        },
        None => {
            out.push(0);
        },
    }
    assert(out@ =~= old(out)@ + optional_bytes(x));
}

fn push_entry(out: &mut Vec<u8>, entry: &LogEntry)
    ensures
        final(out)@ == old(out)@ + entry_bytes(entry@),
{
    push_u64(out, entry.term);
    push_u64(out, entry.index);
    push_string(out, entry.command.as_slice());
    out.push(entry.entry_type.to_byte());
    assert(out@ =~= old(out)@ + entry_bytes(entry@));
}

fn push_entries(out: &mut Vec<u8>, entries: &Vec<LogEntry>)
    ensures
        final(out)@ == old(out)@ + entries_bytes(types::entries_view(entries@)),
{
    let ghost before = out@;
    let ghost all = types::entries_view(entries@);
    let mut i: usize = 0;
    proof {
        assert(all.take(0) =~= Seq::empty());
        assert(out@ =~= before + entries_bytes(all.take(0)));
    }
    while i < entries.len()
        invariant
            i <= entries@.len(),
            all == types::entries_view(entries@),
            out@ == before + entries_bytes(all.take(i as int)),
        decreases entries@.len() - i,
    {
        push_entry(out, &entries[i]);
        proof {
            assert(all.take(i + 1).drop_last() =~= all.take(i as int));
            assert(all.take(i + 1).last() == entries@[i as int]@);
            assert(out@ =~= before + entries_bytes(all.take(i + 1)));
        }
        i = i + 1;
    }
    assert(all.take(i as int) =~= all);
}

/// Appends the payload of a message.
pub fn write_message(out: &mut Vec<u8>, message: &Message)
    ensures
        final(out)@ == old(out)@ + payload_of(message@),
{
    let ghost before = out@;
    match message {
        Message::RequestVote(m) => {
            push_u32(out, 0);
            push_u64(out, m.term);
            push_u64(out, m.candidate_id);
            push_u64(out, m.last_log_index);
            push_u64(out, m.last_log_term);
            push_flag(out, m.pre_vote);
        },
        Message::RequestVoteResp(m) => {
            push_u32(out, 1);
            push_u64(out, m.term);
            push_flag(out, m.vote_granted);
            push_flag(out, m.pre_vote);
        },
        Message::AppendEntries(m) => {
            push_u32(out, 2);
            push_u64(out, m.term);
            push_u64(out, m.leader_id);
            push_u64(out, m.prev_log_index);
            push_u64(out, m.prev_log_term);
            push_u64(out, m.entries.len() as u64);
            push_entries(out, &m.entries);
            push_u64(out, m.leader_commit);
        },
        Message::AppendEntriesResp(m) => {
            push_u32(out, 3);
            push_u64(out, m.term);
            push_flag(out, m.success);
            push_optional(out, m.conflict_index);
        },
        Message::InstallSnapshot(m) => {
            push_u32(out, 4);
            push_u64(out, m.term);
            push_u64(out, m.leader_id);
            push_u64(out, m.last_index);
            push_u64(out, m.last_term);
            push_string(out, m.data.as_slice());
            push_string(out, m.config.as_slice());
        },
        Message::InstallSnapshotResp(m) => {
            push_u32(out, 5);
            push_u64(out, m.term);
        },
    }
    assert(out@ =~= before + payload_of(message@));
}

/// The length of an AppendEntries payload with one more entry, if it can be
/// counted.
pub fn add_log_entry_len(len: usize, entry: &LogEntry) -> (r: Result<usize>)
    ensures
        match r {
            Ok(n) => n == len + 25 + entry@.command.len(),
            Err(e) => len + 25 + entry@.command.len() > usize::MAX && e@ == error::corrupt(
                "message size calculation overflowed usize"@,
            ),
        },
{
    let room: usize = usize::MAX - len;
    if room < MIN_LOG_ENTRY_BYTES || room - MIN_LOG_ENTRY_BYTES < entry.command.len() {
        return Err(corruption("message size calculation overflowed usize"));
    }
    Ok(len + MIN_LOG_ENTRY_BYTES + entry.command.len())
}

proof fn payload_lens(m: MessageView)
    ensures
        payload_of(m).len() == match m {
            MessageView::RequestVote(_) => 37nat,
            MessageView::RequestVoteResp(_) => 14,
            MessageView::AppendEntries(m) => 52 + entries_bytes(m.entries).len(),
            MessageView::AppendEntriesResp(m) => if m.conflict_index is Some {
                22
            } else {
                14
            },
            MessageView::InstallSnapshot(m) => 52 + m.data.len() + m.config.len(),
            MessageView::InstallSnapshotResp(_) => 12,
        },
{
    broadcast use bytes::le_len;

}

proof fn entries_len(s: Seq<EntryView>, k: int)
    requires
        0 <= k <= s.len(),
    ensures
        entries_bytes(s.take(k)).len() <= entries_bytes(s).len(),
        k < s.len() ==> entries_bytes(s.take(k + 1)).len() == entries_bytes(s.take(k)).len() + 25
            + s[k].command.len(),
    decreases s.len() - k,
{
    broadcast use bytes::le_len;

    if k == s.len() {
        assert(s.take(k) =~= s);
    } else {
        assert(s.take(k + 1).drop_last() =~= s.take(k));
        entries_len(s, k + 1);
    }
}

/// How long the payload of a message is, if it can be framed.
pub fn serialized_frame_len(message: &Message) -> (r: Result<u32>)
    ensures
        match r {
            Ok(n) => frame_len(message@) == Ok::<u32, Fault>(n),
            Err(e) => frame_len(message@) == Err::<u32, Fault>(e@),
        },
{
    proof {
        payload_lens(message@);
    }
    let len: usize = match message {
        Message::RequestVote(_) => 37,
        Message::RequestVoteResp(_) => 14,
        Message::AppendEntries(m) => match append_len(&m.entries) {
            Ok(len) => len,
            Err(e) => return Err(e),
        },
        Message::AppendEntriesResp(m) => if m.conflict_index.is_some() {
            22
        } else {
            14
        },
        Message::InstallSnapshot(m) => {
            let wide: u128 = 52 + m.data.len() as u128 + m.config.len() as u128;
            if wide > usize::MAX as u128 {
                return Err(corruption("message size calculation overflowed usize"));
            }
            wide as usize
        },
        Message::InstallSnapshotResp(_) => 12,
    };
    if len as u64 > u32::MAX as u64 {
        return Err(corruption("message payload does not fit in a u32 frame length"));
    }
    Ok(len as u32)
}

/// How long an AppendEntries payload with these entries is.
fn append_len(entries: &Vec<LogEntry>) -> (r: Result<usize>)
    ensures
        match r {
            Ok(n) => n == 52 + entries_bytes(types::entries_view(entries@)).len(),
            Err(e) => 52 + entries_bytes(types::entries_view(entries@)).len() > usize::MAX && e@
                == error::corrupt("message size calculation overflowed usize"@),
        },
{
    let ghost all = types::entries_view(entries@);
    let mut len: usize = 44;
    let mut i: usize = 0;
    assert(all.take(0) =~= Seq::empty());
    while i < entries.len()
        invariant
            i <= entries@.len(),
            all == types::entries_view(entries@),
            len == 44 + entries_bytes(all.take(i as int)).len(),
        decreases entries@.len() - i,
    {
        proof {
            entries_len(all, i as int);
            entries_len(all, i + 1);
            assert(all[i as int] == entries@[i as int]@);
        }
        len = match add_log_entry_len(len, &entries[i]) {
            Ok(len) => len,
            Err(e) => return Err(e),
        };
        i = i + 1;
    }
    assert(all.take(i as int) =~= all);
    if len > usize::MAX - 8 {
        return Err(corruption("message size calculation overflowed usize"));
    }
    Ok(len + 8)
}

/// A message as it goes over the wire.
pub fn write_frame(message: &Message) -> (r: Result<Vec<u8>>)
    ensures
        match r {
            Ok(frame) => frame_len(message@) is Ok && frame@ == frame_of(message@),
            Err(e) => frame_len(message@) == Err::<u32, Fault>(e@),
        },
{
    let len: u32 = match serialized_frame_len(message) {
        Ok(len) => len,
        Err(e) => return Err(e),
    };
    let mut out: Vec<u8> = Vec::new();
    push_u32(&mut out, len);
    write_message(&mut out, message);
    assert(out@ =~= frame_of(message@));
    Ok(out)
}

/// Reads a payload from front to back.
struct FrameReader<'a> {
    payload: &'a [u8],
    at: usize,
}

pub(crate) fn short_error(need: u64, left: u64) -> (e: Error)
    ensures
        e@ == short_field(need as nat, left as nat),
{
    let mut message = "message field requires ".to_owned();
    push_decimal(&mut message, need);
    message.append(" bytes but only ");
    push_decimal(&mut message, left);
    message.append(" frame bytes remain");
    Error::Corruption(message)
}

pub(crate) fn number_error(before: &str, n: u64, after: &str) -> (e: Error)
    ensures
        e@ == error::corrupt(before@ + text::decimal(n as nat) + after@),
{
    let mut message = before.to_owned();
    push_decimal(&mut message, n);
    message.append(after);
    Error::Corruption(message)
}

pub(crate) fn length_error(len: u64, left: u64) -> (e: Error)
    ensures
        e@ == error::corrupt(
            "message byte sequence length "@ + text::decimal(len as nat) + " exceeds "@
                + text::decimal(left as nat) + " remaining frame bytes"@,
        ),
{
    let mut message = "message byte sequence length ".to_owned();
    push_decimal(&mut message, len);
    message.append(" exceeds ");
    push_decimal(&mut message, left);
    message.append(" remaining frame bytes");
    Error::Corruption(message)
}

impl<'a> FrameReader<'a> {
    spec fn wf(self) -> bool {
        self.at <= self.payload@.len()
    }

    /// What has not been read yet.
    spec fn rest(self) -> Seq<u8> {
        self.payload@.skip(self.at as int)
    }

    /// Whether `n` bytes are left.
    fn need(&self, n: usize) -> (r: Result<()>)
        requires
            self.wf(),
        ensures
            match r {
                Ok(_) => n <= self.rest().len(),
                Err(e) => n > self.rest().len() && e@ == short_field(n as nat, self.rest().len()),
            },
    {
        let left: usize = self.payload.len() - self.at;
        if n > left {
            return Err(short_error(n as u64, left as u64));
        }
        Ok(())
    }

    fn read_u8(&mut self) -> (r: Result<u8>)
        requires
            old(self).wf(),
        ensures
            final(self).wf(),
            match r {
                Ok(x) => parse_u8(old(self).rest()) == Ok::<(u8, Seq<u8>), Fault>(
                    (x, final(self).rest()),
                ),
                Err(e) => parse_u8(old(self).rest()) == Err::<(u8, Seq<u8>), Fault>(e@),
            },
    {
        match self.need(1) {
            Ok(_) => {},
            Err(e) => return Err(e),
        }
        let x: u8 = self.payload[self.at];
        self.at = self.at + 1;
        assert(self.rest() =~= old(self).rest().skip(1));
        Ok(x)
    }

    fn read_u32(&mut self) -> (r: Result<u32>)
        requires
            old(self).wf(),
        ensures
            final(self).wf(),
            match r {
                Ok(x) => parse_u32(old(self).rest()) == Ok::<(u32, Seq<u8>), Fault>(
                    (x, final(self).rest()),
                ),
                Err(e) => parse_u32(old(self).rest()) == Err::<(u32, Seq<u8>), Fault>(e@),
            },
    {
        match self.need(4) {
            Ok(_) => {},
            Err(e) => return Err(e),
        }
        let x: u32 = read_u32(self.payload, self.at);
        assert(old(self).rest().subrange(0, 4) =~= self.payload@.subrange(
            self.at as int,
            self.at + 4,
        ));
        assert(self.at + 4 <= self.payload.len());
        self.at = self.at + 4;
        assert(self.rest() =~= old(self).rest().skip(4));
        Ok(x)
    }

    fn read_u64(&mut self) -> (r: Result<u64>)
        requires
            old(self).wf(),
        ensures
            final(self).wf(),
            match r {
                Ok(x) => parse_u64(old(self).rest()) == Ok::<(u64, Seq<u8>), Fault>(
                    (x, final(self).rest()),
                ),
                Err(e) => parse_u64(old(self).rest()) == Err::<(u64, Seq<u8>), Fault>(e@),
            },
    {
        match self.need(8) {
            Ok(_) => {},
            Err(e) => return Err(e),
        }
        let x: u64 = read_u64(self.payload, self.at);
        assert(old(self).rest().subrange(0, 8) =~= self.payload@.subrange(
            self.at as int,
            self.at + 8,
        ));
        assert(self.at + 8 <= self.payload.len());
        self.at = self.at + 8;
        assert(self.rest() =~= old(self).rest().skip(8));
        Ok(x)
    }

    /// `n` integers in a row.
    fn read_fields(&mut self, n: usize) -> (r: Result<Vec<u64>>)
        requires
            old(self).wf(),
        ensures
            final(self).wf(),
            match r {
                Ok(x) => parse_fields(old(self).rest(), n as nat) == Ok::<
                    (Seq<u64>, Seq<u8>),
                    Fault,
                >((x@, final(self).rest())) && x@.len() == n,
                Err(e) => parse_fields(old(self).rest(), n as nat) == Err::<
                    (Seq<u64>, Seq<u8>),
                    Fault,
                >(e@),
            },
    {
        let ghost start = self.rest();
        let mut out: Vec<u64> = Vec::new();
        let mut i: usize = 0;
        while i < n
            invariant
                i <= n,
                self.wf(),
                start == old(self).rest(),
                out@.len() == i,
                parse_fields(start, i as nat) == Ok::<(Seq<u64>, Seq<u8>), Fault>(
                    (out@, self.rest()),
                ),
            decreases n - i,
        {
            match self.read_u64() {
                Ok(x) => out.push(x),
                Err(e) => {
                    proof {
                        fields_fail(start, (i + 1) as nat, n as nat);
                    }
                    return Err(e);
                },
            }
            i = i + 1;
        }
        Ok(out)
    }

    fn read_bool(&mut self) -> (r: Result<bool>)
        requires
            old(self).wf(),
        ensures
            final(self).wf(),
            match r {
                Ok(x) => parse_bool(old(self).rest()) == Ok::<(bool, Seq<u8>), Fault>(
                    (x, final(self).rest()),
                ),
                Err(e) => parse_bool(old(self).rest()) == Err::<(bool, Seq<u8>), Fault>(e@),
            },
    {
        match self.read_u8() {
            Ok(0) => Ok(false),
            Ok(1) => Ok(true),
            Ok(b) => Err(number_error("invalid bincode boolean encoding ", b as u64, "")),
            Err(e) => Err(e),
        }
    }

    fn read_optional_u64(&mut self) -> (r: Result<Option<u64>>)
        requires
            old(self).wf(),
        ensures
            final(self).wf(),
            match r {
                Ok(x) => parse_optional(old(self).rest()) == Ok::<(Option<u64>, Seq<u8>), Fault>(
                    (x, final(self).rest()),
                ),
                Err(e) => parse_optional(old(self).rest()) == Err::<
                    (Option<u64>, Seq<u8>),
                    Fault,
                >(e@),
            },
    {
        match self.read_u8() {
            Ok(0) => Ok(None),
            Ok(1) => match self.read_u64() {
                Ok(x) => Ok(Some(x)),
                Err(e) => Err(e),
            },
            Ok(b) => Err(number_error("invalid bincode option encoding ", b as u64, "")),
            Err(e) => Err(e),
        }
    }

    /// A byte string. Its length is held against what is left first.
    fn read_bytes(&mut self) -> (r: Result<Vec<u8>>)
        requires
            old(self).wf(),
        ensures
            final(self).wf(),
            match r {
                Ok(x) => parse_string(old(self).rest()) == Ok::<(Seq<u8>, Seq<u8>), Fault>(
                    (x@, final(self).rest()),
                ),
                Err(e) => parse_string(old(self).rest()) == Err::<(Seq<u8>, Seq<u8>), Fault>(e@),
            },
    {
        let len: u64 = match self.read_u64() {
            Ok(len) => len,
            Err(e) => return Err(e),
        };
        let ghost mid = self.rest();
        let left: usize = self.payload.len() - self.at;
        if len > left as u64 {
            return Err(length_error(len, left as u64));
        }
        let len: usize = len as usize;
        let out = copy_range(self.payload, self.at, self.at + len);
        assert(out@ =~= mid.take(len as int));
        self.at = self.at + len;
        assert(self.rest() =~= mid.skip(len as int));
        Ok(out)
    }

    fn read_entry(&mut self) -> (r: Result<LogEntry>)
        requires
            old(self).wf(),
        ensures
            final(self).wf(),
            match r {
                Ok(x) => parse_entry(old(self).rest()) == Ok::<(EntryView, Seq<u8>), Fault>(
                    (x@, final(self).rest()),
                ),
                Err(e) => parse_entry(old(self).rest()) == Err::<(EntryView, Seq<u8>), Fault>(e@),
            },
    {
        let fields = match self.read_fields(2) {
            Ok(fields) => fields,
            Err(e) => return Err(e),
        };
        let command = match self.read_bytes() {
            Ok(command) => command,
            Err(e) => return Err(e),
        };
        let tag: u8 = match self.read_u8() {
            Ok(tag) => tag,
            Err(e) => return Err(e),
        };
        match EntryType::from_byte(tag) {
            Some(entry_type) => Ok(
                LogEntry { term: fields[0], index: fields[1], command, entry_type },
            ),
            None => Err(number_error("invalid entry type encoding ", tag as u64, "")),
        }
    }

    /// A list of entries, whose length is held against what is left first.
    fn read_log_entries(&mut self) -> (r: Result<Vec<LogEntry>>)
        requires
            old(self).wf(),
        ensures
            final(self).wf(),
            match r {
                Ok(x) => parse_entries(old(self).rest()) == Ok::<(Seq<EntryView>, Seq<u8>), Fault>(
                    (types::entries_view(x@), final(self).rest()),
                ),
                Err(e) => parse_entries(old(self).rest()) == Err::<
                    (Seq<EntryView>, Seq<u8>),
                    Fault,
                >(e@),
            },
    {
        let count: u64 = match self.read_u64() {
            Ok(count) => count,
            Err(e) => return Err(e),
        };
        let ghost start = self.rest();
        let left: usize = self.payload.len() - self.at;
        if left < 8 {
            return Err(corruption("append entries frame is missing leader_commit"));
        }
        if count > ((left - 8) / MIN_LOG_ENTRY_BYTES) as u64 {
            return Err(
                number_error(
                    "append entries count ",
                    count,
                    " exceeds the remaining frame boundary",
                ),
            );
        }
        let mut out: Vec<LogEntry> = Vec::new();
        let mut i: u64 = 0;
        assert(types::entries_view(out@) =~= Seq::empty());
        while i < count
            invariant
                i <= count,
                self.wf(),
                parse_entry_list(start, i as nat) == Ok::<(Seq<EntryView>, Seq<u8>), Fault>(
                    (types::entries_view(out@), self.rest()),
                ),
                parse_entries(old(self).rest()) == parse_entry_list(start, count as nat),
            decreases count - i,
        {
            match self.read_entry() {
                Ok(entry) => {
                    proof {
                        types::entries_view_push(out@, entry);
                    }
                    out.push(entry);
                },
                Err(e) => {
                    proof {
                        entry_list_fails(start, (i + 1) as nat, count as nat);
                    }
                    return Err(e);
                },
            }
            i = i + 1;
        }
        Ok(out)
    }

    fn read_variant(&mut self, variant: u32) -> (r: Result<Message>)
        requires
            old(self).wf(),
        ensures
            final(self).wf(),
            match r {
                Ok(m) => parse_variant(variant, old(self).rest()) == Ok::<
                    (MessageView, Seq<u8>),
                    Fault,
                >((m@, final(self).rest())),
                Err(e) => parse_variant(variant, old(self).rest()) == Err::<
                    (MessageView, Seq<u8>),
                    Fault,
                >(e@),
            },
    {
        match variant {
            0 => {
                let f = match self.read_fields(4) {
                    Ok(f) => f,
                    Err(e) => return Err(e),
                };
                match self.read_bool() {
                    Ok(pre_vote) => Ok(
                        Message::RequestVote(
                            RequestVoteReq {
                                term: f[0],
                                candidate_id: f[1],
                                last_log_index: f[2],
                                last_log_term: f[3],
                                pre_vote,
                            },
                        ),
                    ),
                    Err(e) => Err(e),
                }
            },
            1 => {
                let term: u64 = match self.read_u64() {
                    Ok(term) => term,
                    Err(e) => return Err(e),
                };
                let vote_granted: bool = match self.read_bool() {
                    Ok(b) => b,
                    Err(e) => return Err(e),
                };
                match self.read_bool() {
                    Ok(pre_vote) => Ok(
                        Message::RequestVoteResp(
                            RequestVoteResp { term, vote_granted, pre_vote },
                        ),
                    ),
                    Err(e) => Err(e),
                }
            },
            2 => {
                let f = match self.read_fields(4) {
                    Ok(f) => f,
                    Err(e) => return Err(e),
                };
                let entries = match self.read_log_entries() {
                    Ok(entries) => entries,
                    Err(e) => return Err(e),
                };
                match self.read_u64() {
                    Ok(leader_commit) => Ok(
                        Message::AppendEntries(
                            AppendEntriesReq {
                                term: f[0],
                                leader_id: f[1],
                                prev_log_index: f[2],
                                prev_log_term: f[3],
                                entries,
                                leader_commit,
                            },
                        ),
                    ),
                    Err(e) => Err(e),
                }
            },
            3 => {
                let term: u64 = match self.read_u64() {
                    Ok(term) => term,
                    Err(e) => return Err(e),
                };
                let success: bool = match self.read_bool() {
                    Ok(b) => b,
                    Err(e) => return Err(e),
                };
                match self.read_optional_u64() {
                    Ok(conflict_index) => Ok(
                        Message::AppendEntriesResp(
                            AppendEntriesResp { term, success, conflict_index },
                        ),
                    ),
                    Err(e) => Err(e),
                }
            },
            4 => {
                let f = match self.read_fields(4) {
                    Ok(f) => f,
                    Err(e) => return Err(e),
                };
                let data = match self.read_bytes() {
                    Ok(data) => data,
                    Err(e) => return Err(e),
                };
                match self.read_bytes() {
                    Ok(config) => Ok(
                        Message::InstallSnapshot(
                            InstallSnapshotReq {
                                term: f[0],
                                leader_id: f[1],
                                last_index: f[2],
                                last_term: f[3],
                                data,
                                config,
                            },
                        ),
                    ),
                    Err(e) => Err(e),
                }
            },
            5 => match self.read_u64() {
                Ok(term) => Ok(Message::InstallSnapshotResp(InstallSnapshotResp { term })),
                Err(e) => Err(e),
            },
            invalid => Err(
                number_error("invalid bincode Message variant ", invalid as u64, ""),
            ),
        }
    }
}

proof fn fields_fail(s: Seq<u8>, k: nat, n: nat)
    requires
        k <= n,
        parse_fields(s, k) is Err,
    ensures
        parse_fields(s, n) == parse_fields(s, k),
    decreases n - k,
{
    if k < n {
        fields_fail(s, k + 1, n);
    }
}

proof fn entry_list_fails(s: Seq<u8>, k: nat, n: nat)
    requires
        k <= n,
        parse_entry_list(s, k) is Err,
    ensures
        parse_entry_list(s, n) == parse_entry_list(s, k),
    decreases n - k,
{
    if k < n {
        entry_list_fails(s, k + 1, n);
    }
}

/// The message that a payload holds, all of it. No length in it is trusted
/// before it is held against what is there.
pub fn read_message(payload: &[u8]) -> (r: Result<Message>)
    ensures
        match r {
            Ok(m) => message_of(payload@) == Ok::<MessageView, Fault>(m@),
            Err(e) => message_of(payload@) == Err::<MessageView, Fault>(e@),
        },
{
    let mut reader = FrameReader { payload, at: 0 };
    assert(reader.rest() =~= payload@);
    let variant: u32 = match reader.read_u32() {
        Ok(variant) => variant,
        Err(e) => return Err(e),
    };
    let message = match reader.read_variant(variant) {
        Ok(message) => message,
        Err(e) => return Err(e),
    };
    let left: usize = reader.payload.len() - reader.at;
    if left != 0 {
        return Err(
            number_error("message deserialization left ", left as u64, " trailing payload bytes"),
        );
    }
    Ok(message)
}

/// `Vec::try_reserve_exact` of the standard library: leaves the contents as
/// they are, and fails where the contents with `more` bytes could not be a
/// vector, which holds at most `isize::MAX` bytes. Where no more room is asked
/// for there is nothing to do, and it succeeds. Otherwise it also fails where
/// the allocator does, of which nothing is said; the text is the error's own.
#[verifier::external_body]
fn try_reserve_exact(bytes: &mut Vec<u8>, more: usize) -> (r: core::result::Result<(), String>)
    ensures
        final(bytes)@ == old(bytes)@,
        old(bytes)@.len() + more > isize::MAX ==> r is Err,
        more == 0 ==> r is Ok,
{
    match bytes.try_reserve_exact(more) {
        Ok(()) => Ok(()),
        Err(error) => Err(error.to_string()),
    }
}

/// Room for `length` bytes of a message that is coming in. Where the memory
/// cannot be had, that is an error like any other.
pub fn allocate_bytes(length: usize) -> (r: Result<Vec<u8>>)
    ensures
        match r {
            Ok(bytes) => bytes@.len() == 0 && length <= isize::MAX,
            Err(e) => e@.kind == Some(IoKind::OutOfMemory) && exists|reason: Seq<char>|
                e@.message == #[trigger] ("cannot allocate incoming message bytes: "@ + reason),
        },
        length == 0 ==> r is Ok,
        length > isize::MAX ==> r is Err,
{
    let mut bytes: Vec<u8> = Vec::new();
    match try_reserve_exact(&mut bytes, length) {
        Ok(_) => Ok(bytes),
        Err(reason) => {
            let mut message = "cannot allocate incoming message bytes: ".to_owned();
            message.append(reason.as_str());
            assert(message@ == "cannot allocate incoming message bytes: "@ + reason@);
            Err(Error::Io(IoFault { kind: IoKind::OutOfMemory, message }))
        },
    }
}

} // verus!
