//! A payload as it comes in, field by field.
//!
//! Each field is looked at as soon as it is there, and a payload that cannot
//! become a message is refused at the first field that is wrong.

use vstd::prelude::*;
use vstd::string::*;

use crate::bytes::{self, push_bytes, read_u32, read_u64};
use crate::error::{self, corruption, Fault, Result};
use crate::raft::rpc::{Message, MessageView};
use crate::raft::transport::codec::{
    self, length_error, number_error, read_message, short_error, Parsed, MIN_LOG_ENTRY_BYTES,
};
use crate::raft::types::{EntryType, EntryView};
use crate::text;

verus! {

/// A field of a payload.
#[derive(Clone, Copy, Debug, PartialEq, Eq, Structural)]
pub enum Part {
    /// Which message it is.
    Variant,
    /// An integer.
    Word,
    Flag,
    /// The presence byte of an optional integer.
    Choice,
    /// The length of a byte string.
    Length,
    /// So many bytes.
    Blob(usize),
    /// The length of a list of entries.
    Count,
    /// So many entries.
    Entries(u64),
    /// The type of an entry.
    Tag,
}

/// The fields of a message behind its variant.
pub open spec fn parts_of(variant: u32) -> Seq<Part> {
    if variant == 0 {
        seq![Part::Word, Part::Word, Part::Word, Part::Word, Part::Flag]
    } else if variant == 1 {
        seq![Part::Word, Part::Flag, Part::Flag]
    } else if variant == 2 {
        seq![Part::Word, Part::Word, Part::Word, Part::Word, Part::Count, Part::Word]
    } else if variant == 3 {
        seq![Part::Word, Part::Flag, Part::Choice]
    } else if variant == 4 {
        seq![Part::Word, Part::Word, Part::Word, Part::Word, Part::Length, Part::Length]
    } else {
        seq![Part::Word]
    }
}

/// The fields of an entry.
pub open spec fn entry_parts() -> Seq<Part> {
    seq![Part::Word, Part::Word, Part::Length, Part::Tag]
}

impl Part {
    /// How many bytes the field takes.
    pub open spec fn size(self) -> nat {
        match self {
            Part::Variant => 4,
            Part::Word => 8,
            Part::Flag => 1,
            Part::Choice => 1,
            Part::Length => 8,
            Part::Blob(n) => n as nat,
            Part::Count => 8,
            Part::Entries(n) => if n == 0 {
                0
            } else {
                8
            },
            Part::Tag => 1,
        }
    }

    /// What comes next once the field is there, with `left` bytes of the payload
    /// behind it, or what is wrong with it.
    pub open spec fn check(self, field: Seq<u8>, left: nat) -> core::result::Result<
        Seq<Part>,
        Fault,
    > {
        match self {
            Part::Variant => {
                let variant = bytes::u32_at(field, 0);
                if variant <= 5 {
                    Ok(parts_of(variant))
                } else {
                    Err(
                        error::corrupt(
                            "invalid bincode Message variant "@ + text::decimal(variant as nat)
                                + ""@,
                        ),
                    )
                }
            },
            Part::Word | Part::Blob(_) => Ok(Seq::empty()),
            Part::Flag => if field[0] <= 1 {
                Ok(Seq::empty())
            } else {
                Err(
                    error::corrupt(
                        "invalid bincode boolean encoding "@ + text::decimal(field[0] as nat) + ""@,
                    ),
                )
            },
            Part::Choice => if field[0] == 0 {
                Ok(Seq::empty())
            } else if field[0] == 1 {
                Ok(seq![Part::Word])
            } else {
                Err(
                    error::corrupt(
                        "invalid bincode option encoding "@ + text::decimal(field[0] as nat) + ""@,
                    ),
                )
            },
            Part::Length => {
                let len = bytes::u64_at(field, 0);
                if len <= left {
                    Ok(seq![Part::Blob(len as usize)])
                } else {
                    Err(
                        error::corrupt(
                            "message byte sequence length "@ + text::decimal(len as nat)
                                + " exceeds "@ + text::decimal(left) + " remaining frame bytes"@,
                        ),
                    )
                }
            },
            Part::Count => {
                let count = bytes::u64_at(field, 0);
                if left < 8 {
                    Err(error::corrupt("append entries frame is missing leader_commit"@))
                } else if count > (left - 8) / 25 {
                    Err(
                        error::corrupt(
                            "append entries count "@ + text::decimal(count as nat)
                                + " exceeds the remaining frame boundary"@,
                        ),
                    )
                } else {
                    Ok(seq![Part::Entries(count)])
                }
            },
            Part::Entries(n) => if n == 0 {
                Ok(Seq::empty())
            } else {
                Ok(seq![Part::Word, Part::Length, Part::Tag, Part::Entries((n - 1) as u64)])
            },
            Part::Tag => if EntryType::of_tag(field[0]) is Some {
                Ok(Seq::empty())
            } else {
                Err(
                    error::corrupt(
                        "invalid entry type encoding "@ + text::decimal(field[0] as nat) + ""@,
                    ),
                )
            },
        }
    }
}

/// What is wrong with `s` if it is to hold the fields `todo` and nothing else.
pub open spec fn fault_in(todo: Seq<Part>, s: Seq<u8>) -> Option<Fault>
    decreases s.len(), todo.len(),
{
    if todo.len() == 0 {
        if s.len() > 0 {
            Some(codec::trailing(s.len()))
        } else {
            None
        }
    } else {
        let n = todo[0].size();
        if s.len() < n {
            Some(codec::short_field(n, s.len()))
        } else {
            match todo[0].check(s.take(n as int), (s.len() - n) as nat) {
                Err(fault) => Some(fault),
                Ok(more) => fault_in(more + todo.skip(1), s.skip(n as int)),
            }
        }
    }
}

/// What is wrong with a payload.
pub open spec fn fault_of(s: Seq<u8>) -> Option<Fault> {
    match codec::message_of(s) {
        Ok(_) => None,
        Err(fault) => Some(fault),
    }
}

// ---- the fields of a payload are those of its message ----

/// The parts in front say of `s` what the parser says, and leave the rest to
/// what stands behind them.
spec fn agree<T>(parsed: Parsed<T>, parts: Seq<Part>, todo: Seq<Part>, s: Seq<u8>) -> bool {
    match parsed {
        Err(fault) => fault_in(parts + todo, s) == Some(fault),
        Ok((_, rest)) => fault_in(parts + todo, s) == fault_in(todo, rest),
    }
}

proof fn one_part(part: Part, todo: Seq<Part>, s: Seq<u8>)
    ensures
        ({
            let n = part.size();
            fault_in(seq![part] + todo, s) == if s.len() < n {
                Some(codec::short_field(n, s.len()))
            } else {
                match part.check(s.take(n as int), (s.len() - n) as nat) {
                    Err(fault) => Some(fault),
                    Ok(more) => fault_in(more + todo, s.skip(n as int)),
                }
            }
        }),
{
    assert((seq![part] + todo).skip(1) =~= todo);
}

proof fn word_agrees(todo: Seq<Part>, s: Seq<u8>)
    ensures
        agree(codec::parse_u64(s), seq![Part::Word], todo, s),
{
    one_part(Part::Word, todo, s);
    assert(Seq::<Part>::empty() + todo =~= todo);
}

spec fn words(n: nat) -> Seq<Part> {
    Seq::new(n, |i: int| Part::Word)
}

proof fn words_agree(n: nat, todo: Seq<Part>, s: Seq<u8>)
    ensures
        agree(codec::parse_fields(s, n), words(n), todo, s),
    decreases n,
{
    if n == 0 {
        assert(words(n) + todo =~= todo);
    } else {
        let before = (n - 1) as nat;
        let rest = seq![Part::Word] + todo;
        assert(words(n) + todo =~= words(before) + rest);
        words_agree(before, rest, s);
        match codec::parse_fields(s, before) {
            Err(_) => {},
            Ok((_, left)) => word_agrees(todo, left),
        }
    }
}

proof fn flag_agrees(todo: Seq<Part>, s: Seq<u8>)
    ensures
        agree(codec::parse_bool(s), seq![Part::Flag], todo, s),
{
    one_part(Part::Flag, todo, s);
    assert(Seq::<Part>::empty() + todo =~= todo);
}

proof fn choice_agrees(todo: Seq<Part>, s: Seq<u8>)
    ensures
        agree(codec::parse_optional(s), seq![Part::Choice], todo, s),
{
    one_part(Part::Choice, todo, s);
    assert(Seq::<Part>::empty() + todo =~= todo);
    if s.len() > 0 {
        word_agrees(todo, s.skip(1));
    }
}

proof fn string_agrees(todo: Seq<Part>, s: Seq<u8>)
    requires
        s.len() <= usize::MAX,
    ensures
        agree(codec::parse_string(s), seq![Part::Length], todo, s),
{
    one_part(Part::Length, todo, s);
    if s.len() >= 8 {
        assert(s.take(8).subrange(0, 8) =~= s.subrange(0, 8));
        let len = bytes::u64_at(s, 0);
        let rest = s.skip(8);
        if len <= rest.len() {
            one_part(Part::Blob(len as usize), todo, rest);
            assert(Seq::<Part>::empty() + todo =~= todo);
        }
    }
}

proof fn tag_agrees(todo: Seq<Part>, s: Seq<u8>)
    ensures
        match codec::parse_u8(s) {
            Err(fault) => fault_in(seq![Part::Tag] + todo, s) == Some(fault),
            Ok((tag, rest)) => fault_in(seq![Part::Tag] + todo, s) == if EntryType::of_tag(
                tag,
            ) is Some {
                fault_in(todo, rest)
            } else {
                Some(
                    error::corrupt(
                        "invalid entry type encoding "@ + text::decimal(tag as nat) + ""@,
                    ),
                )
            },
        },
{
    one_part(Part::Tag, todo, s);
    assert(Seq::<Part>::empty() + todo =~= todo);
}

/// Parsing leaves no more than there was.
proof fn parsing_shrinks(s: Seq<u8>, n: nat)
    ensures
        codec::parse_fields(s, n) matches Ok((_, rest)) ==> rest.len() <= s.len(),
        codec::parse_string(s) matches Ok((_, rest)) ==> rest.len() <= s.len(),
    decreases n,
{
    if n > 0 {
        parsing_shrinks(s, (n - 1) as nat);
    }
}

proof fn entry_shrinks(s: Seq<u8>)
    ensures
        codec::parse_entry(s) matches Ok((_, rest)) ==> rest.len() <= s.len(),
{
    parsing_shrinks(s, 2);
    match codec::parse_fields(s, 2) {
        Ok((_, rest)) => parsing_shrinks(rest, 0),
        Err(_) => {},
    }
}

proof fn entry_agrees(todo: Seq<Part>, s: Seq<u8>)
    requires
        s.len() <= usize::MAX,
    ensures
        agree(codec::parse_entry(s), entry_parts(), todo, s),
{
    let behind = seq![Part::Tag] + todo;
    let inner = seq![Part::Length] + behind;
    assert(entry_parts() + todo =~= words(2) + inner);
    words_agree(2, inner, s);
    parsing_shrinks(s, 2);
    match codec::parse_fields(s, 2) {
        Err(_) => {},
        Ok((_, rest)) => {
            string_agrees(behind, rest);
            match codec::parse_string(rest) {
                Err(_) => {},
                Ok((_, rest)) => tag_agrees(todo, rest),
            }
        },
    }
}

/// The first of several entries, taken off the front.
proof fn first_entry(todo: Seq<Part>, s: Seq<u8>, n: u64)
    requires
        n > 0,
    ensures
        fault_in(seq![Part::Entries(n)] + todo, s) == fault_in(
            entry_parts() + (seq![Part::Entries((n - 1) as u64)] + todo),
            s,
        ),
{
    let left = seq![Part::Entries((n - 1) as u64)] + todo;
    let more = seq![Part::Word, Part::Length, Part::Tag, Part::Entries((n - 1) as u64)];
    let inner = seq![Part::Word, Part::Length, Part::Tag] + left;
    one_part(Part::Entries(n), todo, s);
    assert(more + todo =~= inner);
    assert(entry_parts() + left =~= seq![Part::Word] + inner);
    one_part(Part::Word, inner, s);
    assert(Seq::<Part>::empty() + inner =~= inner);
}

/// Several entries are an entry, and then the others.
proof fn entries_from_the_front(s: Seq<u8>, n: nat)
    requires
        n > 0,
    ensures
        codec::parse_entry_list(s, n) == (match codec::parse_entry(s) {
            Err(fault) => Err(fault),
            Ok((e, rest)) => match codec::parse_entry_list(rest, (n - 1) as nat) {
                Err(fault) => Err(fault),
                Ok((more, rest)) => Ok((seq![e] + more, rest)),
            },
        }),
    decreases n,
{
    let before = (n - 1) as nat;
    if before == 0 {
        assert(codec::parse_entry_list(s, 0) == Ok::<(Seq<EntryView>, Seq<u8>), Fault>(
            (Seq::empty(), s),
        ));
        match codec::parse_entry(s) {
            Err(_) => {},
            Ok((e, rest)) => {
                assert(Seq::empty().push(e) =~= seq![e] + Seq::empty());
            },
        }
    } else {
        entries_from_the_front(s, before);
        match codec::parse_entry(s) {
            Err(_) => {},
            Ok((e, rest)) => match codec::parse_entry_list(rest, (before - 1) as nat) {
                Err(_) => {},
                Ok((more, left)) => match codec::parse_entry(left) {
                    Err(_) => {},
                    Ok((last, _)) => {
                        assert((seq![e] + more).push(last) =~= seq![e] + more.push(last));
                    },
                },
            },
        }
    }
}

proof fn entries_agree(todo: Seq<Part>, s: Seq<u8>, n: u64)
    requires
        s.len() <= usize::MAX,
    ensures
        agree(codec::parse_entry_list(s, n as nat), seq![Part::Entries(n)], todo, s),
    decreases n,
{
    if n == 0 {
        one_part(Part::Entries(n), todo, s);
        assert(Seq::<Part>::empty() + todo =~= todo);
        assert(s.skip(0) =~= s);
    } else {
        let left = seq![Part::Entries((n - 1) as u64)] + todo;
        first_entry(todo, s, n);
        entry_agrees(left, s);
        entry_shrinks(s);
        entries_from_the_front(s, n as nat);
        match codec::parse_entry(s) {
            Err(_) => {},
            Ok((_, rest)) => entries_agree(todo, rest, (n - 1) as u64),
        }
    }
}

proof fn list_agrees(todo: Seq<Part>, s: Seq<u8>)
    requires
        s.len() <= usize::MAX,
    ensures
        agree(codec::parse_entries(s), seq![Part::Count], todo, s),
{
    one_part(Part::Count, todo, s);
    if s.len() >= 8 {
        assert(s.take(8).subrange(0, 8) =~= s.subrange(0, 8));
        entries_agree(todo, s.skip(8), bytes::u64_at(s, 0));
    }
}

proof fn vote_req_agrees(s: Seq<u8>)
    ensures
        agree(codec::parse_vote_req(s), parts_of(0), Seq::empty(), s),
{
    let none = Seq::<Part>::empty();
    let behind = seq![Part::Flag] + none;
    assert(parts_of(0) + none =~= words(4) + behind);
    words_agree(4, behind, s);
    match codec::parse_fields(s, 4) {
        Err(_) => {},
        Ok((_, rest)) => flag_agrees(none, rest),
    }
}

proof fn vote_resp_agrees(s: Seq<u8>)
    ensures
        agree(codec::parse_vote_resp(s), parts_of(1), Seq::empty(), s),
{
    let none = Seq::<Part>::empty();
    let behind = seq![Part::Flag] + none;
    let inner = seq![Part::Flag] + behind;
    assert(parts_of(1) + none =~= seq![Part::Word] + inner);
    word_agrees(inner, s);
    match codec::parse_u64(s) {
        Err(_) => {},
        Ok((_, rest)) => {
            flag_agrees(behind, rest);
            match codec::parse_bool(rest) {
                Err(_) => {},
                Ok((_, rest)) => flag_agrees(none, rest),
            }
        },
    }
}

proof fn append_req_agrees(s: Seq<u8>)
    requires
        s.len() <= usize::MAX,
    ensures
        agree(codec::parse_append_req(s), parts_of(2), Seq::empty(), s),
{
    let none = Seq::<Part>::empty();
    let behind = seq![Part::Word] + none;
    let inner = seq![Part::Count] + behind;
    assert(parts_of(2) + none =~= words(4) + inner);
    words_agree(4, inner, s);
    parsing_shrinks(s, 4);
    match codec::parse_fields(s, 4) {
        Err(_) => {},
        Ok((_, rest)) => {
            list_agrees(behind, rest);
            match codec::parse_entries(rest) {
                Err(_) => {},
                Ok((_, rest)) => word_agrees(none, rest),
            }
        },
    }
}

proof fn append_resp_agrees(s: Seq<u8>)
    ensures
        agree(codec::parse_append_resp(s), parts_of(3), Seq::empty(), s),
{
    let none = Seq::<Part>::empty();
    let behind = seq![Part::Choice] + none;
    let inner = seq![Part::Flag] + behind;
    assert(parts_of(3) + none =~= seq![Part::Word] + inner);
    word_agrees(inner, s);
    match codec::parse_u64(s) {
        Err(_) => {},
        Ok((_, rest)) => {
            flag_agrees(behind, rest);
            match codec::parse_bool(rest) {
                Err(_) => {},
                Ok((_, rest)) => choice_agrees(none, rest),
            }
        },
    }
}

proof fn install_req_agrees(s: Seq<u8>)
    requires
        s.len() <= usize::MAX,
    ensures
        agree(codec::parse_install_req(s), parts_of(4), Seq::empty(), s),
{
    let none = Seq::<Part>::empty();
    let behind = seq![Part::Length] + none;
    let inner = seq![Part::Length] + behind;
    assert(parts_of(4) + none =~= words(4) + inner);
    words_agree(4, inner, s);
    parsing_shrinks(s, 4);
    match codec::parse_fields(s, 4) {
        Err(_) => {},
        Ok((_, rest)) => {
            string_agrees(behind, rest);
            parsing_shrinks(rest, 0);
            match codec::parse_string(rest) {
                Err(_) => {},
                Ok((_, rest)) => string_agrees(none, rest),
            }
        },
    }
}

proof fn install_resp_agrees(s: Seq<u8>)
    ensures
        agree(codec::parse_install_resp(s), parts_of(5), Seq::empty(), s),
{
    let none = Seq::<Part>::empty();
    assert(parts_of(5) + none =~= seq![Part::Word] + none);
    word_agrees(none, s);
}

/// Field by field the same is wrong with a payload as with all of it at once.
pub proof fn the_fields_are_the_message(s: Seq<u8>)
    requires
        s.len() <= usize::MAX,
    ensures
        fault_in(seq![Part::Variant], s) == fault_of(s),
{
    let none = Seq::<Part>::empty();
    assert(seq![Part::Variant] + none =~= seq![Part::Variant]);
    one_part(Part::Variant, none, s);
    if s.len() >= 4 {
        assert(s.take(4).subrange(0, 4) =~= s.subrange(0, 4));
        let variant = bytes::u32_at(s, 0);
        let rest = s.skip(4);
        if variant == 0 {
            vote_req_agrees(rest);
        } else if variant == 1 {
            vote_resp_agrees(rest);
        } else if variant == 2 {
            append_req_agrees(rest);
        } else if variant == 3 {
            append_resp_agrees(rest);
        } else if variant == 4 {
            install_req_agrees(rest);
        } else if variant == 5 {
            install_resp_agrees(rest);
        }
    }
}

// ---- taking a payload in ----

/// The fields of a message behind its variant.
fn list_parts(variant: u32) -> (r: Vec<Part>)
    requires
        variant <= 5,
    ensures
        r@ == parts_of(variant),
{
    let parts: Vec<Part> = match variant {
        0 => vec![Part::Word, Part::Word, Part::Word, Part::Word, Part::Flag],
        1 => vec![Part::Word, Part::Flag, Part::Flag],
        2 => vec![Part::Word, Part::Word, Part::Word, Part::Word, Part::Count, Part::Word],
        3 => vec![Part::Word, Part::Flag, Part::Choice],
        4 => vec![Part::Word, Part::Word, Part::Word, Part::Word, Part::Length, Part::Length],
        _ => vec![Part::Word],
    };
    assert(parts@ =~= parts_of(variant));
    parts
}

/// How many bytes the field takes.
fn size_of(part: Part) -> (r: usize)
    ensures
        r == part.size(),
{
    match part {
        Part::Variant => 4,
        Part::Word => 8,
        Part::Flag => 1,
        Part::Choice => 1,
        Part::Length => 8,
        Part::Blob(n) => n,
        Part::Count => 8,
        Part::Entries(n) => if n == 0 {
            0
        } else {
            8
        },
        Part::Tag => 1,
    }
}

/// What comes next once the field is there, or what is wrong with it.
fn check_part(part: Part, field: &[u8], left: usize) -> (r: Result<Vec<Part>>)
    requires
        field@.len() == part.size(),
    ensures
        match r {
            Ok(more) => part.check(field@, left as nat) == Ok::<Seq<Part>, Fault>(more@),
            Err(e) => part.check(field@, left as nat) == Err::<Seq<Part>, Fault>(e@),
        },
{
    match part {
        Part::Variant => {
            let variant: u32 = read_u32(field, 0);
            if variant <= 5 {
                Ok(list_parts(variant))
            } else {
                Err(number_error("invalid bincode Message variant ", variant as u64, ""))
            }
        },
        Part::Word => Ok(Vec::new()),
        Part::Blob(_) => Ok(Vec::new()),
        Part::Flag => if field[0] <= 1 {
            Ok(Vec::new())
        } else {
            Err(number_error("invalid bincode boolean encoding ", field[0] as u64, ""))
        },
        Part::Choice => if field[0] == 0 {
            Ok(Vec::new())
        } else if field[0] == 1 {
            let more: Vec<Part> = vec![Part::Word];
            assert(more@ =~= seq![Part::Word]);
            Ok(more)
        } else {
            Err(number_error("invalid bincode option encoding ", field[0] as u64, ""))
        },
        Part::Length => {
            let len: u64 = read_u64(field, 0);
            if len <= left as u64 {
                let more: Vec<Part> = vec![Part::Blob(len as usize)];
                assert(more@ =~= seq![Part::Blob(len as usize)]);
                Ok(more)
            } else {
                Err(length_error(len, left as u64))
            }
        },
        Part::Count => {
            let count: u64 = read_u64(field, 0);
            if left < 8 {
                Err(corruption("append entries frame is missing leader_commit"))
            } else if count > ((left - 8) / MIN_LOG_ENTRY_BYTES) as u64 {
                Err(
                    number_error(
                        "append entries count ",
                        count,
                        " exceeds the remaining frame boundary",
                    ),
                )
            } else {
                let more: Vec<Part> = vec![Part::Entries(count)];
                assert(more@ =~= seq![Part::Entries(count)]);
                Ok(more)
            }
        },
        Part::Entries(n) => if n == 0 {
            Ok(Vec::new())
        } else {
            let more: Vec<Part> = vec![
                Part::Word,
                Part::Length,
                Part::Tag,
                Part::Entries(n - 1),
            ];
            assert(more@ =~= part.check(field@, left as nat)->Ok_0);
            Ok(more)
        },
        Part::Tag => match EntryType::from_byte(field[0]) {
            Some(_) => Ok(Vec::new()),
            None => Err(number_error("invalid entry type encoding ", field[0] as u64, "")),
        },
    }
}

/// A payload of a known length that is coming in.
pub struct Intake {
    received: Vec<u8>,
    payload_len: usize,
    todo: Vec<Part>,
}

impl Intake {
    /// What has come in so far.
    pub closed spec fn received(self) -> Seq<u8> {
        self.received@
    }

    /// How long the payload is.
    pub closed spec fn payload_len(self) -> nat {
        self.payload_len as nat
    }

    /// The fields that are still to come, as far as is known.
    pub closed spec fn todo(self) -> Seq<Part> {
        self.todo@
    }

    /// How many bytes are still to come.
    pub open spec fn left(self) -> int {
        self.payload_len() - self.received().len()
    }

    /// Whatever comes in: the fields to come say of it what a whole payload
    /// says.
    pub open spec fn wf(self) -> bool {
        &&& self.payload_len() <= usize::MAX
        &&& self.received().len() <= self.payload_len()
        &&& forall|tail: Seq<u8>|
            tail.len() == self.left() ==> #[trigger] fault_of(self.received() + tail) == fault_in(
                self.todo(),
                tail,
            )
    }

    /// The payload cannot become a message, whatever comes in.
    pub open spec fn refused(self, fault: Fault) -> bool {
        forall|tail: Seq<u8>|
            tail.len() == self.left() ==> #[trigger] codec::message_of(self.received() + tail)
                == Err::<MessageView, Fault>(fault)
    }

    /// A payload of which nothing has come in.
    pub fn new(payload_len: usize) -> (r: Self)
        ensures
            r.wf(),
            r.received() == Seq::<u8>::empty(),
            r.payload_len() == payload_len,
            r.todo() == seq![Part::Variant],
    {
        let todo: Vec<Part> = vec![Part::Variant];
        let r = Intake { received: Vec::new(), payload_len, todo };
        assert(r.todo() =~= seq![Part::Variant]);
        assert forall|tail: Seq<u8>| tail.len() == r.left() implies #[trigger] fault_of(
            r.received() + tail,
        ) == fault_in(r.todo(), tail) by {
            assert(r.received() + tail =~= tail);
            the_fields_are_the_message(tail);
        }
        r
    }

    /// How many bytes the next field takes: none is left once the payload is
    /// complete. A field that does not fit, or a payload that goes on behind
    /// its last field, is refused.
    pub fn wanted(&self) -> (r: Result<Option<usize>>)
        requires
            self.wf(),
        ensures
            match r {
                Ok(Some(n)) => self.todo().len() > 0 && n == self.todo()[0].size() && n
                    <= self.left(),
                Ok(None) => self.todo().len() == 0 && self.left() == 0 && codec::message_of(
                    self.received(),
                ) is Ok,
                Err(e) => {
                    &&& self.refused(e@)
                    &&& e@ == if self.todo().len() == 0 {
                        codec::trailing(self.left() as nat)
                    } else {
                        codec::short_field(self.todo()[0].size(), self.left() as nat)
                    }
                    &&& self.todo().len() == 0 ==> self.left() > 0
                    &&& self.todo().len() > 0 ==> self.todo()[0].size() > self.left()
                },
            },
    {
        let left: usize = self.payload_len - self.received.len();
        if self.todo.len() == 0 {
            if left > 0 {
                let e = number_error(
                    "message deserialization left ",
                    left as u64,
                    " trailing payload bytes",
                );
                assert(e@ == codec::trailing(left as nat));
                proof {
                    self.all_refused(e@);
                }
                return Err(e);
            }
            assert(fault_of(self.received() + Seq::<u8>::empty()) is None);
            assert(self.received() + Seq::<u8>::empty() =~= self.received());
            return Ok(None);
        }
        let n: usize = size_of(self.todo[0]);
        if n > left {
            let e = short_error(n as u64, left as u64);
            proof {
                self.all_refused(e@);
            }
            return Err(e);
        }
        Ok(Some(n))
    }

    /// What the fields say of every rest, the message says of the whole.
    proof fn all_refused(&self, fault: Fault)
        requires
            self.wf(),
            forall|tail: Seq<u8>|
                tail.len() == self.left() ==> #[trigger] fault_in(self.todo(), tail) == Some(fault),
        ensures
            self.refused(fault),
    {
        assert forall|tail: Seq<u8>| tail.len() == self.left() implies #[trigger] codec::message_of(
            self.received() + tail,
        ) == Err::<MessageView, Fault>(fault) by {
            assert(fault_of(self.received() + tail) == fault_in(self.todo(), tail));
        }
    }

    /// Takes the next field in. What is wrong with it is wrong with the payload,
    /// whatever would still come.
    pub fn take(&mut self, field: &[u8]) -> (r: Result<()>)
        requires
            old(self).wf(),
            old(self).todo().len() > 0,
            field@.len() == old(self).todo()[0].size(),
            field@.len() <= old(self).left(),
        ensures
            final(self).received() == old(self).received() + field@,
            final(self).payload_len() == old(self).payload_len(),
            ({
                let next = old(self).todo()[0].check(field@, final(self).left() as nat);
                match r {
                    Ok(_) => {
                        &&& final(self).wf()
                        &&& next matches Ok(more) && final(self).todo() == more + old(
                            self,
                        ).todo().skip(1)
                    },
                    Err(e) => next == Err::<Seq<Part>, Fault>(e@) && final(self).refused(e@),
                }
            }),
    {
        let part: Part = self.todo[0];
        let left: usize = self.payload_len - self.received.len() - field.len();
        push_bytes(&mut self.received, field);
        let checked = check_part(part, field, left);
        proof {
            field_taken(*old(self), *self, field@, part.check(field@, left as nat));
        }
        match checked {
            Ok(more) => {
                let mut todo: Vec<Part> = more;
                let mut i: usize = 1;
                while i < self.todo.len()
                    invariant
                        1 <= i <= self.todo@.len(),
                        todo@ == more@ + self.todo@.subrange(1, i as int),
                    decreases self.todo.len() - i,
                {
                    todo.push(self.todo[i]);
                    i = i + 1;
                    assert(todo@ =~= more@ + self.todo@.subrange(1, i as int));
                }
                assert(self.todo@.subrange(1, i as int) =~= self.todo@.skip(1));
                self.todo = todo;
                Ok(())
            },
            Err(e) => Err(e),
        }
    }

    /// The message, once the payload is complete.
    pub fn finish(self) -> (r: Result<Message>)
        ensures
            match r {
                Ok(m) => codec::message_of(self.received()) == Ok::<MessageView, Fault>(m@),
                Err(e) => codec::message_of(self.received()) == Err::<MessageView, Fault>(e@),
            },
    {
        read_message(self.received.as_slice())
    }
}

/// A field more: what the fields say of the rest goes on, or ends here.
proof fn field_taken(
    before: Intake,
    after: Intake,
    field: Seq<u8>,
    next: core::result::Result<Seq<Part>, Fault>,
)
    requires
        before.wf(),
        before.todo().len() > 0,
        field.len() == before.todo()[0].size(),
        field.len() <= before.left(),
        after.received() == before.received() + field,
        after.payload_len() == before.payload_len(),
        next == before.todo()[0].check(field, after.left() as nat),
    ensures
        match next {
            Ok(more) => forall|tail: Seq<u8>|
                tail.len() == after.left() ==> #[trigger] fault_of(after.received() + tail)
                    == fault_in(more + before.todo().skip(1), tail),
            Err(fault) => after.refused(fault),
        },
{
    let todo = before.todo();
    assert forall|tail: Seq<u8>| tail.len() == after.left() implies #[trigger] fault_of(
        after.received() + tail,
    ) == (match next {
        Ok(more) => fault_in(more + todo.skip(1), tail),
        Err(fault) => Some(fault),
    }) by {
        let rest = field + tail;
        assert(after.received() + tail =~= before.received() + rest);
        assert(fault_of(before.received() + rest) == fault_in(todo, rest));
        assert(rest.take(field.len() as int) =~= field);
        assert(rest.skip(field.len() as int) =~= tail);
    }
    if next is Err {
        let fault = next->Err_0;
        let came = after.received();
        assert forall|tail: Seq<u8>| tail.len() == after.left() implies #[trigger] codec::message_of(
            came + tail,
        ) == Err::<MessageView, Fault>(fault) by {
            assert(fault_of(after.received() + tail) == Some(fault));
        }
    }
}

} // verus!
