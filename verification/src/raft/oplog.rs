//! The operations by which the log on disk is written.

use vstd::prelude::*;

use crate::bytes::{self, copy_range, push_bytes, push_u32, push_u64, read_u32, read_u64};
use crate::frame::{self, push_frame, sound_body};
use crate::raft::types::{EntryType, EntryView, LogEntry, LogIndex, SnapshotMeta};

verus! {

#[derive(Debug, PartialEq, Eq)]
pub enum Op {
    Append(LogEntry),
    TruncateSuffix(LogIndex),
    Compact { up_to: LogIndex, meta: SnapshotMeta },
}

/// An `Op` over sequences.
#[verifier::ext_equal]
pub enum OpView {
    Append(EntryView),
    TruncateSuffix(LogIndex),
    Compact { up_to: LogIndex, meta: SnapshotMeta },
}

impl View for Op {
    type V = OpView;

    open spec fn view(&self) -> OpView {
        match self {
            Op::Append(entry) => OpView::Append(entry@),
            Op::TruncateSuffix(from) => OpView::TruncateSuffix(*from),
            Op::Compact { up_to, meta } => OpView::Compact { up_to: *up_to, meta: *meta },
        }
    }
}

pub open spec fn ops_view(s: Seq<Op>) -> Seq<OpView> {
    s.map_values(|op: Op| op@)
}

/// The body of a record: a tag, then what the operation needs.
pub open spec fn op_body(op: OpView) -> Seq<u8> {
    match op {
        OpView::Append(e) => seq![0u8] + bytes::le64(e.term) + bytes::le64(e.index) + bytes::le32(
            e.command.len() as u32,
        ) + e.command + seq![e.entry_type.tag()],
        OpView::TruncateSuffix(from) => seq![1u8] + bytes::le64(from),
        OpView::Compact { up_to, meta } => seq![2u8] + bytes::le64(up_to) + bytes::le64(
            meta.last_index,
        ) + bytes::le64(meta.last_term),
    }
}

/// How long the body at the start of `s` is, if it is all there and is one.
pub open spec fn op_body_len(s: Seq<u8>) -> Option<nat> {
    if s.len() == 0 {
        None
    } else if s[0] == 0 {
        if s.len() < 21 {
            None
        } else {
            let clen = bytes::u32_at(s, 17) as int;
            if 22 + clen > s.len() || EntryType::of_tag(s[21 + clen]) is None {
                None
            } else {
                Some((22 + clen) as nat)
            }
        }
    } else if s[0] == 1 {
        if s.len() < 9 {
            None
        } else {
            Some(9)
        }
    } else if s[0] == 2 {
        if s.len() < 25 {
            None
        } else {
            Some(25)
        }
    } else {
        None
    }
}

/// `op_body_len` as a value.
pub open spec fn op_len() -> spec_fn(Seq<u8>) -> Option<nat> {
    |s: Seq<u8>| op_body_len(s)
}

/// What a whole body says.
pub open spec fn op_decoded(body: Seq<u8>) -> OpView {
    if body[0] == 0 {
        let clen = bytes::u32_at(body, 17) as int;
        OpView::Append(
            EntryView {
                term: bytes::u64_at(body, 1),
                index: bytes::u64_at(body, 9),
                command: body.subrange(21, 21 + clen),
                entry_type: EntryType::of_tag(body[21 + clen])->0,
            },
        )
    } else if body[0] == 1 {
        OpView::TruncateSuffix(bytes::u64_at(body, 1))
    } else {
        OpView::Compact {
            up_to: bytes::u64_at(body, 1),
            meta: SnapshotMeta {
                last_index: bytes::u64_at(body, 9),
                last_term: bytes::u64_at(body, 17),
            },
        }
    }
}

/// The operations in a file, up to the first record that is torn or corrupt.
pub open spec fn ops_of(s: Seq<u8>) -> Seq<OpView> {
    frame::bodies(s, op_len()).map_values(|b: Seq<u8>| op_decoded(b))
}

/// The file that holds `ops`.
pub open spec fn image_of(ops: Seq<OpView>) -> Seq<u8> {
    frame::frames(ops.map_values(|op: OpView| op_body(op)))
}

/// A command's length fits its length field.
pub open spec fn fits(op: OpView) -> bool {
    op matches OpView::Append(e) ==> e.command.len() <= u32::MAX
}

/// What a body says is what it is the body of.
proof fn a_body_was_written(body: Seq<u8>, s: Seq<u8>)
    requires
        frame::is_cut_from(body, s, op_len()),
    ensures
        op_body(op_decoded(body)) == body,
        fits(op_decoded(body)),
{
    bytes::capacities();
    if body[0] == 0 {
        let clen = bytes::u32_at(s, 17) as int;
        assert(body.subrange(17, 21) =~= s.subrange(17, 21));
        bytes::le_of_number(body.subrange(1, 9));
        bytes::le_of_number(body.subrange(9, 17));
        bytes::le_of_number(body.subrange(17, 21));
        assert(body[21 + clen] == s[21 + clen]);
        assert(body =~= seq![0u8] + body.subrange(1, 9) + body.subrange(9, 17) + body.subrange(
            17,
            21,
        ) + body.subrange(21, 21 + clen) + seq![body[21 + clen]]);
    } else if body[0] == 1 {
        bytes::le_of_number(body.subrange(1, 9));
        assert(body =~= seq![1u8] + body.subrange(1, 9));
    } else {
        bytes::le_of_number(body.subrange(1, 9));
        bytes::le_of_number(body.subrange(9, 17));
        bytes::le_of_number(body.subrange(17, 25));
        assert(body =~= seq![2u8] + body.subrange(1, 9) + body.subrange(9, 17) + body.subrange(
            17,
            25,
        ));
    }
}

/// The operations read from a file are those that its bytes hold, from the
/// start to where reading stops: written again, they give these bytes.
pub proof fn only_what_was_written_is_replayed(s: Seq<u8>)
    ensures
        ({
            let n = frame::sound_len(s, op_len());
            n <= s.len() && image_of(ops_of(s)) == s.take(n as int)
        }),
{
    frame::only_sound_records_are_read(s, op_len());
    let bodies = frame::bodies(s, op_len());
    let again = ops_of(s).map_values(|op: OpView| op_body(op));
    assert forall|i: int| 0 <= i < bodies.len() implies again[i] == bodies[i] by {
        frame::bodies_are_cut_out(s, op_len(), i);
        let rest = choose|rest: Seq<u8>|
            #[trigger] frame::is_cut_from(bodies[i], rest, op_len());
        a_body_was_written(bodies[i], rest);
    }
    assert(again =~= bodies);
}

/// An operation that was encoded decodes to itself, all of it: an appended entry
/// with its term, index, command and type, a truncation, a compaction. The
/// length of the body can be told from its bytes, whatever stands behind them.
pub proof fn op_body_reads_back(op: OpView, tail: Seq<u8>)
    requires
        fits(op),
    ensures
        op_body_len(op_body(op) + tail) == Some(op_body(op).len()),
        op_decoded(op_body(op)) == op,
{
    let b = op_body(op);
    let s = b + tail;
    match op {
        OpView::Append(e) => {
            let clen = e.command.len() as int;
            bytes::le64_round_trip(e.term);
            bytes::le64_round_trip(e.index);
            bytes::le32_round_trip(e.command.len() as u32);
            assert(s[0] == 0 && b[0] == 0);
            assert(b.subrange(1, 9) =~= bytes::le64(e.term));
            assert(b.subrange(9, 17) =~= bytes::le64(e.index));
            assert(b.subrange(17, 21) =~= bytes::le32(e.command.len() as u32));
            assert(s.subrange(17, 21) =~= bytes::le32(e.command.len() as u32));
            assert(b.subrange(21, 21 + clen) =~= e.command);
            assert(b[21 + clen] == e.entry_type.tag());
            assert(s[21 + clen] == e.entry_type.tag());
        },
        OpView::TruncateSuffix(from) => {
            bytes::le64_round_trip(from);
            assert(s[0] == 1 && b[0] == 1);
            assert(b.subrange(1, 9) =~= bytes::le64(from));
        },
        OpView::Compact { up_to, meta } => {
            bytes::le64_round_trip(up_to);
            bytes::le64_round_trip(meta.last_index);
            bytes::le64_round_trip(meta.last_term);
            assert(s[0] == 2 && b[0] == 2);
            assert(b.subrange(1, 9) =~= bytes::le64(up_to));
            assert(b.subrange(9, 17) =~= bytes::le64(meta.last_index));
            assert(b.subrange(17, 25) =~= bytes::le64(meta.last_term));
        },
    }
    assert(op_decoded(b) =~= op);
}

/// No proper part of a body passes for a whole one.
proof fn op_body_part(op: OpView, n: int)
    requires
        fits(op),
        0 <= n < op_body(op).len(),
    ensures
        op_body_len(op_body(op).take(n)) is None,
{
    let b = op_body(op);
    let s = b.take(n);
    match op {
        OpView::Append(e) => {
            bytes::le64_round_trip(e.term);
            bytes::le64_round_trip(e.index);
            bytes::le32_round_trip(e.command.len() as u32);
            assert(b[0] == 0);
            if n >= 21 {
                assert(s.subrange(17, 21) =~= bytes::le32(e.command.len() as u32));
            }
        },
        OpView::TruncateSuffix(from) => {
            bytes::le64_round_trip(from);
            assert(b[0] == 1);
        },
        OpView::Compact { up_to, meta } => {
            bytes::le64_round_trip(up_to);
            bytes::le64_round_trip(meta.last_index);
            bytes::le64_round_trip(meta.last_term);
            assert(b[0] == 2);
        },
    }
}

pub proof fn op_body_delimits_itself(op: OpView)
    requires
        fits(op),
    ensures
        frame::delimits_itself(op_body(op), op_len()),
{
    let b = op_body(op);
    assert forall|tail: Seq<u8>| #[trigger] op_len()(b + tail) == Some(b.len()) by {
        op_body_reads_back(op, tail);
    }
    assert forall|n: int| 0 <= n < b.len() implies op_len()(#[trigger] b.take(n)) is None by {
        op_body_part(op, n);
    }
}

proof fn decoded_bodies(ops: Seq<OpView>)
    requires
        forall|i: int| 0 <= i < ops.len() ==> fits(#[trigger] ops[i]),
    ensures
        ({
            let all = ops.map_values(|op: OpView| op_body(op));
            &&& forall|i: int|
                0 <= i < all.len() ==> frame::delimits_itself(#[trigger] all[i], op_len())
            &&& all.map_values(|b: Seq<u8>| op_decoded(b)) == ops
        }),
{
    let all = ops.map_values(|op: OpView| op_body(op));
    assert forall|i: int| 0 <= i < all.len() implies frame::delimits_itself(
        #[trigger] all[i],
        op_len(),
    ) by {
        assert(fits(ops[i]));
        op_body_delimits_itself(ops[i]);
    }
    let back = all.map_values(|b: Seq<u8>| op_decoded(b));
    assert forall|i: int| 0 <= i < ops.len() implies back[i] == ops[i] by {
        assert(fits(ops[i]));
        op_body_reads_back(ops[i], Seq::empty());
    }
    assert(back =~= ops);
}

/// What was written is replayed, and what is sound behind it.
pub proof fn the_file_replays(ops: Seq<OpView>, tail: Seq<u8>)
    requires
        forall|i: int| 0 <= i < ops.len() ==> fits(#[trigger] ops[i]),
    ensures
        ops_of(image_of(ops) + tail) == ops + ops_of(tail),
        ops_of(image_of(ops)) == ops,
        frame::sound_len(image_of(ops), op_len()) == image_of(ops).len(),
{
    let all = ops.map_values(|op: OpView| op_body(op));
    decoded_bodies(ops);
    frame::frames_read_back(all, tail, op_len());
    assert(ops_of(image_of(ops) + tail) =~= ops + ops_of(tail));
    frame::frames_read_back(all, Seq::empty(), op_len());
    assert(image_of(ops) + Seq::<u8>::empty() =~= image_of(ops));
    assert(all + frame::bodies(Seq::empty(), op_len()) =~= all);
    assert(ops_of(image_of(ops)) =~= ops);
}

/// A crash in the middle of a record loses that record and no other, and the
/// sound part of the file ends before it.
pub proof fn a_torn_record_loses_no_other(ops: Seq<OpView>, last: OpView, cut: int)
    requires
        forall|i: int| 0 <= i < ops.len() ==> fits(#[trigger] ops[i]),
        fits(last),
        0 <= cut < frame::framed(op_body(last)).len(),
    ensures
        ({
            let file = image_of(ops) + frame::framed(op_body(last)).take(cut);
            &&& ops_of(file) == ops
            &&& frame::sound_len(file, op_len()) == image_of(ops).len()
        }),
{
    let all = ops.map_values(|op: OpView| op_body(op));
    decoded_bodies(ops);
    op_body_delimits_itself(last);
    frame::a_torn_record_is_dropped(all, op_body(last), cut, op_len());
}

/// Once the file is cut back to its sound part, that part replays to the same,
/// and what is written behind it is replayed too.
pub proof fn a_file_cut_back_can_be_continued(file: Seq<u8>, more: Seq<OpView>)
    requires
        forall|i: int| 0 <= i < more.len() ==> fits(#[trigger] more[i]),
    ensures
        frame::sound_len(file, op_len()) <= file.len(),
        ops_of(file.take(frame::sound_len(file, op_len()) as int) + image_of(more)) == ops_of(file)
            + more,
{
    the_file_replays(more, Seq::empty());
    sound_part(file, image_of(more));
    let kept = file.take(frame::sound_len(file, op_len()) as int);
    assert(ops_of(kept + image_of(more)) =~= ops_of(file) + ops_of(image_of(more)));
}

/// A whole body is as long on its own as it is with anything behind it.
proof fn whole_body(s: Seq<u8>, tail: Seq<u8>)
    requires
        op_body_len(s) is Some,
    ensures
        ({
            let n = op_body_len(s)->0 as int;
            &&& n <= s.len()
            &&& op_body_len(s.take(n) + tail) == Some(n as nat)
            &&& op_body_len(s.take(n)) == Some(n as nat)
        }),
{
    let n = op_body_len(s)->0 as int;
    let b = s.take(n);
    if s[0] == 0 {
        assert(b.subrange(17, 21) =~= s.subrange(17, 21));
        assert((b + tail).subrange(17, 21) =~= s.subrange(17, 21));
    }
}

proof fn sound_part(file: Seq<u8>, tail: Seq<u8>)
    ensures
        frame::sound_len(file, op_len()) <= file.len(),
        frame::bodies(file.take(frame::sound_len(file, op_len()) as int) + tail, op_len())
            == frame::bodies(file, op_len()) + frame::bodies(tail, op_len()),
    decreases file.len(),
{
    let n = frame::sound_len(file, op_len()) as int;
    match frame::first_body(file, op_len()) {
        None => {
            assert(file.take(0) + tail =~= tail);
            assert(frame::bodies(file, op_len()) + frame::bodies(tail, op_len())
                =~= frame::bodies(tail, op_len()));
        },
        Some(body) => {
            let m = 4 + body.len() as int;
            let rest = file.skip(m);
            sound_part(rest, tail);
            let s = file.take(n) + tail;
            assert(s.skip(m) =~= rest.take(n - m) + tail);
            whole_body(file.skip(4), s.skip(m));
            assert(file.skip(4).take(body.len() as int) =~= body);
            assert(s.skip(4) =~= body + s.skip(m));
            assert(s.skip(4).take(body.len() as int) =~= body);
            assert(s.subrange(0, 4) =~= file.subrange(0, 4));
            let (a, b) = (frame::bodies(rest, op_len()), frame::bodies(tail, op_len()));
            assert(seq![body] + (a + b) =~= (seq![body] + a) + b);
        },
    }
}

/// Writes operations: `append` lays records down, `take` hands over the bytes
/// to put at the end of the file and to sync.
pub struct OpWriter {
    unwritten: Vec<u8>,
}

impl OpWriter {
    /// What has been appended and not been taken yet.
    pub closed spec fn unwritten(self) -> Seq<u8> {
        self.unwritten@
    }

    pub fn create() -> (r: Self)
        ensures
            r.unwritten() == Seq::<u8>::empty(),
    {
        OpWriter { unwritten: Vec::new() }
    }

    pub fn append(&mut self, op: &Op)
        ensures
            final(self).unwritten() == old(self).unwritten() + frame::framed(op_body(op@)),
    {
        let body = encode(op);
        push_frame(&mut self.unwritten, body.as_slice());
    }

    /// Hands over what has been appended.
    pub fn take(&mut self) -> (r: Vec<u8>)
        ensures
            r@ == old(self).unwritten(),
            final(self).unwritten() == Seq::<u8>::empty(),
    {
        let mut out: Vec<u8> = Vec::new();
        std::mem::swap(&mut out, &mut self.unwritten);
        out
    }
}

/// An operation as the body of a record.
pub fn encode(op: &Op) -> (r: Vec<u8>)
    ensures
        r@ == op_body(op@),
{
    let mut b: Vec<u8> = Vec::new();
    match op {
        Op::Append(e) => {
            b.push(0);
            push_u64(&mut b, e.term);
            push_u64(&mut b, e.index);
            push_u32(&mut b, e.command.len() as u32);
            push_bytes(&mut b, e.command.as_slice());
            b.push(e.entry_type.to_byte());
            assert(b@ =~= op_body(op@));
        },
        Op::TruncateSuffix(from) => {
            b.push(1);
            push_u64(&mut b, *from);
            assert(b@ =~= op_body(op@));
        },
        Op::Compact { up_to, meta } => {
            b.push(2);
            push_u64(&mut b, *up_to);
            push_u64(&mut b, meta.last_index);
            push_u64(&mut b, meta.last_term);
            assert(b@ =~= op_body(op@));
        },
    }
    b
}

/// How long the body at `pos` is, if it is all there and is one.
fn read_body(s: &[u8], pos: usize) -> (r: Option<usize>)
    requires
        pos <= s@.len(),
    ensures
        match r {
            Some(n) => op_body_len(s@.skip(pos as int)) == Some(n as nat) && pos + n <= s@.len(),
            None => op_body_len(s@.skip(pos as int)) is None,
        },
{
    let rest: usize = s.len() - pos;
    let ghost t = s@.skip(pos as int);
    if rest == 0 {
        return None;
    }
    match s[pos] {
        0 => {
            if rest < 21 {
                return None;
            }
            assert(t.subrange(17, 21) =~= s@.subrange(pos + 17, pos + 21));
            let clen: u32 = read_u32(s, pos + 17);
            if clen as u64 + 22 > rest as u64 {
                return None;
            }
            let clen: usize = clen as usize;
            match EntryType::from_byte(s[pos + 21 + clen]) {
                Some(_) => Some(22 + clen),
                None => None,
            }
        },
        1 => if rest < 9 {
            None
        } else {
            Some(9)
        },
        2 => if rest < 25 {
            None
        } else {
            Some(25)
        },
        _ => None,
    }
}

/// The operation that a body holds, if it holds one. What was encoded decodes to
/// itself.
pub fn decode(body: &[u8]) -> (r: Option<Op>)
    ensures
        match r {
            Some(op) => op_body_len(body@) is Some && op@ == op_decoded(
                body@.take(op_body_len(body@)->0 as int),
            ),
            None => op_body_len(body@) is None,
        },
        forall|op: OpView| #[trigger]
            op_body(op) == body@ && fits(op) ==> (r matches Some(back) && back@ == op),
{
    assert(body@.skip(0) =~= body@);
    proof {
        assert forall|op: OpView| #[trigger] op_body(op) == body@ && fits(op) implies op_body_len(
            body@,
        ) == Some(body@.len()) && op_decoded(body@.take(body@.len() as int)) == op by {
            op_body_reads_back(op, Seq::empty());
            assert(op_body(op) + Seq::<u8>::empty() =~= body@);
            assert(body@.take(body@.len() as int) =~= body@);
        }
    }
    match read_body(body, 0) {
        Some(n) => {
            proof {
                whole_body(body@, Seq::empty());
            }
            Some(decode_whole(vstd::slice::slice_subrange(body, 0, n)))
        },
        None => None,
    }
}

/// What a whole body says.
fn decode_whole(body: &[u8]) -> (r: Op)
    requires
        op_body_len(body@) == Some(body@.len()),
    ensures
        r@ == op_decoded(body@),
{
    let total: usize = body.len();
    match body[0] {
        0 => {
            let clen: u32 = read_u32(body, 17);
            let clen: usize = clen as usize;
            let entry_type = match EntryType::from_byte(body[21 + clen]) {
                Some(entry_type) => entry_type,
                None => EntryType::Normal,
            };
            Op::Append(
                LogEntry {
                    term: read_u64(body, 1),
                    index: read_u64(body, 9),
                    command: copy_range(body, 21, 21 + clen),
                    entry_type,
                },
            )
        },
        1 => Op::TruncateSuffix(read_u64(body, 1)),
        _ => Op::Compact {
            up_to: read_u64(body, 1),
            meta: SnapshotMeta { last_index: read_u64(body, 9), last_term: read_u64(body, 17) },
        },
    }
}

/// The operations in a file, up to the first record that is torn or corrupt.
pub fn read_all(file: &[u8]) -> (r: Vec<Op>)
    ensures
        ops_view(r@) == ops_of(file@),
{
    read_all_with_len(file).0
}

/// The operations in a file, and how far it is sound: what lies behind is the
/// rest of a record that was torn or corrupted.
pub fn read_all_with_len(file: &[u8]) -> (r: (Vec<Op>, u64))
    ensures
        ops_view(r.0@) == ops_of(file@),
        r.1 == frame::sound_len(file@, op_len()),
        r.1 <= file@.len(),
{
    let mut out: Vec<Op> = Vec::new();
    let mut pos: usize = 0;
    let ghost mut seen: Seq<Seq<u8>> = Seq::empty();
    proof {
        assert(file@.skip(0) =~= file@);
        assert(seen + frame::bodies(file@, op_len()) =~= frame::bodies(file@, op_len()));
        assert(ops_view(out@) =~= seen.map_values(|b: Seq<u8>| op_decoded(b)));
    }
    while file.len() - pos >= 4
        invariant_except_break
            pos <= file@.len(),
            frame::bodies(file@, op_len()) == seen + frame::bodies(
                file@.skip(pos as int),
                op_len(),
            ),
            frame::sound_len(file@, op_len()) == pos + frame::sound_len(
                file@.skip(pos as int),
                op_len(),
            ),
            ops_view(out@) == seen.map_values(|b: Seq<u8>| op_decoded(b)),
        ensures
            pos <= file@.len(),
            frame::bodies(file@, op_len()) == seen,
            frame::sound_len(file@, op_len()) == pos,
            ops_view(out@) == seen.map_values(|b: Seq<u8>| op_decoded(b)),
        decreases file@.len() - pos,
    {
        let n: usize = match read_body(file, pos + 4) {
            Some(n) => n,
            None => {
                proof {
                    frame::bodies_end(file@, pos as int, op_len());
                    assert(seen + Seq::<Seq<u8>>::empty() =~= seen);
                }
                break;
            },
        };
        proof {
            frame::bodies_step(file@, pos as int, n as nat, op_len());
        }
        let body = match sound_body(file, pos, n) {
            Some(body) => body,
            None => {
                proof {
                    assert(seen + Seq::<Seq<u8>>::empty() =~= seen);
                }
                break;
            },
        };
        proof {
            whole_body(file@.skip(pos + 4), Seq::empty());
            assert(file@.skip(pos + 4).take(n as int) =~= body@);
            let next = frame::bodies(file@.skip(pos + 4 + n), op_len());
            assert(seen + (seq![body@] + next) =~= seen.push(body@) + next);
        }
        let op = decode_whole(body.as_slice());
        proof {
            assert(ops_view(out@.push(op)) =~= ops_view(out@).push(op@));
            seen = seen.push(body@);
            assert(ops_view(out@.push(op)) =~= seen.map_values(|b: Seq<u8>| op_decoded(b)));
        }
        out.push(op);
        pos = pos + 4 + n;
    }
    (out, pos as u64)
}

} // verus!
