//! The write-ahead log.

use vstd::prelude::*;

use crate::bytes::{self, copy_range, push_bytes, push_u32, push_u64, read_u32, read_u64};
use crate::frame::{self, push_frame, sound_body};
use crate::kv::types::{self, Seqno, Version};

verus! {

/// Writes the log: `append` lays records down, `take` hands over the bytes to
/// put at the end of the file and to sync.
pub struct WalWriter {
    unwritten: Vec<u8>,
}

pub type WalRecord = (Seqno, Vec<u8>, Option<Vec<u8>>);

/// A presence byte, then the length and the bytes of a value that is there.
pub open spec fn value_bytes(value: Option<Seq<u8>>) -> Seq<u8> {
    match value {
        Some(v) => seq![1u8] + bytes::le32(v.len() as u32) + v,
        None => seq![0u8],
    }
}

/// The body of a record: sequence number, key and value.
pub open spec fn wal_body(v: Version) -> Seq<u8> {
    bytes::le64(v.seqno) + bytes::le32(v.key.len() as u32) + v.key + value_bytes(v.value)
}

/// How long the body at the start of `s` is, if it is all there.
pub open spec fn wal_body_len(s: Seq<u8>) -> Option<nat> {
    if s.len() < 12 {
        None
    } else {
        let klen = bytes::u32_at(s, 8) as int;
        if 13 + klen > s.len() {
            None
        } else if s[12 + klen] != 1 {
            Some((13 + klen) as nat)
        } else if 17 + klen > s.len() {
            None
        } else {
            let vlen = bytes::u32_at(s, 13 + klen) as int;
            if 17 + klen + vlen > s.len() {
                None
            } else {
                Some((17 + klen + vlen) as nat)
            }
        }
    }
}

/// `wal_body_len` as a value.
pub open spec fn wal_len() -> spec_fn(Seq<u8>) -> Option<nat> {
    |s: Seq<u8>| wal_body_len(s)
}

/// What a whole body says.
pub open spec fn wal_decoded(body: Seq<u8>) -> Version {
    let klen = bytes::u32_at(body, 8) as int;
    Version {
        key: body.subrange(12, 12 + klen),
        seqno: bytes::u64_at(body, 0),
        value: if body[12 + klen] == 1 {
            Some(body.skip(17 + klen))
        } else {
            None
        },
    }
}

/// The records of a log, up to the first that is torn or corrupt.
pub open spec fn wal_records(s: Seq<u8>) -> Seq<Version> {
    frame::bodies(s, wal_len()).map_values(|b: Seq<u8>| wal_decoded(b))
}

/// The log that holds `versions`.
pub open spec fn wal_image(versions: Seq<Version>) -> Seq<u8> {
    frame::frames(versions.map_values(|v: Version| wal_body(v)))
}

/// The lengths of key and value fit their length fields.
pub open spec fn fits(v: Version) -> bool {
    &&& v.key.len() <= u32::MAX
    &&& v.value matches Some(x) ==> x.len() <= u32::MAX
}

pub open spec fn record_view(r: WalRecord) -> Version {
    Version { key: r.1@, seqno: r.0, value: types::value_view(r.2) }
}

pub open spec fn records_view(s: Seq<WalRecord>) -> Seq<Version> {
    s.map_values(|r: WalRecord| record_view(r))
}

/// A body is as long as it says, and says what was written.
pub proof fn wal_body_reads_back(v: Version, tail: Seq<u8>)
    requires
        fits(v),
    ensures
        wal_body_len(wal_body(v) + tail) == Some(wal_body(v).len()),
        wal_decoded(wal_body(v)) == v,
{
    let (b, klen) = (wal_body(v), v.key.len() as int);
    let s = b + tail;
    bytes::le64_round_trip(v.seqno);
    bytes::le32_round_trip(v.key.len() as u32);
    assert(s.subrange(0, 8) =~= bytes::le64(v.seqno));
    assert(b.subrange(0, 8) =~= bytes::le64(v.seqno));
    assert(s.subrange(8, 12) =~= bytes::le32(v.key.len() as u32));
    assert(b.subrange(8, 12) =~= bytes::le32(v.key.len() as u32));
    assert(b.subrange(12, 12 + klen) =~= v.key);
    match v.value {
        Some(x) => {
            bytes::le32_round_trip(x.len() as u32);
            assert(value_bytes(v.value)[0] == 1);
            assert(b[12 + klen] == 1);
            assert(s[12 + klen] == 1);
            assert(s.subrange(13 + klen, 17 + klen) =~= bytes::le32(x.len() as u32));
            assert(b.skip(17 + klen) =~= x);
        },
        None => {
            assert(b[12 + klen] == 0);
            assert(s[12 + klen] == 0);
        },
    }
    assert(wal_decoded(b) =~= v);
}

/// What a record of the log says is what stands in it: the sequence number,
/// the key behind its length, and the value behind a one and its length. A
/// record with another byte than one there has no value, and ends there.
pub proof fn only_what_was_written_is_replayed(s: Seq<u8>, i: int)
    requires
        0 <= i < wal_records(s).len(),
    ensures
        ({
            let (body, v) = (frame::bodies(s, wal_len())[i], wal_records(s)[i]);
            let front = bytes::le64(v.seqno) + bytes::le32(v.key.len() as u32) + v.key;
            &&& fits(v)
            &&& match v.value {
                Some(x) => body == front + seq![1u8] + bytes::le32(x.len() as u32) + x,
                None => body.len() == front.len() + 1 && body.drop_last() == front && body.last()
                    != 1,
            }
        }),
{
    let body = frame::bodies(s, wal_len())[i];
    frame::bodies_are_cut_out(s, wal_len(), i);
    let rest = choose|rest: Seq<u8>| #[trigger] frame::is_cut_from(body, rest, wal_len());
    let klen = bytes::u32_at(rest, 8) as int;
    bytes::capacities();
    assert(body.subrange(8, 12) =~= rest.subrange(8, 12));
    bytes::le_of_number(body.subrange(0, 8));
    bytes::le_of_number(body.subrange(8, 12));
    assert(body[12 + klen] == rest[12 + klen]);
    let v = wal_decoded(body);
    assert(wal_records(s)[i] == v);
    let front = bytes::le64(v.seqno) + bytes::le32(v.key.len() as u32) + v.key;
    assert(body.take(12 + klen) =~= front);
    match v.value {
        Some(x) => {
            assert(body.subrange(13 + klen, 17 + klen) =~= rest.subrange(13 + klen, 17 + klen));
            bytes::le_of_number(body.subrange(13 + klen, 17 + klen));
            assert(body =~= body.take(12 + klen) + seq![1u8] + body.subrange(
                13 + klen,
                17 + klen,
            ) + x);
        },
        None => {
            assert(body.drop_last() =~= body.take(12 + klen));
        },
    }
}

/// No proper part of a body passes for a whole one.
proof fn wal_body_part(v: Version, n: int)
    requires
        fits(v),
        0 <= n < wal_body(v).len(),
    ensures
        wal_body_len(wal_body(v).take(n)) is None,
{
    let (b, klen) = (wal_body(v), v.key.len() as int);
    let s = b.take(n);
    bytes::le64_round_trip(v.seqno);
    bytes::le32_round_trip(v.key.len() as u32);
    if n >= 12 {
        assert(s.subrange(8, 12) =~= bytes::le32(v.key.len() as u32));
        if n >= 13 + klen {
            match v.value {
                Some(x) => {
                    bytes::le32_round_trip(x.len() as u32);
                    assert(value_bytes(v.value)[0] == 1);
                    assert(b[12 + klen] == 1);
                    if n >= 17 + klen {
                        assert(s.subrange(13 + klen, 17 + klen) =~= bytes::le32(x.len() as u32));
                    }
                },
                None => {},
            }
        }
    }
}

pub proof fn wal_body_delimits_itself(v: Version)
    requires
        fits(v),
    ensures
        frame::delimits_itself(wal_body(v), wal_len()),
{
    let b = wal_body(v);
    assert forall|tail: Seq<u8>| #[trigger] wal_len()(b + tail) == Some(b.len()) by {
        wal_body_reads_back(v, tail);
    }
    assert forall|n: int| 0 <= n < b.len() implies wal_len()(#[trigger] b.take(n)) is None by {
        wal_body_part(v, n);
    }
}

proof fn decoded_bodies(versions: Seq<Version>)
    requires
        forall|i: int| 0 <= i < versions.len() ==> fits(#[trigger] versions[i]),
    ensures
        ({
            let all = versions.map_values(|v: Version| wal_body(v));
            &&& forall|i: int|
                0 <= i < all.len() ==> frame::delimits_itself(#[trigger] all[i], wal_len())
            &&& all.map_values(|b: Seq<u8>| wal_decoded(b)) == versions
        }),
{
    let all = versions.map_values(|v: Version| wal_body(v));
    assert forall|i: int| 0 <= i < all.len() implies frame::delimits_itself(
        #[trigger] all[i],
        wal_len(),
    ) by {
        assert(fits(versions[i]));
        wal_body_delimits_itself(versions[i]);
    }
    let back = all.map_values(|b: Seq<u8>| wal_decoded(b));
    assert forall|i: int| 0 <= i < versions.len() implies back[i] == versions[i] by {
        assert(fits(versions[i]));
        wal_body_reads_back(versions[i], Seq::empty());
    }
    assert(back =~= versions);
}

/// What was appended is replayed, and more records follow it where they are
/// sound.
pub proof fn the_log_replays(versions: Seq<Version>, tail: Seq<u8>)
    requires
        forall|i: int| 0 <= i < versions.len() ==> fits(#[trigger] versions[i]),
    ensures
        wal_records(wal_image(versions) + tail) == versions + wal_records(tail),
        wal_records(wal_image(versions)) == versions,
{
    let all = versions.map_values(|v: Version| wal_body(v));
    decoded_bodies(versions);
    frame::frames_read_back(all, tail, wal_len());
    assert(wal_records(wal_image(versions) + tail) =~= versions + wal_records(tail));
    frame::frames_read_back(all, Seq::empty(), wal_len());
    assert(wal_image(versions) + Seq::<u8>::empty() =~= wal_image(versions));
    assert(all + frame::bodies(Seq::empty(), wal_len()) =~= all);
    assert(wal_records(wal_image(versions)) =~= versions);
}

/// A crash in the middle of an append loses that record and no other.
pub proof fn a_torn_append_keeps_the_rest(versions: Seq<Version>, last: Version, cut: int)
    requires
        forall|i: int| 0 <= i < versions.len() ==> fits(#[trigger] versions[i]),
        fits(last),
        0 <= cut < frame::framed(wal_body(last)).len(),
    ensures
        wal_records(wal_image(versions) + frame::framed(wal_body(last)).take(cut)) == versions,
{
    let all = versions.map_values(|v: Version| wal_body(v));
    decoded_bodies(versions);
    wal_body_delimits_itself(last);
    frame::a_torn_record_is_dropped(all, wal_body(last), cut, wal_len());
}

/// One more record at the end of the log.
pub proof fn wal_image_push(versions: Seq<Version>, v: Version)
    ensures
        wal_image(versions.push(v)) == wal_image(versions) + frame::framed(wal_body(v)),
{
    let all = versions.map_values(|v: Version| wal_body(v));
    assert(versions.push(v).map_values(|v: Version| wal_body(v)) =~= all.push(wal_body(v)));
    frame::frames_push(all, wal_body(v));
}

/// Appends the presence byte, and the length and bytes of a value.
pub(crate) fn push_value(out: &mut Vec<u8>, value: Option<&[u8]>)
    ensures
        final(out)@ == old(out)@ + value_bytes(
            match value {
                Some(v) => Some(v@),
                None => None,
            },
        ),
{
    let ghost before = out@;
    match value {
        Some(v) => {
            out.push(1);
            push_u32(out, v.len() as u32);
            push_bytes(out, v);
            assert(out@ =~= before + value_bytes(Some(v@)));
        },
        None => {
            out.push(0);
            assert(out@ =~= before + value_bytes(None));
        },
    }
}

/// How long the body at `pos` is, if it is all there.
fn read_body(s: &[u8], pos: usize) -> (r: Option<usize>)
    requires
        pos <= s@.len(),
    ensures
        match r {
            Some(n) => wal_body_len(s@.skip(pos as int)) == Some(n as nat) && pos + n <= s@.len(),
            None => wal_body_len(s@.skip(pos as int)) is None,
        },
{
    let rest: usize = s.len() - pos;
    let ghost t = s@.skip(pos as int);
    if rest < 12 {
        return None;
    }
    assert(t.subrange(8, 12) =~= s@.subrange(pos + 8, pos + 12));
    let klen: u32 = read_u32(s, pos + 8);
    if klen as u64 + 13 > rest as u64 {
        return None;
    }
    let klen: usize = klen as usize;
    if s[pos + 12 + klen] != 1 {
        return Some(13 + klen);
    }
    if rest - klen < 17 {
        return None;
    }
    assert(t.subrange(13 + klen, 17 + klen) =~= s@.subrange(pos + 13 + klen, pos + 17 + klen));
    let vlen: u32 = read_u32(s, pos + 13 + klen);
    if vlen as u64 > (rest - klen - 17) as u64 {
        return None;
    }
    Some(17 + klen + vlen as usize)
}

/// What a whole body says.
fn decode_body(body: &[u8]) -> (r: WalRecord)
    requires
        wal_body_len(body@) == Some(body@.len()),
    ensures
        record_view(r) == wal_decoded(body@),
{
    let total: usize = body.len();
    let seqno: u64 = read_u64(body, 0);
    let klen: u32 = read_u32(body, 8);
    let klen: usize = klen as usize;
    let key = copy_range(body, 12, 12 + klen);
    let value = if body[12 + klen] == 1 {
        let v = copy_range(body, 17 + klen, total);
        assert(v@ =~= body@.skip(17 + klen));
        Some(v)
    } else {
        None
    };
    (seqno, key, value)
}

/// A whole body is as long on its own as it is with more behind it.
proof fn whole_body(s: Seq<u8>)
    requires
        wal_body_len(s) is Some,
    ensures
        ({
            let n = wal_body_len(s)->0;
            &&& n <= s.len()
            &&& wal_body_len(s.take(n as int)) == Some(n)
        }),
{
    let n = wal_body_len(s)->0;
    let b = s.take(n as int);
    let klen = bytes::u32_at(s, 8) as int;
    assert(b.subrange(8, 12) =~= s.subrange(8, 12));
    if s[12 + klen] == 1 {
        assert(b.subrange(13 + klen, 17 + klen) =~= s.subrange(13 + klen, 17 + klen));
    }
}

impl WalWriter {
    /// What has been appended and not been taken yet.
    pub closed spec fn unwritten(self) -> Seq<u8> {
        self.unwritten@
    }

    pub fn create() -> (r: Self)
        ensures
            r.unwritten() == Seq::<u8>::empty(),
    {
        WalWriter { unwritten: Vec::new() }
    }

    pub fn append(&mut self, seqno: Seqno, key: &[u8], value: Option<&[u8]>)
        ensures
            final(self).unwritten() == old(self).unwritten() + frame::framed(
                wal_body(
                    Version {
                        key: key@,
                        seqno,
                        value: match value {
                            Some(v) => Some(v@),
                            None => None,
                        },
                    },
                ),
            ),
    {
        let mut body: Vec<u8> = Vec::new();
        push_u64(&mut body, seqno);
        push_u32(&mut body, key.len() as u32);
        push_bytes(&mut body, key);
        push_value(&mut body, value);
        proof {
            let v = Version {
                key: key@,
                seqno,
                value: match value {
                    Some(v) => Some(v@),
                    None => None,
                },
            };
            assert(body@ =~= wal_body(v));
        }
        push_frame(&mut self.unwritten, body.as_slice());
    }

    /// Hands over what has been appended.
    pub fn take(&mut self) -> (r: Vec<u8>)
        ensures
            r@ == old(self).unwritten(),
            final(self).unwritten() == Seq::<u8>::empty(),
    {
        let mut out: Vec<u8> = Vec::new();
        std::mem::swap(&mut out, &mut self.unwritten);
        out
    }

    /// The records of a log, up to the first that is torn or corrupt.
    pub fn read_all(log: &[u8]) -> (r: Vec<WalRecord>)
        ensures
            records_view(r@) == wal_records(log@),
    {
        let mut out: Vec<WalRecord> = Vec::new();
        let mut pos: usize = 0;
        let ghost mut seen: Seq<Seq<u8>> = Seq::empty();
        proof {
            assert(log@.skip(0) =~= log@);
            assert(seen + frame::bodies(log@, wal_len()) =~= frame::bodies(log@, wal_len()));
            assert(records_view(out@) =~= seen.map_values(|b: Seq<u8>| wal_decoded(b)));
        }
        while log.len() - pos >= 4
            invariant_except_break
                pos <= log@.len(),
                frame::bodies(log@, wal_len()) == seen + frame::bodies(
                    log@.skip(pos as int),
                    wal_len(),
                ),
                records_view(out@) == seen.map_values(|b: Seq<u8>| wal_decoded(b)),
            ensures
                frame::bodies(log@, wal_len()) == seen,
                records_view(out@) == seen.map_values(|b: Seq<u8>| wal_decoded(b)),
            decreases log@.len() - pos,
        {
            let n: usize = match read_body(log, pos + 4) {
                Some(n) => n,
                None => {
                    proof {
                        frame::bodies_end(log@, pos as int, wal_len());
                        assert(seen + Seq::<Seq<u8>>::empty() =~= seen);
                    }
                    break;
                },
            };
            proof {
                frame::bodies_step(log@, pos as int, n as nat, wal_len());
            }
            let body = match sound_body(log, pos, n) {
                Some(body) => body,
                None => {
                    proof {
                        assert(seen + Seq::<Seq<u8>>::empty() =~= seen);
                    }
                    break;
                },
            };
            proof {
                whole_body(log@.skip(pos + 4));
                assert(log@.skip(pos + 4).take(n as int) =~= body@);
                let next = frame::bodies(log@.skip(pos + 4 + n), wal_len());
                assert(seen + (seq![body@] + next) =~= seen.push(body@) + next);
            }
            let record = decode_body(body.as_slice());
            proof {
                assert(records_view(out@.push(record)) =~= records_view(out@).push(
                    record_view(record),
                ));
                seen = seen.push(body@);
                assert(records_view(out@.push(record)) =~= seen.map_values(
                    |b: Seq<u8>| wal_decoded(b),
                ));
            }
            out.push(record);
            pos = pos + 4 + n;
        }
        out
    }
}

} // verus!
