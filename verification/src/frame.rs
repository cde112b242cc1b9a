//! Checksummed records, one behind the other, as the logs on disk hold them.

use vstd::prelude::*;

use crate::bytes::{self, push_bytes, push_u32, read_u32};

verus! {

/// The CRC-32 (IEEE) checksum of `data`, as `crc32fast::hash` computes it.
pub uninterp spec fn crc32(data: Seq<u8>) -> u32;

/// `crc32fast::hash`: the checksum of `data`, which depends on the bytes of
/// `data` alone. Nothing more is claimed of it; in particular not that
/// different bytes have different checksums.
#[verifier::external_body]
pub(crate) fn checksum(data: &[u8]) -> (r: u32)
    ensures
        r == crc32(data@),
{
    crc32fast::hash(data)
}

/// A record: the checksum of its body, then the body.
pub open spec fn framed(body: Seq<u8>) -> Seq<u8> {
    bytes::le32(crc32(body)) + body
}

/// Records one behind the other.
pub open spec fn frames(all: Seq<Seq<u8>>) -> Seq<u8>
    decreases all.len(),
{
    if all.len() == 0 {
        Seq::empty()
    } else {
        frames(all.drop_last()) + framed(all.last())
    }
}

/// The body of the record at the start of `s`, if a whole and sound record is
/// there. `body_len` reads off how long the body at the start of some bytes
/// is, if it is all there.
pub open spec fn first_body(s: Seq<u8>, body_len: spec_fn(Seq<u8>) -> Option<nat>) -> Option<
    Seq<u8>,
> {
    if s.len() < 4 {
        None
    } else {
        let rest = s.skip(4);
        match body_len(rest) {
            Some(n) => if n <= rest.len() && crc32(rest.take(n as int)) == bytes::u32_at(s, 0) {
                Some(rest.take(n as int))
            } else {
                None
            },
            None => None,
        }
    }
}

/// The bodies of the records in `s`, up to the first that is torn or unsound.
pub open spec fn bodies(s: Seq<u8>, body_len: spec_fn(Seq<u8>) -> Option<nat>) -> Seq<Seq<u8>>
    decreases s.len(),
{
    match first_body(s, body_len) {
        Some(body) => seq![body] + bodies(s.skip(4 + body.len() as int), body_len),
        None => Seq::empty(),
    }
}

/// How far the records in `s` are whole and sound.
pub open spec fn sound_len(s: Seq<u8>, body_len: spec_fn(Seq<u8>) -> Option<nat>) -> nat
    decreases s.len(),
{
    match first_body(s, body_len) {
        Some(body) => 4 + body.len() + sound_len(s.skip(4 + body.len() as int), body_len),
        None => 0,
    }
}

/// The length of `body` can be read off it, whatever follows, and no proper
/// part of it from the start passes for a whole body.
pub open spec fn delimits_itself(
    body: Seq<u8>,
    body_len: spec_fn(Seq<u8>) -> Option<nat>,
) -> bool {
    &&& forall|tail: Seq<u8>| #[trigger] body_len(body + tail) == Some(body.len())
    &&& forall|n: int| 0 <= n < body.len() ==> body_len(#[trigger] body.take(n)) is None
}

proof fn first_of_framed(
    body: Seq<u8>,
    tail: Seq<u8>,
    body_len: spec_fn(Seq<u8>) -> Option<nat>,
)
    requires
        delimits_itself(body, body_len),
    ensures
        first_body(framed(body) + tail, body_len) == Some(body),
        (framed(body) + tail).skip(4 + body.len() as int) == tail,
{
    let s = framed(body) + tail;
    bytes::le32_round_trip(crc32(body));
    assert(s.skip(4) =~= body + tail);
    assert(s.subrange(0, 4) =~= bytes::le32(crc32(body)));
    assert((body + tail).take(body.len() as int) =~= body);
    assert(s.skip(4 + body.len() as int) =~= tail);
}

/// Records read back, whatever follows them.
pub proof fn frames_read_back(
    all: Seq<Seq<u8>>,
    tail: Seq<u8>,
    body_len: spec_fn(Seq<u8>) -> Option<nat>,
)
    requires
        forall|i: int| 0 <= i < all.len() ==> delimits_itself(#[trigger] all[i], body_len),
    ensures
        bodies(frames(all) + tail, body_len) == all + bodies(tail, body_len),
        sound_len(frames(all) + tail, body_len) == frames(all).len() + sound_len(tail, body_len),
    decreases all.len(),
{
    if all.len() == 0 {
        assert(frames(all) + tail =~= tail);
        assert(all + bodies(tail, body_len) =~= bodies(tail, body_len));
    } else {
        let (before, last) = (all.drop_last(), all.last());
        assert(delimits_itself(all[all.len() - 1], body_len));
        let rest = framed(last) + tail;
        frames_read_back(before, rest, body_len);
        first_of_framed(last, tail, body_len);
        bytes::le32_round_trip(crc32(last));
        assert(frames(all) + tail =~= frames(before) + rest);
        assert(all + bodies(tail, body_len) =~= before + (seq![last] + bodies(tail, body_len)));
    }
}

/// Nothing is read but what stands there: the bytes up to where reading stops
/// are the bodies that were read, each behind its own checksum. Behind them
/// stands no whole body with the right checksum before it.
pub proof fn only_sound_records_are_read(
    s: Seq<u8>,
    body_len: spec_fn(Seq<u8>) -> Option<nat>,
)
    ensures
        ({
            let n = sound_len(s, body_len);
            let rest = s.skip(n as int);
            &&& n <= s.len()
            &&& s.take(n as int) == frames(bodies(s, body_len))
            &&& rest.len() < 4 || match body_len(rest.skip(4)) {
                Some(m) => rest.len() < 4 + m || rest.take(4) != bytes::le32(
                    crc32(rest.subrange(4, 4 + m as int)),
                ),
                None => true,
            }
        }),
    decreases s.len(),
{
    match first_body(s, body_len) {
        Some(body) => {
            let step = 4 + body.len() as int;
            let tail = s.skip(step);
            only_sound_records_are_read(tail, body_len);
            let n = sound_len(tail, body_len);
            bytes::le_of_number(s.subrange(0, 4));
            bytes::capacities();
            assert(s.take(step) =~= framed(body));
            frames_join(body, bodies(tail, body_len));
            assert(s.take(step + n) =~= s.take(step) + tail.take(n as int));
            assert(s.skip(step + n) =~= tail.skip(n as int));
        },
        None => {
            assert(s.skip(0) =~= s);
            assert(s.take(0) =~= Seq::<u8>::empty());
            if s.len() >= 4 {
                if let Some(m) = body_len(s.skip(4)) {
                    if s.len() >= 4 + m {
                        let body = s.skip(4).take(m as int);
                        assert(s.subrange(4, 4 + m as int) =~= body);
                        bytes::le32_round_trip(crc32(body));
                        assert(s.subrange(0, 4) =~= s.take(4));
                    }
                }
            }
        },
    }
}

/// `body` is what some bytes begin with, as long as its length says.
pub open spec fn is_cut_from(
    body: Seq<u8>,
    s: Seq<u8>,
    body_len: spec_fn(Seq<u8>) -> Option<nat>,
) -> bool {
    body_len(s) == Some(body.len()) && body.len() <= s.len() && s.take(body.len() as int) == body
}

/// Every body that is read is as long as the bytes there say.
pub(crate) proof fn bodies_are_cut_out(
    s: Seq<u8>,
    body_len: spec_fn(Seq<u8>) -> Option<nat>,
    i: int,
)
    requires
        0 <= i < bodies(s, body_len).len(),
    ensures
        exists|rest: Seq<u8>| #[trigger] is_cut_from(bodies(s, body_len)[i], rest, body_len),
    decreases s.len(),
{
    if let Some(body) = first_body(s, body_len) {
        let tail = s.skip(4 + body.len() as int);
        if i == 0 {
            assert(bodies(s, body_len)[0] == body);
            assert(is_cut_from(body, s.skip(4), body_len));
        } else {
            let all = bodies(tail, body_len);
            assert(bodies(s, body_len) == seq![body] + all);
            assert(bodies(s, body_len)[i] == all[i - 1]);
            bodies_are_cut_out(tail, body_len, i - 1);
            let rest = choose|rest: Seq<u8>| #[trigger] is_cut_from(all[i - 1], rest, body_len);
            assert(is_cut_from(bodies(s, body_len)[i], rest, body_len));
        }
    }
}

/// A record in front of others.
proof fn frames_join(first: Seq<u8>, others: Seq<Seq<u8>>)
    ensures
        frames(seq![first] + others) == framed(first) + frames(others),
    decreases others.len(),
{
    let all = seq![first] + others;
    if others.len() == 0 {
        assert(all.drop_last() =~= Seq::<Seq<u8>>::empty());
        assert(frames(all.drop_last()) =~= Seq::<u8>::empty());
        assert(frames(all) =~= framed(first) + frames(others));
    } else {
        frames_join(first, others.drop_last());
        assert(all.drop_last() =~= seq![first] + others.drop_last());
        assert(frames(all) =~= framed(first) + frames(others));
    }
}

/// A record that is torn, cut off anywhere before its end, is not read, and
/// the records before it are.
pub proof fn a_torn_record_is_dropped(
    all: Seq<Seq<u8>>,
    last: Seq<u8>,
    cut: int,
    body_len: spec_fn(Seq<u8>) -> Option<nat>,
)
    requires
        forall|i: int| 0 <= i < all.len() ==> delimits_itself(#[trigger] all[i], body_len),
        delimits_itself(last, body_len),
        0 <= cut < framed(last).len(),
    ensures
        bodies(frames(all) + framed(last).take(cut), body_len) == all,
        sound_len(frames(all) + framed(last).take(cut), body_len) == frames(all).len(),
{
    let torn = framed(last).take(cut);
    frames_read_back(all, torn, body_len);
    bytes::le32_round_trip(crc32(last));
    if cut >= 4 {
        assert(torn.skip(4) =~= last.take(cut - 4));
    }
    assert(all + Seq::<Seq<u8>>::empty() =~= all);
}

/// One more record at the end.
pub proof fn frames_push(all: Seq<Seq<u8>>, body: Seq<u8>)
    ensures
        frames(all.push(body)) == frames(all) + framed(body),
{
    assert(all.push(body).drop_last() =~= all);
}

/// Reading one more record off the front.
pub proof fn bodies_step(s: Seq<u8>, pos: int, n: nat, body_len: spec_fn(Seq<u8>) -> Option<nat>)
    requires
        0 <= pos,
        pos + 4 + n <= s.len(),
        body_len(s.skip(pos + 4)) == Some(n),
    ensures
        ({
            let body = s.subrange(pos + 4, pos + 4 + n);
            let next = s.skip(pos + 4 + n);
            if crc32(body) == bytes::u32_at(s, pos) {
                &&& bodies(s.skip(pos), body_len) == seq![body] + bodies(next, body_len)
                &&& sound_len(s.skip(pos), body_len) == 4 + n + sound_len(next, body_len)
            } else {
                &&& bodies(s.skip(pos), body_len) == Seq::<Seq<u8>>::empty()
                &&& sound_len(s.skip(pos), body_len) == 0
            }
        }),
{
    let t = s.skip(pos);
    assert(t.skip(4) =~= s.skip(pos + 4));
    assert(t.skip(4).take(n as int) =~= s.subrange(pos + 4, pos + 4 + n));
    assert(t.subrange(0, 4) =~= s.subrange(pos, pos + 4));
    assert(t.skip(4 + n as int) =~= s.skip(pos + 4 + n));
}

/// Nothing to read where no whole body follows.
pub proof fn bodies_end(s: Seq<u8>, pos: int, body_len: spec_fn(Seq<u8>) -> Option<nat>)
    requires
        0 <= pos <= s.len(),
        pos + 4 > s.len() || body_len(s.skip(pos + 4)) is None,
    ensures
        bodies(s.skip(pos), body_len) == Seq::<Seq<u8>>::empty(),
        sound_len(s.skip(pos), body_len) == 0,
{
    let t = s.skip(pos);
    if pos + 4 <= s.len() {
        assert(t.skip(4) =~= s.skip(pos + 4));
    }
}

/// Appends `body` as a record.
pub fn push_frame(out: &mut Vec<u8>, body: &[u8])
    ensures
        final(out)@ == old(out)@ + framed(body@),
{
    push_u32(out, checksum(body));
    push_bytes(out, body);
    assert(out@ =~= old(out)@ + framed(body@));
}

/// The body of the record at `pos`, of which it is known to have `n` bytes, if
/// its checksum is right.
pub fn sound_body(s: &[u8], pos: usize, n: usize) -> (r: Option<Vec<u8>>)
    requires
        pos + 4 + n <= s@.len(),
    ensures
        ({
            let body = s@.subrange(pos + 4, pos + 4 + n);
            match r {
                Some(b) => b@ == body && crc32(body) == bytes::u32_at(s@, pos as int),
                None => crc32(body) != bytes::u32_at(s@, pos as int),
            }
        }),
{
    let total: usize = s.len();
    let body = bytes::copy_range(s, pos + 4, pos + 4 + n);
    if checksum(body.as_slice()) == read_u32(s, pos) {
        Some(body)
    } else {
        None
    }
}

} // verus!
