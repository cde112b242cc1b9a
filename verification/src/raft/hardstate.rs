//! The file that holds the term and the vote.

use vstd::prelude::*;

use crate::bytes::{self, copy_range, push_u64, read_u32, read_u64};
use crate::frame::{self, checksum, push_frame};
use crate::raft::types::HardState;

verus! {

/// The body of the file: the term, whether there is a vote, and the vote.
pub open spec fn body_of(hs: HardState) -> Seq<u8> {
    match hs.voted_for {
        Some(id) => bytes::le64(hs.current_term) + seq![1u8] + bytes::le64(id),
        None => bytes::le64(hs.current_term) + seq![0u8] + bytes::le64(0),
    }
}

/// The file that holds `hs`.
pub open spec fn file_of(hs: HardState) -> Seq<u8> {
    frame::framed(body_of(hs))
}

pub open spec fn fresh() -> HardState {
    HardState { current_term: 0, voted_for: None }
}

/// What a file says. A file that is not whole and sound says what no file
/// would: no term and no vote yet.
pub open spec fn state_of(file: Seq<u8>) -> HardState {
    if file.len() != 21 || frame::crc32(file.skip(4)) != bytes::u32_at(file, 0) {
        fresh()
    } else {
        HardState {
            current_term: bytes::u64_at(file, 4),
            voted_for: if file[12] == 1 {
                Some(bytes::u64_at(file, 13))
            } else {
                None
            },
        }
    }
}

/// A file of another length, or whose first four bytes are not the checksum
/// of the others, says nothing: no term, and no vote.
pub proof fn a_damaged_file_says_nothing(file: Seq<u8>)
    requires
        file.len() != 21 || file.take(4) != bytes::le32(frame::crc32(file.skip(4))),
    ensures
        state_of(file).current_term == 0,
        state_of(file).voted_for is None,
{
    if file.len() == 21 {
        assert(file.subrange(0, 4) =~= file.take(4));
        bytes::le_of_number(file.take(4));
        bytes::capacities();
    }
}

/// A saved hard state is loaded again.
pub proof fn hard_state_round_trip(hs: HardState)
    ensures
        state_of(file_of(hs)) == hs,
{
    let (file, body) = (file_of(hs), body_of(hs));
    let vote = match hs.voted_for {
        Some(id) => id,
        None => 0,
    };
    bytes::le32_round_trip(frame::crc32(body));
    bytes::le64_round_trip(hs.current_term);
    bytes::le64_round_trip(vote);
    assert(file.skip(4) =~= body);
    assert(file.subrange(0, 4) =~= bytes::le32(frame::crc32(body)));
    assert(file.subrange(4, 12) =~= bytes::le64(hs.current_term));
    assert(file.subrange(13, 21) =~= bytes::le64(vote));
    assert(file[12] == body[8]);
}

/// The bytes to write, under a temporary name that is then renamed, for `hs`.
pub fn save_hard_state(hs: &HardState) -> (r: Vec<u8>)
    ensures
        r@ == file_of(*hs),
{
    let mut body: Vec<u8> = Vec::new();
    push_u64(&mut body, hs.current_term);
    match hs.voted_for {
        Some(id) => {
            body.push(1);
            push_u64(&mut body, id);
        },
        None => {
            body.push(0);
            push_u64(&mut body, 0);
        },
    }
    assert(body@ =~= body_of(*hs));
    let mut out: Vec<u8> = Vec::new();
    push_frame(&mut out, body.as_slice());
    assert(out@ =~= file_of(*hs));
    out
}

/// What the file says; `None` is a file that does not exist.
pub fn load_hard_state(file: Option<&[u8]>) -> (r: HardState)
    ensures
        r == match file {
            Some(bytes) => state_of(bytes@),
            None => fresh(),
        },
{
    let file: &[u8] = match file {
        Some(file) => file,
        None => return HardState { current_term: 0, voted_for: None },
    };
    if file.len() != 21 {
        return HardState { current_term: 0, voted_for: None };
    }
    let body = copy_range(file, 4, 21);
    assert(body@ =~= file@.skip(4));
    if checksum(body.as_slice()) != read_u32(file, 0) {
        return HardState { current_term: 0, voted_for: None };
    }
    HardState {
        current_term: read_u64(file, 4),
        voted_for: if file[12] == 1 {
            Some(read_u64(file, 13))
        } else {
            None
        },
    }
}

} // verus!
