//! Little-endian integers in byte buffers.

use vstd::prelude::*;

verus! {

/// The `n` low bytes of `x`, least significant first.
pub open spec fn le(x: nat, n: nat) -> Seq<u8>
    decreases n,
{
    if n == 0 {
        Seq::empty()
    } else {
        seq![(x % 256) as u8] + le(x / 256, (n - 1) as nat)
    }
}

/// The number that `s` writes, least significant byte first.
pub open spec fn number(s: Seq<u8>) -> nat
    decreases s.len(),
{
    if s.len() == 0 {
        0
    } else {
        s[0] as nat + 256 * number(s.drop_first())
    }
}

/// How many numbers `n` bytes can write.
pub open spec fn capacity(n: nat) -> nat
    decreases n,
{
    if n == 0 {
        1
    } else {
        256 * capacity((n - 1) as nat)
    }
}

pub open spec fn le32(x: u32) -> Seq<u8> {
    le(x as nat, 4)
}

pub open spec fn le64(x: u64) -> Seq<u8> {
    le(x as nat, 8)
}

/// The four-byte number at `pos`.
pub open spec fn u32_at(s: Seq<u8>, pos: int) -> u32 {
    number(s.subrange(pos, pos + 4)) as u32
}

/// The eight-byte number at `pos`.
pub open spec fn u64_at(s: Seq<u8>, pos: int) -> u64 {
    number(s.subrange(pos, pos + 8)) as u64
}

/// The byte strings that `s` refers to.
pub open spec fn slices_view(s: Seq<&[u8]>) -> Seq<Seq<u8>> {
    s.map_values(|x: &[u8]| x@)
}

pub broadcast proof fn le_len(x: nat, n: nat)
    ensures
        #[trigger] le(x, n).len() == n,
    decreases n,
{
    if n > 0 {
        le_len(x / 256, (n - 1) as nat);
    }
}

pub proof fn capacities()
    ensures
        capacity(4) == 0x1_0000_0000,
        capacity(8) == 0x1_0000_0000_0000_0000,
{
    reveal_with_fuel(capacity, 9);
}

/// Reading back what was written gives the number, where it fits.
pub proof fn number_of_le(x: nat, n: nat)
    requires
        x < capacity(n),
    ensures
        number(le(x, n)) == x,
    decreases n,
{
    if n > 0 {
        let rest = le(x / 256, (n - 1) as nat);
        le_len(x / 256, (n - 1) as nat);
        assert((seq![(x % 256) as u8] + rest).drop_first() =~= rest);
        number_of_le(x / 256, (n - 1) as nat);
    }
}

/// Writing back what was read gives the bytes.
pub proof fn le_of_number(s: Seq<u8>)
    ensures
        le(number(s), s.len()) == s,
        number(s) < capacity(s.len()),
    decreases s.len(),
{
    if s.len() > 0 {
        let rest = s.drop_first();
        le_of_number(rest);
        let x = number(s);
        assert(x % 256 == s[0] as nat);
        assert(x / 256 == number(rest));
        assert(le(x, s.len()) =~= s);
    }
}

/// The bytes of a number are its digits to base 256, the least significant
/// first.
pub proof fn bytes_are_digits(x: nat, n: nat, i: nat)
    requires
        i < n,
    ensures
        capacity(i) > 0,
        le(x, n)[i as int] == (x / capacity(i)) % 256,
    decreases n,
{
    let rest = le(x / 256, (n - 1) as nat);
    le_len(x / 256, (n - 1) as nat);
    assert(le(x, n) == seq![(x % 256) as u8] + rest);
    if i == 0 {
        assert(capacity(0) == 1);
        assert(x / 1 == x);
    } else {
        let (m, j) = ((n - 1) as nat, (i - 1) as nat);
        assert(le(x, n)[i as int] == rest[j as int]);
        bytes_are_digits(x / 256, m, j);
        vstd::arithmetic::div_mod::lemma_div_denominator(x as int, 256, capacity(j) as int);
    }
}

/// A written four-byte number reads back.
pub proof fn le32_round_trip(x: u32)
    ensures
        le32(x).len() == 4,
        number(le32(x)) == x,
{
    capacities();
    le_len(x as nat, 4);
    number_of_le(x as nat, 4);
}

/// A written eight-byte number reads back.
pub proof fn le64_round_trip(x: u64)
    ensures
        le64(x).len() == 8,
        number(le64(x)) == x,
{
    capacities();
    le_len(x as nat, 8);
    number_of_le(x as nat, 8);
}

fn push_le(out: &mut Vec<u8>, x: u64, n: usize)
    ensures
        final(out)@ == old(out)@ + le(x as nat, n as nat),
{
    let mut rest: u64 = x;
    let mut done: usize = 0;
    assert(out@ + le(rest as nat, n as nat) =~= old(out)@ + le(x as nat, n as nat));
    while done < n
        invariant
            done <= n,
            out@ + le(rest as nat, (n - done) as nat) == old(out)@ + le(x as nat, n as nat),
        decreases n - done,
    {
        let ghost before = out@;
        out.push((rest % 256) as u8);
        proof {
            let tail = le((rest / 256) as nat, (n - done - 1) as nat);
            assert(before.push((rest % 256) as u8) + tail =~= before + (seq![
                (rest % 256) as u8,
            ] + tail));
        }
        rest = rest / 256;
        done = done + 1;
    }
    assert(out@ + le(rest as nat, 0) =~= out@);
}

pub fn push_u32(out: &mut Vec<u8>, x: u32)
    ensures
        final(out)@ == old(out)@ + le32(x),
{
    push_le(out, x as u64, 4);
}

pub fn push_u64(out: &mut Vec<u8>, x: u64)
    ensures
        final(out)@ == old(out)@ + le64(x),
{
    push_le(out, x, 8);
}

pub fn push_bytes(out: &mut Vec<u8>, more: &[u8])
    ensures
        final(out)@ == old(out)@ + more@,
{
    let ghost before = out@;
    out.extend_from_slice(more);
    assert(out@ =~= before + more@);
}

/// The bytes of `s` from `from` up to `to`.
pub fn copy_range(s: &[u8], from: usize, to: usize) -> (r: Vec<u8>)
    requires
        from <= to <= s@.len(),
    ensures
        r@ == s@.subrange(from as int, to as int),
{
    let mut out: Vec<u8> = Vec::new();
    let mut at: usize = from;
    while at < to
        invariant
            from <= at <= to <= s@.len(),
            out@ == s@.subrange(from as int, at as int),
        decreases to - at,
    {
        out.push(s[at]);
        at = at + 1;
        assert(out@ =~= s@.subrange(from as int, at as int));
    }
    out
}

pub fn copy_bytes(s: &[u8]) -> (r: Vec<u8>)
    ensures
        r@ == s@,
{
    let r = copy_range(s, 0, s.len());
    assert(r@ =~= s@);
    r
}

fn read_le(s: &[u8], pos: usize, n: usize) -> (r: u64)
    requires
        pos + n <= s@.len(),
        n <= 8,
    ensures
        r == number(s@.subrange(pos as int, pos + n)),
{
    let mut value: u64 = 0;
    let mut left: usize = n;
    let total: usize = s.len();
    proof {
        capacities();
        assert(s@.subrange(pos + n, pos + n) =~= Seq::empty());
    }
    while left > 0
        invariant
            left <= n <= 8,
            pos + n <= s@.len() == total,
            value == number(s@.subrange(pos + left, pos + n)),
        decreases left,
    {
        proof {
            let tail = s@.subrange(pos + left, pos + n);
            let wider = s@.subrange(pos + left - 1, pos + n);
            assert(wider.drop_first() =~= tail);
            le_of_number(wider);
            capacity_grows(wider.len(), 8);
            capacities();
        }
        left = left - 1;
        value = s[pos + left] as u64 + 256 * value;
    }
    value
}

proof fn capacity_grows(m: nat, n: nat)
    requires
        m <= n,
    ensures
        capacity(m) <= capacity(n),
    decreases n,
{
    if m < n {
        capacity_grows(m, (n - 1) as nat);
    }
}

pub fn read_u32(s: &[u8], pos: usize) -> (r: u32)
    requires
        pos + 4 <= s@.len(),
    ensures
        r == u32_at(s@, pos as int),
        le32(r) == s@.subrange(pos as int, pos + 4),
{
    let r: u64 = read_le(s, pos, 4);
    proof {
        capacities();
        le_of_number(s@.subrange(pos as int, pos + 4));
    }
    r as u32
}

pub fn read_u64(s: &[u8], pos: usize) -> (r: u64)
    requires
        pos + 8 <= s@.len(),
    ensures
        r == u64_at(s@, pos as int),
        le64(r) == s@.subrange(pos as int, pos + 8),
{
    let r: u64 = read_le(s, pos, 8);
    proof {
        capacities();
        le_of_number(s@.subrange(pos as int, pos + 8));
    }
    r
}

/// Byte strings are equal when they hold the same bytes.
pub fn same_bytes(a: &[u8], b: &[u8]) -> (r: bool)
    ensures
        r == (a@ == b@),
{
    if a.len() != b.len() {
        return false;
    }
    let mut i: usize = 0;
    while i < a.len()
        invariant
            i <= a@.len() == b@.len(),
            forall|j: int| 0 <= j < i ==> a@[j] == b@[j],
        decreases a@.len() - i,
    {
        if a[i] != b[i] {
            return false;
        }
        i = i + 1;
    }
    assert(a@ =~= b@);
    true
}

} // verus!
