//! Immutable tables on disk.
//!
//! A table file holds its entries, an index of them, a filter over their keys,
//! and a footer that says where the index and the filter begin.

use vstd::prelude::*;

use crate::bytes::{
    self, copy_bytes, copy_range, push_bytes, push_u32, push_u64, read_u32, read_u64, same_bytes,
};
use crate::error::{self, corruption, Fault, Result};
use crate::kv::bloom::{self, Bloom, BloomView};
use crate::kv::memtable;
use crate::kv::types::{self, copy_value, InternalKey, Seqno, Version};
use crate::kv::wal::{self, push_value};

verus! {

const BLOOM_BITS_PER_KEY: usize = 10;

pub struct SsTableWriter {
    data: Vec<u8>,
    index: Vec<(Vec<u8>, Seqno, u64)>,
    added: Ghost<Seq<Version>>,
}

pub struct SsTableReader {
    pub entries: Vec<(InternalKey, Option<Vec<u8>>)>,
    pub bloom: Bloom,
}

/// A table: its entries in the order of the file, and its filter.
#[verifier::ext_equal]
pub struct TableView {
    pub entries: Seq<Version>,
    pub bloom: BloomView,
}

impl View for SsTableReader {
    type V = TableView;

    open spec fn view(&self) -> TableView {
        TableView { entries: types::versions_view(self.entries@), bloom: self.bloom@ }
    }
}

impl TableView {
    /// What a lookup finds: nothing where the filter denies the key, else the
    /// first entry of the key.
    pub open spec fn find(self, key: Seq<u8>) -> Option<Version> {
        if self.bloom.may_contain(key) {
            memtable::first_of(self.entries, key)
        } else {
            None
        }
    }
}

/// "CAIRNSST"
pub open spec fn magic() -> Seq<u8> {
    seq![67u8, 65, 73, 82, 78, 83, 83, 84]
}

/// An entry: key, sequence number and value.
pub open spec fn entry_bytes(v: Version) -> Seq<u8> {
    bytes::le32(v.key.len() as u32) + v.key + bytes::le64(v.seqno) + wal::value_bytes(v.value)
}

/// The entries one behind the other.
pub open spec fn data_bytes(s: Seq<Version>) -> Seq<u8>
    decreases s.len(),
{
    if s.len() == 0 {
        Seq::empty()
    } else {
        data_bytes(s.drop_last()) + entry_bytes(s.last())
    }
}

/// One line of the index.
pub open spec fn index_line(key: Seq<u8>, seqno: Seqno, offset: u64) -> Seq<u8> {
    bytes::le32(key.len() as u32) + key + bytes::le64(seqno) + bytes::le64(offset)
}

/// For each entry its key, its sequence number and where it begins.
pub open spec fn index_bytes(s: Seq<Version>) -> Seq<u8>
    decreases s.len(),
{
    if s.len() == 0 {
        Seq::empty()
    } else {
        index_bytes(s.drop_last()) + index_line(
            s.last().key,
            s.last().seqno,
            data_bytes(s.drop_last()).len() as u64,
        )
    }
}

pub open spec fn keys_of(s: Seq<Version>) -> Seq<Seq<u8>> {
    s.map_values(|v: Version| v.key)
}

/// The filter over the keys of a table.
pub open spec fn filter_of(s: Seq<Version>) -> BloomView {
    bloom::bloom_of(keys_of(s), 10)
}

/// The file that holds `s`.
pub open spec fn table_bytes(s: Seq<Version>) -> Seq<u8> {
    let (data, index) = (data_bytes(s), index_bytes(s));
    data + index + filter_of(s).to_bytes() + bytes::le64(data.len() as u64) + bytes::le64(
        (data.len() + index.len()) as u64,
    ) + bytes::le64(s.len() as u64) + magic()
}

/// The entry at the start of `s`, which is not empty, and how long it is.
pub open spec fn entry_of(s: Seq<u8>) -> core::result::Result<(Version, nat), Fault> {
    if s.len() < 4 {
        Err(error::corrupt("truncated sstable key length"@))
    } else {
        let klen = bytes::u32_at(s, 0) as int;
        if klen + 9 > s.len() - 4 {
            Err(error::corrupt("sstable key length exceeds data section"@))
        } else {
            let key = s.subrange(4, 4 + klen);
            let seqno = bytes::u64_at(s, 4 + klen);
            if s[12 + klen] != 1 {
                Ok((Version { key, seqno, value: None }, (13 + klen) as nat))
            } else if s.len() < 17 + klen {
                Err(error::corrupt("truncated sstable value length"@))
            } else {
                let vlen = bytes::u32_at(s, 13 + klen) as int;
                if vlen > s.len() - 17 - klen {
                    Err(error::corrupt("sstable value length exceeds data section"@))
                } else {
                    Ok(
                        (
                            Version {
                                key,
                                seqno,
                                value: Some(s.subrange(17 + klen, 17 + klen + vlen)),
                            },
                            (17 + klen + vlen) as nat,
                        ),
                    )
                }
            }
        }
    }
}

/// The entries that fill `s`, or what is wrong with the first that is not one.
pub open spec fn entries_of(s: Seq<u8>) -> core::result::Result<Seq<Version>, Fault>
    decreases s.len(),
{
    if s.len() == 0 {
        Ok(Seq::empty())
    } else {
        match entry_of(s) {
            Err(fault) => Err(fault),
            Ok((v, n)) => led_by(seq![v], entries_of(s.skip(n as int))),
        }
    }
}

/// `first` and then what follows, if that is sound.
pub open spec fn led_by(
    first: Seq<Version>,
    rest: core::result::Result<Seq<Version>, Fault>,
) -> core::result::Result<Seq<Version>, Fault> {
    match rest {
        Ok(more) => Ok(first + more),
        Err(fault) => Err(fault),
    }
}

/// The table that a file holds, or what is wrong with the file.
pub open spec fn table_of(file: Seq<u8>) -> core::result::Result<TableView, Fault> {
    if file.len() < 32 {
        Err(error::corrupt("sstable too short"@))
    } else {
        let footer = file.len() - 32;
        let index_offset = bytes::u64_at(file, footer) as int;
        let bloom_offset = bytes::u64_at(file, footer + 8) as int;
        if file.skip(footer + 24) != magic() {
            Err(error::corrupt("bad sstable magic"@))
        } else if index_offset > bloom_offset || bloom_offset > footer {
            Err(error::corrupt("invalid sstable offsets"@))
        } else {
            match bloom::bloom_from(file.subrange(bloom_offset, footer)) {
                Err(fault) => Err(fault),
                Ok(bloom) => match entries_of(file.take(index_offset)) {
                    Err(fault) => Err(fault),
                    Ok(entries) => Ok(TableView { entries, bloom }),
                },
            }
        }
    }
}

/// A file that is not marked as a table at its end is not read as one.
pub proof fn a_table_bears_its_mark(file: Seq<u8>)
    ensures
        table_of(file) is Ok ==> {
            let n = file.len() as int;
            &&& n >= 32
            &&& file[n - 8] == 67 && file[n - 7] == 65 && file[n - 6] == 73 && file[n - 5] == 82
            &&& file[n - 4] == 78 && file[n - 3] == 83 && file[n - 2] == 83 && file[n - 1] == 84
        },
{
    if table_of(file) is Ok {
        let end = file.skip(file.len() - 8);
        assert(end == magic());
        assert(end[0] == 67 && end[1] == 65 && end[2] == 73 && end[3] == 82);
        assert(end[4] == 78 && end[5] == 83 && end[6] == 83 && end[7] == 84);
    }
}

/// What an entry of a table says is what stands in it: the key behind its
/// length, the sequence number, and the value behind a one and its length. An
/// entry with another byte than one there has no value, and ends there.
pub proof fn only_what_was_written_is_read(s: Seq<u8>)
    ensures
        entry_of(s) matches Ok((v, n)) ==> {
            let front = bytes::le32(v.key.len() as u32) + v.key + bytes::le64(v.seqno);
            &&& n <= s.len()
            &&& wal::fits(v)
            &&& match v.value {
                Some(x) => s.take(n as int) == front + seq![1u8] + bytes::le32(x.len() as u32) + x,
                None => s.take(n - 1) == front && s[n - 1] != 1,
            }
        },
{
    if let Ok((v, n)) = entry_of(s) {
        let klen = v.key.len() as int;
        bytes::capacities();
        bytes::le_of_number(s.subrange(0, 4));
        bytes::le_of_number(s.subrange(4 + klen, 12 + klen));
        let front = bytes::le32(v.key.len() as u32) + v.key + bytes::le64(v.seqno);
        assert(s.take(12 + klen) =~= front);
        if let Some(x) = v.value {
            bytes::le_of_number(s.subrange(13 + klen, 17 + klen));
            assert(s.take(n as int) =~= front + seq![1u8] + bytes::le32(x.len() as u32) + x);
        }
    }
}

/// An entry reads back, whatever follows it.
proof fn entry_reads_back(v: Version, tail: Seq<u8>)
    requires
        wal::fits(v),
    ensures
        entry_of(entry_bytes(v) + tail) == Ok::<(Version, nat), Fault>(
            (v, entry_bytes(v).len()),
        ),
        (entry_bytes(v) + tail).skip(entry_bytes(v).len() as int) == tail,
        entry_bytes(v).len() >= 13,
{
    let (e, klen) = (entry_bytes(v), v.key.len() as int);
    let s = e + tail;
    bytes::le32_round_trip(v.key.len() as u32);
    bytes::le64_round_trip(v.seqno);
    assert(s.subrange(0, 4) =~= bytes::le32(v.key.len() as u32));
    assert(s.subrange(4, 4 + klen) =~= v.key);
    assert(s.subrange(4 + klen, 12 + klen) =~= bytes::le64(v.seqno));
    match v.value {
        Some(x) => {
            bytes::le32_round_trip(x.len() as u32);
            assert(wal::value_bytes(v.value)[0] == 1);
            assert(s[12 + klen] == 1);
            assert(s.subrange(13 + klen, 17 + klen) =~= bytes::le32(x.len() as u32));
            assert(s.subrange(17 + klen, 17 + klen + x.len()) =~= x);
        },
        None => {
            assert(s[12 + klen] == 0);
        },
    }
    assert(s.skip(e.len() as int) =~= tail);
}

/// Entries read back, whatever sound entries follow them.
proof fn data_reads_back(s: Seq<Version>, tail: Seq<u8>)
    requires
        forall|i: int| 0 <= i < s.len() ==> wal::fits(#[trigger] s[i]),
    ensures
        entries_of(data_bytes(s) + tail) == led_by(s, entries_of(tail)),
        data_bytes(s).len() >= 13 * s.len(),
    decreases s.len(),
{
    if s.len() == 0 {
        assert(data_bytes(s) + tail =~= tail);
        match entries_of(tail) {
            Ok(more) => {
                assert(s + more =~= more);
            },
            Err(_) => {},
        }
    } else {
        let (before, last) = (s.drop_last(), s.last());
        assert(wal::fits(s[s.len() - 1]));
        let rest = entry_bytes(last) + tail;
        data_reads_back(before, rest);
        entry_reads_back(last, tail);
        assert(data_bytes(s) + tail =~= data_bytes(before) + rest);
        match entries_of(tail) {
            Ok(more) => {
                assert(before + (seq![last] + more) =~= s + more);
            },
            Err(_) => {},
        }
    }
}

/// A table file reads back: the entries that were added, and a filter over
/// their keys.
pub proof fn a_table_reads_back(s: Seq<Version>)
    requires
        forall|i: int| 0 <= i < s.len() ==> wal::fits(#[trigger] s[i]),
        data_bytes(s).len() + index_bytes(s).len() <= u64::MAX,
    ensures
        table_of(table_bytes(s)) == Ok::<TableView, Fault>(
            TableView { entries: s, bloom: filter_of(s) },
        ),
{
    let (data, index, filter) = (data_bytes(s), index_bytes(s), filter_of(s).to_bytes());
    let file = table_bytes(s);
    let (io, bo) = (data.len() as u64, (data.len() + index.len()) as u64);
    footer_reads_back(data + index + filter, io, bo, s.len() as u64);
    let footer = file.len() - 32;
    assert(file.subrange(bo as int, footer) =~= filter) by {
        assert(footer == (data + index + filter).len());
    }
    assert(file.take(io as int) =~= data);
    bloom::built_is_readable(keys_of(s), 10);
    bloom::bloom_round_trip(filter_of(s));
    data_reads_back(s, Seq::empty());
    assert(data + Seq::<u8>::empty() =~= data);
    assert(s + Seq::<Version>::empty() =~= s);
}

proof fn footer_reads_back(body: Seq<u8>, a: u64, b: u64, c: u64)
    ensures
        ({
            let file = body + bytes::le64(a) + bytes::le64(b) + bytes::le64(c) + magic();
            &&& file.len() == body.len() + 32
            &&& bytes::u64_at(file, body.len() as int) == a
            &&& bytes::u64_at(file, body.len() + 8int) == b
            &&& file.skip(body.len() + 24int) == magic()
        }),
{
    let file = body + bytes::le64(a) + bytes::le64(b) + bytes::le64(c) + magic();
    let n = body.len() as int;
    bytes::le64_round_trip(a);
    bytes::le64_round_trip(b);
    bytes::le64_round_trip(c);
    assert(file.subrange(n, n + 8) =~= bytes::le64(a));
    assert(file.subrange(n + 8, n + 16) =~= bytes::le64(b));
    assert(file.skip(n + 24) =~= magic());
}

/// A lookup in such a table finds the first entry of the key: the filter never
/// stands in the way.
pub proof fn a_filter_never_hides_an_entry(s: Seq<Version>, key: Seq<u8>)
    ensures
        (TableView { entries: s, bloom: filter_of(s) }).find(key) == memtable::first_of(s, key),
{
    memtable::first_of_is(s, key);
    if memtable::first_of(s, key) is Some {
        let v = memtable::first_of(s, key)->0;
        let i = choose|i: int|
            0 <= i < s.len() && #[trigger] s[i] == v && forall|j: int|
                0 <= j < i ==> (#[trigger] s[j]).key != key;
        assert(keys_of(s)[i] == key);
        bloom::no_false_negatives(keys_of(s), 10, i);
    }
}

proof fn data_is_long(s: Seq<Version>)
    ensures
        data_bytes(s).len() >= 13 * s.len(),
    decreases s.len(),
{
    if s.len() > 0 {
        data_is_long(s.drop_last());
        bytes::le_len(s.last().key.len() as u32 as nat, 4);
        bytes::le_len(s.last().seqno as nat, 8);
    }
}

/// The lines of an index, as the writer keeps them.
spec fn lines(s: Seq<Version>, index: Seq<(Vec<u8>, Seqno, u64)>) -> bool {
    &&& index.len() == s.len()
    &&& forall|i: int|
        0 <= i < s.len() ==> {
            &&& (#[trigger] index[i]).0@ == s[i].key
            &&& index[i].1 == s[i].seqno
            &&& index[i].2 == data_bytes(s.take(i)).len() as u64
        }
}

impl SsTableWriter {
    #[verifier::type_invariant]
    spec fn inv(self) -> bool {
        &&& self.data@ == data_bytes(self.added@)
        &&& lines(self.added@, self.index@)
    }

    /// The entries added so far.
    pub closed spec fn added(self) -> Seq<Version> {
        self.added@
    }

    pub fn create() -> (r: Self)
        ensures
            r.added() == Seq::<Version>::empty(),
    {
        SsTableWriter { data: Vec::new(), index: Vec::new(), added: Ghost(Seq::empty()) }
    }

    /// Adds an entry behind the ones before.
    pub fn add(&mut self, ik: &InternalKey, value: &Option<Vec<u8>>)
        ensures
            final(self).added() == old(self).added().push(types::version_view((*ik, *value))),
    {
        proof {
            use_type_invariant(&*self);
        }
        let ghost before = self.added@;
        let ghost v = types::version_view((*ik, *value));
        let start: u64 = self.data.len() as u64;
        let mut taken = SsTableWriter::create();
        std::mem::swap(&mut taken, self);
        proof {
            use_type_invariant(&taken);
        }
        let SsTableWriter { mut data, mut index, added } = taken;
        push_u32(&mut data, ik.user_key.len() as u32);
        push_bytes(&mut data, ik.user_key.as_slice());
        push_u64(&mut data, ik.seqno);
        match value {
            Some(x) => push_value(&mut data, Some(x.as_slice())),
            None => push_value(&mut data, None),
        }
        index.push((copy_bytes(ik.user_key.as_slice()), ik.seqno, start));
        proof {
            let all = before.push(v);
            assert(all.drop_last() =~= before);
            assert(data@ =~= data_bytes(before) + entry_bytes(v));
            assert forall|i: int| 0 <= i < all.len() implies {
                &&& (#[trigger] index@[i]).0@ == all[i].key
                &&& index@[i].1 == all[i].seqno
                &&& index@[i].2 == data_bytes(all.take(i)).len() as u64
            } by {
                assert(all.take(i) =~= before.take(i));
                if i == before.len() {
                    assert(before.take(i) =~= before);
                }
            }
        }
        *self = SsTableWriter { data, index, added: Ghost(before.push(v)) };
    }

    /// The finished file.
    pub fn finish(self) -> (r: Vec<u8>)
        ensures
            r@ == table_bytes(self.added()),
    {
        proof {
            use_type_invariant(&self);
        }
        let SsTableWriter { data, index, added } = self;
        let ghost s = added@;
        proof {
            data_is_long(s);
        }
        let len: usize = data.len();
        assert(len >= 13 * s.len());
        let index_offset: u64 = data.len() as u64;
        let num: u64 = index.len() as u64;
        let mut lines: Vec<u8> = Vec::new();
        let mut keys: Vec<&[u8]> = Vec::new();
        let mut i: usize = 0;
        proof {
            assert(s.take(0) =~= Seq::empty());
            assert(bytes::slices_view(keys@) =~= keys_of(s.take(0)));
        }
        while i < index.len()
            invariant
                i <= index@.len(),
                self::lines(s, index@),
                lines@ == index_bytes(s.take(i as int)),
                keys@.len() == i,
                bytes::slices_view(keys@) == keys_of(s.take(i as int)),
            decreases index@.len() - i,
        {
            let ghost was = lines@;
            let ghost had = bytes::slices_view(keys@);
            let key: &[u8] = index[i].0.as_slice();
            push_u32(&mut lines, key.len() as u32);
            push_bytes(&mut lines, key);
            push_u64(&mut lines, index[i].1);
            push_u64(&mut lines, index[i].2);
            keys.push(key);
            proof {
                assert(s.take(i + 1).drop_last() =~= s.take(i as int));
                assert(s.take(i + 1).last() == s[i as int]);
                assert(lines@ =~= was + index_line(
                    s[i as int].key,
                    s[i as int].seqno,
                    data_bytes(s.take(i as int)).len() as u64,
                ));
                assert(bytes::slices_view(keys@) =~= had.push(s[i as int].key));
                assert(keys_of(s.take(i + 1)) =~= keys_of(s.take(i as int)).push(s[i as int].key));
            }
            i = i + 1;
        }
        assert(s.take(i as int) =~= s);
        let bloom = Bloom::build(keys.as_slice(), BLOOM_BITS_PER_KEY);
        let filter = bloom.to_bytes();
        let mut out = data;
        push_bytes(&mut out, lines.as_slice());
        let written: usize = out.len();
        let bloom_offset: u64 = written as u64;
        push_bytes(&mut out, filter.as_slice());
        push_u64(&mut out, index_offset);
        push_u64(&mut out, bloom_offset);
        push_u64(&mut out, num);
        push_magic(&mut out);
        assert(out@ =~= table_bytes(s));
        out
    }
}

fn push_magic(out: &mut Vec<u8>)
    ensures
        final(out)@ == old(out)@ + magic(),
{
    out.push(67);
    out.push(65);
    out.push(73);
    out.push(82);
    out.push(78);
    out.push(83);
    out.push(83);
    out.push(84);
    assert(out@ =~= old(out)@ + magic());
}

fn has_magic(file: &[u8]) -> (r: bool)
    requires
        file@.len() >= 8,
    ensures
        r == (file@.skip(file@.len() - 8) == magic()),
{
    let mut wanted: Vec<u8> = Vec::new();
    push_magic(&mut wanted);
    let found = copy_range(file, file.len() - 8, file.len());
    proof {
        assert(found@ =~= file@.skip(file@.len() - 8));
        assert(wanted@ =~= magic());
    }
    same_bytes(found.as_slice(), wanted.as_slice())
}

/// The entry at `pos` of the data section, which ends at `end`, and where the
/// next one begins.
fn read_entry(file: &[u8], pos: usize, end: usize) -> (r: Result<
    ((InternalKey, Option<Vec<u8>>), usize),
>)
    requires
        pos < end <= file@.len(),
    ensures
        ({
            let s = file@.subrange(pos as int, end as int);
            match r {
                Ok((entry, next)) => pos < next <= end && entry_of(s) == Ok::<
                    (Version, nat),
                    Fault,
                >((types::version_view(entry), (next - pos) as nat)),
                Err(e) => entry_of(s) == Err::<(Version, nat), Fault>(e@),
            }
        }),
{
    let ghost s = file@.subrange(pos as int, end as int);
    let total: usize = file.len();
    let rest: usize = end - pos;
    if rest < 4 {
        return Err(corruption("truncated sstable key length"));
    }
    assert(s.subrange(0, 4) =~= file@.subrange(pos as int, pos + 4));
    let klen: u32 = read_u32(file, pos);
    if klen as u64 + 9 > (rest - 4) as u64 {
        return Err(corruption("sstable key length exceeds data section"));
    }
    let klen: usize = klen as usize;
    let user_key = copy_range(file, pos + 4, pos + 4 + klen);
    let seqno: u64 = read_u64(file, pos + 4 + klen);
    proof {
        assert(s.subrange(4, 4 + klen) =~= user_key@);
        assert(s.subrange(4 + klen, 12 + klen) =~= file@.subrange(pos + 4 + klen, pos + 12 + klen));
    }
    let key = InternalKey { user_key, seqno };
    if file[pos + 12 + klen] != 1 {
        return Ok(((key, None), pos + 13 + klen));
    }
    if rest - klen < 17 {
        return Err(corruption("truncated sstable value length"));
    }
    assert(s.subrange(13 + klen, 17 + klen) =~= file@.subrange(pos + 13 + klen, pos + 17 + klen));
    let vlen: u32 = read_u32(file, pos + 13 + klen);
    if vlen as u64 > (rest - klen - 17) as u64 {
        return Err(corruption("sstable value length exceeds data section"));
    }
    let vlen: usize = vlen as usize;
    let value = copy_range(file, pos + 17 + klen, pos + 17 + klen + vlen);
    assert(s.subrange(17 + klen, 17 + klen + vlen) =~= value@);
    Ok(((key, Some(value)), pos + 17 + klen + vlen))
}

impl SsTableReader {
    /// Reads a table file. A file that is not one is corrupt; no length in it
    /// is trusted before it is held against what is there.
    pub fn open(file: &[u8]) -> (r: Result<Self>)
        ensures
            match r {
                Ok(table) => table_of(file@) == Ok::<TableView, Fault>(table@),
                Err(e) => table_of(file@) == Err::<TableView, Fault>(e@),
            },
    {
        if file.len() < 32 {
            return Err(corruption("sstable too short"));
        }
        if !has_magic(file) {
            return Err(corruption("bad sstable magic"));
        }
        let footer: usize = file.len() - 32;
        let index_offset: u64 = read_u64(file, footer);
        let bloom_offset: u64 = read_u64(file, footer + 8);
        if index_offset > bloom_offset || bloom_offset > footer as u64 {
            return Err(corruption("invalid sstable offsets"));
        }
        let end: usize = index_offset as usize;
        let filter = copy_range(file, bloom_offset as usize, footer);
        let bloom = match Bloom::from_bytes(filter.as_slice()) {
            Ok(bloom) => bloom,
            Err(e) => return Err(e),
        };
        let ghost data = file@.take(end as int);
        let mut entries: Vec<(InternalKey, Option<Vec<u8>>)> = Vec::new();
        let mut pos: usize = 0;
        proof {
            assert(data.skip(0) =~= data);
            assert(types::versions_view(entries@) =~= Seq::empty());
            match entries_of(data) {
                Ok(more) => {
                    assert(Seq::<Version>::empty() + more =~= more);
                },
                Err(_) => {},
            }
        }
        while pos < end
            invariant
                pos <= end <= file@.len(),
                data == file@.take(end as int),
                table_of(file@) == match entries_of(data) {
                    Err(fault) => Err::<TableView, Fault>(fault),
                    Ok(entries) => Ok(TableView { entries, bloom: bloom@ }),
                },
                entries_of(data) == led_by(
                    types::versions_view(entries@),
                    entries_of(data.skip(pos as int)),
                ),
            decreases end - pos,
        {
            let ghost rest = data.skip(pos as int);
            assert(rest =~= file@.subrange(pos as int, end as int));
            let (entry, next) = match read_entry(file, pos, end) {
                Ok(read) => read,
                Err(e) => return Err(e),
            };
            proof {
                types::versions_view_push(entries@, entry);
                assert(rest.skip(next - pos) =~= data.skip(next as int));
                let before = types::versions_view(entries@);
                let v = types::version_view(entry);
                match entries_of(data.skip(next as int)) {
                    Ok(more) => {
                        assert(before + (seq![v] + more) =~= before.push(v) + more);
                    },
                    Err(_) => {},
                }
            }
            entries.push(entry);
            pos = next;
        }
        proof {
            assert(data.skip(pos as int) =~= Seq::empty());
            assert(types::versions_view(entries@) + Seq::<Version>::empty()
                =~= types::versions_view(entries@));
        }
        Ok(SsTableReader { entries, bloom })
    }

    /// The first entry of `user_key`, which in a table in order is its newest
    /// version.
    pub fn get(&self, user_key: &[u8]) -> (r: Result<Option<(Seqno, Option<Vec<u8>>)>>)
        ensures
            r is Ok,
            match (r->Ok_0, self@.find(user_key@)) {
                (Some((seqno, value)), Some(v)) => seqno == v.seqno && types::value_view(value)
                    == v.value,
                (None, None) => true,
                _ => false,
            },
    {
        if !self.bloom.contains(user_key) {
            return Ok(None);
        }
        let ghost s = self@.entries;
        let mut i: usize = 0;
        assert(s.skip(0) =~= s);
        while i < self.entries.len()
            invariant
                i <= self.entries@.len(),
                s == self@.entries,
                memtable::first_of(s, user_key@) == memtable::first_of(
                    s.skip(i as int),
                    user_key@,
                ),
                self@.bloom.may_contain(user_key@),
            decreases self.entries@.len() - i,
        {
            proof {
                assert(s[i as int] == types::version_view(self.entries@[i as int]));
                assert(s.skip(i as int)[0] == s[i as int]);
                assert(s.skip(i as int).drop_first() =~= s.skip(i + 1));
            }
            if same_bytes(self.entries[i].0.user_key.as_slice(), user_key) {
                return Ok(Some((self.entries[i].0.seqno, copy_value(&self.entries[i].1))));
            }
            i = i + 1;
        }
        Ok(None)
    }

    /// The entries, in the order of the file.
    pub fn iter(&self) -> (r: Result<Vec<(InternalKey, Option<Vec<u8>>)>>)
        ensures
            r is Ok,
            types::versions_view(r->Ok_0@) == self@.entries,
    {
        let mut out: Vec<(InternalKey, Option<Vec<u8>>)> = Vec::new();
        let mut i: usize = 0;
        assert(types::versions_view(out@) =~= self@.entries.take(0));
        while i < self.entries.len()
            invariant
                i <= self.entries@.len(),
                types::versions_view(out@) == self@.entries.take(i as int),
            decreases self.entries@.len() - i,
        {
            let entry = (self.entries[i].0.clone(), copy_value(&self.entries[i].1));
            proof {
                types::versions_view_push(out@, entry);
                assert(self@.entries.take(i + 1) =~= self@.entries.take(i as int).push(
                    types::version_view(entry),
                ));
            }
            out.push(entry);
            i = i + 1;
        }
        assert(self@.entries.take(i as int) =~= self@.entries);
        Ok(out)
    }
}

} // verus!
