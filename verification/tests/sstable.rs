//! Tables on disk.

use cairn::error::Error;
use cairn::kv::sstable::{SsTableReader, SsTableWriter};
use cairn::kv::types::{InternalKey, Seqno};

fn ik(k: &[u8], s: Seqno) -> InternalKey {
    InternalKey {
        user_key: k.to_vec(),
        seqno: s,
    }
}

fn overwrite_u32(file: &mut [u8], offset: usize, value: u32) {
    file[offset..offset + 4].copy_from_slice(&value.to_le_bytes());
}

#[test]
fn write_then_read_point_lookup() {
    let mut w = SsTableWriter::create();
    w.add(&ik(b"a", 2), &Some(b"a2".to_vec()));
    w.add(&ik(b"a", 1), &Some(b"a1".to_vec()));
    w.add(&ik(b"b", 3), &None);
    let file = w.finish();

    let r = SsTableReader::open(&file).unwrap();
    assert_eq!(r.get(b"a").unwrap(), Some((2, Some(b"a2".to_vec()))));
    assert_eq!(r.get(b"b").unwrap(), Some((3, None)));
    assert_eq!(r.get(b"missing").unwrap(), None);
}

#[test]
fn bloom_short_circuits_absent_keys() {
    let mut w = SsTableWriter::create();
    w.add(&ik(b"apple", 1), &Some(b"a".to_vec()));
    w.add(&ik(b"banana", 1), &Some(b"b".to_vec()));
    w.add(&ik(b"cherry", 1), &Some(b"c".to_vec()));
    let file = w.finish();

    let r = SsTableReader::open(&file).unwrap();
    assert_eq!(r.get(b"apple").unwrap(), Some((1, Some(b"a".to_vec()))));
    assert_eq!(r.get(b"banana").unwrap(), Some((1, Some(b"b".to_vec()))));
    assert_eq!(r.get(b"cherry").unwrap(), Some((1, Some(b"c".to_vec()))));
    assert!(!r.bloom.contains(b"durian"));
    assert_eq!(r.get(b"durian").unwrap(), None);
}

#[test]
fn iter_yields_sorted_entries() {
    let mut w = SsTableWriter::create();
    w.add(&ik(b"a", 1), &Some(b"x".to_vec()));
    w.add(&ik(b"b", 1), &Some(b"y".to_vec()));
    let file = w.finish();
    let r = SsTableReader::open(&file).unwrap();
    let got: Vec<_> = r
        .iter()
        .unwrap()
        .into_iter()
        .map(|(k, _)| (k.user_key, k.seqno))
        .collect();
    assert_eq!(got, vec![(b"a".to_vec(), 1), (b"b".to_vec(), 1)]);
}

#[test]
fn oversized_key_length_returns_corruption() {
    let mut w = SsTableWriter::create();
    w.add(&ik(b"k", 1), &Some(b"v".to_vec()));
    let mut file = w.finish();

    overwrite_u32(&mut file, 0, u32::MAX);

    assert!(matches!(
        SsTableReader::open(&file),
        Err(Error::Corruption(_))
    ));
}

#[test]
fn oversized_value_length_returns_corruption() {
    let mut w = SsTableWriter::create();
    w.add(&ik(b"k", 1), &Some(b"v".to_vec()));
    let mut file = w.finish();

    overwrite_u32(&mut file, 4 + 1 + 8 + 1, u32::MAX);

    assert!(matches!(
        SsTableReader::open(&file),
        Err(Error::Corruption(_))
    ));
}
