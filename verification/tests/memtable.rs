//! The table in memory.

use cairn::kv::memtable::Memtable;

#[test]
fn get_returns_newest_version() {
    let mut m = Memtable::new();
    m.put(b"k".to_vec(), Some(b"v1".to_vec()), 1);
    m.put(b"k".to_vec(), Some(b"v2".to_vec()), 2);
    assert_eq!(m.get(b"k"), Some(Some(b"v2".to_vec())));
}

#[test]
fn tombstone_shadows_older_value() {
    let mut m = Memtable::new();
    m.put(b"k".to_vec(), Some(b"v".to_vec()), 1);
    m.put(b"k".to_vec(), None, 2);
    assert_eq!(m.get(b"k"), Some(None));
}

#[test]
fn absent_key_returns_none() {
    let m = Memtable::new();
    assert_eq!(m.get(b"missing"), None);
}

#[test]
fn iter_is_sorted_newest_first_within_key() {
    let mut m = Memtable::new();
    m.put(b"b".to_vec(), Some(b"x".to_vec()), 1);
    m.put(b"a".to_vec(), Some(b"y".to_vec()), 2);
    m.put(b"a".to_vec(), Some(b"z".to_vec()), 5);
    let keys: Vec<_> = m
        .iter()
        .iter()
        .map(|(k, _)| (k.user_key.clone(), k.seqno))
        .collect();
    assert_eq!(
        keys,
        vec![(b"a".to_vec(), 5), (b"a".to_vec(), 2), (b"b".to_vec(), 1),]
    );
}

#[test]
fn a_repeated_sequence_number_replaces_and_the_newest_answers() {
    let puts: [(&[u8], Option<&[u8]>, u64); 7] = [
        (b"b", Some(b"1"), 4),
        (b"a", Some(b"2"), 1),
        (b"b", Some(b"3"), 2),
        (b"b", None, 9),
        (b"a", Some(b"4"), 1),
        (b"c", None, 3),
        (b"b", Some(b"5"), 9),
    ];
    let mut table = Memtable::new();
    let mut held: Vec<(Vec<u8>, u64, Option<Vec<u8>>)> = Vec::new();
    for (key, value, seqno) in puts {
        let value = value.map(|v| v.to_vec());
        table.put(key.to_vec(), value.clone(), seqno);
        held.retain(|(k, s, _)| !(k == key && *s == seqno));
        held.push((key.to_vec(), seqno, value));
        held.sort_by(|x, y| x.0.cmp(&y.0).then(y.1.cmp(&x.1)));

        let listed: Vec<_> = table
            .iter()
            .iter()
            .map(|(k, v)| (k.user_key.clone(), k.seqno, v.clone()))
            .collect();
        assert_eq!(listed, held);
        for wanted in [b"a", b"b", b"c", b"d"] {
            let newest = held
                .iter()
                .find(|(k, _, _)| k == wanted)
                .map(|(_, _, v)| v.clone());
            assert_eq!(table.get(wanted), newest);
        }
    }
}
