//! The engine over a disk in memory.

use std::collections::BTreeMap;

use cairn::error::{Error, Result};
use cairn::kv::engine::{Action, Engine};
use cairn::kv::names::{discover, table_id, table_name};

/// What a directory would hold.
#[derive(Clone, Default)]
struct Disk {
    log: Vec<u8>,
    tables: BTreeMap<Vec<u8>, Vec<u8>>,
}

impl Disk {
    fn perform(&mut self, action: &Action) {
        match action {
            Action::AppendWal(bytes) => self.log.extend_from_slice(bytes),
            Action::PublishTable(id, bytes) => {
                self.tables.insert(table_name(*id), bytes.clone());
            }
            Action::ResetWal => self.log.clear(),
            Action::RemoveTable(id) => {
                self.tables.remove(&table_name(*id));
            }
        }
    }

    fn engine(&self) -> Result<Option<Engine>> {
        let names = self.tables.keys().cloned().collect();
        let files = discover(&names)
            .into_iter()
            .map(|id| (id, self.tables[&table_name(id)].clone()))
            .collect();
        Engine::open(&self.log, &files)
    }
}

struct Store<'a> {
    disk: &'a mut Disk,
    engine: Engine,
}

impl<'a> Store<'a> {
    fn open(disk: &'a mut Disk) -> Store<'a> {
        let engine = disk.engine().unwrap().unwrap();
        Store { disk, engine }
    }

    fn run(&mut self, action: Option<Action>) -> Result<()> {
        let mut next = action;
        while let Some(action) = next {
            self.disk.perform(&action);
            next = self.engine.done()?;
        }
        Ok(())
    }

    fn put(&mut self, key: &[u8], value: &[u8]) -> Result<()> {
        let action = self.engine.put(key, value);
        self.run(Some(action))
    }

    fn delete(&mut self, key: &[u8]) -> Result<()> {
        let action = self.engine.delete(key);
        self.run(Some(action))
    }

    fn get(&self, key: &[u8]) -> Result<Option<Vec<u8>>> {
        self.engine.get(key)
    }

    fn flush(&mut self) -> Result<()> {
        let action = self.engine.flush();
        self.run(action)
    }

    fn compact(&mut self) -> Result<()> {
        let action = self.engine.compact();
        self.run(action)
    }
}

#[test]
fn put_get_delete() {
    let mut dir = Disk::default();
    let mut e = Store::open(&mut dir);
    e.put(b"k", b"v").unwrap();
    assert_eq!(e.get(b"k").unwrap(), Some(b"v".to_vec()));
    e.delete(b"k").unwrap();
    assert_eq!(e.get(b"k").unwrap(), None);
}

#[test]
fn reopen_recovers_from_wal() {
    let mut dir = Disk::default();
    {
        let mut e = Store::open(&mut dir);
        e.put(b"a", b"1").unwrap();
        e.put(b"b", b"2").unwrap();
    }
    let e = Store::open(&mut dir);
    assert_eq!(e.get(b"a").unwrap(), Some(b"1".to_vec()));
    assert_eq!(e.get(b"b").unwrap(), Some(b"2".to_vec()));
}

#[test]
fn value_survives_flush() {
    let mut dir = Disk::default();
    let mut e = Store::open(&mut dir);
    e.put(b"k", b"v1").unwrap();
    e.flush().unwrap();
    assert_eq!(e.get(b"k").unwrap(), Some(b"v1".to_vec()));
}

#[test]
fn newer_memtable_shadows_flushed_sstable() {
    let mut dir = Disk::default();
    let mut e = Store::open(&mut dir);
    e.put(b"k", b"old").unwrap();
    e.flush().unwrap();
    e.put(b"k", b"new").unwrap();
    assert_eq!(e.get(b"k").unwrap(), Some(b"new".to_vec()));
}

#[test]
fn delete_after_flush_is_honored() {
    let mut dir = Disk::default();
    let mut e = Store::open(&mut dir);
    e.put(b"k", b"v").unwrap();
    e.flush().unwrap();
    e.delete(b"k").unwrap();
    e.flush().unwrap();
    assert_eq!(e.get(b"k").unwrap(), None);
}

#[test]
fn unflushed_delete_shadows_flushed_value() {
    let mut dir = Disk::default();
    let mut e = Store::open(&mut dir);
    e.put(b"k", b"v").unwrap();
    e.flush().unwrap();
    e.delete(b"k").unwrap();
    assert_eq!(e.get(b"k").unwrap(), None);
}

#[test]
fn sstables_reload_on_reopen() {
    let mut dir = Disk::default();
    {
        let mut e = Store::open(&mut dir);
        e.put(b"k", b"v").unwrap();
        e.flush().unwrap();
    }
    let e = Store::open(&mut dir);
    assert_eq!(e.get(b"k").unwrap(), Some(b"v".to_vec()));
}

#[test]
fn compaction_keeps_newest_and_drops_tombstones() {
    let mut dir = Disk::default();
    let mut e = Store::open(&mut dir);
    e.put(b"a", b"old").unwrap();
    e.flush().unwrap();
    e.put(b"a", b"new").unwrap();
    e.put(b"b", b"1").unwrap();
    e.flush().unwrap();
    e.delete(b"b").unwrap();
    e.flush().unwrap();

    e.compact().unwrap();

    assert_eq!(e.get(b"a").unwrap(), Some(b"new".to_vec()));
    assert_eq!(e.get(b"b").unwrap(), None);
    assert_eq!(dir.tables.len(), 1);
}

#[test]
fn data_survives_compaction_and_reopen() {
    let mut dir = Disk::default();
    {
        let mut e = Store::open(&mut dir);
        for i in 0..10u8 {
            e.put(&[i], &[i, i]).unwrap();
            e.flush().unwrap();
        }
        e.compact().unwrap();
    }
    let e = Store::open(&mut dir);
    for i in 0..10u8 {
        assert_eq!(e.get(&[i]).unwrap(), Some(vec![i, i]));
    }
}

#[test]
fn seqno_recovered_across_reopen_prevents_stale_resurrection() {
    let mut dir = Disk::default();
    {
        let mut e = Store::open(&mut dir);
        e.put(b"a", b"x").unwrap();
        e.put(b"k", b"C").unwrap();
        e.flush().unwrap();
    }
    {
        let mut e = Store::open(&mut dir);
        e.put(b"k", b"Z").unwrap();
        e.flush().unwrap();
        e.compact().unwrap();

        assert_eq!(e.get(b"k").unwrap(), Some(b"Z".to_vec()));
        assert_eq!(e.get(b"a").unwrap(), Some(b"x".to_vec()));
    }
}

#[test]
fn deleted_key_stays_absent_after_compaction_and_reopen() {
    let mut dir = Disk::default();
    {
        let mut e = Store::open(&mut dir);
        e.put(b"a", b"1").unwrap();
        e.flush().unwrap();
        e.put(b"b", b"keep").unwrap();
        e.flush().unwrap();
        e.delete(b"a").unwrap();
        e.flush().unwrap();

        e.compact().unwrap();
    }
    let e = Store::open(&mut dir);
    assert_eq!(e.get(b"a").unwrap(), None);
    assert_eq!(e.get(b"b").unwrap(), Some(b"keep".to_vec()));
}

#[test]
fn unflushed_writes_survive_reopen() {
    let mut dir = Disk::default();
    {
        let mut e = Store::open(&mut dir);
        e.put(b"durable", b"yes").unwrap();
    }
    let e = Store::open(&mut dir);
    assert_eq!(e.get(b"durable").unwrap(), Some(b"yes".to_vec()));
}

#[test]
fn mixed_flushed_and_wal_writes_survive_reopen() {
    let mut dir = Disk::default();
    {
        let mut e = Store::open(&mut dir);
        e.put(b"a", b"1").unwrap();
        e.flush().unwrap();
        e.put(b"b", b"2").unwrap();
    }
    let e = Store::open(&mut dir);
    assert_eq!(e.get(b"a").unwrap(), Some(b"1".to_vec()));
    assert_eq!(e.get(b"b").unwrap(), Some(b"2".to_vec()));
}

fn next(state: &mut u64) -> u64 {
    *state = state.wrapping_mul(6_364_136_223_846_793_005).wrapping_add(1_442_695_040_888_963_407);
    *state >> 33
}

/// Random operations agree with a map, across restarts.
#[test]
fn random_operations_match_a_map() {
    for seed in 0..40u64 {
        let mut rng = seed + 1;
        let mut disk = Disk::default();
        let mut model: BTreeMap<Vec<u8>, Vec<u8>> = BTreeMap::new();
        for _ in 0..6 {
            let mut store = Store::open(&mut disk);
            for _ in 0..30 {
                let key = vec![(next(&mut rng) % 4) as u8; 1 + (next(&mut rng) % 2) as usize];
                match next(&mut rng) % 6 {
                    0 | 1 => {
                        let value = vec![next(&mut rng) as u8; (next(&mut rng) % 4) as usize];
                        store.put(&key, &value).unwrap();
                        model.insert(key, value);
                    }
                    2 => {
                        store.delete(&key).unwrap();
                        model.remove(&key);
                    }
                    3 => assert_eq!(store.get(&key).unwrap(), model.get(&key).cloned()),
                    4 => store.flush().unwrap(),
                    _ => store.compact().unwrap(),
                }
            }
            for a in 0..4u8 {
                for n in 1..3 {
                    let key = vec![a; n];
                    assert_eq!(store.get(&key).unwrap(), model.get(&key).cloned());
                }
            }
        }
    }
}

#[test]
fn a_write_counts_once_it_is_on_disk() {
    let disk = Disk::default();
    let mut engine = disk.engine().unwrap().unwrap();
    let action = engine.put(b"k", b"v");
    assert!(matches!(action, Action::AppendWal(_)));
    assert_eq!(engine.get(b"k").unwrap(), None);
    assert_eq!(engine.done().unwrap(), None);
    assert_eq!(engine.get(b"k").unwrap(), Some(b"v".to_vec()));
}

#[test]
fn a_write_that_failed_is_not_there() {
    let mut disk = Disk::default();
    let mut engine = disk.engine().unwrap().unwrap();
    let _ = engine.put(b"k", b"lost");
    engine.failed();
    assert_eq!(engine.get(b"k").unwrap(), None);
    let action = engine.put(b"k", b"kept");
    disk.perform(&action);
    assert_eq!(engine.done().unwrap(), None);
    assert_eq!(engine.get(b"k").unwrap(), Some(b"kept".to_vec()));
    assert_eq!(Store::open(&mut disk).get(b"k").unwrap(), Some(b"kept".to_vec()));
}

#[test]
fn a_flush_publishes_and_then_resets() {
    let mut disk = Disk::default();
    let mut engine = disk.engine().unwrap().unwrap();
    assert_eq!(engine.flush(), None);
    disk.perform(&engine.put(b"k", b"v"));
    assert_eq!(engine.done().unwrap(), None);
    let publish = engine.flush().unwrap();
    assert!(matches!(publish, Action::PublishTable(0, _)));
    disk.perform(&publish);
    assert_eq!(engine.done().unwrap(), Some(Action::ResetWal));
    disk.perform(&Action::ResetWal);
    assert_eq!(engine.done().unwrap(), None);
    assert!(disk.log.is_empty());
    assert_eq!(disk.tables.len(), 1);
    assert_eq!(engine.get(b"k").unwrap(), Some(b"v".to_vec()));
}

#[test]
fn a_crash_behind_any_action_of_a_write_or_flush_loses_nothing() {
    let mut disk = Disk::default();
    let mut engine = disk.engine().unwrap().unwrap();
    for i in 0..3u8 {
        let mut next = Some(engine.put(&[i], &[i, i]));
        while let Some(action) = next {
            disk.perform(&action);
            next = engine.done().unwrap();
        }
    }
    let mut next = engine.flush();
    while let Some(action) = next {
        disk.perform(&action);
        let mut crashed = disk.clone();
        let restarted = Store::open(&mut crashed);
        for i in 0..3u8 {
            assert_eq!(restarted.get(&[i]).unwrap(), Some(vec![i, i]));
        }
        next = engine.done().unwrap();
    }
}

#[test]
fn compaction_starts_by_itself_behind_the_fifth_table() {
    let mut disk = Disk::default();
    let mut store = Store::open(&mut disk);
    for i in 0..4u8 {
        store.put(&[i], &[i]).unwrap();
        store.flush().unwrap();
    }
    assert_eq!(store.disk.tables.len(), 4);
    store.put(&[4], &[4]).unwrap();
    store.flush().unwrap();
    assert_eq!(store.disk.tables.len(), 1);
    for i in 0..5u8 {
        assert_eq!(store.get(&[i]).unwrap(), Some(vec![i]));
    }
}

#[test]
fn a_large_memtable_is_flushed_by_itself() {
    let mut disk = Disk::default();
    let mut store = Store::open(&mut disk);
    store.put(b"big", &vec![7; 4 * 1024 * 1024]).unwrap();
    assert_eq!(store.disk.tables.len(), 1);
    assert!(store.disk.log.is_empty());
    assert_eq!(store.get(b"big").unwrap().unwrap().len(), 4 * 1024 * 1024);
}

#[test]
fn a_broken_table_is_reported() {
    let mut disk = Disk::default();
    disk.tables.insert(table_name(3), vec![1, 2, 3]);
    assert!(matches!(disk.engine(), Err(Error::Corruption(_))));
}

#[test]
fn table_names_stand_for_their_numbers() {
    assert_eq!(table_name(7), b"000007.sst".to_vec());
    assert_eq!(table_id(b"000007.sst"), Some(7));
    assert_eq!(table_id(b"wal.log"), None);
    assert_eq!(table_id(b"000007.sst.tmp"), None);
    let names = vec![table_name(2), b"wal.log".to_vec(), table_name(10), table_name(1)];
    assert_eq!(discover(&names), vec![10, 2, 1]);
}

#[test]
fn any_sequence_of_calls_leaves_the_store_equal_to_a_map() {
    let mut disk = Disk::default();
    let mut model: BTreeMap<Vec<u8>, Vec<u8>> = BTreeMap::new();
    let mut draw: u64 = 7;
    let mut next = |bound: u64| {
        draw = draw.wrapping_mul(6364136223846793005).wrapping_add(1442695040888963407);
        (draw >> 33) % bound
    };
    for _ in 0..12 {
        let mut store = Store::open(&mut disk);
        for _ in 0..40 {
            let key = vec![b'k', next(9) as u8];
            match next(10) {
                0..=4 => {
                    let value = vec![next(250) as u8; next(5) as usize];
                    store.put(&key, &value).unwrap();
                    model.insert(key, value);
                }
                5..=6 => {
                    store.delete(&key).unwrap();
                    model.remove(&key);
                }
                7 => store.flush().unwrap(),
                8 => store.compact().unwrap(),
                _ => {}
            }
            for n in 0..10 {
                let key = vec![b'k', n];
                assert_eq!(store.get(&key).unwrap(), model.get(&key).cloned());
            }
        }
    }
}
