//! The log over a file in memory.

use cairn::error::{Error, Result};
use cairn::raft::log::RaftLog;
use cairn::raft::oplog::{Op, OpWriter};
use cairn::raft::types::{LogEntry, LogIndex, SnapshotMeta, Term};

/// A log, with the file that its records go to.
struct Log<'a> {
    file: &'a mut Vec<u8>,
    log: RaftLog,
}

impl<'a> Log<'a> {
    fn open(file: &'a mut Vec<u8>) -> Log<'a> {
        let log = RaftLog::open(file);
        file.truncate(log.sound_len() as usize);
        Log { file, log }
    }

    fn write(&mut self, ops: Vec<Op>) {
        for op in ops {
            let mut w = OpWriter::create();
            w.append(&op);
            self.file.extend(w.take());
            self.log.apply(&op);
        }
    }

    fn append(&mut self, entries: &[LogEntry]) -> Result<()> {
        let ops = self.log.append(entries)?;
        self.write(ops);
        Ok(())
    }

    fn truncate_suffix(&mut self, from: LogIndex) -> Result<()> {
        let ops = self.log.truncate_suffix(from);
        self.write(ops);
        Ok(())
    }

    fn compact_prefix(&mut self, up_to: LogIndex, meta: SnapshotMeta) -> Result<()> {
        let ops = self.log.compact_prefix(up_to, meta)?;
        self.write(ops);
        Ok(())
    }

    fn entry(&self, index: LogIndex) -> Option<&LogEntry> {
        self.log.entry(index)
    }

    fn entries_from(&self, index: LogIndex) -> Vec<LogEntry> {
        self.log.entries_from(index)
    }

    fn last_index(&self) -> LogIndex {
        self.log.last_index()
    }

    fn last_term(&self) -> Term {
        self.log.last_term()
    }

    fn snapshot_meta(&self) -> SnapshotMeta {
        self.log.snapshot_meta()
    }
}

fn e(term: u64, index: u64) -> LogEntry {
    LogEntry::normal(term, index, vec![index as u8])
}

#[test]
fn append_and_read_back() {
    let mut dir = Vec::new();
    let mut log = Log::open(&mut dir);
    log.append(&[e(1, 1), e(1, 2), e(2, 3)]).unwrap();
    assert_eq!(log.last_index(), 3);
    assert_eq!(log.last_term(), 2);
    assert_eq!(log.entry(2), Some(&e(1, 2)));
    assert_eq!(log.entries_from(2), vec![e(1, 2), e(2, 3)]);
}

#[test]
fn empty_log_reports_zero() {
    let mut dir = Vec::new();
    let log = Log::open(&mut dir);
    assert_eq!(log.last_index(), 0);
    assert_eq!(log.last_term(), 0);
    assert_eq!(log.entry(1), None);
}

#[test]
fn truncate_suffix_removes_conflicting_tail() {
    let mut dir = Vec::new();
    let mut log = Log::open(&mut dir);
    log.append(&[e(1, 1), e(1, 2), e(1, 3), e(1, 4)]).unwrap();
    log.truncate_suffix(3).unwrap();
    assert_eq!(log.last_index(), 2);
    assert_eq!(log.entry(3), None);
    log.append(&[e(5, 3)]).unwrap();
    assert_eq!(log.entry(3), Some(&e(5, 3)));
}

#[test]
fn truncate_suffix_survives_reopen() {
    let mut dir = Vec::new();
    {
        let mut log = Log::open(&mut dir);
        log.append(&[e(1, 1), e(1, 2), e(1, 3)]).unwrap();
        log.truncate_suffix(2).unwrap();
    }
    let log = Log::open(&mut dir);
    assert_eq!(log.last_index(), 1);
    assert_eq!(log.entry(2), None);
}

#[test]
fn compact_prefix_drops_covered_entries() {
    let mut dir = Vec::new();
    let mut log = Log::open(&mut dir);
    log.append(&[e(1, 1), e(1, 2), e(2, 3), e(2, 4)]).unwrap();
    log.compact_prefix(
        2,
        SnapshotMeta {
            last_index: 2,
            last_term: 1,
        },
    )
    .unwrap();
    assert_eq!(log.entry(1), None);
    assert_eq!(log.entry(2), None);
    assert_eq!(log.entry(3), Some(&e(2, 3)));
    assert_eq!(log.last_index(), 4);
    assert_eq!(
        log.snapshot_meta(),
        SnapshotMeta {
            last_index: 2,
            last_term: 1
        }
    );
}

#[test]
fn compact_to_empty_reports_snapshot_as_last() {
    let mut dir = Vec::new();
    let mut log = Log::open(&mut dir);
    log.append(&[e(1, 1), e(3, 2)]).unwrap();
    log.compact_prefix(
        2,
        SnapshotMeta {
            last_index: 2,
            last_term: 3,
        },
    )
    .unwrap();
    assert_eq!(log.last_index(), 2);
    assert_eq!(log.last_term(), 3);
}

#[test]
fn compaction_survives_reopen() {
    let mut dir = Vec::new();
    {
        let mut log = Log::open(&mut dir);
        log.append(&[e(1, 1), e(1, 2), e(2, 3)]).unwrap();
        log.compact_prefix(
            1,
            SnapshotMeta {
                last_index: 1,
                last_term: 1,
            },
        )
        .unwrap();
    }
    let log = Log::open(&mut dir);
    assert_eq!(log.entry(1), None);
    assert_eq!(log.entry(2), Some(&e(1, 2)));
    assert_eq!(
        log.snapshot_meta(),
        SnapshotMeta {
            last_index: 1,
            last_term: 1
        }
    );
}

#[test]
fn torn_tail_is_truncated_so_later_appends_survive() {

    let mut dir = Vec::new();
    {
        let mut log = Log::open(&mut dir);
        log.append(&[e(1, 1), e(1, 2)]).unwrap();
    }

    dir.extend_from_slice(&[0xDE, 0xAD, 0xBE, 0xEF, 0x01, 0x02, 0x03]);

    {
        let mut log = Log::open(&mut dir);
        assert_eq!(log.last_index(), 2);
        log.append(&[e(1, 3)]).unwrap();
    }

    let log = Log::open(&mut dir);
    assert_eq!(log.last_index(), 3);
    assert_eq!(log.entry(3), Some(&e(1, 3)));
}

#[test]
fn append_rejects_noncontiguous_index() {
    let mut dir = Vec::new();
    let mut log = Log::open(&mut dir);
    log.append(&[e(1, 1), e(1, 2)]).unwrap();

    let result = log.append(&[e(1, 4)]);
    assert!(matches!(result, Err(Error::Corruption(_))));

    assert_eq!(log.last_index(), 2);
    assert_eq!(log.entry(4), None);
}

#[test]
fn compact_rejects_up_to_past_end() {
    let mut dir = Vec::new();
    let mut log = Log::open(&mut dir);
    log.append(&[e(1, 1), e(1, 2)]).unwrap();

    let result = log.compact_prefix(
        5,
        SnapshotMeta {
            last_index: 5,
            last_term: 1,
        },
    );
    assert!(matches!(result, Err(Error::Corruption(_))));
    assert_eq!(log.last_index(), 2);
    assert_eq!(
        log.snapshot_meta(),
        SnapshotMeta {
            last_index: 0,
            last_term: 0
        }
    );
}

#[test]
fn compact_rejects_meta_mismatch() {
    let mut dir = Vec::new();
    let mut log = Log::open(&mut dir);
    log.append(&[e(1, 1), e(1, 2), e(1, 3)]).unwrap();

    let result = log.compact_prefix(
        2,
        SnapshotMeta {
            last_index: 3,
            last_term: 1,
        },
    );
    assert!(matches!(result, Err(Error::Corruption(_))));
    assert_eq!(log.last_index(), 3);
    assert_eq!(
        log.snapshot_meta(),
        SnapshotMeta {
            last_index: 0,
            last_term: 0
        }
    );
}

fn next(state: &mut u64) -> u64 {
    *state = state.wrapping_mul(6_364_136_223_846_793_005).wrapping_add(1_442_695_040_888_963_407);
    *state >> 33
}

/// Random operations agree with a plain list, across restarts.
#[test]
fn random_operations_match_a_list() {
    for seed in 0..40u64 {
        let mut rng = seed + 1;
        let mut file = Vec::new();
        let mut model: Vec<LogEntry> = Vec::new();
        let mut snap = SnapshotMeta::default();
        let mut next_term = 1u64;
        for _ in 0..8 {
            let mut log = Log::open(&mut file);
            for _ in 0..15 {
                let last = model.last().map_or(snap.last_index, |e| e.index);
                match next(&mut rng) % 4 {
                    0 | 1 => {
                        let entry = LogEntry::normal(next_term, last + 1, vec![last as u8]);
                        log.append(std::slice::from_ref(&entry)).unwrap();
                        model.push(entry);
                        next_term += 1;
                    }
                    2 => {
                        let from = snap.last_index + 1 + next(&mut rng) % 8;
                        if from <= last {
                            log.truncate_suffix(from).unwrap();
                            model.retain(|e| e.index < from);
                        }
                    }
                    _ => {
                        let up_to = snap.last_index + next(&mut rng) % 8;
                        if up_to > snap.last_index && up_to <= last {
                            let term = model.iter().find(|e| e.index == up_to).unwrap().term;
                            let meta = SnapshotMeta {
                                last_index: up_to,
                                last_term: term,
                            };
                            log.compact_prefix(up_to, meta).unwrap();
                            model.retain(|e| e.index > up_to);
                            snap = meta;
                        }
                    }
                }
            }
            assert_eq!(log.last_index(), model.last().map_or(snap.last_index, |e| e.index));
            assert_eq!(log.last_term(), model.last().map_or(snap.last_term, |e| e.term));
            assert_eq!(log.snapshot_meta(), snap);
            assert_eq!(log.entries_from(0), model);
            for e in &model {
                assert_eq!(log.entry(e.index), Some(e));
            }
        }
    }
}
