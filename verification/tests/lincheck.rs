//! Histories that are linearizable, and some that are not.

use cairn::raft::lincheck::{check, Event, Op, Ret};

fn put(process: u64, key: &str, val: &str, invoke: u64, complete: u64) -> Event {
    Event {
        process,
        op: Op::Put {
            key: key.as_bytes().to_vec(),
            val: val.as_bytes().to_vec(),
        },
        ret: Ret::PutOk,
        invoke,
        complete,
    }
}

fn get(process: u64, key: &str, val: Option<&str>, invoke: u64, complete: u64) -> Event {
    Event {
        process,
        op: Op::Get {
            key: key.as_bytes().to_vec(),
        },
        ret: Ret::GetVal(val.map(|value| value.as_bytes().to_vec())),
        invoke,
        complete,
    }
}

#[test]
fn simple_sequential_history_is_linearizable() {
    let history = vec![
        get(1, "key", None, 1, 2),
        put(1, "key", "value", 3, 4),
        get(1, "key", Some("value"), 5, 6),
    ];

    let report = check(&history);

    assert!(report.linearizable);
    assert!(report.witness.is_none());
}

#[test]
fn stale_read_without_a_valid_linearization_is_rejected() {
    let history = vec![
        put(1, "key", "old", 1, 2),
        put(1, "key", "new", 3, 4),
        get(1, "key", Some("old"), 5, 6),
    ];

    let report = check(&history);

    assert!(!report.linearizable);
    let witness = report.witness.expect("failure should include a witness");
    assert!(witness.contains("key 0x6b6579"));
    assert!(witness.contains("Get"));
}

#[test]
fn overlapping_puts_allow_either_value_for_a_later_get() {
    for expected in ["first", "second"] {
        let history = vec![
            put(1, "key", "first", 1, 5),
            put(2, "key", "second", 2, 6),
            get(3, "key", Some(expected), 7, 8),
        ];

        assert!(
            check(&history).linearizable,
            "later Get returning {expected:?} should be linearizable"
        );
    }
}

#[test]
fn value_cannot_resurrect_after_a_linearized_overwrite() {
    let history = vec![
        put(1, "key", "old", 1, 2),
        put(2, "key", "new", 3, 8),
        get(3, "key", Some("new"), 4, 5),
        get(4, "key", Some("old"), 9, 10),
    ];

    let report = check(&history);

    assert!(!report.linearizable);
    assert!(report.witness.is_some());
}

#[test]
fn defect_on_one_key_is_caught_when_other_keys_are_valid() {
    let history = vec![
        put(1, "good", "one", 1, 2),
        get(1, "good", Some("one"), 3, 4),
        put(2, "bad", "old", 5, 6),
        put(2, "bad", "new", 7, 8),
        get(2, "bad", Some("old"), 9, 10),
        get(1, "good", Some("one"), 11, 12),
    ];

    let report = check(&history);

    assert!(!report.linearizable);
    let witness = report.witness.expect("failure should include a witness");
    assert!(witness.contains("key 0x626164"));
}

#[test]
fn moderately_concurrent_generated_history_is_linearizable() {
    let mut history = Vec::new();
    let mut invocation = 1;

    for round in 0..16_u8 {
        for key_id in 0..5_u8 {
            let key = vec![key_id];
            let val = vec![round, key_id];

            history.push(Event {
                process: invocation,
                op: Op::Put {
                    key: key.clone(),
                    val: val.clone(),
                },
                ret: Ret::PutOk,
                invoke: invocation,
                complete: invocation + 10_000,
            });
            invocation += 1;
            history.push(Event {
                process: invocation,
                op: Op::Get { key },
                ret: Ret::GetVal(Some(val)),
                invoke: invocation,
                complete: invocation + 10_000,
            });
            invocation += 1;
        }
    }

    assert!(check(&history).linearizable);
}

#[test]
fn sequential_histories_are_linearizable() {
    let key = b"property-key".to_vec();
    let mut history = Vec::new();
    for index in 0..24u64 {
        let invoke = index * 4 + 1;
        let value = vec![index as u8; (index % 8) as usize];
        history.push(Event {
            process: 1,
            op: Op::Put {
                key: key.clone(),
                val: value.clone(),
            },
            ret: Ret::PutOk,
            invoke,
            complete: invoke + 1,
        });
        history.push(Event {
            process: 1,
            op: Op::Get { key: key.clone() },
            ret: Ret::GetVal(Some(value)),
            invoke: invoke + 2,
            complete: invoke + 3,
        });
    }
    assert!(check(&history).linearizable);
}

#[test]
fn an_empty_history_is_linearizable() {
    let report = check(&[]);
    assert!(report.linearizable);
    assert_eq!(report.witness, None);
}

#[test]
fn an_invalid_interval_is_named() {
    let history = vec![put(4, "key", "v", 1, 2), get(9, "key", Some("v"), 7, 7)];
    let report = check(&history);
    assert!(!report.linearizable);
    assert_eq!(
        report.witness.unwrap(),
        "key 0x6b6579 is not linearizable: operation #1 (process 9 Get -> GetVal(Some([118])), \
         invoke=7, complete=7) has invalid interval invoke=7 complete=7"
    );
}

#[test]
fn the_deepest_contradiction_is_named() {
    let history = vec![
        put(1, "key", "old", 1, 2),
        put(1, "key", "new", 3, 4),
        get(1, "key", Some("old"), 5, 6),
    ];
    assert_eq!(
        check(&history).witness.unwrap(),
        "key 0x6b6579 is not linearizable: operation #2 (process 1 Get -> \
         GetVal(Some([111, 108, 100])), invoke=5, complete=6) reached a contradiction: \
         Get returned Some(0x6f6c64), but the register contains Some(0x6e6577)"
    );
}

#[test]
fn mismatched_returns_are_named() {
    let mut history = vec![put(1, "a", "v", 1, 2)];
    history[0].ret = Ret::GetVal(None);
    assert_eq!(
        check(&history).witness.unwrap(),
        "key 0x61 is not linearizable: operation #0 (process 1 Put(0x76) -> GetVal(None), \
         invoke=1, complete=2) reached a contradiction: Put returned None, expected PutOk"
    );
    let mut history = vec![get(1, "a", None, 1, 2)];
    history[0].ret = Ret::PutOk;
    assert_eq!(
        check(&history).witness.unwrap(),
        "key 0x61 is not linearizable: operation #0 (process 1 Get -> PutOk, invoke=1, \
         complete=2) reached a contradiction: Get returned PutOk, expected GetVal"
    );
}

#[test]
fn the_first_bad_key_by_its_bytes_is_named() {
    let history = vec![
        get(1, "b", Some("x"), 1, 2),
        get(2, "a", Some("y"), 3, 4),
        get(3, "", None, 5, 6),
    ];
    let witness = check(&history).witness.unwrap();
    assert!(witness.contains("key 0x61 "));
    assert!(witness.contains("operation #1 "));
    assert!(witness.contains("Get returned Some(0x79), but the register contains None"));
}

#[test]
fn operations_that_only_touch_may_be_swapped() {
    let history = vec![put(1, "key", "v", 4, 6), get(2, "key", Some("v"), 2, 4)];
    assert!(check(&history).linearizable);
    let history = vec![put(1, "key", "v", 5, 6), get(2, "key", Some("v"), 2, 4)];
    assert!(!check(&history).linearizable);
}
