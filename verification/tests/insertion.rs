use std::collections::BTreeMap;
use std::sync::Arc;
use txpool::insertion::{InsertAction, InsertEvent, Insertion};
use txpool::pool::TransactionPool;
use txpool::recovery::{split, Attempt, SegmentOutcome};
use txpool::types::{Action, Public, SignedTransaction, TransactionWithSignature, H256};
use txpool::u256::U256;

fn unsigned(hash: u128, gas: u64) -> TransactionWithSignature {
    TransactionWithSignature {
        hash: (0, hash),
        gas: U256::from_u64(gas),
        gas_price: U256::from_u64(1),
        action: Action::Call((0, 1)),
        data: vec![hash as u8],
        encoded: vec![hash as u8, 99],
    }
}

/// Signers of transactions whose hash is a multiple of five cannot be recovered.
fn recover(tx: &TransactionWithSignature) -> Result<Public, String> {
    assert_eq!(tx.encoded, vec![tx.hash.1 as u8, 99]);
    if tx.hash.1 % 5 == 0 {
        Err("InvalidSignature".to_string())
    } else {
        Ok(Public {
            bytes: vec![tx.hash.1 as u8, 77],
        })
    }
}

fn work_through(txs: Vec<TransactionWithSignature>) -> SegmentOutcome {
    let mut attempts = Vec::new();
    for transaction in txs {
        let reply = recover(&transaction);
        attempts.push(Attempt { transaction, reply });
    }
    SegmentOutcome::of(attempts)
}

/// The deferred pool has no room for transactions whose hash is a multiple of
/// seven.
fn add(tx: &SignedTransaction) -> Result<(), String> {
    if tx.hash().1 % 7 == 0 {
        Err("no room".to_string())
    } else {
        Ok(())
    }
}

struct Report {
    segments: usize,
    cached: Vec<H256>,
    measured: Vec<H256>,
    formed: Vec<H256>,
    offered: Vec<H256>,
    passed: Vec<Arc<SignedTransaction>>,
    failures: BTreeMap<H256, String>,
}

/// Runs an insertion; segments come in from the last to the first.
fn insert(pool: &mut TransactionPool, txs: Vec<TransactionWithSignature>) -> Report {
    let mut insertion = Insertion::new();
    let mut outcomes = Vec::new();
    let mut segments = 0;
    let mut cached = Vec::new();
    let mut measured = Vec::new();
    let mut formed = Vec::new();
    let mut offered = Vec::new();
    let mut event = InsertEvent::Uncached(txs);
    loop {
        assert!(insertion.accepts(&event));
        event = match pool.insert_new_transactions(&mut insertion, event) {
            InsertAction::RecoverInline(all) => {
                segments = 1;
                InsertEvent::Recovered {
                    index: 0,
                    outcome: work_through(all),
                }
            }
            InsertAction::RecoverOnWorkers(parts) => {
                segments = parts.len();
                for (index, part) in parts.into_iter().enumerate() {
                    outcomes.push((index, work_through(part)));
                }
                let (index, outcome) = outcomes.pop().unwrap();
                InsertEvent::Recovered { index, outcome }
            }
            InsertAction::AwaitSegment => {
                let (index, outcome) = outcomes.pop().unwrap();
                InsertEvent::Recovered { index, outcome }
            }
            InsertAction::Open => InsertEvent::Opened,
            InsertAction::Cache(tx) => {
                cached.push(tx.hash());
                InsertEvent::Cached
            }
            InsertAction::Measure {
                transaction,
                is_create,
            } => {
                assert_eq!(is_create, transaction.is_create());
                measured.push(transaction.hash());
                InsertEvent::Measured(21_000)
            }
            InsertAction::CheckForm(tx) => {
                formed.push(tx.hash());
                InsertEvent::Formed(Ok(()))
            }
            InsertAction::Add(request) => {
                assert!(!request.packed);
                assert!(!request.force);
                offered.push(request.transaction.hash());
                InsertEvent::Added(add(&request.transaction))
            }
            InsertAction::Report => {
                assert!(!insertion.accepts(&InsertEvent::Cached));
                assert!(!insertion.accepts(&InsertEvent::Opened));
                let (passed, failures) = insertion.into_report();
                return Report {
                    segments,
                    cached,
                    measured,
                    formed,
                    offered,
                    passed,
                    failures,
                };
            }
        };
    }
}

fn hashes(txs: &[Arc<SignedTransaction>]) -> Vec<u128> {
    let mut out = Vec::new();
    for tx in txs.iter() {
        out.push(tx.hash().1);
    }
    out
}

fn numbers(hashes: &[H256]) -> Vec<u128> {
    let mut out = Vec::new();
    for hash in hashes.iter() {
        out.push(hash.1);
    }
    out
}

fn batch(n: u128) -> Vec<TransactionWithSignature> {
    let mut out = Vec::new();
    for hash in 1..n + 1 {
        out.push(unsigned(hash, if hash % 6 == 0 { 20_000 } else { 21_000 }));
    }
    out
}

#[test]
fn splitting_keeps_every_transaction_in_order() {
    let parts = split(batch(11), 3);
    assert_eq!(parts.len(), 3);
    assert_eq!(parts[0].len(), 4);
    assert_eq!(parts[1].len(), 4);
    assert_eq!(parts[2].len(), 3);
    let mut expected = 1;
    for part in parts.iter() {
        for tx in part.iter() {
            assert_eq!(tx.hash, (0, expected));
            expected += 1;
        }
    }
    assert_eq!(expected, 12);
}

#[test]
fn splitting_evenly_leaves_no_remainder() {
    let parts = split(batch(6), 3);
    assert_eq!(parts.len(), 3);
    for part in parts.iter() {
        assert_eq!(part.len(), 2);
    }
    assert_eq!(split(batch(3), 3).len(), 3);
    assert_eq!(split(batch(4), 1)[0].len(), 4);
}

#[test]
fn failed_recoveries_are_reported_by_hash() {
    let outcome = work_through(batch(6));
    assert_eq!(hashes(&outcome.signed), vec![1, 2, 3, 4, 6]);
    assert_eq!(outcome.signed[1].public.bytes, vec![2, 77]);
    assert_eq!(outcome.failed.len(), 1);
    assert_eq!(
        outcome.failed.get(&(0, 5)).unwrap(),
        "failed to recover the public key: InvalidSignature"
    );
}

#[test]
fn two_batches_add_up_to_one() {
    let mut first = batch(12);
    let second = first.split_off(5);
    let one = work_through(first);
    let two = work_through(second);
    let both = work_through(batch(12));
    let mut signed = hashes(&one.signed);
    signed.extend(hashes(&two.signed));
    assert_eq!(hashes(&both.signed), signed);
    let mut failed = one.failed;
    failed.extend(two.failed);
    assert_eq!(both.failed, failed);
}

#[test]
fn the_last_failure_of_a_hash_gives_the_reason() {
    let outcome = SegmentOutcome::of(vec![
        Attempt {
            transaction: unsigned(1, 1),
            reply: Err("first".to_string()),
        },
        Attempt {
            transaction: unsigned(1, 1),
            reply: Err("second".to_string()),
        },
    ]);
    assert_eq!(outcome.signed.len(), 0);
    assert_eq!(
        outcome.failed.get(&(0, 1)).unwrap(),
        "failed to recover the public key: second"
    );
}

#[test]
fn few_transactions_are_not_split() {
    let mut pool = TransactionPool::with_capacity(10, 2, (0, 0));
    assert_eq!(insert(&mut pool, batch(15)).segments, 1);
    assert_eq!(insert(&mut pool, batch(16)).segments, 2);
}

#[test]
fn no_transactions_are_inserted_at_once() {
    let mut pool = TransactionPool::with_capacity(10, 2, (0, 0));
    let report = insert(&mut pool, Vec::new());
    assert!(report.passed.is_empty());
    assert!(report.failures.is_empty());
    assert!(pool.to_propagate_trans.is_empty());
}

#[test]
fn an_insertion_sorts_out_what_passes() {
    let mut pool = TransactionPool::with_capacity(10, 8, (0, 0));
    let report = insert(&mut pool, batch(14));
    assert_eq!(
        numbers(&report.cached),
        vec![1, 2, 3, 4, 6, 7, 8, 9, 11, 12, 13, 14]
    );
    assert_eq!(report.measured, report.cached);
    assert_eq!(
        numbers(&report.formed),
        vec![1, 2, 3, 4, 7, 8, 9, 11, 13, 14]
    );
    assert_eq!(report.offered, report.formed);
    assert_eq!(hashes(&report.passed), vec![1, 2, 3, 4, 8, 9, 11, 13]);
    assert_eq!(report.failures.len(), 6);
    for hash in [5, 10] {
        assert_eq!(
            report.failures.get(&(0, hash)).unwrap(),
            "failed to recover the public key: InvalidSignature"
        );
    }
    for hash in [6, 12] {
        assert_eq!(
            report.failures.get(&(0, hash)).unwrap(),
            "transaction gas 20000 less than intrinsic gas 21000"
        );
    }
    for hash in [7, 14] {
        assert_eq!(report.failures.get(&(0, hash)).unwrap(), "no room");
    }
    assert_eq!(pool.to_propagate_trans.len(), 8);
    for tx in report.passed.iter() {
        let passed_on = pool.to_propagate_trans.get(&tx.hash()).unwrap();
        assert!(Arc::ptr_eq(passed_on, tx));
        assert_eq!(passed_on.public.bytes, vec![tx.hash().1 as u8, 77]);
    }
}

#[test]
fn workers_change_nothing_in_the_result() {
    let mut alone = TransactionPool::with_capacity(10, 100, (0, 0));
    let mut many = TransactionPool::with_capacity(10, 3, (0, 0));
    let one = insert(&mut alone, batch(50));
    let three = insert(&mut many, batch(50));
    assert_eq!(one.segments, 1);
    assert_eq!(three.segments, 3);
    assert_eq!(one.cached, three.cached);
    assert_eq!(one.measured, three.measured);
    assert_eq!(one.formed, three.formed);
    assert_eq!(one.offered, three.offered);
    assert_eq!(hashes(&one.passed), hashes(&three.passed));
    assert_eq!(one.failures, three.failures);
    assert_eq!(alone.to_propagate_trans.len(), many.to_propagate_trans.len());
    for hash in alone.to_propagate_trans.keys() {
        assert!(many.to_propagate_trans.contains_key(hash));
    }
}

#[test]
fn every_transaction_passes_or_fails() {
    let mut pool = TransactionPool::with_capacity(10, 4, (0, 0));
    let report = insert(&mut pool, batch(70));
    for hash in 1..71 {
        assert!(
            hashes(&report.passed).contains(&hash) || report.failures.contains_key(&(0, hash))
        );
    }
    for hash in hashes(&report.passed) {
        assert!(hash % 5 != 0 && hash % 6 != 0 && hash % 7 != 0);
    }
}

#[test]
fn what_is_to_be_passed_on_keeps_its_place() {
    let mut pool = TransactionPool::with_capacity(10, 8, (0, 0));
    let there = Arc::new(SignedTransaction::new(
        Public { bytes: vec![1] },
        unsigned(1, 5),
    ));
    let mut all = BTreeMap::new();
    all.insert((0, 1), there.clone());
    pool.set_to_propagate_trans(all);
    let report = insert(
        &mut pool,
        vec![unsigned(1, 21_000), unsigned(2, 21_000), unsigned(2, 22_000)],
    );
    assert_eq!(hashes(&report.passed), vec![1, 2, 2]);
    assert_eq!(pool.to_propagate_trans.len(), 2);
    assert!(Arc::ptr_eq(
        pool.to_propagate_trans.get(&(0, 1)).unwrap(),
        &there
    ));
    assert!(Arc::ptr_eq(
        pool.to_propagate_trans.get(&(0, 2)).unwrap(),
        &report.passed[1]
    ));
}

#[test]
fn the_last_refusal_of_a_hash_gives_the_reason() {
    let mut pool = TransactionPool::with_capacity(10, 8, (0, 0));
    let report = insert(
        &mut pool,
        vec![unsigned(7, 21_000), unsigned(7, 1), unsigned(1, 21_000)],
    );
    assert_eq!(report.failures.len(), 1);
    assert_eq!(
        report.failures.get(&(0, 7)).unwrap(),
        "transaction gas 1 less than intrinsic gas 21000"
    );
    assert_eq!(hashes(&report.passed), vec![1]);
}

#[test]
fn unsound_form_fails_before_the_deferred_pool_is_asked() {
    let mut pool = TransactionPool::with_capacity(10, 8, (0, 0));
    let mut insertion = Insertion::new();
    let event = InsertEvent::Uncached(vec![unsigned(1, 21_000)]);
    let action = pool.insert_new_transactions(&mut insertion, event);
    assert!(matches!(action, InsertAction::RecoverInline(_)));
    let event = InsertEvent::Recovered {
        index: 0,
        outcome: work_through(vec![unsigned(1, 21_000)]),
    };
    let action = pool.insert_new_transactions(&mut insertion, event);
    assert!(matches!(action, InsertAction::Open));
    let action = pool.insert_new_transactions(&mut insertion, InsertEvent::Opened);
    assert!(matches!(action, InsertAction::Cache(_)));
    let action = pool.insert_new_transactions(&mut insertion, InsertEvent::Cached);
    assert!(matches!(
        action,
        InsertAction::Measure {
            is_create: false,
            ..
        }
    ));
    let action = pool.insert_new_transactions(&mut insertion, InsertEvent::Measured(21_000));
    assert!(matches!(action, InsertAction::CheckForm(_)));
    let event = InsertEvent::Formed(Err("ZeroGasPrice".to_string()));
    let action = pool.insert_new_transactions(&mut insertion, event);
    assert!(matches!(action, InsertAction::Report));
    let (passed, failures) = insertion.into_report();
    assert!(passed.is_empty());
    assert_eq!(failures.get(&(0, 1)).unwrap(), "ZeroGasPrice");
    assert!(pool.to_propagate_trans.is_empty());
}

#[test]
fn an_insertion_accepts_only_what_it_waits_for() {
    let insertion = Insertion::new();
    assert!(insertion.accepts(&InsertEvent::Uncached(Vec::new())));
    assert!(!insertion.accepts(&InsertEvent::Opened));
    assert!(!insertion.accepts(&InsertEvent::Added(Ok(()))));
    let mut pool = TransactionPool::with_capacity(10, 8, (0, 0));
    let mut insertion = Insertion::new();
    pool.insert_new_transactions(&mut insertion, InsertEvent::Uncached(Vec::new()));
    assert!(!insertion.accepts(&InsertEvent::Uncached(Vec::new())));
    assert!(insertion.accepts(&InsertEvent::Recovered {
        index: 0,
        outcome: work_through(Vec::new())
    }));
    assert!(!insertion.accepts(&InsertEvent::Recovered {
        index: 1,
        outcome: work_through(Vec::new())
    }));
}

#[test]
fn nothing_more_is_asked_of_a_refused_transaction() {
    let mut pool = TransactionPool::with_capacity(10, 8, (0, 0));
    let mut cheap = unsigned(4, 21_000);
    cheap.gas_price = U256::zero();
    let report = insert(
        &mut pool,
        vec![
            unsigned(1, 100_000_001),
            unsigned(2, 20_999),
            unsigned(3, 21_000),
            cheap,
        ],
    );
    assert_eq!(numbers(&report.cached), vec![1, 2, 3, 4]);
    assert_eq!(numbers(&report.measured), vec![2, 3, 4]);
    assert_eq!(numbers(&report.formed), vec![3]);
    assert_eq!(numbers(&report.offered), vec![3]);
    assert_eq!(hashes(&report.passed), vec![3]);
    assert_eq!(report.failures.len(), 3);
    assert_eq!(
        report.failures.get(&(0, 1)).unwrap(),
        "transaction gas 100000001 exceeds the maximum value 100000000"
    );
    assert_eq!(
        report.failures.get(&(0, 4)).unwrap(),
        "transaction gas price 0 less than the minimum value 1"
    );
}

#[test]
fn creations_are_measured_as_such() {
    let mut pool = TransactionPool::with_capacity(10, 8, (0, 0));
    let mut creation = unsigned(1, 21_000);
    creation.action = Action::Create;
    let mut insertion = Insertion::new();
    pool.insert_new_transactions(&mut insertion, InsertEvent::Uncached(vec![unsigned(1, 21_000)]));
    let event = InsertEvent::Recovered {
        index: 0,
        outcome: work_through(vec![creation]),
    };
    pool.insert_new_transactions(&mut insertion, event);
    pool.insert_new_transactions(&mut insertion, InsertEvent::Opened);
    let action = pool.insert_new_transactions(&mut insertion, InsertEvent::Cached);
    assert!(matches!(
        action,
        InsertAction::Measure {
            is_create: true,
            ..
        }
    ));
}

#[test]
fn distinct_transactions_add_up() {
    let mut pool = TransactionPool::with_capacity(10, 4, (0, 0));
    let report = insert(&mut pool, batch(70));
    assert_eq!(report.passed.len() + report.failures.len(), 70);
    for tx in report.passed.iter() {
        assert!(!report.failures.contains_key(&tx.hash()));
    }
    for hash in report.failures.keys() {
        assert!(hash.0 == 0 && 1 <= hash.1 && hash.1 <= 70);
    }
}

/// Recovers no signer, and gives the position as the reason.
fn refuse_all(txs: Vec<TransactionWithSignature>, first: usize) -> SegmentOutcome {
    let mut attempts = Vec::new();
    for (i, transaction) in txs.into_iter().enumerate() {
        attempts.push(Attempt {
            transaction,
            reply: Err(format!("at {}", first + i)),
        });
    }
    SegmentOutcome::of(attempts)
}

#[test]
fn on_one_thread_the_last_of_several_reasons_stands() {
    let mut pool = TransactionPool::with_capacity(10, 2, (0, 0));
    let mut insertion = Insertion::new();
    let txs = || vec![unsigned(5, 1), unsigned(6, 1), unsigned(5, 1)];
    pool.insert_new_transactions(&mut insertion, InsertEvent::Uncached(txs()));
    let event = InsertEvent::Recovered {
        index: 0,
        outcome: refuse_all(txs(), 0),
    };
    pool.insert_new_transactions(&mut insertion, event);
    let action = pool.insert_new_transactions(&mut insertion, InsertEvent::Opened);
    assert!(matches!(action, InsertAction::Report));
    let (passed, failures) = insertion.into_report();
    assert!(passed.is_empty());
    assert_eq!(failures.len(), 2);
    assert_eq!(
        failures.get(&(0, 5)).unwrap(),
        "failed to recover the public key: at 2"
    );
    assert_eq!(
        failures.get(&(0, 6)).unwrap(),
        "failed to recover the public key: at 1"
    );
}

#[test]
fn among_workers_the_segment_that_comes_last_gives_the_reason() {
    for order in [[0, 1], [1, 0]] {
        let mut pool = TransactionPool::with_capacity(10, 2, (0, 0));
        let mut insertion = Insertion::new();
        let mut txs = Vec::new();
        for _ in 0..16 {
            txs.push(unsigned(5, 1));
        }
        let action = pool.insert_new_transactions(&mut insertion, InsertEvent::Uncached(txs));
        assert!(matches!(action, InsertAction::RecoverOnWorkers(_)));
        for index in order {
            let mut part = Vec::new();
            for _ in 0..8 {
                part.push(unsigned(5, 1));
            }
            let event = InsertEvent::Recovered {
                index,
                outcome: refuse_all(part, 8 * index),
            };
            pool.insert_new_transactions(&mut insertion, event);
        }
        pool.insert_new_transactions(&mut insertion, InsertEvent::Opened);
        let (passed, failures) = insertion.into_report();
        assert!(passed.is_empty());
        assert_eq!(failures.len(), 1);
        assert_eq!(
            failures.get(&(0, 5)).unwrap(),
            if order == [0, 1] {
                "failed to recover the public key: at 15"
            } else {
                "failed to recover the public key: at 7"
            }
        );
    }
}

#[test]
fn segments_that_agree_give_one_reason_in_any_order() {
    for order in [[0, 1], [1, 0]] {
        let mut pool = TransactionPool::with_capacity(10, 2, (0, 0));
        let mut insertion = Insertion::new();
        let mut txs = Vec::new();
        for _ in 0..16 {
            txs.push(unsigned(5, 1));
        }
        pool.insert_new_transactions(&mut insertion, InsertEvent::Uncached(txs));
        for index in order {
            let mut attempts = Vec::new();
            for i in 0..8 {
                attempts.push(Attempt {
                    transaction: unsigned(5, 1),
                    reply: Err(if i < 7 {
                        format!("at {} of {}", i, index)
                    } else {
                        "at last".to_string()
                    }),
                });
            }
            let event = InsertEvent::Recovered {
                index,
                outcome: SegmentOutcome::of(attempts),
            };
            pool.insert_new_transactions(&mut insertion, event);
        }
        pool.insert_new_transactions(&mut insertion, InsertEvent::Opened);
        let (_, failures) = insertion.into_report();
        assert_eq!(failures.len(), 1);
        assert_eq!(
            failures.get(&(0, 5)).unwrap(),
            "failed to recover the public key: at last"
        );
    }
}
