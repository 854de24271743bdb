use std::collections::BTreeMap;
use std::sync::Arc;
use txpool::maps::extend;
use txpool::pool::TransactionPool;
use txpool::types::{Action, Public, SignedTransaction, TransactionWithSignature, H256};
use txpool::u256::U256;

fn tx(hash: H256, mark: u8) -> Arc<SignedTransaction> {
    Arc::new(SignedTransaction::new(
        Public { bytes: vec![mark] },
        TransactionWithSignature {
            hash,
            gas: U256::from_u64(21_000),
            gas_price: U256::from_u64(1),
            action: Action::Create,
            data: Vec::new(),
            encoded: vec![mark],
        },
    ))
}

fn map(items: &[(H256, u8)]) -> BTreeMap<H256, Arc<SignedTransaction>> {
    let mut all = BTreeMap::new();
    for (hash, mark) in items {
        all.insert(*hash, tx(*hash, *mark));
    }
    all
}

fn marks(all: &BTreeMap<H256, Arc<SignedTransaction>>) -> Vec<(H256, u8)> {
    let mut out = Vec::new();
    for (hash, tx) in all.iter() {
        out.push((*hash, tx.public.bytes[0]));
    }
    out
}

fn pool() -> TransactionPool {
    TransactionPool::with_capacity(10, 8, (3, 4))
}

#[test]
fn a_new_pool_has_nothing_to_pass_on() {
    let mut pool = pool();
    assert_eq!(pool.capacity, 10);
    assert_eq!(pool.worker_parallelism, 8);
    assert_eq!(pool.best_executed_epoch, (3, 4));
    assert!(pool.get_to_propagate_trans().is_empty());
}

#[test]
fn handing_out_leaves_nothing() {
    let mut pool = pool();
    pool.set_to_propagate_trans(map(&[((0, 1), 1), ((1, 0), 2)]));
    let all = pool.get_to_propagate_trans();
    assert_eq!(marks(&all), vec![((0, 1), 1), ((1, 0), 2)]);
    assert!(pool.get_to_propagate_trans().is_empty());
    pool.set_to_propagate_trans(all);
    assert_eq!(
        marks(&pool.to_propagate_trans),
        vec![((0, 1), 1), ((1, 0), 2)]
    );
}

#[test]
fn putting_back_takes_the_place_of_what_came_later() {
    let mut pool = pool();
    pool.set_to_propagate_trans(map(&[((0, 1), 1), ((0, 2), 2)]));
    pool.set_to_propagate_trans(map(&[((0, 2), 9), ((0, 3), 3)]));
    assert_eq!(
        marks(&pool.to_propagate_trans),
        vec![((0, 1), 1), ((0, 2), 9), ((0, 3), 3)]
    );
}

#[test]
fn removing_drops_one_transaction() {
    let mut pool = pool();
    pool.set_to_propagate_trans(map(&[((0, 1), 1), ((0, 2), 2)]));
    pool.remove_to_propagate(&(0, 1));
    pool.remove_to_propagate(&(0, 5));
    pool.remove_to_propagate(&(0, 1));
    assert_eq!(marks(&pool.to_propagate_trans), vec![((0, 2), 2)]);
}

#[test]
fn maps_extend_each_other() {
    let mut target: BTreeMap<H256, u8> = BTreeMap::new();
    target.insert((0, 1), 1);
    target.insert((0, 2), 2);
    let mut source: BTreeMap<H256, u8> = BTreeMap::new();
    source.insert((0, 2), 7);
    source.insert((9, 9), 8);
    extend(&mut target, source);
    assert_eq!(target.get(&(0, 1)), Some(&1));
    assert_eq!(target.get(&(0, 2)), Some(&7));
    assert_eq!(target.get(&(9, 9)), Some(&8));
    assert_eq!(target.len(), 3);
}

#[test]
fn unknown_accounts_have_nothing() {
    let pool = pool();
    assert_eq!(
        pool.get_local_account_info(None),
        (U256::zero(), U256::zero())
    );
    let info = (U256::from_u64(4), U256 { hi: 1, lo: 2 });
    assert_eq!(pool.get_local_account_info(Some(info)), info);
}

#[test]
fn requests_carry_what_they_are_given() {
    let one = tx((0, 1), 1);
    let request = TransactionPool::add_transaction_and_check_readiness_without_lock(
        one.clone(),
        true,
        false,
    );
    assert!(Arc::ptr_eq(&request.transaction, &one));
    assert!(request.packed);
    assert!(!request.force);
}

#[test]
fn recycled_transactions_are_forced_in_order() {
    let pool = pool();
    let requests = pool
        .recycle_transactions(vec![tx((0, 2), 2), tx((0, 1), 1)])
        .unwrap();
    assert_eq!(requests.len(), 2);
    assert_eq!(requests[0].transaction.hash(), (0, 2));
    assert_eq!(requests[1].transaction.hash(), (0, 1));
    for request in requests.iter() {
        assert!(request.force);
        assert!(!request.packed);
    }
}

#[test]
fn packed_transactions_are_not_forced() {
    let pool = pool();
    let requests = pool
        .set_tx_packed(vec![tx((0, 2), 2), tx((0, 1), 1)])
        .unwrap();
    assert_eq!(requests.len(), 2);
    assert_eq!(requests[0].transaction.hash(), (0, 2));
    assert_eq!(requests[1].transaction.hash(), (0, 1));
    for request in requests.iter() {
        assert!(!request.force);
        assert!(request.packed);
    }
}

#[test]
fn nothing_is_asked_for_no_transactions() {
    let pool = pool();
    assert!(pool.recycle_transactions(Vec::new()).is_none());
    assert!(pool.set_tx_packed(Vec::new()).is_none());
}
