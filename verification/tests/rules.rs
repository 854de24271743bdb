use txpool::pool::TransactionPool;
use txpool::rules::{
    NextCheck, DEFAULT_MAX_BLOCK_GAS_LIMIT, DEFAULT_MAX_TRANSACTION_GAS_LIMIT,
    DEFAULT_MIN_TRANSACTION_GAS_PRICE,
};
use txpool::types::{Action, Public, SignedTransaction, TransactionWithSignature};
use txpool::u256::U256;

fn tx(gas: U256, gas_price: U256) -> SignedTransaction {
    SignedTransaction::new(
        Public { bytes: vec![1, 2] },
        TransactionWithSignature {
            hash: (0, 1),
            gas,
            gas_price,
            action: Action::Create,
            data: vec![0, 9],
            encoded: vec![3],
        },
    )
}

fn verify(gas: U256, gas_price: u64, intrinsic_gas: u64, basic: Result<(), String>) -> Result<(), String> {
    let pool = TransactionPool::with_capacity(10, 8, (0, 7));
    pool.verify_transaction(&tx(gas, U256::from_u64(gas_price)), intrinsic_gas, basic)
}

#[test]
fn limits_are_as_documented() {
    assert_eq!(DEFAULT_MIN_TRANSACTION_GAS_PRICE, 1);
    assert_eq!(DEFAULT_MAX_TRANSACTION_GAS_LIMIT, 100_000_000);
    assert_eq!(DEFAULT_MAX_BLOCK_GAS_LIMIT, 3_000_000_000);
}

#[test]
fn sound_transactions_are_let_through() {
    assert_eq!(verify(U256::from_u64(21_000), 1, 21_000, Ok(())), Ok(()));
    assert_eq!(verify(U256::from_u64(100_000_000), 1, 21_000, Ok(())), Ok(()));
    assert_eq!(verify(U256::from_u64(0), 1, 0, Ok(())), Ok(()));
}

#[test]
fn gas_above_the_limit_is_refused() {
    assert_eq!(
        verify(U256::from_u64(100_000_001), 1, 21_000, Ok(())),
        Err("transaction gas 100000001 exceeds the maximum value 100000000".to_string())
    );
    assert_eq!(
        verify(U256 { hi: 1, lo: 0 }, 1, 21_000, Ok(())),
        Err("transaction gas 340282366920938463463374607431768211456 exceeds the maximum value 100000000".to_string())
    );
}

#[test]
fn gas_below_what_is_needed_is_refused() {
    assert_eq!(
        verify(U256::from_u64(20_999), 1, 21_000, Ok(())),
        Err("transaction gas 20999 less than intrinsic gas 21000".to_string())
    );
}

#[test]
fn gas_price_below_the_minimum_is_refused() {
    assert_eq!(
        verify(U256::from_u64(21_000), 0, 21_000, Ok(())),
        Err("transaction gas price 0 less than the minimum value 1".to_string())
    );
}

#[test]
fn unsound_form_is_refused_with_its_reason() {
    assert_eq!(
        verify(U256::from_u64(21_000), 1, 21_000, Err("InvalidChainId".to_string())),
        Err("InvalidChainId".to_string())
    );
}

#[test]
fn the_first_broken_rule_decides() {
    let broken = || Err("InvalidChainId".to_string());
    assert_eq!(
        verify(U256::from_u64(100_000_001), 0, u64::MAX, broken()),
        Err("transaction gas 100000001 exceeds the maximum value 100000000".to_string())
    );
    assert_eq!(
        verify(U256::from_u64(5), 0, 6, broken()),
        Err("transaction gas 5 less than intrinsic gas 6".to_string())
    );
    assert_eq!(
        verify(U256::from_u64(5), 0, 5, broken()),
        Err("transaction gas price 0 less than the minimum value 1".to_string())
    );
}

#[test]
fn numbers_compare_by_value() {
    let small = U256 { hi: 0, lo: u128::MAX };
    let large = U256 { hi: 1, lo: 0 };
    assert!(small.less_than(&large));
    assert!(!large.less_than(&small));
    assert!(!large.less_than(&large));
    assert!(U256::zero().less_than(&U256::from_usize(1)));
}

#[test]
fn transactions_tell_whether_they_create() {
    let mut call = tx(U256::zero(), U256::zero());
    assert!(call.is_create());
    assert_eq!(call.hash(), (0, 1));
    call.transaction.action = Action::Call((1, 2));
    assert!(!call.is_create());
}

#[test]
fn checks_come_in_turn() {
    let pool = TransactionPool::with_capacity(10, 8, (0, 7));
    let price = U256::from_u64(1);
    let high = tx(U256::from_u64(100_000_001), price);
    match pool.next_check(&high, None) {
        NextCheck::Refused(e) => assert_eq!(
            e,
            "transaction gas 100000001 exceeds the maximum value 100000000"
        ),
        _ => panic!("gas over the limit"),
    }
    let ordinary = tx(U256::from_u64(21_000), price);
    assert!(matches!(
        pool.next_check(&ordinary, None),
        NextCheck::IntrinsicGas
    ));
    assert!(matches!(
        pool.next_check(&ordinary, Some(21_000)),
        NextCheck::Form
    ));
    match pool.next_check(&ordinary, Some(21_001)) {
        NextCheck::Refused(e) => {
            assert_eq!(e, "transaction gas 21000 less than intrinsic gas 21001")
        }
        _ => panic!("gas below what it takes"),
    }
    let free = tx(U256::from_u64(21_000), U256::zero());
    assert!(matches!(
        pool.next_check(&free, None),
        NextCheck::IntrinsicGas
    ));
    match pool.next_check(&free, Some(21_000)) {
        NextCheck::Refused(e) => assert_eq!(
            e,
            "transaction gas price 0 less than the minimum value 1"
        ),
        _ => panic!("gas price below the minimum"),
    }
}
