use txpool::u256::U256;

#[test]
fn prints_in_decimal() {
    assert_eq!(U256::from_u64(0).to_decimal(), "0");
    assert_eq!(U256::from_u64(9).to_decimal(), "9");
    assert_eq!(U256::from_u64(10).to_decimal(), "10");
    assert_eq!(U256::from_u64(100_000_001).to_decimal(), "100000001");
    assert_eq!(
        U256::from_u64(u64::MAX).to_decimal(),
        "18446744073709551615"
    );
    assert_eq!(
        U256 { hi: 1, lo: 0 }.to_decimal(),
        "340282366920938463463374607431768211456"
    );
    assert_eq!(
        U256 {
            hi: u128::MAX,
            lo: u128::MAX
        }
        .to_decimal(),
        "115792089237316195423570985008687907853269984665640564039457584007913129639935"
    );
}
