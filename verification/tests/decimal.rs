use scrypto::math::{Decimal as LedgerDecimal, I192};
use staking::Decimal;

fn from_ledger(amount: LedgerDecimal) -> Decimal {
    Decimal::from_digits(amount.attos().to_digits())
}

fn to_ledger(amount: Decimal) -> LedgerDecimal {
    LedgerDecimal::from_attos(I192::from_digits(amount.to_digits()))
}

fn dec(units: i64) -> Decimal {
    from_ledger(LedgerDecimal::from(units))
}

fn samples() -> Vec<LedgerDecimal> {
    vec![
        LedgerDecimal::MIN,
        LedgerDecimal::MIN + LedgerDecimal::ONE_ATTO,
        LedgerDecimal::from(i64::MIN),
        LedgerDecimal::from(-3),
        LedgerDecimal::try_from("-0.000000000000000001").unwrap(),
        LedgerDecimal::ZERO,
        LedgerDecimal::ONE_ATTO,
        LedgerDecimal::try_from("0.5").unwrap(),
        LedgerDecimal::ONE,
        LedgerDecimal::from(2),
        LedgerDecimal::from(u64::MAX),
        LedgerDecimal::from(u128::MAX),
        LedgerDecimal::MAX - LedgerDecimal::ONE_ATTO,
        LedgerDecimal::MAX,
    ]
}

#[test]
fn zero_is_neither_positive_nor_negative() {
    let z = Decimal::zero();
    assert!(!z.is_positive());
    assert!(!z.is_negative());
    assert_eq!(z, dec(0));
    assert_eq!(z.to_digits(), [0, 0, 0]);
}

#[test]
fn order_follows_value() {
    assert!(dec(-3).less_than(&dec(2)));
    assert!(dec(2).less_than(&dec(3)));
    assert!(!dec(3).less_than(&dec(3)));
    assert!(dec(3).at_most(&dec(3)));
    assert!(dec(-1).is_negative());
    assert!(dec(1).is_positive());
}

#[test]
fn digits_go_to_the_ledger_and_back() {
    for amount in samples() {
        assert_eq!(to_ledger(from_ledger(amount)), amount);
        assert_eq!(Decimal::from_digits(from_ledger(amount).to_digits()), from_ledger(amount));
    }
    assert_eq!(dec(1).to_digits(), [1_000_000_000_000_000_000, 0, 0]);
    assert_eq!(dec(-1).to_digits(), [u64::MAX - 999_999_999_999_999_999, u64::MAX, u64::MAX]);
}

#[test]
fn order_and_sign_are_those_of_the_ledger() {
    let all = samples();
    for a in &all {
        assert_eq!(from_ledger(*a).is_negative(), a.is_negative());
        assert_eq!(from_ledger(*a).is_positive(), a.is_positive());
        for b in &all {
            assert_eq!(from_ledger(*a).less_than(&from_ledger(*b)), a < b);
            assert_eq!(from_ledger(*a).at_most(&from_ledger(*b)), a <= b);
            assert_eq!(from_ledger(*a) == from_ledger(*b), a == b);
        }
    }
}
