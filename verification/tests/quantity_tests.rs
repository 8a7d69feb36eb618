use ledger_balances::quantity::{Quantity, MAX_SCALE};

fn q(mantissa: i64, scale: u32) -> Quantity {
    Quantity::new(mantissa, scale).expect("scale in range")
}

#[test]
fn new_rejects_a_scale_past_the_limit() {
    assert!(Quantity::new(1, MAX_SCALE).is_some());
    assert!(Quantity::new(1, MAX_SCALE + 1).is_none());
}

#[test]
fn checked_sub_is_exact_at_one_scale() {
    // 0.3 - 0.1 == 0.2, with no binary rounding
    assert_eq!(q(3, 1).checked_sub(q(1, 1)), Some(q(2, 1)));
}

#[test]
fn checked_sub_rescales_to_the_finer_operand() {
    // 1 - 0.25 == 0.75, carried at two decimal places
    assert_eq!(q(1, 0).checked_sub(q(25, 2)), Some(q(75, 2)));
}

#[test]
fn checked_sub_signals_overflow() {
    assert_eq!(q(0, 0).checked_sub(q(i64::MIN, 0)), None);
}

#[test]
fn le_compares_values_across_scales() {
    // 0.5 written two ways is one value
    assert!(q(5, 1).le(q(50, 2)));
    assert!(q(50, 2).le(q(5, 1)));
    assert!(q(-1, 0).le(q(5, 1)));
    assert!(!q(5, 1).le(q(-1, 0)));
}

#[test]
fn trunc_drops_the_fraction_toward_zero() {
    assert_eq!(q(15, 1).trunc(), 1);
    assert_eq!(q(-15, 1).trunc(), -1);
    assert_eq!(q(7, 0).trunc(), 7);
    assert_eq!(q(0, 3).trunc(), 0);
}

#[test]
fn zero_is_the_integer_zero() {
    assert_eq!(Quantity::zero(), Quantity::from_integer(0));
}
