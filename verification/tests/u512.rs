use pop::u512::U512;

fn two_to_the(power: u32) -> U512 {
    let mut value = U512::from(1);
    for _ in 0..power {
        value = value.checked_add(value).expect("the power fits");
    }
    value
}

#[test]
fn from_and_equality() {
    assert_eq!(U512::from(0), U512::zero());
    assert_eq!(U512::from(7), U512::from_u64(7));
    assert_ne!(U512::from(7), U512::from(8));
    assert!(U512::zero().is_zero());
    assert!(!U512::from(1).is_zero());
    assert!(!two_to_the(64).is_zero());
}

#[test]
fn addition_carries_into_the_next_limb() {
    let max = U512::from(u64::MAX);
    let sum = max.checked_add(U512::from(1)).expect("the sum fits");
    assert_eq!(sum, two_to_the(64));
    assert!(sum > max);
    assert_eq!(sum.checked_sub(U512::from(1)), Some(max));
}

#[test]
fn addition_at_the_bound() {
    let max = U512::max_value();
    assert_eq!(max.checked_add(U512::zero()), Some(max));
    assert_eq!(max.checked_add(U512::from(1)), None);
    assert_eq!(max.overflowing_add(U512::from(1)), (U512::zero(), true));
    assert_eq!(max.overflowing_add(U512::from(3)), (U512::from(2), true));
    assert_eq!(U512::from(2).overflowing_add(U512::from(3)), (U512::from(5), false));
    let half = two_to_the(511);
    assert_eq!(half.checked_add(half), None);
    assert_eq!(half.checked_add(half.saturating_sub(U512::from(1))), Some(max));
}

#[test]
fn subtraction_saturates_at_zero() {
    assert_eq!(U512::from(10).saturating_sub(U512::from(4)), U512::from(6));
    assert_eq!(U512::from(4).saturating_sub(U512::from(10)), U512::zero());
    assert_eq!(U512::from(4).saturating_sub(U512::from(4)), U512::zero());
    assert_eq!(U512::from(4).checked_sub(U512::from(10)), None);
    assert_eq!(U512::zero().overflowing_sub(U512::from(1)), (U512::max_value(), true));
    assert_eq!(U512::from(9).overflowing_sub(U512::from(1)), (U512::from(8), false));
}

#[test]
fn subtraction_borrows_from_the_next_limb() {
    let high = two_to_the(128);
    let below = high.saturating_sub(U512::from(1));
    assert_eq!(below.checked_add(U512::from(1)), Some(high));
    assert!(below < high);
    assert!(below > two_to_the(127));
}

#[test]
fn order_goes_by_the_highest_limb() {
    let low = U512::from(u64::MAX);
    let high = two_to_the(64);
    assert!(low < high);
    assert!(high > low);
    assert!(low <= low);
    assert!(high >= low);
    assert_eq!(low.partial_cmp(&high), Some(core::cmp::Ordering::Less));
    assert_eq!(high.partial_cmp(&high), Some(core::cmp::Ordering::Equal));
    assert_eq!(two_to_the(300).partial_cmp(&two_to_the(299)), Some(core::cmp::Ordering::Greater));
}
