use pop::account::PublicKey;
use pop::delegation::Delegations;
use pop::delegation_key::DelegationKey;
use pop::delegation_table::DelegationTable;
use pop::error::Error;
use pop::sys_params::MAX_VALIDATORS;
use pop::u512::U512;

fn account(byte: u8) -> PublicKey {
    PublicKey::ed25519_from([byte; 32])
}

fn key(delegator: u8, validator: u8) -> DelegationKey {
    DelegationKey {
        delegator: account(delegator),
        validator: account(validator),
    }
}

fn ledger(entries: &[(u8, u8, u64)]) -> Delegations {
    let mut table = DelegationTable::default();
    for (delegator, validator, amount) in entries {
        table.insert(key(*delegator, *validator), U512::from(*amount));
    }
    Delegations::new(table)
}

fn sum_of_entries(delegations: &Delegations) -> U512 {
    let mut sum = U512::zero();
    for (_, amount) in delegations.iter() {
        sum = sum.checked_add(*amount).expect("the sum fits");
    }
    sum
}

#[test]
fn test_validators() {
    let mut table = DelegationTable::default();
    for i in 1..=(MAX_VALIDATORS + 1) {
        table.insert(
            DelegationKey {
                delegator: PublicKey::ed25519_from([i as u8; 32]),
                validator: PublicKey::ed25519_from([i as u8; 32]),
            },
            U512::from(i as u64),
        );
    }
    let delegations = Delegations::new(table);
    let validators = delegations.validators();

    assert_eq!(validators.len(), MAX_VALIDATORS);
    // the least element([1u8;32]) is truncated.
    assert_eq!(
        validators
            .last()
            .cloned()
            .expect("validators shouldn't be empty"),
        (PublicKey::ed25519_from([2u8; 32]), U512::from(2))
    );
}

#[test]
fn validators_descend_by_amount() {
    let mut table = DelegationTable::default();
    for i in 1..=(MAX_VALIDATORS + 1) {
        table.insert(key(i as u8, i as u8), U512::from(i as u64));
    }
    let validators = Delegations::new(table).validators();
    assert_eq!(
        validators[0],
        (account((MAX_VALIDATORS + 1) as u8), U512::from((MAX_VALIDATORS + 1) as u64))
    );
    for pair in validators.windows(2) {
        assert!(pair[0].1 > pair[1].1);
    }
    assert!(validators.iter().all(|(who, _)| *who != account(1)));
}

#[test]
fn validators_sum_over_delegators() {
    let delegations = ledger(&[(1, 1, 10), (2, 2, 4), (3, 1, 5), (3, 2, 20), (4, 4, 7)]);
    assert_eq!(
        delegations.validators(),
        vec![
            (account(2), U512::from(24)),
            (account(1), U512::from(15)),
            (account(4), U512::from(7)),
        ]
    );
}

#[test]
fn validators_of_equal_stake_ascend_by_key() {
    let delegations = ledger(&[(9, 9, 5), (3, 3, 5), (7, 7, 8), (1, 3, 3), (5, 5, 8)]);
    assert_eq!(
        delegations.validators(),
        vec![
            (account(3), U512::from(8)),
            (account(5), U512::from(8)),
            (account(7), U512::from(8)),
            (account(9), U512::from(5)),
        ]
    );
}

#[test]
fn validators_of_empty_ledger() {
    let delegations = Delegations::new(DelegationTable::new());
    assert!(delegations.validators().is_empty());
    assert_eq!(delegations.total_amount(), U512::zero());
}

#[test]
fn new_recomputes_total() {
    let delegations = ledger(&[(1, 1, 10), (2, 1, 5), (2, 2, 7)]);
    assert_eq!(delegations.total_amount(), U512::from(22));
    assert_eq!(sum_of_entries(&delegations), U512::from(22));
}

#[test]
fn iter_goes_by_delegator_then_validator() {
    let delegations = ledger(&[(2, 1, 1), (1, 2, 2), (2, 0, 3), (1, 1, 4)]);
    let keys: Vec<DelegationKey> = delegations.iter().iter().map(|entry| entry.0).collect();
    assert_eq!(keys, vec![key(1, 1), key(1, 2), key(2, 0), key(2, 1)]);
}

#[test]
fn table_insert_replaces_and_remove_returns() {
    let mut table = DelegationTable::new();
    assert_eq!(table.insert(key(1, 1), U512::from(3)), None);
    assert_eq!(table.insert(key(1, 1), U512::from(4)), Some(U512::from(3)));
    assert_eq!(table.len(), 1);
    assert_eq!(table.get(&key(1, 1)), Some(U512::from(4)));
    assert_eq!(table.get(&key(1, 2)), None);
    assert_eq!(table.remove(&key(1, 2)), None);
    assert_eq!(table.remove(&key(1, 1)), Some(U512::from(4)));
    assert_eq!(table.len(), 0);
}

#[test]
fn table_checked_total_overflows() {
    let mut table = DelegationTable::new();
    table.insert(key(1, 1), U512::max_value());
    assert_eq!(table.checked_total(), Some(U512::max_value()));
    table.insert(key(2, 2), U512::from(1));
    assert_eq!(table.checked_total(), None);
}

#[test]
fn delegation_lookup() {
    let delegations = ledger(&[(1, 1, 10), (2, 1, 5)]);
    assert_eq!(delegations.delegation(&account(2), &account(1)), Ok(U512::from(5)));
    assert_eq!(
        delegations.delegation(&account(1), &account(2)),
        Err(Error::DelegationsNotFound)
    );
}

#[test]
fn delegating_and_delegated_amounts() {
    let delegations = ledger(&[(1, 1, 10), (2, 1, 5), (2, 2, 7), (3, 2, 1)]);
    assert_eq!(delegations.delegating_amount(&account(2)), U512::from(12));
    assert_eq!(delegations.delegating_amount(&account(4)), U512::zero());
    assert_eq!(delegations.delegated_amount(&account(1)), U512::from(15));
    assert_eq!(delegations.delegated_amount(&account(2)), U512::from(8));
    assert_eq!(delegations.delegated_amount(&account(3)), U512::zero());
}

#[test]
fn delegate_to_self_then_from_another() {
    let mut delegations = Delegations::new(DelegationTable::new());
    assert_eq!(
        delegations.delegate(&account(1), &account(1), U512::from(10), U512::from(10)),
        Ok(())
    );
    assert_eq!(
        delegations.delegate(&account(2), &account(1), U512::from(3), U512::from(8)),
        Ok(())
    );
    assert_eq!(
        delegations.delegate(&account(2), &account(1), U512::from(5), U512::from(8)),
        Ok(())
    );
    assert_eq!(delegations.delegation(&account(2), &account(1)), Ok(U512::from(8)));
    assert_eq!(delegations.total_amount(), U512::from(18));
    assert_eq!(sum_of_entries(&delegations), U512::from(18));
}

#[test]
fn delegate_needs_self_delegated_validator() {
    let mut delegations = ledger(&[(1, 1, 10)]);
    assert_eq!(
        delegations.delegate(&account(2), &account(3), U512::from(1), U512::from(100)),
        Err(Error::NotSelfDelegated)
    );
    assert_eq!(delegations.iter().len(), 1);
    assert_eq!(delegations.total_amount(), U512::from(10));
}

#[test]
fn delegate_not_self_delegated_comes_before_too_large() {
    let mut delegations = ledger(&[(1, 1, 10)]);
    assert_eq!(
        delegations.delegate(&account(2), &account(3), U512::from(5), U512::from(1)),
        Err(Error::NotSelfDelegated)
    );
}

#[test]
fn delegate_beyond_bonded_amount() {
    let mut delegations = ledger(&[(1, 1, 10), (2, 1, 6)]);
    assert_eq!(
        delegations.delegate(&account(2), &account(1), U512::from(5), U512::from(10)),
        Err(Error::DelegateTooLarge)
    );
    assert_eq!(delegations.delegation(&account(2), &account(1)), Ok(U512::from(6)));
    assert_eq!(delegations.total_amount(), U512::from(16));
    assert_eq!(
        delegations.delegate(&account(2), &account(1), U512::from(4), U512::from(10)),
        Ok(())
    );
    assert_eq!(delegations.delegating_amount(&account(2)), U512::from(10));
}

#[test]
fn delegate_when_already_over_allocated() {
    let mut delegations = ledger(&[(1, 1, 10)]);
    assert_eq!(
        delegations.delegate(&account(1), &account(1), U512::from(1), U512::from(4)),
        Err(Error::DelegateTooLarge)
    );
    assert_eq!(
        delegations.delegate(&account(1), &account(1), U512::zero(), U512::from(4)),
        Ok(())
    );
    assert_eq!(delegations.delegation(&account(1), &account(1)), Ok(U512::from(10)));
}

#[test]
fn delegate_zero_makes_an_entry() {
    let mut delegations = Delegations::new(DelegationTable::new());
    assert_eq!(
        delegations.delegate(&account(1), &account(1), U512::zero(), U512::zero()),
        Ok(())
    );
    assert_eq!(delegations.delegation(&account(1), &account(1)), Ok(U512::zero()));
    assert_eq!(delegations.undelegate(&account(1), &account(1), Some(U512::zero())), Ok(U512::zero()));
    assert_eq!(
        delegations.delegation(&account(1), &account(1)),
        Err(Error::DelegationsNotFound)
    );
}

#[test]
fn undelegate_exact_amount_removes_entry() {
    let mut delegations = ledger(&[(1, 1, 10), (2, 1, 6)]);
    assert_eq!(
        delegations.undelegate(&account(2), &account(1), Some(U512::from(6))),
        Ok(U512::from(6))
    );
    assert_eq!(
        delegations.delegation(&account(2), &account(1)),
        Err(Error::DelegationsNotFound)
    );
    assert_eq!(delegations.total_amount(), U512::from(10));
}

#[test]
fn undelegate_partial_amount_reduces_entry() {
    let mut delegations = ledger(&[(1, 1, 10), (2, 1, 6)]);
    assert_eq!(
        delegations.undelegate(&account(2), &account(1), Some(U512::from(2))),
        Ok(U512::from(2))
    );
    assert_eq!(delegations.delegation(&account(2), &account(1)), Ok(U512::from(4)));
    assert_eq!(delegations.total_amount(), U512::from(14));
}

#[test]
fn undelegate_more_than_delegated() {
    let mut delegations = ledger(&[(1, 1, 10), (2, 1, 6)]);
    assert_eq!(
        delegations.undelegate(&account(2), &account(1), Some(U512::from(7))),
        Err(Error::UndelegateTooLarge)
    );
    assert_eq!(delegations.delegation(&account(2), &account(1)), Ok(U512::from(6)));
    assert_eq!(delegations.total_amount(), U512::from(16));
}

#[test]
fn undelegate_all() {
    let mut delegations = ledger(&[(1, 1, 10), (2, 1, 6)]);
    assert_eq!(delegations.undelegate(&account(1), &account(1), None), Ok(U512::from(10)));
    assert_eq!(
        delegations.delegation(&account(1), &account(1)),
        Err(Error::DelegationsNotFound)
    );
    assert_eq!(delegations.delegation(&account(2), &account(1)), Ok(U512::from(6)));
    assert_eq!(delegations.total_amount(), U512::from(6));
}

#[test]
fn undelegate_what_is_not_there() {
    let mut delegations = ledger(&[(1, 1, 10)]);
    assert_eq!(
        delegations.undelegate(&account(2), &account(1), None),
        Err(Error::DelegationsNotFound)
    );
    assert_eq!(
        delegations.undelegate(&account(2), &account(1), Some(U512::from(1))),
        Err(Error::DelegationsNotFound)
    );
    assert_eq!(delegations.total_amount(), U512::from(10));
}

#[test]
fn redelegate_moves_part() {
    let mut delegations = ledger(&[(1, 1, 10), (2, 2, 3), (3, 1, 6), (3, 2, 1)]);
    assert_eq!(
        delegations.redelegate(&account(3), &account(1), &account(2), Some(U512::from(4))),
        Ok(())
    );
    assert_eq!(delegations.delegation(&account(3), &account(1)), Ok(U512::from(2)));
    assert_eq!(delegations.delegation(&account(3), &account(2)), Ok(U512::from(5)));
    assert_eq!(delegations.total_amount(), U512::from(20));
    assert_eq!(sum_of_entries(&delegations), U512::from(20));
    assert_eq!(delegations.delegating_amount(&account(3)), U512::from(7));
}

#[test]
fn redelegate_moves_all_to_new_entry() {
    let mut delegations = ledger(&[(1, 1, 10), (3, 1, 6)]);
    // The destination holds no delegation to itself, and none is asked for.
    assert_eq!(
        delegations.redelegate(&account(3), &account(1), &account(7), None),
        Ok(())
    );
    assert_eq!(
        delegations.delegation(&account(3), &account(1)),
        Err(Error::DelegationsNotFound)
    );
    assert_eq!(delegations.delegation(&account(3), &account(7)), Ok(U512::from(6)));
    assert_eq!(delegations.total_amount(), U512::from(16));
}

#[test]
fn redelegate_exact_amount_removes_source() {
    let mut delegations = ledger(&[(1, 1, 10), (3, 1, 6)]);
    assert_eq!(
        delegations.redelegate(&account(3), &account(1), &account(3), Some(U512::from(6))),
        Ok(())
    );
    assert_eq!(delegations.iter().len(), 2);
    assert_eq!(delegations.delegation(&account(3), &account(3)), Ok(U512::from(6)));
}

#[test]
fn redelegate_to_the_same_validator() {
    let mut delegations = ledger(&[(1, 1, 10)]);
    assert_eq!(
        delegations.redelegate(&account(1), &account(1), &account(1), Some(U512::from(4))),
        Ok(())
    );
    assert_eq!(delegations.delegation(&account(1), &account(1)), Ok(U512::from(10)));
    assert_eq!(delegations.redelegate(&account(1), &account(1), &account(1), None), Ok(()));
    assert_eq!(delegations.delegation(&account(1), &account(1)), Ok(U512::from(10)));
    assert_eq!(delegations.total_amount(), U512::from(10));
}

#[test]
fn redelegate_refusals_change_nothing() {
    let mut delegations = ledger(&[(1, 1, 10), (3, 1, 6)]);
    assert_eq!(
        delegations.redelegate(&account(3), &account(1), &account(2), Some(U512::from(7))),
        Err(Error::UndelegateTooLarge)
    );
    assert_eq!(
        delegations.redelegate(&account(3), &account(2), &account(1), None),
        Err(Error::DelegationsNotFound)
    );
    assert_eq!(delegations.delegation(&account(3), &account(1)), Ok(U512::from(6)));
    assert_eq!(delegations.iter().len(), 2);
    assert_eq!(delegations.total_amount(), U512::from(16));
}

#[test]
fn total_is_the_sum_after_every_step() {
    let mut delegations = Delegations::new(DelegationTable::new());
    let bonded = U512::from(1000);
    assert_eq!(delegations.delegate(&account(1), &account(1), U512::from(100), bonded), Ok(()));
    assert_eq!(delegations.total_amount(), sum_of_entries(&delegations));
    assert_eq!(delegations.delegate(&account(2), &account(2), U512::from(50), bonded), Ok(()));
    assert_eq!(delegations.total_amount(), sum_of_entries(&delegations));
    assert_eq!(delegations.delegate(&account(3), &account(1), U512::from(70), bonded), Ok(()));
    assert_eq!(delegations.total_amount(), sum_of_entries(&delegations));
    assert_eq!(
        delegations.redelegate(&account(3), &account(1), &account(2), Some(U512::from(30))),
        Ok(())
    );
    assert_eq!(delegations.total_amount(), sum_of_entries(&delegations));
    assert_eq!(
        delegations.undelegate(&account(3), &account(2), Some(U512::from(10))),
        Ok(U512::from(10))
    );
    assert_eq!(delegations.total_amount(), sum_of_entries(&delegations));
    assert_eq!(delegations.undelegate(&account(1), &account(1), None), Ok(U512::from(100)));
    assert_eq!(delegations.total_amount(), sum_of_entries(&delegations));
    assert_eq!(delegations.total_amount(), U512::from(110));
}

#[test]
fn delegated_sum_stays_within_bonded_amount() {
    let mut delegations = ledger(&[(1, 1, 10), (2, 2, 10)]);
    let bonded = U512::from(25);
    assert_eq!(delegations.delegate(&account(3), &account(1), U512::from(20), bonded), Ok(()));
    assert_eq!(
        delegations.delegate(&account(3), &account(2), U512::from(6), bonded),
        Err(Error::DelegateTooLarge)
    );
    assert_eq!(delegations.delegate(&account(3), &account(2), U512::from(5), bonded), Ok(()));
    assert!(delegations.delegating_amount(&account(3)) <= bonded);
    assert_eq!(
        delegations.delegate(&account(3), &account(2), U512::from(1), bonded),
        Err(Error::DelegateTooLarge)
    );
}

#[test]
fn checked_delegate_tells_a_total_that_does_not_fit() {
    let mut table = DelegationTable::new();
    table.insert(key(1, 1), U512::max_value());
    let mut delegations = Delegations::new(table);
    let bonded = U512::from(5);
    assert_eq!(
        delegations.checked_delegate(&account(2), &account(1), U512::from(1), bonded),
        None
    );
    assert_eq!(
        delegations.checked_delegate(&account(2), &account(1), U512::from(6), bonded),
        Some(Err(Error::DelegateTooLarge))
    );
    assert_eq!(
        delegations.checked_delegate(&account(2), &account(3), U512::from(1), bonded),
        Some(Err(Error::NotSelfDelegated))
    );
    assert_eq!(
        delegations.checked_delegate(&account(2), &account(1), U512::zero(), bonded),
        Some(Ok(()))
    );
    assert_eq!(delegations.total_amount(), U512::max_value());
    assert_eq!(delegations.delegation(&account(2), &account(1)), Ok(U512::zero()));
}
