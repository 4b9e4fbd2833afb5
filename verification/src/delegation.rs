//! The ledger of delegations: who has delegated how much to whom.

use crate::account::PublicKey;
use crate::delegation_key::DelegationKey;
use crate::delegation_table::any_key;
use crate::delegation_table::by_delegator;
use crate::delegation_table::by_validator;
use crate::delegation_table::delegated_of;
use crate::delegation_table::delegating_of;
use crate::delegation_table::lemma_position;
use crate::delegation_table::lemma_share_below_sum;
use crate::delegation_table::lemma_sum_below_total;
use crate::delegation_table::lemma_sum_take_below;
use crate::delegation_table::lemma_sum_take_next;
use crate::delegation_table::position_of;
use crate::delegation_table::sorted;
use crate::delegation_table::sum_where;
use crate::delegation_table::table_map;
use crate::delegation_table::total_of;
use crate::delegation_table::DelegationTable;
use crate::error::Error;
use crate::sys_params::MAX_VALIDATORS;
use crate::u512::U512;
use crate::validator_set::is_active_set;
use crate::validator_set::top_validators;
use vstd::prelude::*;

verus! {

/// The amount that stands under `key`: zero where none stands.
pub open spec fn staked(table: Map<DelegationKey, nat>, key: DelegationKey) -> nat {
    if table.contains_key(key) {
        table[key]
    } else {
        0
    }
}

/// What taking stake from under `key` does to a table: the table that is
/// left and the amount taken, or why nothing is taken. Without an amount the
/// whole delegation is taken.
pub open spec fn withdrawal(
    table: Map<DelegationKey, nat>,
    key: DelegationKey,
    maybe_amount: Option<U512>,
) -> Result<(Map<DelegationKey, nat>, nat), Error> {
    if !table.contains_key(key) {
        Err(Error::DelegationsNotFound)
    } else {
        match maybe_amount {
            None => Ok((table.remove(key), table[key])),
            Some(amount) => if table[key] > amount@ {
                Ok((table.insert(key, (table[key] - amount@) as nat), amount@))
            } else if table[key] == amount@ {
                Ok((table.remove(key), amount@))
            } else {
                Err(Error::UndelegateTooLarge)
            },
        }
    }
}

/// Why a delegation of `amount` is refused, if it is: the validator is
/// another account that has not delegated to itself, or the amount is more
/// than what the delegator has bonded and not yet delegated.
pub open spec fn delegate_refusal(
    table: Map<DelegationKey, nat>,
    delegating: nat,
    key: DelegationKey,
    amount: nat,
    bonding_amount: nat,
) -> Option<Error> {
    let self_key = DelegationKey { delegator: key.validator, validator: key.validator };
    let unused: nat = if bonding_amount >= delegating {
        (bonding_amount - delegating) as nat
    } else {
        0
    };
    if key.delegator != key.validator && !table.contains_key(self_key) {
        Some(Error::NotSelfDelegated)
    } else if amount > unused {
        Some(Error::DelegateTooLarge)
    } else {
        None
    }
}

/// Adds `amount` to what stands under `key`.
fn deposit(table: &mut DelegationTable, key: DelegationKey, amount: U512)
    requires
        old(table).wf(),
        total_of(old(table).entries()) + amount@ < U512::bound(),
    ensures
        final(table).wf(),
        final(table)@ == old(table)@.insert(key, staked(old(table)@, key) + amount@),
        forall|pick: spec_fn(DelegationKey) -> bool|
            sum_where(final(table).entries(), pick) == #[trigger] sum_where(
                old(table).entries(),
                pick,
            ) + (if pick(key) {
                amount@
            } else {
                0
            }),
{
    let credited = match table.get(&key) {
        Some(existing) => {
            proof {
                lemma_entry_below_total(table.entries(), key);
            }
            existing.overflowing_add(amount).0
        },
        None => amount,
    };
    table.insert(key, credited);
}

/// Takes stake from under `key`: `amount` of it, or all of it where no
/// amount is given. A refusal leaves the table as it was.
fn withdraw(table: &mut DelegationTable, key: &DelegationKey, maybe_amount: Option<U512>) -> (r:
    Result<U512, Error>)
    requires
        old(table).wf(),
    ensures
        final(table).wf(),
        match withdrawal(old(table)@, *key, maybe_amount) {
            Ok((left, taken)) => {
                &&& r is Ok
                &&& r.unwrap()@ == taken
                &&& final(table)@ == left
                &&& taken <= staked(old(table)@, *key)
                &&& forall|pick: spec_fn(DelegationKey) -> bool|
                    sum_where(final(table).entries(), pick) + (if pick(*key) {
                        taken
                    } else {
                        0
                    }) == #[trigger] sum_where(old(table).entries(), pick)
            },
            Err(e) => r == Err::<U512, Error>(e) && *final(table) == *old(table),
        },
{
    match table.get(key) {
        None => Err(Error::DelegationsNotFound),
        Some(existing) => match maybe_amount {
            None => {
                table.remove(key);
                Ok(existing)
            },
            Some(amount) => {
                if existing > amount {
                    let left = existing.saturating_sub(amount);
                    table.insert(*key, left);
                    Ok(amount)
                } else if existing == amount {
                    table.remove(key);
                    Ok(amount)
                } else {
                    Err(Error::UndelegateTooLarge)
                }
            },
        },
    }
}

/// The amount under a key is no more than the sum of all amounts.
proof fn lemma_entry_below_total(s: Seq<(DelegationKey, U512)>, key: DelegationKey)
    requires
        sorted(s),
        table_map(s).contains_key(key),
    ensures
        table_map(s)[key] <= total_of(s),
{
    let i = position_of(s, key);
    lemma_position(s, i);
    lemma_share_below_sum(s, i, any_key());
}

/// The ledger: the table of delegations and the sum of its amounts.
#[derive(Clone, Debug)]
pub struct Delegations {
    table: DelegationTable,
    total_amount: U512,
}

impl View for Delegations {
    type V = Map<DelegationKey, nat>;

    open spec fn view(&self) -> Map<DelegationKey, nat> {
        table_map(self.entries())
    }
}

impl Delegations {
    /// The delegations in the order of their keys.
    pub closed spec fn entries(&self) -> Seq<(DelegationKey, U512)> {
        self.table.entries()
    }

    /// The total that the ledger keeps.
    pub closed spec fn total(&self) -> nat {
        self.total_amount@
    }

    /// The ledger is in order: its keys ascend strictly, and the total that
    /// it keeps is the sum of its amounts.
    pub open spec fn wf(&self) -> bool {
        sorted(self.entries()) && self.total() == total_of(self.entries())
    }

    /// The sum of what `delegator` has delegated.
    pub open spec fn delegating_sum(&self, delegator: PublicKey) -> nat {
        delegating_of(self.entries(), delegator@)
    }

    /// The sum of what is delegated to `validator`.
    pub open spec fn delegated_sum(&self, validator: PublicKey) -> nat {
        delegated_of(self.entries(), validator@)
    }

    /// The ledger of a table. The total is computed anew, so the sum of the
    /// table's amounts has to fit in 512 bits.
    pub fn new(table: DelegationTable) -> (r: Self)
        requires
            table.wf(),
            total_of(table.entries()) < U512::bound(),
        ensures
            r.wf(),
            r.entries() == table.entries(),
            r@ == table@,
    {
        let entries = table.as_vec();
        let mut total_amount = U512::zero();
        let mut i: usize = 0;
        while i < entries.len()
            invariant
                i <= entries@.len(),
                total_of(entries@) < U512::bound(),
                total_amount@ == total_of(entries@.take(i as int)),
            decreases entries@.len() - i,
        {
            proof {
                lemma_sum_take_next(entries@, i as int, any_key());
                lemma_sum_take_below(entries@, i + 1, any_key());
            }
            total_amount = total_amount.overflowing_add(entries[i].1).0;
            i += 1;
        }
        proof {
            assert(entries@.take(i as int) =~= entries@);
        }
        Delegations { table, total_amount }
    }

    /// The delegations in the order of their keys.
    pub fn iter(&self) -> (r: &Vec<(DelegationKey, U512)>)
        ensures
            r@ == self.entries(),
    {
        self.table.as_vec()
    }

    /// The active validator set: the validators in the order of the stake
    /// delegated to them, the most first and of equal stakes the smaller key
    /// first, cut to the first `MAX_VALIDATORS`.
    pub fn validators(&self) -> (r: Vec<(PublicKey, U512)>)
        requires
            self.wf(),
        ensures
            is_active_set(self.entries(), r@, MAX_VALIDATORS as nat),
    {
        proof {
            self.total_amount.lemma_bounded();
        }
        top_validators(self.table.as_vec(), MAX_VALIDATORS)
    }

    /// The sum of all delegations.
    pub fn total_amount(&self) -> (r: U512)
        ensures
            r@ == self.total(),
            self.wf() ==> r@ == total_of(self.entries()),
    {
        self.total_amount
    }

    /// What `delegator` has delegated to `validator`.
    pub fn delegation(&self, delegator: &PublicKey, validator: &PublicKey) -> (r: Result<
        U512,
        Error,
    >)
        requires
            self.wf(),
        ensures
            match r {
                Ok(amount) => self@.contains_key(
                    DelegationKey { delegator: *delegator, validator: *validator },
                ) && amount@ == self@[DelegationKey {
                    delegator: *delegator,
                    validator: *validator,
                }],
                Err(e) => e == Error::DelegationsNotFound && !self@.contains_key(
                    DelegationKey { delegator: *delegator, validator: *validator },
                ),
            },
    {
        let key = DelegationKey { delegator: *delegator, validator: *validator };
        match self.table.get(&key) {
            Some(amount) => Ok(amount),
            None => Err(Error::DelegationsNotFound),
        }
    }

    /// The sum of what `delegator` has delegated, over all validators. It
    /// walks the whole table.
    pub fn delegating_amount(&self, delegator: &PublicKey) -> (r: U512)
        requires
            self.wf(),
        ensures
            r@ == self.delegating_sum(*delegator),
    {
        let entries = self.table.as_vec();
        let mut sum = U512::zero();
        let mut i: usize = 0;
        proof {
            self.total_amount.lemma_bounded();
        }
        while i < entries.len()
            invariant
                i <= entries@.len(),
                total_of(entries@) < U512::bound(),
                sum@ == delegating_of(entries@.take(i as int), delegator@),
            decreases entries@.len() - i,
        {
            proof {
                let pick = by_delegator(delegator@);
                lemma_sum_take_next(entries@, i as int, pick);
                lemma_sum_take_below(entries@, i + 1, pick);
                lemma_sum_below_total(entries@, pick);
            }
            if entries[i].0.delegator == *delegator {
                sum = sum.overflowing_add(entries[i].1).0;
            }
            i += 1;
        }
        proof {
            assert(entries@.take(i as int) =~= entries@);
        }
        sum
    }

    /// The sum of what is delegated to `validator`, over all delegators. It
    /// walks the whole table.
    pub fn delegated_amount(&self, validator: &PublicKey) -> (r: U512)
        requires
            self.wf(),
        ensures
            r@ == self.delegated_sum(*validator),
    {
        let entries = self.table.as_vec();
        let mut sum = U512::zero();
        let mut i: usize = 0;
        proof {
            self.total_amount.lemma_bounded();
        }
        while i < entries.len()
            invariant
                i <= entries@.len(),
                total_of(entries@) < U512::bound(),
                sum@ == delegated_of(entries@.take(i as int), validator@),
            decreases entries@.len() - i,
        {
            proof {
                let pick = by_validator(validator@);
                lemma_sum_take_next(entries@, i as int, pick);
                lemma_sum_take_below(entries@, i + 1, pick);
                lemma_sum_below_total(entries@, pick);
            }
            if entries[i].0.validator == *validator {
                sum = sum.overflowing_add(entries[i].1).0;
            }
            i += 1;
        }
        proof {
            assert(entries@.take(i as int) =~= entries@);
        }
        sum
    }

    /// Delegates `amount` from `delegator` to `validator`, where
    /// `bonding_amount` is what the delegator has bonded. Refused with
    /// `NotSelfDelegated` where the validator is another account that holds no
    /// delegation to itself, and else with `DelegateTooLarge` where the amount
    /// is more than what is bonded and not yet delegated. A refusal leaves the
    /// ledger as it was.
    pub fn delegate(
        &mut self,
        delegator: &PublicKey,
        validator: &PublicKey,
        amount: U512,
        bonding_amount: U512,
    ) -> (r: Result<(), Error>)
        requires
            old(self).wf(),
            delegate_refusal(
                old(self)@,
                old(self).delegating_sum(*delegator),
                DelegationKey { delegator: *delegator, validator: *validator },
                amount@,
                bonding_amount@,
            ) is None ==> old(self).total() + amount@ < U512::bound(),
        ensures
            final(self).wf(),
            match delegate_refusal(
                old(self)@,
                old(self).delegating_sum(*delegator),
                DelegationKey { delegator: *delegator, validator: *validator },
                amount@,
                bonding_amount@,
            ) {
                Some(e) => r == Err::<(), Error>(e) && *final(self) == *old(self),
                None => {
                    &&& r == Ok::<(), Error>(())
                    &&& final(self)@ == old(self)@.insert(
                        DelegationKey { delegator: *delegator, validator: *validator },
                        staked(
                            old(self)@,
                            DelegationKey { delegator: *delegator, validator: *validator },
                        ) + amount@,
                    )
                    &&& final(self).total() == old(self).total() + amount@
                    &&& amount@ > 0 || old(self).delegating_sum(*delegator) <= bonding_amount@
                        ==> final(self).delegating_sum(*delegator) <= bonding_amount@
                },
            },
            r is Ok && *delegator != *validator ==> old(self)@.contains_key(
                DelegationKey { delegator: *validator, validator: *validator },
            ),
            forall|d: PublicKey|
                r is Ok ==> #[trigger] final(self).delegating_sum(d) == old(self).delegating_sum(d)
                    + if d@ == delegator@ {
                    amount@
                } else {
                    0
                },
            forall|v: PublicKey|
                r is Ok ==> #[trigger] final(self).delegated_sum(v) == old(self).delegated_sum(v)
                    + if v@ == validator@ {
                    amount@
                } else {
                    0
                },
    {
        let key = DelegationKey { delegator: *delegator, validator: *validator };
        proof {
            if delegator@ == validator@ {
                delegator.lemma_view_injective(*validator);
            }
        }
        if *delegator != *validator && self.delegation(validator, validator).is_err() {
            return Err(Error::NotSelfDelegated);
        }
        let delegating_amount = self.delegating_amount(delegator);
        if amount > bonding_amount.saturating_sub(delegating_amount) {
            return Err(Error::DelegateTooLarge);
        }
        let ghost before = self.entries();
        deposit(&mut self.table, key, amount);
        self.total_amount = self.total_amount.overflowing_add(amount).0;
        proof {
            assert forall|d: PublicKey| #[trigger]
                self.delegating_sum(d) == delegating_of(before, d@) + if d@ == delegator@ {
                    amount@
                } else {
                    0
                } by {
                let pick = by_delegator(d@);
                assert(sum_where(self.entries(), pick) == sum_where(before, pick) + if pick(key) {
                    amount@
                } else {
                    0
                });
            }
            assert forall|v: PublicKey| #[trigger]
                self.delegated_sum(v) == delegated_of(before, v@) + if v@ == validator@ {
                    amount@
                } else {
                    0
                } by {
                let pick = by_validator(v@);
                assert(sum_where(self.entries(), pick) == sum_where(before, pick) + if pick(key) {
                    amount@
                } else {
                    0
                });
            }
            let all = any_key();
            assert(sum_where(self.entries(), all) == sum_where(before, all) + if all(key) {
                amount@
            } else {
                0
            });
            assert(self.delegating_sum(*delegator) == delegating_of(before, delegator@) + amount@);
        }
        Ok(())
    }

    /// Delegates as `delegate` does, where the new total fits in 512 bits.
    /// Where the delegation would be accepted and the total would not fit,
    /// the answer is `None` and the ledger stays as it was.
    pub fn checked_delegate(
        &mut self,
        delegator: &PublicKey,
        validator: &PublicKey,
        amount: U512,
        bonding_amount: U512,
    ) -> (r: Option<Result<(), Error>>)
        requires
            old(self).wf(),
        ensures
            final(self).wf(),
            match delegate_refusal(
                old(self)@,
                old(self).delegating_sum(*delegator),
                DelegationKey { delegator: *delegator, validator: *validator },
                amount@,
                bonding_amount@,
            ) {
                Some(e) => r == Some(Err::<(), Error>(e)) && *final(self) == *old(self),
                None => if old(self).total() + amount@ < U512::bound() {
                    &&& r == Some(Ok::<(), Error>(()))
                    &&& final(self)@ == old(self)@.insert(
                        DelegationKey { delegator: *delegator, validator: *validator },
                        staked(
                            old(self)@,
                            DelegationKey { delegator: *delegator, validator: *validator },
                        ) + amount@,
                    )
                    &&& final(self).total() == old(self).total() + amount@
                } else {
                    r is None && *final(self) == *old(self)
                },
            },
    {
        proof {
            if delegator@ == validator@ {
                delegator.lemma_view_injective(*validator);
            }
        }
        let accepted = (*delegator == *validator || self.delegation(validator, validator).is_ok())
            && amount <= bonding_amount.saturating_sub(self.delegating_amount(delegator));
        if accepted && self.total_amount.checked_add(amount).is_none() {
            None
        } else {
            Some(self.delegate(delegator, validator, amount, bonding_amount))
        }
    }

    /// Takes stake that `delegator` has delegated to `validator` out of the
    /// ledger and returns the amount taken: `maybe_amount`, or the whole
    /// delegation where none is given. Refused with `DelegationsNotFound`
    /// where no such delegation stands, and with `UndelegateTooLarge` where it
    /// holds less than the amount. A refusal leaves the ledger as it was.
    pub fn undelegate(
        &mut self,
        delegator: &PublicKey,
        validator: &PublicKey,
        maybe_amount: Option<U512>,
    ) -> (r: Result<U512, Error>)
        requires
            old(self).wf(),
        ensures
            final(self).wf(),
            match withdrawal(
                old(self)@,
                DelegationKey { delegator: *delegator, validator: *validator },
                maybe_amount,
            ) {
                Ok((left, taken)) => {
                    &&& r is Ok
                    &&& r.unwrap()@ == taken
                    &&& final(self)@ == left
                    &&& final(self).total() == old(self).total() - taken
                },
                Err(e) => r == Err::<U512, Error>(e) && *final(self) == *old(self),
            },
            forall|d: PublicKey|
                r is Ok ==> #[trigger] final(self).delegating_sum(d) + (if d@ == delegator@ {
                    r.unwrap()@
                } else {
                    0
                }) == old(self).delegating_sum(d),
            forall|v: PublicKey|
                r is Ok ==> #[trigger] final(self).delegated_sum(v) + (if v@ == validator@ {
                    r.unwrap()@
                } else {
                    0
                }) == old(self).delegated_sum(v),
    {
        let key = DelegationKey { delegator: *delegator, validator: *validator };
        let ghost before = self.entries();
        match withdraw(&mut self.table, &key, maybe_amount) {
            Err(e) => Err(e),
            Ok(taken) => {
                self.total_amount = self.total_amount.saturating_sub(taken);
                proof {
                    assert forall|d: PublicKey| #[trigger]
                        self.delegating_sum(d) + (if d@ == delegator@ {
                            taken@
                        } else {
                            0
                        }) == delegating_of(before, d@) by {
                        let pick = by_delegator(d@);
                        assert(sum_where(self.entries(), pick) + (if pick(key) {
                            taken@
                        } else {
                            0
                        }) == sum_where(before, pick));
                    }
                    assert forall|v: PublicKey| #[trigger]
                        self.delegated_sum(v) + (if v@ == validator@ {
                            taken@
                        } else {
                            0
                        }) == delegated_of(before, v@) by {
                        let pick = by_validator(v@);
                        assert(sum_where(self.entries(), pick) + (if pick(key) {
                            taken@
                        } else {
                            0
                        }) == sum_where(before, pick));
                    }
                    let all = any_key();
                    assert(sum_where(self.entries(), all) + (if all(key) {
                        taken@
                    } else {
                        0
                    }) == sum_where(before, all));
                }
                Ok(taken)
            },
        }
    }

    /// Moves stake that `delegator` has delegated to `src_validator` over to
    /// `dest_validator`: `maybe_amount`, or the whole delegation where none is
    /// given. It is refused as `undelegate` is, and a refusal leaves the ledger
    /// as it was. The destination need not hold a delegation to itself.
    pub fn redelegate(
        &mut self,
        delegator: &PublicKey,
        src_validator: &PublicKey,
        dest_validator: &PublicKey,
        maybe_amount: Option<U512>,
    ) -> (r: Result<(), Error>)
        requires
            old(self).wf(),
        ensures
            final(self).wf(),
            match withdrawal(
                old(self)@,
                DelegationKey { delegator: *delegator, validator: *src_validator },
                maybe_amount,
            ) {
                Ok((left, taken)) => {
                    &&& r == Ok::<(), Error>(())
                    &&& final(self)@ == left.insert(
                        DelegationKey { delegator: *delegator, validator: *dest_validator },
                        staked(
                            left,
                            DelegationKey { delegator: *delegator, validator: *dest_validator },
                        ) + taken,
                    )
                    &&& final(self).total() == old(self).total()
                    &&& forall|v: PublicKey|
                        #[trigger] final(self).delegated_sum(v) + (if v@ == src_validator@ {
                            taken
                        } else {
                            0
                        }) == old(self).delegated_sum(v) + (if v@ == dest_validator@ {
                            taken
                        } else {
                            0
                        })
                },
                Err(e) => r == Err::<(), Error>(e) && *final(self) == *old(self),
            },
            forall|d: PublicKey|
                r is Ok ==> #[trigger] final(self).delegating_sum(d) == old(self).delegating_sum(d),
    {
        let src = DelegationKey { delegator: *delegator, validator: *src_validator };
        let dest = DelegationKey { delegator: *delegator, validator: *dest_validator };
        let ghost before = self.entries();
        proof {
            self.total_amount.lemma_bounded();
        }
        match withdraw(&mut self.table, &src, maybe_amount) {
            Err(e) => Err(e),
            Ok(taken) => {
                let ghost between = self.entries();
                proof {
                    let all = any_key();
                    assert(sum_where(between, all) + (if all(src) {
                        taken@
                    } else {
                        0
                    }) == sum_where(before, all));
                }
                deposit(&mut self.table, dest, taken);
                proof {
                    let all = any_key();
                    assert(sum_where(self.entries(), all) == sum_where(between, all) + (if all(
                        dest,
                    ) {
                        taken@
                    } else {
                        0
                    }));
                    assert forall|v: PublicKey| #[trigger]
                        self.delegated_sum(v) + (if v@ == src_validator@ {
                            taken@
                        } else {
                            0
                        }) == delegated_of(before, v@) + (if v@ == dest_validator@ {
                            taken@
                        } else {
                            0
                        }) by {
                        let pick = by_validator(v@);
                        assert(sum_where(between, pick) + (if pick(src) {
                            taken@
                        } else {
                            0
                        }) == sum_where(before, pick));
                        assert(sum_where(self.entries(), pick) == sum_where(between, pick) + (
                        if pick(dest) {
                            taken@
                        } else {
                            0
                        }));
                    }
                    assert forall|d: PublicKey| #[trigger]
                        self.delegating_sum(d) == delegating_of(before, d@) by {
                        let pick = by_delegator(d@);
                        assert(sum_where(between, pick) + (if pick(src) {
                            taken@
                        } else {
                            0
                        }) == sum_where(before, pick));
                        assert(sum_where(self.entries(), pick) == sum_where(between, pick) + (
                        if pick(dest) {
                            taken@
                        } else {
                            0
                        }));
                    }
                }
                Ok(())
            },
        }
    }
}

} // verus!
