//! The key of a delegation, and the order in which the ledger keeps its keys.

use crate::account::bytes_before;
use crate::account::lemma_bytes_before_irreflexive;
use crate::account::lemma_bytes_before_total;
use crate::account::lemma_bytes_before_transitive;
use crate::account::PublicKey;
use core::cmp::Ordering;
use vstd::prelude::*;
use vstd::std_specs::cmp::PartialEqSpecImpl;
use vstd::std_specs::cmp::PartialOrdSpecImpl;

verus! {

/// The pair under which a delegation stands: who delegates, and to whom.
/// Keys are ordered by delegator first, then by validator.
#[derive(Clone, Copy, Debug, Eq, Ord, Hash)]
pub struct DelegationKey {
    pub delegator: PublicKey,
    pub validator: PublicKey,
}

impl DelegationKey {
    /// Whether this key comes before `other` in the order of the ledger.
    pub open spec fn before(self, other: DelegationKey) -> bool {
        bytes_before(self.delegator@, other.delegator@) || (self.delegator@ == other.delegator@
            && bytes_before(self.validator@, other.validator@))
    }

    /// Whether the two keys name the same delegator and the same validator.
    pub open spec fn same_bytes(self, other: DelegationKey) -> bool {
        self.delegator@ == other.delegator@ && self.validator@ == other.validator@
    }

    /// Keys of the same bytes are one key.
    pub proof fn lemma_same_bytes(self, other: DelegationKey)
        ensures
            self.same_bytes(other) <==> self == other,
    {
        if self.same_bytes(other) {
            self.delegator.lemma_view_injective(other.delegator);
            self.validator.lemma_view_injective(other.validator);
        }
    }

    /// No key comes before itself.
    pub proof fn lemma_before_irreflexive(self)
        ensures
            !self.before(self),
    {
        lemma_bytes_before_irreflexive(self.delegator@);
        lemma_bytes_before_irreflexive(self.validator@);
    }

    /// The order of keys is transitive.
    pub proof fn lemma_before_transitive(self, middle: DelegationKey, other: DelegationKey)
        requires
            self.before(middle),
            middle.before(other),
        ensures
            self.before(other),
    {
        if bytes_before(self.delegator@, middle.delegator@) && bytes_before(
            middle.delegator@,
            other.delegator@,
        ) {
            lemma_bytes_before_transitive(self.delegator@, middle.delegator@, other.delegator@);
        }
        if self.delegator@ == middle.delegator@ && middle.delegator@ == other.delegator@ {
            lemma_bytes_before_irreflexive(self.delegator@);
            lemma_bytes_before_transitive(self.validator@, middle.validator@, other.validator@);
        }
    }

    /// Of two different keys, one comes before the other.
    pub proof fn lemma_before_total(self, other: DelegationKey)
        requires
            self != other,
        ensures
            self.before(other) || other.before(self),
    {
        self.lemma_same_bytes(other);
        if self.delegator@ != other.delegator@ {
            lemma_bytes_before_total(self.delegator@, other.delegator@);
        } else {
            lemma_bytes_before_total(self.validator@, other.validator@);
        }
    }

    /// No two keys come before each other.
    pub proof fn lemma_before_asymmetric(self, other: DelegationKey)
        requires
            self.before(other),
        ensures
            !other.before(self),
            self != other,
    {
        self.lemma_before_irreflexive();
        if other.before(self) {
            self.lemma_before_transitive(other, self);
        }
    }
}

impl PartialEq for DelegationKey {
    fn eq(&self, other: &DelegationKey) -> (r: bool) {
        self.delegator == other.delegator && self.validator == other.validator
    }
}

impl PartialEqSpecImpl for DelegationKey {
    open spec fn obeys_eq_spec() -> bool {
        true
    }

    open spec fn eq_spec(&self, other: &DelegationKey) -> bool {
        self.same_bytes(*other)
    }
}

impl PartialOrd for DelegationKey {
    fn partial_cmp(&self, other: &DelegationKey) -> (r: Option<Ordering>) {
        proof {
            lemma_bytes_before_irreflexive(self.delegator@);
            lemma_bytes_before_irreflexive(self.validator@);
            if bytes_before(self.delegator@, other.delegator@) && bytes_before(
                other.delegator@,
                self.delegator@,
            ) {
                lemma_bytes_before_transitive(self.delegator@, other.delegator@, self.delegator@);
            }
        }
        if self.delegator < other.delegator {
            Some(Ordering::Less)
        } else if self.delegator == other.delegator {
            self.validator.partial_cmp(&other.validator)
        } else {
            Some(Ordering::Greater)
        }
    }
}

impl PartialOrdSpecImpl for DelegationKey {
    open spec fn obeys_partial_cmp_spec() -> bool {
        true
    }

    open spec fn partial_cmp_spec(&self, other: &DelegationKey) -> Option<Ordering> {
        if self.before(*other) {
            Some(Ordering::Less)
        } else if self.same_bytes(*other) {
            Some(Ordering::Equal)
        } else {
            Some(Ordering::Greater)
        }
    }
}

} // verus!
