//! The keys under which requests wait.

use crate::account::PublicKey;
use crate::request_queue::RequestKey;
use vstd::prelude::*;

verus! {

/// A request to take stake back from a validator.
#[derive(Clone, Copy, Debug, PartialEq, Eq)]
pub struct UndelegateRequestKey {
    pub delegator: PublicKey,
    pub validator: PublicKey,
}

impl UndelegateRequestKey {
    /// The key of a delegator's request on a validator.
    pub fn new(delegator: PublicKey, validator: PublicKey) -> (r: Self)
        ensures
            r == (UndelegateRequestKey { delegator, validator }),
    {
        UndelegateRequestKey { delegator, validator }
    }
}

impl RequestKey for UndelegateRequestKey {
    fn same_request(&self, other: &Self) -> (r: bool) {
        proof {
            if self.delegator@ == other.delegator@ {
                self.delegator.lemma_view_injective(other.delegator);
            }
            if self.validator@ == other.validator@ {
                self.validator.lemma_view_injective(other.validator);
            }
        }
        self.delegator == other.delegator && self.validator == other.validator
    }
}

/// A request to move stake from one validator to another.
#[derive(Clone, Copy, Debug, PartialEq, Eq)]
pub struct RedelegateRequestKey {
    pub delegator: PublicKey,
    pub src_validator: PublicKey,
    pub dest_validator: PublicKey,
}

impl RedelegateRequestKey {
    /// The key of a delegator's request to move stake from `src_validator`
    /// to `dest_validator`.
    pub fn new(delegator: PublicKey, src_validator: PublicKey, dest_validator: PublicKey) -> (r:
        Self)
        ensures
            r == (RedelegateRequestKey { delegator, src_validator, dest_validator }),
    {
        RedelegateRequestKey { delegator, src_validator, dest_validator }
    }
}

impl RequestKey for RedelegateRequestKey {
    fn same_request(&self, other: &Self) -> (r: bool) {
        proof {
            if self.delegator@ == other.delegator@ {
                self.delegator.lemma_view_injective(other.delegator);
            }
            if self.src_validator@ == other.src_validator@ {
                self.src_validator.lemma_view_injective(other.src_validator);
            }
            if self.dest_validator@ == other.dest_validator@ {
                self.dest_validator.lemma_view_injective(other.dest_validator);
            }
        }
        self.delegator == other.delegator && self.src_validator == other.src_validator
            && self.dest_validator == other.dest_validator
    }
}

/// A request to claim what an account has earned.
#[derive(Clone, Copy, Debug, PartialEq, Eq)]
pub struct ClaimRequest {
    pub claimant: PublicKey,
}

impl ClaimRequest {
    /// The key of a claimant's request.
    pub fn new(claimant: PublicKey) -> (r: Self)
        ensures
            r == (ClaimRequest { claimant }),
    {
        ClaimRequest { claimant }
    }
}

impl RequestKey for ClaimRequest {
    fn same_request(&self, other: &Self) -> (r: bool) {
        proof {
            if self.claimant@ == other.claimant@ {
                self.claimant.lemma_view_injective(other.claimant);
            }
        }
        self.claimant == other.claimant
    }
}

} // verus!
