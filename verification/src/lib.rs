//! Delegation accounting for a proof-of-stake system contract: the ledger of
//! delegator-to-validator stake, and the queues of timed requests that wait
//! for their maturity.

pub mod account;
pub mod bytesrepr;
pub mod delegation;
pub mod delegation_key;
pub mod delegation_table;
pub mod error;
pub mod request_pool;
pub mod request_queue;
pub mod requests;
pub mod runtime;
pub mod sys_params;
pub mod u512;
pub mod validator_set;
