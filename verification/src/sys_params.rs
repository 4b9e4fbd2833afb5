//! The parameters of the system.

use vstd::prelude::*;

verus! {

/// How many validators the active set holds at most.
pub const MAX_VALIDATORS: usize = 100;

} // verus!
