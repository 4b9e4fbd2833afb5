//! What a contract is handed by the host that runs it.

use crate::bytesrepr::deserialize;
use crate::bytesrepr::deserialized;
use crate::bytesrepr::Error;
use crate::bytesrepr::FromBytes;
use vstd::prelude::*;

verus! {

/// The argument that the host's answer holds: none where the host has no
/// such argument, else the value that its bytes stand for, or why they stand
/// for none.
pub open spec fn arg_of<T: FromBytes>(loaded: Option<Vec<u8>>) -> Option<Result<T, Error>> {
    match loaded {
        None => None,
        Some(bytes) => Some(deserialized::<T>(bytes@)),
    }
}

/// Reads an argument out of the host's answer.
pub fn decode_arg<T: FromBytes>(loaded: Option<Vec<u8>>) -> (r: Option<Result<T, Error>>)
    ensures
        r == arg_of::<T>(loaded),
{
    match loaded {
        None => None,
        Some(bytes) => Some(deserialize(bytes.as_slice())),
    }
}

/// The `i`-th argument of the current invocation. `load_arg` asks the host
/// for the bytes of an argument, and answers `None` where there is none. It
/// is asked once, for `i`.
pub fn get_arg<T: FromBytes, F: FnOnce(u32) -> Option<Vec<u8>>>(i: u32, load_arg: F) -> (r: Option<
    Result<T, Error>,
>)
    requires
        call_requires(load_arg, (i,)),
    ensures
        exists|loaded: Option<Vec<u8>>|
            call_ensures(load_arg, (i,), loaded) && r == arg_of::<T>(loaded),
{
    let loaded = load_arg(i);
    decode_arg(loaded)
}

} // verus!
