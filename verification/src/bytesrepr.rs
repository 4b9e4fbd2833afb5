//! Values out of their serialised form.

use crate::account::BlockTime;
use crate::account::PublicKey;
use vstd::prelude::*;

verus! {

/// Why bytes hold no value of the type asked for.
#[derive(Clone, Copy, Debug, PartialEq, Eq, Structural)]
pub enum Error {
    /// The bytes end before the value does.
    EarlyEndOfStream,
    /// The bytes do not have the form of the value.
    FormattingError,
    /// Bytes are left behind the value.
    LeftOverBytes,
}

/// The number that four bytes stand for, least significant first.
pub open spec fn u32_of(bytes: Seq<u8>) -> nat {
    (bytes[0] + 0x100 * bytes[1] + 0x1_0000 * bytes[2] + 0x100_0000 * bytes[3]) as nat
}

/// The number that eight bytes stand for, least significant first.
pub open spec fn u64_of(bytes: Seq<u8>) -> nat {
    (bytes[0] + 0x100 * bytes[1] + 0x1_0000 * bytes[2] + 0x100_0000 * bytes[3] + 0x1_0000_0000
        * bytes[4] + 0x100_0000_0000 * bytes[5] + 0x1_0000_0000_0000 * bytes[6]
        + 0x100_0000_0000_0000 * bytes[7]) as nat
}

/// A type whose values can be read from the front of a byte string.
pub trait FromBytes: Sized {
    /// The value that `bytes` begin with and the number of bytes that it
    /// takes, or why they begin with none.
    spec fn parse(bytes: Seq<u8>) -> Result<(Self, nat), Error>;

    /// A value takes no more bytes than there are.
    proof fn lemma_parse_within(bytes: Seq<u8>)
        ensures
            Self::parse(bytes) is Ok ==> Self::parse(bytes).unwrap().1 <= bytes.len(),
    ;

    /// Reads a value from the front of `bytes` and says how many bytes it
    /// took.
    fn from_bytes(bytes: &[u8]) -> (r: Result<(Self, usize), Error>)
        ensures
            match r {
                Ok((value, taken)) => Self::parse(bytes@) == Ok::<(Self, nat), Error>(
                    (value, taken as nat),
                ),
                Err(e) => Self::parse(bytes@) == Err::<(Self, nat), Error>(e),
            },
    ;
}

/// The value that `bytes` hold, where they hold one and nothing else.
pub open spec fn deserialized<T: FromBytes>(bytes: Seq<u8>) -> Result<T, Error> {
    match T::parse(bytes) {
        Ok((value, taken)) => if taken == bytes.len() {
            Ok(value)
        } else {
            Err(Error::LeftOverBytes)
        },
        Err(e) => Err(e),
    }
}

/// Reads the value that `bytes` hold. Bytes behind the value are an error.
pub fn deserialize<T: FromBytes>(bytes: &[u8]) -> (r: Result<T, Error>)
    ensures
        r == deserialized::<T>(bytes@),
{
    proof {
        T::lemma_parse_within(bytes@);
    }
    match T::from_bytes(bytes) {
        Ok((value, taken)) => {
            if taken == bytes.len() {
                Ok(value)
            } else {
                Err(Error::LeftOverBytes)
            }
        },
        Err(e) => Err(e),
    }
}

impl FromBytes for u32 {
    open spec fn parse(bytes: Seq<u8>) -> Result<(Self, nat), Error> {
        if bytes.len() < 4 {
            Err(Error::EarlyEndOfStream)
        } else {
            Ok((u32_of(bytes) as u32, 4))
        }
    }

    proof fn lemma_parse_within(bytes: Seq<u8>) {
    }

    fn from_bytes(bytes: &[u8]) -> (r: Result<(Self, usize), Error>) {
        if bytes.len() < 4 {
            return Err(Error::EarlyEndOfStream);
        }
        let value: u32 = bytes[0] as u32 + 0x100 * (bytes[1] as u32) + 0x1_0000 * (bytes[2] as u32)
            + 0x100_0000 * (bytes[3] as u32);
        Ok((value, 4))
    }
}

impl FromBytes for u64 {
    open spec fn parse(bytes: Seq<u8>) -> Result<(Self, nat), Error> {
        if bytes.len() < 8 {
            Err(Error::EarlyEndOfStream)
        } else {
            Ok((u64_of(bytes) as u64, 8))
        }
    }

    proof fn lemma_parse_within(bytes: Seq<u8>) {
    }

    fn from_bytes(bytes: &[u8]) -> (r: Result<(Self, usize), Error>) {
        if bytes.len() < 8 {
            return Err(Error::EarlyEndOfStream);
        }
        let value: u64 = bytes[0] as u64 + 0x100 * (bytes[1] as u64) + 0x1_0000 * (bytes[2] as u64)
            + 0x100_0000 * (bytes[3] as u64) + 0x1_0000_0000 * (bytes[4] as u64) + 0x100_0000_0000
            * (bytes[5] as u64) + 0x1_0000_0000_0000 * (bytes[6] as u64) + 0x100_0000_0000_0000 * (
        bytes[7] as u64);
        Ok((value, 8))
    }
}

impl FromBytes for BlockTime {
    open spec fn parse(bytes: Seq<u8>) -> Result<(Self, nat), Error> {
        if bytes.len() < 8 {
            Err(Error::EarlyEndOfStream)
        } else {
            Ok((BlockTime::of(u64_of(bytes) as u64), 8))
        }
    }

    proof fn lemma_parse_within(bytes: Seq<u8>) {
    }

    fn from_bytes(bytes: &[u8]) -> (r: Result<(Self, usize), Error>) {
        match u64::from_bytes(bytes) {
            Ok((value, taken)) => Ok((BlockTime::new(value), taken)),
            Err(e) => Err(e),
        }
    }
}

impl FromBytes for PublicKey {
    /// A key is serialised as the number 32 in four bytes, then its 32 bytes.
    open spec fn parse(bytes: Seq<u8>) -> Result<(Self, nat), Error> {
        if bytes.len() < 4 {
            Err(Error::EarlyEndOfStream)
        } else if bytes.len() - 4 < u32_of(bytes) {
            Err(Error::EarlyEndOfStream)
        } else if u32_of(bytes) != 32 {
            Err(Error::FormattingError)
        } else {
            Ok((PublicKey::of(bytes.subrange(4, 36)), 36))
        }
    }

    proof fn lemma_parse_within(bytes: Seq<u8>) {
    }

    fn from_bytes(bytes: &[u8]) -> (r: Result<(Self, usize), Error>) {
        let length = match u32::from_bytes(bytes) {
            Ok((length, _)) => length,
            Err(e) => {
                return Err(e);
            },
        };
        if bytes.len() - 4 < length as usize {
            return Err(Error::EarlyEndOfStream);
        }
        if length != 32 {
            return Err(Error::FormattingError);
        }
        let mut key: [u8; 32] = [0u8; 32];
        let mut i: usize = 0;
        while i < 32
            invariant
                i <= 32,
                bytes@.len() >= 36,
                forall|j: int| 0 <= j < i ==> key@[j] == bytes@[4 + j],
            decreases 32 - i,
        {
            key[i] = bytes[4 + i];
            i += 1;
        }
        let value = PublicKey::ed25519_from(key);
        proof {
            assert(value@ =~= bytes@.subrange(4, 36));
            PublicKey::lemma_of(bytes@.subrange(4, 36), value);
        }
        Ok((value, 36))
    }
}

} // verus!
