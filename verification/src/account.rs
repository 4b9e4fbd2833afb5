//! Account identities and block time.

use core::cmp::Ordering;
use vstd::prelude::*;
use vstd::std_specs::cmp::PartialEqSpecImpl;
use vstd::std_specs::cmp::PartialOrdSpecImpl;

verus! {

/// Whether `a` comes before `b` in the lexicographic order of bytes.
pub open spec fn bytes_before(a: Seq<u8>, b: Seq<u8>) -> bool
    decreases a.len(),
{
    if b.len() == 0 {
        false
    } else if a.len() == 0 {
        true
    } else if a[0] != b[0] {
        a[0] < b[0]
    } else {
        bytes_before(a.skip(1), b.skip(1))
    }
}

/// No byte string comes before itself.
pub proof fn lemma_bytes_before_irreflexive(a: Seq<u8>)
    ensures
        !bytes_before(a, a),
    decreases a.len(),
{
    if a.len() > 0 {
        lemma_bytes_before_irreflexive(a.skip(1));
    }
}

/// The lexicographic order is transitive.
pub proof fn lemma_bytes_before_transitive(a: Seq<u8>, b: Seq<u8>, c: Seq<u8>)
    requires
        bytes_before(a, b),
        bytes_before(b, c),
    ensures
        bytes_before(a, c),
    decreases a.len(),
{
    if a.len() > 0 && a[0] == b[0] && b[0] == c[0] {
        lemma_bytes_before_transitive(a.skip(1), b.skip(1), c.skip(1));
    }
}

/// Of two different byte strings of one length, one comes before the other.
pub proof fn lemma_bytes_before_total(a: Seq<u8>, b: Seq<u8>)
    requires
        a.len() == b.len(),
        a != b,
    ensures
        bytes_before(a, b) || bytes_before(b, a),
    decreases a.len(),
{
    if a.len() == 0 {
        assert(a =~= b);
    } else if a[0] == b[0] {
        if a.skip(1) == b.skip(1) {
            assert(a =~= seq![a[0]] + a.skip(1));
            assert(b =~= seq![b[0]] + b.skip(1));
        }
        lemma_bytes_before_total(a.skip(1), b.skip(1));
    }
}

/// Two byte strings that agree before position `k`, the first with the
/// smaller byte at `k`, are in lexicographic order.
pub proof fn lemma_bytes_before_decided_at(a: Seq<u8>, b: Seq<u8>, k: int)
    requires
        0 <= k < a.len(),
        k < b.len(),
        forall|j: int| 0 <= j < k ==> a[j] == b[j],
        a[k] < b[k],
    ensures
        bytes_before(a, b),
    decreases k,
{
    if k > 0 {
        lemma_bytes_before_decided_at(a.skip(1), b.skip(1), k - 1);
    }
}

/// The public key of an account: 32 bytes.
#[derive(Clone, Copy, Debug, Eq, Ord, Hash)]
pub struct PublicKey {
    bytes: [u8; 32],
}

impl View for PublicKey {
    type V = Seq<u8>;

    open spec fn view(&self) -> Seq<u8> {
        self.value()@
    }
}

impl PublicKey {
    /// The key's bytes in ghost code.
    pub closed spec fn value(&self) -> [u8; 32] {
        self.bytes
    }

    /// The key of these 32 bytes in ghost code.
    pub open spec fn of(bytes: Seq<u8>) -> PublicKey {
        choose|key: PublicKey| key@ == bytes
    }

    /// `of` names the one key of the bytes.
    pub proof fn lemma_of(bytes: Seq<u8>, key: PublicKey)
        requires
            key@ == bytes,
        ensures
            Self::of(bytes) == key,
    {
        Self::of(bytes).lemma_view_injective(key);
    }

    /// The Ed25519 key made of these bytes.
    pub fn ed25519_from(bytes: [u8; 32]) -> (r: PublicKey)
        ensures
            r@ == bytes@,
    {
        PublicKey { bytes }
    }

    /// The key's bytes.
    pub fn to_bytes(&self) -> (r: [u8; 32])
        ensures
            r@ == self@,
    {
        self.bytes
    }

    /// Two keys of the same bytes are one key.
    pub proof fn lemma_view_injective(self, other: PublicKey)
        requires
            self@ == other@,
        ensures
            self == other,
    {
        assert(self.bytes =~= other.bytes);
    }
}

impl PartialEq for PublicKey {
    fn eq(&self, other: &PublicKey) -> (r: bool) {
        let mut i: usize = 0;
        while i < 32
            invariant
                i <= 32,
                forall|j: int| 0 <= j < i ==> self.bytes@[j] == other.bytes@[j],
            decreases 32 - i,
        {
            if self.bytes[i] != other.bytes[i] {
                return false;
            }
            i += 1;
        }
        proof {
            assert(self.bytes@ =~= other.bytes@);
        }
        true
    }
}

impl PartialEqSpecImpl for PublicKey {
    open spec fn obeys_eq_spec() -> bool {
        true
    }

    open spec fn eq_spec(&self, other: &PublicKey) -> bool {
        self@ == other@
    }
}

impl PartialOrd for PublicKey {
    fn partial_cmp(&self, other: &PublicKey) -> (r: Option<Ordering>) {
        let mut i: usize = 0;
        while i < 32
            invariant
                i <= 32,
                forall|j: int| 0 <= j < i ==> self.bytes@[j] == other.bytes@[j],
            decreases 32 - i,
        {
            if self.bytes[i] < other.bytes[i] {
                proof {
                    lemma_bytes_before_decided_at(self.bytes@, other.bytes@, i + 0);
                }
                return Some(Ordering::Less);
            }
            if self.bytes[i] > other.bytes[i] {
                proof {
                    lemma_bytes_before_decided_at(other.bytes@, self.bytes@, i + 0);
                    if bytes_before(self.bytes@, other.bytes@) {
                        lemma_bytes_before_transitive(self.bytes@, other.bytes@, self.bytes@);
                        lemma_bytes_before_irreflexive(self.bytes@);
                    }
                }
                return Some(Ordering::Greater);
            }
            i += 1;
        }
        proof {
            assert(self.bytes@ =~= other.bytes@);
            lemma_bytes_before_irreflexive(self.bytes@);
        }
        Some(Ordering::Equal)
    }
}

impl PartialOrdSpecImpl for PublicKey {
    open spec fn obeys_partial_cmp_spec() -> bool {
        true
    }

    open spec fn partial_cmp_spec(&self, other: &PublicKey) -> Option<Ordering> {
        if bytes_before(self@, other@) {
            Some(Ordering::Less)
        } else if self@ == other@ {
            Some(Ordering::Equal)
        } else {
            Some(Ordering::Greater)
        }
    }
}

/// A point of block time, in the chain's own unit.
#[derive(Clone, Copy, Debug, PartialEq, Eq, Structural, Default)]
pub struct BlockTime {
    value: u64,
}

impl View for BlockTime {
    type V = u64;

    closed spec fn view(&self) -> u64 {
        self.value
    }
}

impl BlockTime {
    /// The block time of this value in ghost code.
    pub closed spec fn of(value: u64) -> BlockTime {
        BlockTime { value }
    }

    /// The block time of this value.
    pub fn new(value: u64) -> (r: BlockTime)
        ensures
            r@ == value,
            r == Self::of(value),
    {
        BlockTime { value }
    }

    /// The value of this block time.
    pub fn value(&self) -> (r: u64)
        ensures
            r == self@,
    {
        self.value
    }
}

} // verus!
