//! Unsigned 512-bit amounts.

use core::cmp::Ordering;
use vstd::prelude::*;
use vstd::std_specs::cmp::PartialEqSpecImpl;
use vstd::std_specs::cmp::PartialOrdSpecImpl;
use vstd::std_specs::convert::FromSpecImpl;

verus! {

/// The radix of one limb: two to the power of 64.
pub open spec fn radix() -> nat {
    0x1_0000_0000_0000_0000
}

/// The weight of the limb at position `i`: the radix to the power of `i`.
pub open spec fn weight(i: nat) -> nat
    decreases i,
{
    if i == 0 {
        1
    } else {
        radix() * weight((i - 1) as nat)
    }
}

/// The number that a little-endian sequence of limbs stands for.
pub open spec fn value_of(limbs: Seq<u64>) -> nat
    decreases limbs.len(),
{
    if limbs.len() == 0 {
        0
    } else {
        value_of(limbs.drop_last()) + limbs.last() as nat * weight((limbs.len() - 1) as nat)
    }
}

/// A sequence of limbs stands for a number below the weight of its length.
pub proof fn lemma_value_below_weight(limbs: Seq<u64>)
    ensures
        value_of(limbs) < weight(limbs.len()),
    decreases limbs.len(),
{
    if limbs.len() > 0 {
        lemma_value_below_weight(limbs.drop_last());
        let w = weight((limbs.len() - 1) as nat);
        let top = limbs.last() as nat;
        assert(top * w + w <= radix() * w) by (nonlinear_arith)
            requires
                top + 1 <= radix(),
        ;
    }
}

/// The value of the first `i + 1` limbs, from the value of the first `i`.
pub proof fn lemma_value_take_next(limbs: Seq<u64>, i: int)
    requires
        0 <= i < limbs.len(),
    ensures
        value_of(limbs.take(i + 1)) == value_of(limbs.take(i)) + limbs[i] as nat * weight(i as nat),
{
    assert(limbs.take(i + 1).drop_last() =~= limbs.take(i));
}

/// An unsigned integer of 512 bits, held as eight limbs, least significant
/// first.
#[derive(Clone, Copy, Debug)]
pub struct U512 {
    limbs: [u64; 8],
}

impl View for U512 {
    type V = nat;

    closed spec fn view(&self) -> nat {
        value_of(self.limbs@)
    }
}

impl U512 {
    /// The first number that no `U512` can hold: two to the power of 512.
    pub open spec fn bound() -> nat {
        weight(8)
    }

    /// The bound is positive.
    pub proof fn lemma_bound_positive()
        ensures
            Self::bound() > 0,
    {
        lemma_weight_positive(8);
    }

    /// Every amount is below `bound()`.
    pub proof fn lemma_bounded(self)
        ensures
            self@ < Self::bound(),
    {
        lemma_value_below_weight(self.limbs@);
    }

    /// The amount zero.
    pub fn zero() -> (r: U512)
        ensures
            r@ == 0,
    {
        let r = U512 { limbs: [0u64; 8] };
        proof {
            lemma_zero_limbs(r.limbs@);
        }
        r
    }

    /// The largest amount: one less than `bound()`.
    pub fn max_value() -> (r: U512)
        ensures
            r@ + 1 == Self::bound(),
    {
        let r = U512 { limbs: [0xffff_ffff_ffff_ffffu64; 8] };
        proof {
            lemma_full_limbs(r.limbs@);
        }
        r
    }

    /// The amount that a `u64` holds.
    pub fn from_u64(v: u64) -> (r: U512)
        ensures
            r@ == v,
    {
        let mut limbs: [u64; 8] = [0u64; 8];
        limbs[0] = v;
        proof {
            lemma_value_take_next(limbs@, 0);
            assert(limbs@.take(0) =~= Seq::<u64>::empty());
            assert(weight(0) == 1);
            assert(value_of(limbs@.take(0)) == 0);
            assert(limbs@[0] as nat * weight(0) == v as nat) by (nonlinear_arith)
                requires
                    limbs@[0] == v,
                    weight(0) == 1,
            ;
            lemma_high_zero_limbs(limbs@, 1, 8);
            assert(limbs@.take(8) =~= limbs@);
        }
        U512 { limbs }
    }

    /// Whether the amount is zero.
    pub fn is_zero(&self) -> (r: bool)
        ensures
            r == (self@ == 0),
    {
        let mut i: usize = 0;
        while i < 8
            invariant
                i <= 8,
                value_of(self.limbs@.take(i as int)) == 0,
            decreases 8 - i,
        {
            proof {
                lemma_value_take_next(self.limbs@, i as int);
                lemma_rest_at_least(self.limbs@, i as int + 1, 8);
                assert(self.limbs@.take(8) =~= self.limbs@);
            }
            if self.limbs[i] != 0 {
                proof {
                    lemma_weight_positive(i as nat);
                    let w = weight(i as nat);
                    let l = self.limbs@[i as int] as nat;
                    assert(l * w >= w) by (nonlinear_arith)
                        requires
                            l >= 1,
                    ;
                }
                return false;
            }
            proof {
                let w = weight(i as nat);
                let l = self.limbs@[i as int] as nat;
                assert(l * w == 0) by (nonlinear_arith)
                    requires
                        l == 0,
                ;
            }
            i += 1;
        }
        proof {
            assert(self.limbs@.take(8) =~= self.limbs@);
        }
        true
    }

    /// The sum, where it fits in 512 bits.
    pub fn checked_add(self, other: U512) -> (r: Option<U512>)
        ensures
            r is Some <==> self@ + other@ < Self::bound(),
            r is Some ==> r.unwrap()@ == self@ + other@,
    {
        let (sum, carried) = self.overflowing_add(other);
        if carried {
            None
        } else {
            Some(sum)
        }
    }

    /// The sum modulo `bound()`, and whether the sum itself does not fit.
    pub fn overflowing_add(self, other: U512) -> (r: (U512, bool))
        ensures
            r.1 == (self@ + other@ >= Self::bound()),
            r.0@ + (if r.1 {
                Self::bound()
            } else {
                0
            }) == self@ + other@,
    {
        let mut limbs: [u64; 8] = [0u64; 8];
        let mut carry: u64 = 0;
        let mut i: usize = 0;
        while i < 8
            invariant
                i <= 8,
                carry <= 1,
                value_of(limbs@.take(i as int)) + carry * weight(i as nat) == value_of(
                    self.limbs@.take(i as int),
                ) + value_of(other.limbs@.take(i as int)),
            decreases 8 - i,
        {
            let sum: u128 = self.limbs[i] as u128 + other.limbs[i] as u128 + carry as u128;
            let low: u64 = (sum % 0x1_0000_0000_0000_0000) as u64;
            let high: u64 = (sum / 0x1_0000_0000_0000_0000) as u64;
            let ghost before = limbs@;
            limbs[i] = low;
            proof {
                lemma_value_take_next(limbs@, i as int);
                lemma_value_take_next(self.limbs@, i as int);
                lemma_value_take_next(other.limbs@, i as int);
                assert(limbs@.take(i as int) =~= before.take(i as int));
                let w = weight(i as nat);
                let a = self.limbs@[i as int] as nat;
                let b = other.limbs@[i as int] as nat;
                let c = carry as nat;
                let l = low as nat;
                let h = high as nat;
                assert(l * w + h * (radix() * w) == a * w + b * w + c * w) by (nonlinear_arith)
                    requires
                        l + h * radix() == a + b + c,
                ;
            }
            carry = high;
            i += 1;
        }
        proof {
            assert(limbs@.take(8) =~= limbs@);
            assert(self.limbs@.take(8) =~= self.limbs@);
            assert(other.limbs@.take(8) =~= other.limbs@);
            lemma_value_below_weight(limbs@);
            lemma_value_below_weight(self.limbs@);
            lemma_value_below_weight(other.limbs@);
            assert(carry * weight(8) == if carry == 1 {
                weight(8)
            } else {
                0
            }) by (nonlinear_arith)
                requires
                    carry <= 1,
            ;
        }
        (U512 { limbs }, carry == 1)
    }
    /// The difference, or zero where `other` is the larger.
    pub fn saturating_sub(self, other: U512) -> (r: U512)
        ensures
            r@ == if self@ >= other@ {
                self@ - other@
            } else {
                0
            },
    {
        let (difference, borrowed) = self.overflowing_sub(other);
        if borrowed {
            Self::zero()
        } else {
            difference
        }
    }

    /// The difference, where `other` is not the larger.
    pub fn checked_sub(self, other: U512) -> (r: Option<U512>)
        ensures
            r is Some <==> self@ >= other@,
            r is Some ==> r.unwrap()@ == self@ - other@,
    {
        let (difference, borrowed) = self.overflowing_sub(other);
        if borrowed {
            None
        } else {
            Some(difference)
        }
    }

    /// The difference modulo `bound()`, and whether `other` is the larger.
    pub fn overflowing_sub(self, other: U512) -> (r: (U512, bool))
        ensures
            r.1 == (self@ < other@),
            r.0@ + other@ == self@ + if r.1 {
                Self::bound()
            } else {
                0
            },
    {
        let mut limbs: [u64; 8] = [0u64; 8];
        let mut borrow: u64 = 0;
        let mut i: usize = 0;
        while i < 8
            invariant
                i <= 8,
                borrow <= 1,
                value_of(limbs@.take(i as int)) + value_of(other.limbs@.take(i as int))
                    == value_of(self.limbs@.take(i as int)) + borrow * weight(i as nat),
            decreases 8 - i,
        {
            let lifted: u128 = 0x1_0000_0000_0000_0000 + self.limbs[i] as u128
                - other.limbs[i] as u128 - borrow as u128;
            let low: u64 = (lifted % 0x1_0000_0000_0000_0000) as u64;
            let high: u64 = (lifted / 0x1_0000_0000_0000_0000) as u64;
            let ghost before = limbs@;
            limbs[i] = low;
            proof {
                lemma_value_take_next(limbs@, i as int);
                lemma_value_take_next(self.limbs@, i as int);
                lemma_value_take_next(other.limbs@, i as int);
                assert(limbs@.take(i as int) =~= before.take(i as int));
                let w = weight(i as nat);
                let a = self.limbs@[i as int] as nat;
                let b = other.limbs@[i as int] as nat;
                let c = borrow as nat;
                let l = low as nat;
                let h = high as nat;
                assert(l * w + b * w + c * w == a * w + (1 - h) * (radix() * w))
                    by (nonlinear_arith)
                    requires
                        l + h * radix() == radix() + a - b - c,
                ;
            }
            borrow = 1 - high;
            i += 1;
        }
        proof {
            assert(limbs@.take(8) =~= limbs@);
            assert(self.limbs@.take(8) =~= self.limbs@);
            assert(other.limbs@.take(8) =~= other.limbs@);
            lemma_value_below_weight(limbs@);
            lemma_value_below_weight(self.limbs@);
            lemma_value_below_weight(other.limbs@);
        }
        (U512 { limbs }, borrow == 1)
    }

    /// Two amounts of one value are one amount.
    pub proof fn lemma_view_injective(self, other: U512)
        requires
            self@ == other@,
        ensures
            self == other,
    {
        lemma_value_injective(self.limbs@, other.limbs@);
        assert(self.limbs =~= other.limbs);
    }
}

impl PartialEq for U512 {
    fn eq(&self, other: &U512) -> (r: bool) {
        let mut i: usize = 0;
        while i < 8
            invariant
                i <= 8,
                forall|j: int| 0 <= j < i ==> self.limbs@[j] == other.limbs@[j],
            decreases 8 - i,
        {
            if self.limbs[i] != other.limbs[i] {
                proof {
                    if self@ == other@ {
                        lemma_value_injective(self.limbs@, other.limbs@);
                    }
                }
                return false;
            }
            i += 1;
        }
        proof {
            assert(self.limbs@ =~= other.limbs@);
        }
        true
    }
}

impl Eq for U512 {

}

impl PartialEqSpecImpl for U512 {
    open spec fn obeys_eq_spec() -> bool {
        true
    }

    open spec fn eq_spec(&self, other: &U512) -> bool {
        self@ == other@
    }
}

impl PartialOrd for U512 {
    fn partial_cmp(&self, other: &U512) -> (r: Option<Ordering>) {
        let mut i: usize = 8;
        while i > 0
            invariant
                i <= 8,
                forall|j: int| i <= j < 8 ==> self.limbs@[j] == other.limbs@[j],
            decreases i,
        {
            i -= 1;
            if self.limbs[i] < other.limbs[i] {
                proof {
                    lemma_value_decided_at(self.limbs@, other.limbs@, i + 0);
                }
                return Some(Ordering::Less);
            }
            if self.limbs[i] > other.limbs[i] {
                proof {
                    lemma_value_decided_at(other.limbs@, self.limbs@, i + 0);
                }
                return Some(Ordering::Greater);
            }
        }
        proof {
            assert(self.limbs@ =~= other.limbs@);
        }
        Some(Ordering::Equal)
    }
}

impl PartialOrdSpecImpl for U512 {
    open spec fn obeys_partial_cmp_spec() -> bool {
        true
    }

    open spec fn partial_cmp_spec(&self, other: &U512) -> Option<Ordering> {
        if self@ < other@ {
            Some(Ordering::Less)
        } else if self@ == other@ {
            Some(Ordering::Equal)
        } else {
            Some(Ordering::Greater)
        }
    }
}

impl From<u64> for U512 {
    fn from(v: u64) -> (r: U512) {
        let r = U512::from_u64(v);
        proof {
            r.lemma_view_injective(choose|x: U512| x@ == v);
        }
        r
    }
}

impl FromSpecImpl<u64> for U512 {
    open spec fn obeys_from_spec() -> bool {
        true
    }

    open spec fn from_spec(v: u64) -> U512 {
        choose|r: U512| r@ == v
    }
}

/// Limbs of equal length that stand for one number are the same limbs.
pub proof fn lemma_value_injective(a: Seq<u64>, b: Seq<u64>)
    requires
        a.len() == b.len(),
        value_of(a) == value_of(b),
    ensures
        a == b,
    decreases a.len(),
{
    if a.len() > 0 {
        lemma_value_below_weight(a.drop_last());
        lemma_value_below_weight(b.drop_last());
        let w = weight((a.len() - 1) as nat);
        let x = a.last() as nat;
        let y = b.last() as nat;
        let p = value_of(a.drop_last());
        let q = value_of(b.drop_last());
        assert(x == y) by (nonlinear_arith)
            requires
                p + x * w == q + y * w,
                p < w,
                q < w,
        ;
        lemma_value_injective(a.drop_last(), b.drop_last());
        assert(a =~= a.drop_last().push(a.last()));
        assert(b =~= b.drop_last().push(b.last()));
    } else {
        assert(a =~= b);
    }
}

/// Where two limb sequences agree above position `k` and differ at `k`, the
/// limb at `k` decides which stands for the smaller number.
pub proof fn lemma_value_decided_at(a: Seq<u64>, b: Seq<u64>, k: int)
    requires
        a.len() == b.len(),
        0 <= k < a.len(),
        forall|j: int| k < j < a.len() ==> a[j] == b[j],
        a[k] < b[k],
    ensures
        value_of(a) < value_of(b),
    decreases a.len(),
{
    let w = weight((a.len() - 1) as nat);
    if k == a.len() - 1 {
        lemma_value_below_weight(a.drop_last());
        let x = a.last() as nat;
        let y = b.last() as nat;
        assert(x * w + w <= y * w) by (nonlinear_arith)
            requires
                x + 1 <= y,
        ;
    } else {
        lemma_value_decided_at(a.drop_last(), b.drop_last(), k);
    }
}

/// Limbs that are all at their largest stand for one less than the weight
/// of their length.
proof fn lemma_full_limbs(limbs: Seq<u64>)
    requires
        forall|i: int| 0 <= i < limbs.len() ==> limbs[i] == 0xffff_ffff_ffff_ffff,
    ensures
        value_of(limbs) + 1 == weight(limbs.len()),
    decreases limbs.len(),
{
    if limbs.len() > 0 {
        lemma_full_limbs(limbs.drop_last());
        let w = weight((limbs.len() - 1) as nat);
        let top = limbs.last() as nat;
        assert(top * w + w == radix() * w) by (nonlinear_arith)
            requires
                top + 1 == radix(),
        ;
    }
}

/// Limbs that are all zero stand for zero.
proof fn lemma_zero_limbs(limbs: Seq<u64>)
    requires
        forall|i: int| 0 <= i < limbs.len() ==> limbs[i] == 0,
    ensures
        value_of(limbs) == 0,
    decreases limbs.len(),
{
    if limbs.len() > 0 {
        lemma_zero_limbs(limbs.drop_last());
    }
}

/// Zero limbs above position `from` add nothing to the value.
proof fn lemma_high_zero_limbs(limbs: Seq<u64>, from: int, to: int)
    requires
        0 <= from <= to <= limbs.len(),
        forall|i: int| from <= i < to ==> limbs[i] == 0,
    ensures
        value_of(limbs.take(to)) == value_of(limbs.take(from)),
    decreases to - from,
{
    if from < to {
        lemma_high_zero_limbs(limbs, from, to - 1);
        lemma_value_take_next(limbs, to - 1);
    }
}

/// A longer prefix stands for at least as much as a shorter one.
proof fn lemma_rest_at_least(limbs: Seq<u64>, from: int, to: int)
    requires
        0 <= from <= to <= limbs.len(),
    ensures
        value_of(limbs.take(to)) >= value_of(limbs.take(from)),
    decreases to - from,
{
    if from < to {
        lemma_rest_at_least(limbs, from, to - 1);
        lemma_value_take_next(limbs, to - 1);
    }
}

/// Every weight is positive.
pub proof fn lemma_weight_positive(i: nat)
    ensures
        weight(i) > 0,
    decreases i,
{
    if i > 0 {
        lemma_weight_positive((i - 1) as nat);
        let w = weight((i - 1) as nat);
        assert(radix() * w > 0) by (nonlinear_arith)
            requires
                w > 0,
                radix() > 0,
        ;
    }
}

} // verus!
