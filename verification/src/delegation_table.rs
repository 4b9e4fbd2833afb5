//! The table of the ledger: delegations kept in the order of their keys, one
//! amount per key.

use crate::delegation_key::DelegationKey;
use crate::u512::U512;
use vstd::prelude::*;

verus! {

/// The entries stand in the strict order of their keys.
pub open spec fn sorted(s: Seq<(DelegationKey, U512)>) -> bool {
    forall|i: int, j: int|
        0 <= i < j < s.len() ==> (#[trigger] s[i]).0.before((#[trigger] s[j]).0)
}

/// Whether an entry stands under `key`.
pub open spec fn has_key(s: Seq<(DelegationKey, U512)>, key: DelegationKey) -> bool {
    exists|i: int| 0 <= i < s.len() && (#[trigger] s[i]).0 == key
}

/// A position at which `key` stands, where it stands at all.
pub open spec fn position_of(s: Seq<(DelegationKey, U512)>, key: DelegationKey) -> int {
    choose|i: int| 0 <= i < s.len() && (#[trigger] s[i]).0 == key
}

/// The mapping that the entries stand for: each key to its amount.
pub open spec fn table_map(s: Seq<(DelegationKey, U512)>) -> Map<DelegationKey, nat> {
    Map::new(|key: DelegationKey| has_key(s, key), |key: DelegationKey| s[position_of(s, key)].1@)
}

/// Every entry before position `at` comes before `key`, and `key` comes
/// before every entry from `at` on.
pub open spec fn splits_at(s: Seq<(DelegationKey, U512)>, key: DelegationKey, at: int) -> bool {
    &&& 0 <= at <= s.len()
    &&& forall|i: int| 0 <= i < at ==> (#[trigger] s[i]).0.before(key)
    &&& forall|i: int| at <= i < s.len() ==> key.before((#[trigger] s[i]).0)
}

/// The sum of the amounts of the entries whose key `pick` accepts.
pub open spec fn sum_where(s: Seq<(DelegationKey, U512)>, pick: spec_fn(DelegationKey) -> bool) -> nat
    decreases s.len(),
{
    if s.len() == 0 {
        0
    } else {
        sum_where(s.drop_last(), pick) + if pick(s.last().0) {
            s.last().1@
        } else {
            0
        }
    }
}

/// What an entry adds to the sum over the keys that `pick` accepts.
pub open spec fn share(entry: (DelegationKey, U512), pick: spec_fn(DelegationKey) -> bool) -> nat {
    if pick(entry.0) {
        entry.1@
    } else {
        0
    }
}

/// Accepts every key.
pub open spec fn any_key() -> spec_fn(DelegationKey) -> bool {
    |key: DelegationKey| true
}

/// Accepts the keys of one delegator.
pub open spec fn by_delegator(delegator: Seq<u8>) -> spec_fn(DelegationKey) -> bool {
    |key: DelegationKey| key.delegator@ == delegator
}

/// Accepts the keys of one validator.
pub open spec fn by_validator(validator: Seq<u8>) -> spec_fn(DelegationKey) -> bool {
    |key: DelegationKey| key.validator@ == validator
}

/// The sum of all amounts.
pub open spec fn total_of(s: Seq<(DelegationKey, U512)>) -> nat {
    sum_where(s, any_key())
}

/// The sum of what `delegator` has delegated.
pub open spec fn delegating_of(s: Seq<(DelegationKey, U512)>, delegator: Seq<u8>) -> nat {
    sum_where(s, by_delegator(delegator))
}

/// The sum of what is delegated to `validator`.
pub open spec fn delegated_of(s: Seq<(DelegationKey, U512)>, validator: Seq<u8>) -> nat {
    sum_where(s, by_validator(validator))
}

/// In sorted entries a key stands at one position only.
pub proof fn lemma_position(s: Seq<(DelegationKey, U512)>, i: int)
    requires
        sorted(s),
        0 <= i < s.len(),
    ensures
        has_key(s, s[i].0),
        position_of(s, s[i].0) == i,
        table_map(s).contains_key(s[i].0),
        table_map(s)[s[i].0] == s[i].1@,
{
    let p = position_of(s, s[i].0);
    s[i].0.lemma_before_irreflexive();
    if p < i {
        assert(s[p].0.before(s[i].0));
    } else if i < p {
        assert(s[i].0.before(s[p].0));
    }
}

/// Where sorted entries split at a position for a key, the key is not among
/// them.
pub proof fn lemma_split_excludes(s: Seq<(DelegationKey, U512)>, key: DelegationKey, at: int)
    requires
        splits_at(s, key, at),
    ensures
        !has_key(s, key),
        !table_map(s).contains_key(key),
{
    key.lemma_before_irreflexive();
    if has_key(s, key) {
        let p = position_of(s, key);
        if p < at {
            assert(s[p].0.before(key));
        } else {
            assert(key.before(s[p].0));
        }
    }
}

/// A new key put at its place keeps the entries sorted, and adds one pair to
/// the mapping.
pub proof fn lemma_map_insert(
    s: Seq<(DelegationKey, U512)>,
    at: int,
    key: DelegationKey,
    amount: U512,
)
    requires
        sorted(s),
        splits_at(s, key, at),
    ensures
        sorted(s.insert(at, (key, amount))),
        table_map(s.insert(at, (key, amount))) == table_map(s).insert(key, amount@),
{
    let t = s.insert(at, (key, amount));
    s.insert_ensures(at, (key, amount));
    assert forall|i: int| at < i < t.len() implies #[trigger] t[i] == s[i - 1] by {
        assert(t[(i - 1) + 1] == s[i - 1]);
    }
    assert forall|i: int, j: int| 0 <= i < j < t.len() implies (#[trigger] t[i]).0.before(
        (#[trigger] t[j]).0,
    ) by {
        if j < at {
            assert(s[i].0.before(s[j].0));
        } else if j == at {
            assert(s[i].0.before(key));
        } else if i < at {
            assert(s[i].0.before(s[j - 1].0));
        } else if i == at {
            assert(key.before(s[j - 1].0));
        } else {
            assert(s[i - 1].0.before(s[j - 1].0));
        }
    }
    lemma_split_excludes(s, key, at);
    assert forall|q: DelegationKey| #[trigger]
        table_map(t).contains_key(q) == table_map(s).insert(key, amount@).contains_key(q) by {
        if has_key(t, q) {
            let j = position_of(t, q);
            if j < at {
                assert(s[j].0 == q);
            } else if j > at {
                assert(s[j - 1].0 == q);
            }
        }
        if has_key(s, q) {
            let i = position_of(s, q);
            if i < at {
                assert(t[i].0 == q);
            } else {
                assert(t[i + 1].0 == q);
            }
        }
        if q == key {
            assert(t[at].0 == q);
        }
    }
    assert forall|q: DelegationKey| #[trigger]
        table_map(t).contains_key(q) implies table_map(t)[q] == table_map(s).insert(
        key,
        amount@,
    )[q] by {
        let j = position_of(t, q);
        lemma_position(t, j);
        if j < at {
            lemma_position(s, j);
        } else if j > at {
            lemma_position(s, j - 1);
        }
    }
    assert(table_map(t) =~= table_map(s).insert(key, amount@));
}

/// A new amount under a key that stands keeps the entries sorted, and
/// changes one pair of the mapping.
pub proof fn lemma_map_update(s: Seq<(DelegationKey, U512)>, at: int, amount: U512)
    requires
        sorted(s),
        0 <= at < s.len(),
    ensures
        sorted(s.update(at, (s[at].0, amount))),
        table_map(s.update(at, (s[at].0, amount))) == table_map(s).insert(s[at].0, amount@),
{
    let key = s[at].0;
    let t = s.update(at, (key, amount));
    assert forall|i: int, j: int| 0 <= i < j < t.len() implies (#[trigger] t[i]).0.before(
        (#[trigger] t[j]).0,
    ) by {
        assert(s[i].0.before(s[j].0));
    }
    assert forall|q: DelegationKey| #[trigger]
        table_map(t).contains_key(q) == table_map(s).insert(key, amount@).contains_key(q) by {
        if has_key(t, q) {
            let j = position_of(t, q);
            assert(s[j].0 == q);
        }
        if has_key(s, q) {
            let i = position_of(s, q);
            assert(t[i].0 == q);
        }
        if q == key {
            assert(t[at].0 == q);
        }
    }
    assert forall|q: DelegationKey| #[trigger]
        table_map(t).contains_key(q) implies table_map(t)[q] == table_map(s).insert(
        key,
        amount@,
    )[q] by {
        let j = position_of(t, q);
        lemma_position(t, j);
        lemma_position(s, j);
        if j < at {
            assert(s[j].0.before(s[at].0));
            s[j].0.lemma_before_asymmetric(key);
        } else if at < j {
            assert(s[at].0.before(s[j].0));
            key.lemma_before_asymmetric(s[j].0);
        }
    }
    assert(table_map(t) =~= table_map(s).insert(key, amount@));
}

/// Taking an entry out keeps the others sorted, and takes one pair out of
/// the mapping.
pub proof fn lemma_map_remove(s: Seq<(DelegationKey, U512)>, at: int)
    requires
        sorted(s),
        0 <= at < s.len(),
    ensures
        sorted(s.remove(at)),
        table_map(s.remove(at)) == table_map(s).remove(s[at].0),
{
    let key = s[at].0;
    let t = s.remove(at);
    s.remove_ensures(at);
    assert forall|i: int, j: int| 0 <= i < j < t.len() implies (#[trigger] t[i]).0.before(
        (#[trigger] t[j]).0,
    ) by {
        if j < at {
            assert(s[i].0.before(s[j].0));
        } else if i < at {
            assert(s[i].0.before(s[j + 1].0));
        } else {
            assert(s[i + 1].0.before(s[j + 1].0));
        }
    }
    assert forall|q: DelegationKey| #[trigger]
        table_map(t).contains_key(q) == table_map(s).remove(key).contains_key(q) by {
        if has_key(t, q) {
            let j = position_of(t, q);
            if j < at {
                assert(s[j].0 == q);
                assert(s[j].0.before(s[at].0));
                s[j].0.lemma_before_asymmetric(key);
            } else {
                assert(s[j + 1].0 == q);
                assert(s[at].0.before(s[j + 1].0));
                key.lemma_before_asymmetric(s[j + 1].0);
            }
        }
        if has_key(s, q) && q != key {
            let i = position_of(s, q);
            if i < at {
                assert(t[i].0 == q);
            } else {
                assert(t[i - 1].0 == q);
            }
        }
    }
    assert forall|q: DelegationKey| #[trigger]
        table_map(t).contains_key(q) implies table_map(t)[q] == table_map(s).remove(key)[q] by {
        let j = position_of(t, q);
        lemma_position(t, j);
        if j < at {
            lemma_position(s, j);
        } else {
            lemma_position(s, j + 1);
        }
    }
    assert(table_map(t) =~= table_map(s).remove(key));
}

/// Sorted entries are determined by the mapping that they stand for.
pub proof fn lemma_entries_unique(a: Seq<(DelegationKey, U512)>, b: Seq<(DelegationKey, U512)>)
    requires
        sorted(a),
        sorted(b),
        table_map(a) == table_map(b),
    ensures
        a == b,
    decreases a.len(),
{
    if a.len() == 0 {
        if b.len() > 0 {
            lemma_position(b, 0);
            assert(table_map(a).contains_key(b[0].0));
        }
        assert(a =~= b);
    } else {
        let n = a.len() - 1;
        lemma_position(a, n);
        let last = a[n].0;
        assert(table_map(b).contains_key(last));
        let j = position_of(b, last);
        let m = b.len() - 1;
        lemma_position(b, m);
        lemma_position(b, j);
        if j < m {
            let other = b[m].0;
            assert(b[j].0.before(b[m].0));
            assert(table_map(a).contains_key(other));
            let i = position_of(a, other);
            if i < n {
                assert(a[i].0.before(a[n].0));
            }
            last.lemma_before_asymmetric(other);
        }
        a[n].1.lemma_view_injective(b[m].1);
        lemma_map_remove(a, n);
        lemma_map_remove(b, m);
        assert(a.remove(n) =~= a.drop_last());
        assert(b.remove(m) =~= b.drop_last());
        lemma_entries_unique(a.drop_last(), b.drop_last());
        assert(a =~= a.drop_last().push(a[n]));
        assert(b =~= b.drop_last().push(b[m]));
    }
}

/// The sum over one more entry.
pub proof fn lemma_sum_take_next(
    s: Seq<(DelegationKey, U512)>,
    i: int,
    pick: spec_fn(DelegationKey) -> bool,
)
    requires
        0 <= i < s.len(),
    ensures
        sum_where(s.take(i + 1), pick) == sum_where(s.take(i), pick) + share(s[i], pick),
{
    assert(s.take(i + 1).drop_last() =~= s.take(i));
}

/// The sum over the first entries is no more than the sum over all.
pub proof fn lemma_sum_take_below(
    s: Seq<(DelegationKey, U512)>,
    i: int,
    pick: spec_fn(DelegationKey) -> bool,
)
    requires
        0 <= i <= s.len(),
    ensures
        sum_where(s.take(i), pick) <= sum_where(s, pick),
    decreases s.len() - i,
{
    if i < s.len() {
        lemma_sum_take_next(s, i, pick);
        lemma_sum_take_below(s, i + 1, pick);
    } else {
        assert(s.take(i) =~= s);
    }
}

/// A sum over some keys is no more than the sum of all amounts.
pub proof fn lemma_sum_below_total(
    s: Seq<(DelegationKey, U512)>,
    pick: spec_fn(DelegationKey) -> bool,
)
    ensures
        sum_where(s, pick) <= total_of(s),
    decreases s.len(),
{
    if s.len() > 0 {
        lemma_sum_below_total(s.drop_last(), pick);
    }
}

/// One entry's share is no more than the sum.
pub proof fn lemma_share_below_sum(
    s: Seq<(DelegationKey, U512)>,
    i: int,
    pick: spec_fn(DelegationKey) -> bool,
)
    requires
        0 <= i < s.len(),
    ensures
        share(s[i], pick) <= sum_where(s, pick),
{
    lemma_sum_take_next(s, i, pick);
    lemma_sum_take_below(s, i + 1, pick);
}

/// An entry put in adds its share to the sum.
pub proof fn lemma_sum_insert(
    s: Seq<(DelegationKey, U512)>,
    at: int,
    entry: (DelegationKey, U512),
    pick: spec_fn(DelegationKey) -> bool,
)
    requires
        0 <= at <= s.len(),
    ensures
        sum_where(s.insert(at, entry), pick) == sum_where(s, pick) + share(entry, pick),
    decreases s.len() - at,
{
    let t = s.insert(at, entry);
    if at == s.len() {
        assert(t.drop_last() =~= s);
        assert(t.last() == entry);
    } else {
        assert(t.drop_last() =~= s.drop_last().insert(at, entry));
        assert(t.last() == s.last());
        lemma_sum_insert(s.drop_last(), at, entry, pick);
    }
}

/// An entry taken out takes its share from the sum.
pub proof fn lemma_sum_remove(
    s: Seq<(DelegationKey, U512)>,
    at: int,
    pick: spec_fn(DelegationKey) -> bool,
)
    requires
        0 <= at < s.len(),
    ensures
        sum_where(s.remove(at), pick) + share(s[at], pick) == sum_where(s, pick),
    decreases s.len() - at,
{
    let t = s.remove(at);
    if at == s.len() - 1 {
        assert(t =~= s.drop_last());
    } else {
        assert(t.drop_last() =~= s.drop_last().remove(at));
        assert(t.last() == s.last());
        lemma_sum_remove(s.drop_last(), at, pick);
    }
}

/// An entry replaced changes the sum by the difference of the shares.
pub proof fn lemma_sum_update(
    s: Seq<(DelegationKey, U512)>,
    at: int,
    entry: (DelegationKey, U512),
    pick: spec_fn(DelegationKey) -> bool,
)
    requires
        0 <= at < s.len(),
    ensures
        sum_where(s.update(at, entry), pick) + share(s[at], pick) == sum_where(s, pick) + share(
            entry,
            pick,
        ),
{
    lemma_sum_remove(s, at, pick);
    lemma_sum_insert(s.remove(at), at, entry, pick);
    assert(s.remove(at).insert(at, entry) =~= s.update(at, entry));
}

/// Delegations in the order of their keys, one amount per key.
#[derive(Clone, Debug, PartialEq, Eq)]
pub struct DelegationTable {
    entries: Vec<(DelegationKey, U512)>,
}

impl View for DelegationTable {
    type V = Map<DelegationKey, nat>;

    open spec fn view(&self) -> Map<DelegationKey, nat> {
        table_map(self.entries())
    }
}

impl Default for DelegationTable {
    fn default() -> (r: Self)
        ensures
            r.entries() == Seq::<(DelegationKey, U512)>::empty(),
            r@ == Map::<DelegationKey, nat>::empty(),
            r.wf(),
            total_of(r.entries()) < U512::bound(),
    {
        DelegationTable::new()
    }
}

impl DelegationTable {
    /// The entries in the order of their keys.
    pub closed spec fn entries(&self) -> Seq<(DelegationKey, U512)> {
        self.entries@
    }

    /// The table is in order: its keys ascend strictly.
    pub open spec fn wf(&self) -> bool {
        sorted(self.entries())
    }

    /// The table without entries.
    pub fn new() -> (r: Self)
        ensures
            r.entries() == Seq::<(DelegationKey, U512)>::empty(),
            r@ == Map::<DelegationKey, nat>::empty(),
            r.wf(),
            total_of(r.entries()) < U512::bound(),
    {
        let r = DelegationTable { entries: Vec::new() };
        proof {
            assert(r@ =~= Map::<DelegationKey, nat>::empty());
            U512::lemma_bound_positive();
        }
        r
    }

    /// The number of entries.
    pub fn len(&self) -> (r: usize)
        ensures
            r == self.entries().len(),
    {
        self.entries.len()
    }

    /// The entries in the order of their keys.
    pub fn as_vec(&self) -> (r: &Vec<(DelegationKey, U512)>)
        ensures
            r@ == self.entries(),
    {
        &self.entries
    }

    /// Where `key` stands, or where it would have to stand.
    fn search(&self, key: &DelegationKey) -> (r: (usize, bool))
        requires
            self.wf(),
        ensures
            r.1 ==> r.0 < self.entries().len() && self.entries()[r.0 as int].0 == *key,
            !r.1 ==> splits_at(self.entries(), *key, r.0 as int),
    {
        let mut low: usize = 0;
        let mut high: usize = self.entries.len();
        while low < high
            invariant
                low <= high <= self.entries@.len(),
                sorted(self.entries@),
                forall|i: int| 0 <= i < low ==> (#[trigger] self.entries@[i]).0.before(*key),
                forall|i: int|
                    high <= i < self.entries@.len() ==> key.before((#[trigger] self.entries@[i]).0),
            decreases high - low,
        {
            let middle = low + (high - low) / 2;
            let probe = self.entries[middle].0;
            proof {
                probe.lemma_same_bytes(*key);
            }
            if probe == *key {
                return (middle, true);
            }
            if probe < *key {
                proof {
                    assert forall|i: int| 0 <= i < middle + 1 implies (
                    #[trigger] self.entries@[i]).0.before(*key) by {
                        if i < middle {
                            assert(self.entries@[i].0.before(self.entries@[middle as int].0));
                            self.entries@[i].0.lemma_before_transitive(probe, *key);
                        }
                    }
                }
                low = middle + 1;
            } else {
                proof {
                    probe.lemma_before_total(*key);
                    assert forall|i: int| middle <= i < self.entries@.len() implies key.before(
                        (#[trigger] self.entries@[i]).0,
                    ) by {
                        if middle < i {
                            assert(self.entries@[middle as int].0.before(self.entries@[i].0));
                            key.lemma_before_transitive(probe, self.entries@[i].0);
                        }
                    }
                }
                high = middle;
            }
        }
        (low, false)
    }

    /// The amount under `key`.
    pub fn get(&self, key: &DelegationKey) -> (r: Option<U512>)
        requires
            self.wf(),
        ensures
            r is Some <==> self@.contains_key(*key),
            r is Some ==> r.unwrap()@ == self@[*key],
    {
        let (at, found) = self.search(key);
        proof {
            if found {
                lemma_position(self.entries(), at as int);
            } else {
                lemma_split_excludes(self.entries(), *key, at as int);
            }
        }
        if found {
            Some(self.entries[at].1)
        } else {
            None
        }
    }

    /// Puts `amount` under `key` and returns the amount that stood there.
    pub fn insert(&mut self, key: DelegationKey, amount: U512) -> (r: Option<U512>)
        requires
            old(self).wf(),
        ensures
            final(self).wf(),
            final(self)@ == old(self)@.insert(key, amount@),
            r is Some <==> old(self)@.contains_key(key),
            r is Some ==> r.unwrap()@ == old(self)@[key],
            forall|pick: spec_fn(DelegationKey) -> bool|
                sum_where(final(self).entries(), pick) + (if old(self)@.contains_key(key) && pick(
                    key,
                ) {
                    old(self)@[key]
                } else {
                    0
                }) == #[trigger] sum_where(old(self).entries(), pick) + (if pick(key) {
                    amount@
                } else {
                    0
                }),
    {
        let (at, found) = self.search(&key);
        let ghost before = self.entries@;
        if found {
            let previous = self.entries[at].1;
            self.entries[at] = (key, amount);
            proof {
                lemma_position(before, at as int);
                lemma_map_update(before, at as int, amount);
                assert forall|pick: spec_fn(DelegationKey) -> bool|
                    sum_where(self.entries@, pick) + (if pick(key) {
                        before[at as int].1@
                    } else {
                        0
                    }) == #[trigger] sum_where(before, pick) + (if pick(key) {
                        amount@
                    } else {
                        0
                    }) by {
                    lemma_sum_update(before, at as int, (key, amount), pick);
                }
            }
            Some(previous)
        } else {
            self.entries.insert(at, (key, amount));
            proof {
                lemma_split_excludes(before, key, at as int);
                lemma_map_insert(before, at as int, key, amount);
                assert forall|pick: spec_fn(DelegationKey) -> bool|
                    sum_where(self.entries@, pick) == #[trigger] sum_where(before, pick) + (if pick(
                        key,
                    ) {
                        amount@
                    } else {
                        0
                    }) by {
                    lemma_sum_insert(before, at as int, (key, amount), pick);
                }
            }
            None
        }
    }

    /// Takes the entry under `key` out and returns its amount.
    pub fn remove(&mut self, key: &DelegationKey) -> (r: Option<U512>)
        requires
            old(self).wf(),
        ensures
            final(self).wf(),
            final(self)@ == old(self)@.remove(*key),
            r is Some <==> old(self)@.contains_key(*key),
            r is Some ==> r.unwrap()@ == old(self)@[*key],
            forall|pick: spec_fn(DelegationKey) -> bool|
                sum_where(final(self).entries(), pick) + (if old(self)@.contains_key(*key) && pick(
                    *key,
                ) {
                    old(self)@[*key]
                } else {
                    0
                }) == #[trigger] sum_where(old(self).entries(), pick),
    {
        let (at, found) = self.search(key);
        let ghost before = self.entries@;
        if found {
            let (_, previous) = self.entries.remove(at);
            proof {
                lemma_position(before, at as int);
                lemma_map_remove(before, at as int);
                assert forall|pick: spec_fn(DelegationKey) -> bool|
                    sum_where(self.entries@, pick) + (if pick(*key) {
                        before[at as int].1@
                    } else {
                        0
                    }) == #[trigger] sum_where(before, pick) by {
                    lemma_sum_remove(before, at as int, pick);
                }
            }
            Some(previous)
        } else {
            proof {
                lemma_split_excludes(before, *key, at as int);
                assert(self@ =~= self@.remove(*key));
            }
            None
        }
    }

    /// The sum of all amounts, where it fits in 512 bits.
    pub fn checked_total(&self) -> (r: Option<U512>)
        ensures
            r is Some <==> total_of(self.entries()) < U512::bound(),
            r is Some ==> r.unwrap()@ == total_of(self.entries()),
    {
        let mut total = U512::zero();
        let mut i: usize = 0;
        while i < self.entries.len()
            invariant
                i <= self.entries@.len(),
                total@ == total_of(self.entries@.take(i as int)),
            decreases self.entries@.len() - i,
        {
            proof {
                lemma_sum_take_next(self.entries@, i as int, any_key());
                lemma_sum_take_below(self.entries@, i + 1, any_key());
            }
            match total.checked_add(self.entries[i].1) {
                Some(sum) => {
                    total = sum;
                },
                None => {
                    return None;
                },
            }
            i += 1;
        }
        proof {
            assert(self.entries@.take(i as int) =~= self.entries@);
            total.lemma_bounded();
        }
        Some(total)
    }
}

} // verus!
