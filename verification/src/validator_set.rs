//! The active validator set: the validators that hold the most stake.

use crate::account::bytes_before;
use crate::account::lemma_bytes_before_irreflexive;
use crate::account::lemma_bytes_before_total;
use crate::account::lemma_bytes_before_transitive;
use crate::account::PublicKey;
use crate::delegation_key::DelegationKey;
use crate::delegation_table::by_validator;
use crate::delegation_table::delegated_of;
use crate::delegation_table::lemma_sum_below_total;
use crate::delegation_table::lemma_sum_take_below;
use crate::delegation_table::lemma_sum_take_next;
use crate::delegation_table::sum_where;
use crate::delegation_table::total_of;
use crate::u512::U512;
use vstd::prelude::*;

verus! {

/// Whether a validator with `amount` of stake comes before another in the
/// active set: the larger amount first, and of equal amounts the smaller key.
pub open spec fn outranks(key: Seq<u8>, amount: nat, other_key: Seq<u8>, other_amount: nat) -> bool {
    amount > other_amount || (amount == other_amount && bytes_before(key, other_key))
}

/// Whether the first pair of validator and stake comes before the second.
pub open spec fn pair_outranks(a: (PublicKey, U512), b: (PublicKey, U512)) -> bool {
    outranks(a.0@, a.1@, b.0@, b.1@)
}

/// Whether some delegation names `validator`.
pub open spec fn has_validator(s: Seq<(DelegationKey, U512)>, validator: Seq<u8>) -> bool {
    exists|k: int| 0 <= k < s.len() && (#[trigger] s[k]).0.validator@ == validator
}

/// Whether `validator` stands in the list.
pub open spec fn listed(r: Seq<(PublicKey, U512)>, validator: Seq<u8>) -> bool {
    exists|i: int| 0 <= i < r.len() && (#[trigger] r[i]).0@ == validator
}

/// Each pair of the list comes before those behind it.
pub open spec fn ranked(r: Seq<(PublicKey, U512)>) -> bool {
    forall|i: int, j: int| 0 <= i < j < r.len() ==> pair_outranks(#[trigger] r[i], #[trigger] r[j])
}

/// No validator stands twice in the list.
pub open spec fn distinct(r: Seq<(PublicKey, U512)>) -> bool {
    forall|i: int, j: int| 0 <= i < j < r.len() ==> (#[trigger] r[i]).0@ != (#[trigger] r[j]).0@
}

/// Each pair of the list is a validator that some delegation names, with the
/// sum of what is delegated to it.
pub open spec fn totals_of(s: Seq<(DelegationKey, U512)>, r: Seq<(PublicKey, U512)>) -> bool {
    forall|i: int|
        0 <= i < r.len() ==> has_validator(s, (#[trigger] r[i]).0@) && r[i].1@ == delegated_of(
            s,
            r[i].0@,
        )
}

/// Whether `r` is the active set of the delegations `s` under a limit on its
/// size: validators of `s` with the sums delegated to them, the larger sum
/// first and of equal sums the smaller key first, at most `limit` of them,
/// and every validator left out comes behind all that are in.
pub open spec fn is_active_set(
    s: Seq<(DelegationKey, U512)>,
    r: Seq<(PublicKey, U512)>,
    limit: nat,
) -> bool {
    &&& r.len() <= limit
    &&& totals_of(s, r)
    &&& ranked(r)
    &&& forall|k: int|
        0 <= k < s.len() ==> listed(r, (#[trigger] s[k]).0.validator@) || (r.len() == limit
            && forall|i: int|
            0 <= i < r.len() ==> outranks(
                (#[trigger] r[i]).0@,
                r[i].1@,
                s[k].0.validator@,
                delegated_of(s, s[k].0.validator@),
            ))
}

/// The order of the active set is transitive.
pub proof fn lemma_outranks_transitive(
    a: (PublicKey, U512),
    b: (PublicKey, U512),
    c: (PublicKey, U512),
)
    requires
        pair_outranks(a, b),
        pair_outranks(b, c),
    ensures
        pair_outranks(a, c),
{
    if a.1@ == b.1@ && b.1@ == c.1@ {
        lemma_bytes_before_transitive(a.0@, b.0@, c.0@);
    }
}

/// Of two different validators one comes before the other.
pub proof fn lemma_outranks_total(a: (PublicKey, U512), b: (PublicKey, U512))
    requires
        a.0@ != b.0@,
    ensures
        pair_outranks(a, b) || pair_outranks(b, a),
{
    lemma_bytes_before_total(a.0@, b.0@);
}

/// No pair comes before itself, nor before a pair of the same validator and
/// stake.
pub proof fn lemma_outranks_irreflexive(a: (PublicKey, U512), b: (PublicKey, U512))
    requires
        a.0@ == b.0@,
        a.1@ == b.1@,
    ensures
        !pair_outranks(a, b),
{
    lemma_bytes_before_irreflexive(a.0@);
}

/// Two active sets of the same delegations that agree before position `at`
/// do not hold at `at` two pairs of which the first comes before the second.
proof fn lemma_no_better_candidate(
    s: Seq<(DelegationKey, U512)>,
    a: Seq<(PublicKey, U512)>,
    b: Seq<(PublicKey, U512)>,
    limit: nat,
    at: int,
)
    requires
        is_active_set(s, a, limit),
        is_active_set(s, b, limit),
        0 <= at < a.len(),
        at < b.len(),
        forall|j: int| 0 <= j < at ==> a[j] == b[j],
    ensures
        !pair_outranks(a[at], b[at]),
{
    if pair_outranks(a[at], b[at]) {
        let who = a[at].0@;
        assert(has_validator(s, who));
        let k = choose|k: int| 0 <= k < s.len() && (#[trigger] s[k]).0.validator@ == who;
        if listed(b, s[k].0.validator@) {
            let m = choose|m: int| 0 <= m < b.len() && (#[trigger] b[m]).0@ == who;
            if m < at {
                assert(a[m] == b[m]);
                assert(pair_outranks(a[m], a[at]));
                lemma_outranks_irreflexive(a[m], a[at]);
            } else if m == at {
                lemma_outranks_irreflexive(a[at], b[at]);
            } else {
                assert(pair_outranks(b[at], b[m]));
                lemma_outranks_transitive(a[at], b[at], b[m]);
                lemma_outranks_irreflexive(a[at], b[m]);
            }
        } else {
            assert(outranks(b[at].0@, b[at].1@, who, delegated_of(s, who)));
            lemma_outranks_transitive(a[at], b[at], a[at]);
            lemma_outranks_irreflexive(a[at], a[at]);
        }
    }
}

/// Two active sets of the same delegations agree in their first `n` pairs.
proof fn lemma_active_sets_agree(
    s: Seq<(DelegationKey, U512)>,
    a: Seq<(PublicKey, U512)>,
    b: Seq<(PublicKey, U512)>,
    limit: nat,
    n: int,
)
    requires
        is_active_set(s, a, limit),
        is_active_set(s, b, limit),
        0 <= n <= a.len(),
        n <= b.len(),
    ensures
        forall|j: int| 0 <= j < n ==> a[j] == b[j],
    decreases n,
{
    if n > 0 {
        lemma_active_sets_agree(s, a, b, limit, n - 1);
        let at = n - 1;
        lemma_no_better_candidate(s, a, b, limit, at);
        lemma_no_better_candidate(s, b, a, limit, at);
        if a[at].0@ != b[at].0@ {
            lemma_outranks_total(a[at], b[at]);
        }
        a[at].0.lemma_view_injective(b[at].0);
        a[at].1.lemma_view_injective(b[at].1);
    }
}

/// Of two active sets of the same delegations that agree as far as the
/// first goes, the second is no longer than the first.
proof fn lemma_active_set_not_shorter(
    s: Seq<(DelegationKey, U512)>,
    a: Seq<(PublicKey, U512)>,
    b: Seq<(PublicKey, U512)>,
    limit: nat,
)
    requires
        is_active_set(s, a, limit),
        is_active_set(s, b, limit),
        a.len() <= b.len(),
        forall|j: int| 0 <= j < a.len() ==> a[j] == b[j],
    ensures
        a.len() == b.len(),
{
    if a.len() < b.len() {
        let next = b[a.len() as int];
        let who = next.0@;
        assert(has_validator(s, who));
        let k = choose|k: int| 0 <= k < s.len() && (#[trigger] s[k]).0.validator@ == who;
        if listed(a, s[k].0.validator@) {
            let m = choose|m: int| 0 <= m < a.len() && (#[trigger] a[m]).0@ == who;
            assert(a[m] == b[m]);
            assert(pair_outranks(b[m], b[a.len() as int]));
            lemma_outranks_irreflexive(b[m], next);
        }
    }
}

/// The delegations and the limit determine the active set.
pub proof fn lemma_active_set_unique(
    s: Seq<(DelegationKey, U512)>,
    a: Seq<(PublicKey, U512)>,
    b: Seq<(PublicKey, U512)>,
    limit: nat,
)
    requires
        is_active_set(s, a, limit),
        is_active_set(s, b, limit),
    ensures
        a == b,
{
    if a.len() <= b.len() {
        lemma_active_sets_agree(s, a, b, limit, a.len() as int);
        lemma_active_set_not_shorter(s, a, b, limit);
    } else {
        lemma_active_sets_agree(s, a, b, limit, b.len() as int);
        lemma_active_set_not_shorter(s, b, a, limit);
    }
    assert(a =~= b);
}

/// A sum over keys of which none is picked is zero.
pub proof fn lemma_sum_none_picked(
    s: Seq<(DelegationKey, U512)>,
    pick: spec_fn(DelegationKey) -> bool,
)
    requires
        forall|k: int| 0 <= k < s.len() ==> !pick((#[trigger] s[k]).0),
    ensures
        sum_where(s, pick) == 0,
    decreases s.len(),
{
    if s.len() > 0 {
        assert(!pick(s[s.len() - 1].0));
        assert forall|k: int| 0 <= k < s.drop_last().len() implies !pick(
            (#[trigger] s.drop_last()[k]).0,
        ) by {
            assert(s.drop_last()[k] == s[k]);
        }
        lemma_sum_none_picked(s.drop_last(), pick);
    }
}

/// The sum delegated to a validator over one more delegation.
pub proof fn lemma_delegated_take_next(s: Seq<(DelegationKey, U512)>, i: int, validator: Seq<u8>)
    requires
        0 <= i < s.len(),
    ensures
        delegated_of(s.take(i + 1), validator) == delegated_of(s.take(i), validator) + if s[i].0.validator@
            == validator {
            s[i].1@
        } else {
            0
        },
        delegated_of(s.take(i + 1), validator) <= total_of(s),
{
    let pick = by_validator(validator);
    lemma_sum_take_next(s, i, pick);
    lemma_sum_take_below(s, i + 1, pick);
    lemma_sum_below_total(s, pick);
}

/// A pair put at its place keeps the list in its order.
pub proof fn lemma_ranked_insert(r: Seq<(PublicKey, U512)>, at: int, item: (PublicKey, U512))
    requires
        ranked(r),
        0 <= at <= r.len(),
        forall|i: int| 0 <= i < at ==> pair_outranks(#[trigger] r[i], item),
        forall|i: int| at <= i < r.len() ==> pair_outranks(item, #[trigger] r[i]),
    ensures
        ranked(r.insert(at, item)),
        r.insert(at, item).len() == r.len() + 1,
        r.insert(at, item)[at] == item,
        forall|i: int| 0 <= i < at ==> #[trigger] r.insert(at, item)[i] == r[i],
        forall|i: int| at < i <= r.len() ==> #[trigger] r.insert(at, item)[i] == r[i - 1],
{
    let t = r.insert(at, item);
    r.insert_ensures(at, item);
    assert forall|i: int| at < i <= r.len() implies #[trigger] t[i] == r[i - 1] by {
        assert(t[(i - 1) + 1] == r[i - 1]);
    }
    assert forall|i: int, j: int| 0 <= i < j < t.len() implies pair_outranks(
        #[trigger] t[i],
        #[trigger] t[j],
    ) by {
        if j < at {
            assert(pair_outranks(r[i], r[j]));
        } else if j == at {
            assert(pair_outranks(r[i], item));
        } else if i < at {
            assert(pair_outranks(r[i], r[j - 1]));
        } else if i == at {
            assert(pair_outranks(item, r[j - 1]));
        } else {
            assert(pair_outranks(r[i - 1], r[j - 1]));
        }
    }
}

/// Whether the first pair comes before the second in the active set.
fn comes_first(a: &(PublicKey, U512), b: &(PublicKey, U512)) -> (r: bool)
    ensures
        r == pair_outranks(*a, *b),
{
    a.1 > b.1 || (a.1 == b.1 && a.0 < b.0)
}

/// Where `validator` stands in the list.
fn find_validator(list: &Vec<(PublicKey, U512)>, validator: &PublicKey) -> (r: Option<usize>)
    ensures
        match r {
            Some(at) => at < list@.len() && list@[at as int].0@ == validator@,
            None => !listed(list@, validator@),
        },
{
    let mut i: usize = 0;
    while i < list.len()
        invariant
            i <= list@.len(),
            forall|j: int| 0 <= j < i ==> (#[trigger] list@[j]).0@ != validator@,
        decreases list@.len() - i,
    {
        if list[i].0 == *validator {
            return Some(i);
        }
        i += 1;
    }
    None
}

/// The validators that the delegations name, each once, with the sum of what
/// is delegated to it.
fn aggregate(entries: &Vec<(DelegationKey, U512)>) -> (sums: Vec<(PublicKey, U512)>)
    requires
        total_of(entries@) < U512::bound(),
    ensures
        totals_of(entries@, sums@),
        distinct(sums@),
        forall|k: int| 0 <= k < entries@.len() ==> listed(sums@, (#[trigger] entries@[k]).0.validator@),
{
    let mut sums: Vec<(PublicKey, U512)> = Vec::new();
    let mut i: usize = 0;
    while i < entries.len()
        invariant
            i <= entries@.len(),
            total_of(entries@) < U512::bound(),
            totals_of(entries@.take(i as int), sums@),
            distinct(sums@),
            forall|k: int| 0 <= k < i ==> listed(sums@, (#[trigger] entries@[k]).0.validator@),
        decreases entries@.len() - i,
    {
        let validator = entries[i].0.validator;
        let amount = entries[i].1;
        let ghost s = entries@;
        let ghost shorter = s.take(i as int);
        let ghost longer = s.take(i + 1);
        let ghost before = sums@;
        proof {
            assert(longer[i as int] == s[i as int]);
            assert forall|j: int| 0 <= j < before.len() implies has_validator(
                longer,
                (#[trigger] before[j]).0@,
            ) && delegated_of(longer, before[j].0@) == before[j].1@ + if before[j].0@
                == validator@ {
                amount@
            } else {
                0
            } by {
                let w = before[j].0@;
                lemma_delegated_take_next(s, i as int, w);
                let k = choose|k: int|
                    0 <= k < shorter.len() && (#[trigger] shorter[k]).0.validator@ == w;
                assert(longer[k] == shorter[k]);
            }
            lemma_delegated_take_next(s, i as int, validator@);
        }
        match find_validator(&sums, &validator) {
            Some(at) => {
                let who = sums[at].0;
                let sum = sums[at].1.overflowing_add(amount).0;
                sums[at] = (who, sum);
                proof {
                    assert forall|j: int| 0 <= j < sums@.len() implies has_validator(
                        longer,
                        (#[trigger] sums@[j]).0@,
                    ) && sums@[j].1@ == delegated_of(longer, sums@[j].0@) by {
                        assert(before[j].0@ == sums@[j].0@);
                        if j != at {
                            assert(before[j] == sums@[j]);
                            if j < at {
                                assert(before[j].0@ != before[at as int].0@);
                            } else {
                                assert(before[at as int].0@ != before[j].0@);
                            }
                        }
                    }
                    assert forall|a: int, b: int| 0 <= a < b < sums@.len() implies (
                    #[trigger] sums@[a]).0@ != (#[trigger] sums@[b]).0@ by {
                        assert(before[a].0@ == sums@[a].0@);
                        assert(before[b].0@ == sums@[b].0@);
                    }
                    assert forall|k: int| 0 <= k < i + 1 implies listed(
                        sums@,
                        (#[trigger] s[k]).0.validator@,
                    ) by {
                        if k < i {
                            let j = choose|j: int|
                                0 <= j < before.len() && (#[trigger] before[j]).0@
                                    == s[k].0.validator@;
                            assert(sums@[j].0@ == before[j].0@);
                        } else {
                            assert(sums@[at as int].0@ == validator@);
                        }
                    }
                }
            },
            None => {
                sums.push((validator, amount));
                proof {
                    let pick = by_validator(validator@);
                    assert forall|k: int| 0 <= k < shorter.len() implies !pick(
                        (#[trigger] shorter[k]).0,
                    ) by {
                        assert(shorter[k] == s[k]);
                        assert(listed(before, s[k].0.validator@));
                    }
                    lemma_sum_none_picked(shorter, pick);
                    assert forall|j: int| 0 <= j < sums@.len() implies has_validator(
                        longer,
                        (#[trigger] sums@[j]).0@,
                    ) && sums@[j].1@ == delegated_of(longer, sums@[j].0@) by {
                        if j < before.len() {
                            assert(before[j] == sums@[j]);
                        }
                    }
                    assert forall|a: int, b: int| 0 <= a < b < sums@.len() implies (
                    #[trigger] sums@[a]).0@ != (#[trigger] sums@[b]).0@ by {
                        assert(before[a] == sums@[a]);
                        if b < before.len() {
                            assert(before[b] == sums@[b]);
                        }
                    }
                    assert forall|k: int| 0 <= k < i + 1 implies listed(
                        sums@,
                        (#[trigger] s[k]).0.validator@,
                    ) by {
                        if k < i {
                            let j = choose|j: int|
                                0 <= j < before.len() && (#[trigger] before[j]).0@
                                    == s[k].0.validator@;
                            assert(sums@[j].0@ == before[j].0@);
                        } else {
                            assert(sums@[before.len() as int].0@ == validator@);
                        }
                    }
                }
            },
        }
        i += 1;
    }
    proof {
        assert(entries@.take(i as int) =~= entries@);
    }
    sums
}

/// The pairs of `sums` in the order of the active set.
fn rank(sums: &Vec<(PublicKey, U512)>) -> (list: Vec<(PublicKey, U512)>)
    requires
        distinct(sums@),
    ensures
        ranked(list@),
        list@.len() == sums@.len(),
        forall|a: int| 0 <= a < list@.len() ==> sums@.contains(#[trigger] list@[a]),
        forall|k: int| 0 <= k < sums@.len() ==> list@.contains(#[trigger] sums@[k]),
{
    let mut list: Vec<(PublicKey, U512)> = Vec::new();
    let mut j: usize = 0;
    while j < sums.len()
        invariant
            j <= sums@.len(),
            distinct(sums@),
            ranked(list@),
            list@.len() == j,
            forall|a: int| 0 <= a < list@.len() ==> sums@.take(j as int).contains(#[trigger] list@[a]),
            forall|k: int| 0 <= k < j ==> list@.contains(#[trigger] sums@[k]),
        decreases sums@.len() - j,
    {
        let item = sums[j];
        let mut at: usize = 0;
        while at < list.len() && comes_first(&list[at], &item)
            invariant
                at <= list@.len(),
                forall|a: int| 0 <= a < at ==> pair_outranks(#[trigger] list@[a], item),
            decreases list@.len() - at,
        {
            at += 1;
        }
        let ghost before = list@;
        proof {
            assert forall|b: int| at <= b < before.len() implies pair_outranks(
                item,
                #[trigger] before[b],
            ) by {
                let first = before[at as int];
                assert(sums@.take(j as int).contains(first));
                let k = choose|k: int| 0 <= k < j && sums@.take(j as int)[k] == first;
                assert(sums@[k].0@ != sums@[j as int].0@);
                lemma_outranks_total(first, item);
                if at < b {
                    assert(pair_outranks(before[at as int], before[b]));
                    lemma_outranks_transitive(item, first, before[b]);
                }
            }
            lemma_ranked_insert(before, at as int, item);
        }
        list.insert(at, item);
        proof {
            let longer = sums@.take(j + 1);
            assert forall|a: int| 0 <= a < list@.len() implies longer.contains(
                #[trigger] list@[a],
            ) by {
                if a == at {
                    assert(longer[j as int] == item);
                } else {
                    let old_at = if a < at {
                        a
                    } else {
                        a - 1
                    };
                    assert(list@[a] == before[old_at]);
                    assert(sums@.take(j as int).contains(before[old_at]));
                    let k = choose|k: int|
                        0 <= k < j && sums@.take(j as int)[k] == before[old_at];
                    assert(longer[k] == before[old_at]);
                }
            }
            assert forall|k: int| 0 <= k < j + 1 implies list@.contains(#[trigger] sums@[k]) by {
                if k == j {
                    assert(list@[at as int] == item);
                } else {
                    assert(before.contains(sums@[k]));
                    let a = choose|a: int| 0 <= a < before.len() && before[a] == sums@[k];
                    if a < at {
                        assert(list@[a] == sums@[k]);
                    } else {
                        assert(list@[a + 1] == sums@[k]);
                    }
                }
            }
        }
        j += 1;
    }
    proof {
        assert(sums@.take(j as int) =~= sums@);
    }
    list
}

/// The active set of the delegations `entries`: at most `limit` validators,
/// those with the most stake delegated to them.
pub fn top_validators(entries: &Vec<(DelegationKey, U512)>, limit: usize) -> (r: Vec<
    (PublicKey, U512),
>)
    requires
        total_of(entries@) < U512::bound(),
    ensures
        is_active_set(entries@, r@, limit as nat),
{
    let sums = aggregate(entries);
    let mut list = rank(&sums);
    let ghost full = list@;
    list.truncate(limit);
    proof {
        let s = entries@;
        let r = list@;
        assert forall|i: int| 0 <= i < r.len() implies #[trigger] r[i] == full[i] by {}
        assert forall|i: int| 0 <= i < r.len() implies has_validator(s, (#[trigger] r[i]).0@)
            && r[i].1@ == delegated_of(s, r[i].0@) by {
            assert(sums@.contains(full[i]));
            let k = choose|k: int| 0 <= k < sums@.len() && sums@[k] == full[i];
            assert(has_validator(s, sums@[k].0@));
        }
        assert forall|i: int, j: int| 0 <= i < j < r.len() implies pair_outranks(
            #[trigger] r[i],
            #[trigger] r[j],
        ) by {
            assert(pair_outranks(full[i], full[j]));
        }
        assert forall|k: int| 0 <= k < s.len() implies listed(r, (#[trigger] s[k]).0.validator@)
            || (r.len() == limit && forall|i: int|
            0 <= i < r.len() ==> outranks(
                (#[trigger] r[i]).0@,
                r[i].1@,
                s[k].0.validator@,
                delegated_of(s, s[k].0.validator@),
            )) by {
            let v = s[k].0.validator@;
            assert(listed(sums@, v));
            let j = choose|j: int| 0 <= j < sums@.len() && (#[trigger] sums@[j]).0@ == v;
            assert(full.contains(sums@[j]));
            let a = choose|a: int| 0 <= a < full.len() && full[a] == sums@[j];
            if a < r.len() {
                assert(r[a].0@ == v);
            } else {
                assert forall|i: int| 0 <= i < r.len() implies outranks(
                    (#[trigger] r[i]).0@,
                    r[i].1@,
                    v,
                    delegated_of(s, v),
                ) by {
                    assert(pair_outranks(full[i], full[a]));
                }
            }
        }
    }
    list
}

} // verus!
