//! Queues of timed requests: one request per key, in the order of arrival,
//! handed out once their time has come.

use crate::account::BlockTime;
use crate::error::Error;
use crate::u512::U512;
use vstd::prelude::*;

verus! {

/// What identifies a request in a queue.
pub trait RequestKey: Copy {
    /// Whether the two keys are the same key.
    fn same_request(&self, other: &Self) -> (r: bool)
        ensures
            r == (*self == *other),
    ;
}

/// A request that waits in a queue.
#[derive(Clone, Copy, Debug, PartialEq)]
pub struct RequestQueueEntry<K: RequestKey> {
    pub request_key: K,
    pub amount: U512,
    pub timestamp: BlockTime,
}

impl<K: RequestKey> RequestQueueEntry<K> {
    /// The entry of these three parts.
    pub fn new(request_key: K, amount: U512, timestamp: BlockTime) -> (r: Self)
        ensures
            r == (RequestQueueEntry { request_key, amount, timestamp }),
    {
        RequestQueueEntry { request_key, amount, timestamp }
    }
}

/// Whether some entry of `entries` stands under `key`.
pub open spec fn has_key<K: RequestKey>(entries: Seq<RequestQueueEntry<K>>, key: K) -> bool {
    exists|i: int| 0 <= i < entries.len() && (#[trigger] entries[i]).request_key == key
}

/// No two entries stand under one key.
pub open spec fn keys_unique<K: RequestKey>(entries: Seq<RequestQueueEntry<K>>) -> bool {
    forall|i: int, j: int|
        0 <= i < j < entries.len() ==> (#[trigger] entries[i]).request_key != (
        #[trigger] entries[j]).request_key
}

/// No entry is earlier than one before it.
pub open spec fn times_ordered<K: RequestKey>(entries: Seq<RequestQueueEntry<K>>) -> bool {
    forall|i: int, j: int|
        0 <= i <= j < entries.len() ==> (#[trigger] entries[i]).timestamp@ <= (
        #[trigger] entries[j]).timestamp@
}

/// The entries whose time has come at `cutoff`, in their order.
pub open spec fn due<K: RequestKey>(
    entries: Seq<RequestQueueEntry<K>>,
    cutoff: u64,
) -> Seq<RequestQueueEntry<K>>
    decreases entries.len(),
{
    if entries.len() == 0 {
        Seq::empty()
    } else if entries.last().timestamp@ <= cutoff {
        due(entries.drop_last(), cutoff).push(entries.last())
    } else {
        due(entries.drop_last(), cutoff)
    }
}

/// The entries whose time has not come at `cutoff`, in their order.
pub open spec fn pending<K: RequestKey>(
    entries: Seq<RequestQueueEntry<K>>,
    cutoff: u64,
) -> Seq<RequestQueueEntry<K>>
    decreases entries.len(),
{
    if entries.len() == 0 {
        Seq::empty()
    } else if entries.last().timestamp@ <= cutoff {
        pending(entries.drop_last(), cutoff)
    } else {
        pending(entries.drop_last(), cutoff).push(entries.last())
    }
}

/// What a push of `entry` does to `entries`: the error, or the longer queue.
pub open spec fn pushed<K: RequestKey>(
    entries: Seq<RequestQueueEntry<K>>,
    entry: RequestQueueEntry<K>,
) -> Result<Seq<RequestQueueEntry<K>>, Error> {
    if entries.len() > 0 && entry.timestamp@ < entries.last().timestamp@ {
        Err(Error::TimeWentBackwards)
    } else if has_key(entries, entry.request_key) {
        Err(Error::MultipleRequests)
    } else {
        Ok(entries.push(entry))
    }
}

/// Every entry of `pending` and of `due` is an entry of the queue they were
/// taken from, with the cutoff on its side.
pub proof fn lemma_split_members<K: RequestKey>(entries: Seq<RequestQueueEntry<K>>, cutoff: u64)
    ensures
        forall|i: int|
            0 <= i < due(entries, cutoff).len() ==> entries.contains(
                #[trigger] due(entries, cutoff)[i],
            ) && due(entries, cutoff)[i].timestamp@ <= cutoff,
        forall|i: int|
            0 <= i < pending(entries, cutoff).len() ==> entries.contains(
                #[trigger] pending(entries, cutoff)[i],
            ) && pending(entries, cutoff)[i].timestamp@ > cutoff,
    decreases entries.len(),
{
    if entries.len() > 0 {
        let init = entries.drop_last();
        lemma_split_members(init, cutoff);
        assert(entries[entries.len() - 1] == entries.last());
        assert forall|i: int| 0 <= i < due(entries, cutoff).len() implies entries.contains(
            #[trigger] due(entries, cutoff)[i],
        ) && due(entries, cutoff)[i].timestamp@ <= cutoff by {
            if i < due(init, cutoff).len() {
                let e = due(init, cutoff)[i];
                assert(init.contains(e));
                let k = choose|k: int| 0 <= k < init.len() && init[k] == e;
                assert(entries[k] == e);
            }
        }
        assert forall|i: int| 0 <= i < pending(entries, cutoff).len() implies entries.contains(
            #[trigger] pending(entries, cutoff)[i],
        ) && pending(entries, cutoff)[i].timestamp@ > cutoff by {
            if i < pending(init, cutoff).len() {
                let e = pending(init, cutoff)[i];
                assert(init.contains(e));
                let k = choose|k: int| 0 <= k < init.len() && init[k] == e;
                assert(entries[k] == e);
            }
        }
    }
}

/// Taking the due entries out keeps the keys unique and the times in order,
/// in what is handed out and in what stays.
pub proof fn lemma_split_keeps_order<K: RequestKey>(
    entries: Seq<RequestQueueEntry<K>>,
    cutoff: u64,
)
    requires
        keys_unique(entries) || times_ordered(entries),
    ensures
        keys_unique(entries) ==> keys_unique(due(entries, cutoff)) && keys_unique(
            pending(entries, cutoff),
        ),
        times_ordered(entries) ==> times_ordered(due(entries, cutoff)) && times_ordered(
            pending(entries, cutoff),
        ),
    decreases entries.len(),
{
    if entries.len() > 0 {
        let init = entries.drop_last();
        let last = entries.last();
        assert(forall|i: int| 0 <= i < init.len() ==> init[i] == entries[i]);
        assert(keys_unique(entries) ==> keys_unique(init));
        assert(times_ordered(entries) ==> times_ordered(init));
        lemma_split_keeps_order(init, cutoff);
        lemma_split_members(init, cutoff);
        let d = due(init, cutoff);
        let p = pending(init, cutoff);
        assert forall|i: int| 0 <= i < d.len() implies (keys_unique(entries) ==> (
        #[trigger] d[i]).request_key != last.request_key) && (times_ordered(entries)
            ==> d[i].timestamp@ <= last.timestamp@) by {
            assert(init.contains(d[i]));
            let k = choose|k: int| 0 <= k < init.len() && init[k] == d[i];
            assert(entries[k] == d[i]);
            assert(entries[entries.len() - 1] == last);
        }
        assert forall|i: int| 0 <= i < p.len() implies (keys_unique(entries) ==> (
        #[trigger] p[i]).request_key != last.request_key) && (times_ordered(entries)
            ==> p[i].timestamp@ <= last.timestamp@) by {
            assert(init.contains(p[i]));
            let k = choose|k: int| 0 <= k < init.len() && init[k] == p[i];
            assert(entries[k] == p[i]);
            assert(entries[entries.len() - 1] == last);
        }
    }
}

/// Once the due entries are taken out, none of what stays is due at the same
/// cutoff or at an earlier one: a second drain hands out nothing and leaves
/// the queue as it is.
pub proof fn lemma_second_drain_is_empty<K: RequestKey>(
    entries: Seq<RequestQueueEntry<K>>,
    cutoff: u64,
    again: u64,
)
    requires
        again <= cutoff,
    ensures
        due(pending(entries, cutoff), again) == Seq::<RequestQueueEntry<K>>::empty(),
        pending(pending(entries, cutoff), again) == pending(entries, cutoff),
    decreases entries.len(),
{
    if entries.len() > 0 {
        lemma_second_drain_is_empty(entries.drop_last(), cutoff, again);
        if entries.last().timestamp@ > cutoff {
            let p = pending(entries, cutoff);
            assert(p.drop_last() =~= pending(entries.drop_last(), cutoff));
            assert(p.last() == entries.last());
        }
    }
}

/// Where every entry is due, all are handed out and none stays.
pub proof fn lemma_all_due<K: RequestKey>(entries: Seq<RequestQueueEntry<K>>, cutoff: u64)
    requires
        forall|i: int| 0 <= i < entries.len() ==> (#[trigger] entries[i]).timestamp@ <= cutoff,
    ensures
        due(entries, cutoff) == entries,
        pending(entries, cutoff) == Seq::<RequestQueueEntry<K>>::empty(),
    decreases entries.len(),
{
    if entries.len() > 0 {
        let init = entries.drop_last();
        assert(forall|i: int| 0 <= i < init.len() ==> init[i] == entries[i]);
        assert(entries[entries.len() - 1].timestamp@ <= cutoff);
        lemma_all_due(init, cutoff);
        assert(init.push(entries.last()) =~= entries);
    } else {
        assert(due(entries, cutoff) =~= entries);
    }
}

/// In a queue whose times are in order, the entries handed out are its
/// front and the entries that stay are its back.
pub proof fn lemma_ordered_split<K: RequestKey>(entries: Seq<RequestQueueEntry<K>>, cutoff: u64)
    requires
        times_ordered(entries),
    ensures
        due(entries, cutoff) + pending(entries, cutoff) == entries,
    decreases entries.len(),
{
    if entries.len() > 0 {
        let init = entries.drop_last();
        let last = entries.last();
        assert(forall|i: int| 0 <= i < init.len() ==> init[i] == entries[i]);
        if last.timestamp@ <= cutoff {
            assert forall|i: int| 0 <= i < init.len() implies (#[trigger] init[i]).timestamp@
                <= cutoff by {
                assert(entries[i].timestamp@ <= entries[entries.len() - 1].timestamp@);
            }
            lemma_all_due(init, cutoff);
            assert(init.push(last) =~= entries);
            assert(due(entries, cutoff) + pending(entries, cutoff) =~= entries);
        } else {
            assert(times_ordered(init));
            lemma_ordered_split(init, cutoff);
            assert(due(init, cutoff) + pending(init, cutoff).push(last) =~= (due(init, cutoff)
                + pending(init, cutoff)).push(last));
            assert(init.push(last) =~= entries);
        }
    } else {
        assert(due(entries, cutoff) + pending(entries, cutoff) =~= entries);
    }
}

/// A push that follows a successful push with an earlier timestamp is
/// refused as going back in time, whatever its key.
pub proof fn lemma_earlier_push_is_refused<K: RequestKey>(
    entries: Seq<RequestQueueEntry<K>>,
    first: RequestQueueEntry<K>,
    second: RequestQueueEntry<K>,
)
    requires
        pushed(entries, first) is Ok,
        second.timestamp@ < first.timestamp@,
    ensures
        pushed(pushed(entries, first).unwrap(), second) == Err::<
            Seq<RequestQueueEntry<K>>,
            Error,
        >(Error::TimeWentBackwards),
{
}

/// A queue of requests in the order in which they were pushed.
#[derive(Clone, Debug, PartialEq)]
pub struct RequestQueue<K: RequestKey>(pub Vec<RequestQueueEntry<K>>);

impl<K: RequestKey> View for RequestQueue<K> {
    type V = Seq<RequestQueueEntry<K>>;

    open spec fn view(&self) -> Seq<RequestQueueEntry<K>> {
        self.0@
    }
}

impl<K: RequestKey> Default for RequestQueue<K> {
    fn default() -> (r: Self)
        ensures
            r@ == Seq::<RequestQueueEntry<K>>::empty(),
    {
        RequestQueue(Vec::new())
    }
}

impl<K: RequestKey> RequestQueue<K> {
    /// The queue keeps its promises: one entry per key, and no entry earlier
    /// than one before it.
    pub open spec fn wf(&self) -> bool {
        keys_unique(self@) && times_ordered(self@)
    }

    /// The queue without entries.
    pub fn new() -> (r: Self)
        ensures
            r@ == Seq::<RequestQueueEntry<K>>::empty(),
            r.wf(),
    {
        RequestQueue(Vec::new())
    }

    /// The number of entries.
    pub fn len(&self) -> (r: usize)
        ensures
            r == self@.len(),
    {
        self.0.len()
    }

    /// The entries in the order in which they were pushed.
    pub fn iter(&self) -> (r: &Vec<RequestQueueEntry<K>>)
        ensures
            r@ == self@,
    {
        &self.0
    }

    /// Whether an entry stands under `key`.
    pub fn contains_key(&self, key: &K) -> (r: bool)
        ensures
            r == has_key(self@, *key),
    {
        let mut i: usize = 0;
        while i < self.0.len()
            invariant
                i <= self.0.len(),
                forall|j: int| 0 <= j < i ==> (#[trigger] self.0@[j]).request_key != *key,
            decreases self.0.len() - i,
        {
            if self.0[i].request_key.same_request(key) {
                return true;
            }
            i += 1;
        }
        false
    }

    /// Appends a request. Refused with `TimeWentBackwards` where `timestamp`
    /// is earlier than that of the last entry, and else with
    /// `MultipleRequests` where an entry already stands under the key; a
    /// refusal leaves the queue as it was.
    pub fn push(&mut self, request_key: K, amount: U512, timestamp: BlockTime) -> (r: Result<
        (),
        Error,
    >)
        ensures
            match pushed(old(self)@, RequestQueueEntry { request_key, amount, timestamp }) {
                Ok(entries) => r == Ok::<(), Error>(()) && final(self)@ == entries,
                Err(e) => r == Err::<(), Error>(e) && final(self)@ == old(self)@,
            },
            old(self).wf() ==> final(self).wf(),
    {
        let n = self.0.len();
        if n > 0 && timestamp.value() < self.0[n - 1].timestamp.value() {
            return Err(Error::TimeWentBackwards);
        }
        if self.contains_key(&request_key) {
            return Err(Error::MultipleRequests);
        }
        self.0.push(RequestQueueEntry::new(request_key, amount, timestamp));
        Ok(())
    }

    /// Takes out the entries whose timestamp is not later than `cutoff` and
    /// returns them in the order in which they were pushed; the others stay,
    /// in their order.
    pub fn pop_due(&mut self, cutoff: BlockTime) -> (r: Vec<RequestQueueEntry<K>>)
        ensures
            r@ == due(old(self)@, cutoff@),
            final(self)@ == pending(old(self)@, cutoff@),
            old(self).wf() ==> final(self).wf(),
    {
        let mut older: Vec<RequestQueueEntry<K>> = Vec::new();
        let mut rest: Vec<RequestQueueEntry<K>> = Vec::new();
        let mut i: usize = 0;
        while i < self.0.len()
            invariant
                i <= self.0.len(),
                older@ == due(self.0@.take(i as int), cutoff@),
                rest@ == pending(self.0@.take(i as int), cutoff@),
            decreases self.0.len() - i,
        {
            proof {
                assert(self.0@.take(i + 1).drop_last() =~= self.0@.take(i as int));
            }
            let entry = self.0[i];
            if entry.timestamp.value() <= cutoff.value() {
                older.push(entry);
            } else {
                rest.push(entry);
            }
            i += 1;
        }
        proof {
            assert(self.0@.take(i as int) =~= self.0@);
            if self.wf() {
                lemma_split_keeps_order(self@, cutoff@);
            }
        }
        self.0 = rest;
        older
    }
}

} // verus!
