//! The queues of requests as the contract keeps them in its local storage.

use crate::bytesrepr::Error;
use crate::request_queue::RequestKey;
use crate::request_queue::RequestQueue;
use crate::request_queue::RequestQueueEntry;
use crate::requests::ClaimRequest;
use vstd::prelude::*;

verus! {

/// The requests to claim that wait, one per claimant.
pub type ClaimRequestList = RequestQueue<ClaimRequest>;

/// The slots of the local storage that hold queues.
#[derive(Clone, Copy, Debug, PartialEq, Eq, Structural)]
pub enum LocalKey {
    UndelegateRequestQueue,
    RedelegateRequestQueue,
    ClaimRequests,
}

/// Which of the two queues of delegation requests is meant.
#[derive(Clone, Copy, Debug, PartialEq, Eq, Structural)]
pub enum DelegationKind {
    Undelegate,
    Redelegate,
}

impl DelegationKind {
    /// The slot that holds the queue of this kind.
    pub open spec fn slot(self) -> LocalKey {
        match self {
            DelegationKind::Undelegate => LocalKey::UndelegateRequestQueue,
            DelegationKind::Redelegate => LocalKey::RedelegateRequestQueue,
        }
    }

    /// The slot that holds the queue of this kind.
    pub fn local_key(self) -> (r: LocalKey)
        ensures
            r == self.slot(),
    {
        match self {
            DelegationKind::Undelegate => LocalKey::UndelegateRequestQueue,
            DelegationKind::Redelegate => LocalKey::RedelegateRequestQueue,
        }
    }
}

/// The queue that a read of a slot stands for: the queue read, and the
/// empty queue where the slot is empty or does not hold a queue.
pub open spec fn stored_queue<T: RequestKey>(
    read: Result<Option<RequestQueue<T>>, Error>,
) -> Seq<RequestQueueEntry<T>> {
    match read {
        Ok(Some(queue)) => queue@,
        _ => Seq::empty(),
    }
}

/// Reads and writes the queues of the contract. The local storage is the
/// host's: each function is handed what reads or writes a slot of it.
pub struct ContractQueue;

impl ContractQueue {
    /// The queue that a read of a slot stands for.
    pub fn queue_or_default<T: RequestKey>(read: Result<Option<RequestQueue<T>>, Error>) -> (r:
        RequestQueue<T>)
        ensures
            r@ == stored_queue(read),
            read matches Ok(Some(queue)) ==> r == queue,
    {
        match read {
            Ok(Some(queue)) => queue,
            _ => RequestQueue::new(),
        }
    }

    /// The queue of delegation requests of one kind. `read_local` is asked
    /// once, for the slot of `kind`; where it finds nothing, or no queue, the
    /// queue is empty.
    pub fn read_delegation_requests<
        T: RequestKey,
        F: FnOnce(LocalKey) -> Result<Option<RequestQueue<T>>, Error>,
    >(kind: DelegationKind, read_local: F) -> (r: RequestQueue<T>)
        requires
            call_requires(read_local, (kind.slot(),)),
        ensures
            exists|read: Result<Option<RequestQueue<T>>, Error>|
                call_ensures(read_local, (kind.slot(),), read) && r@ == stored_queue(read),
    {
        let read = read_local(kind.local_key());
        Self::queue_or_default(read)
    }

    /// Puts `queue` in the place of the queue of delegation requests of one
    /// kind. `write_local` is called once, with the slot of `kind` and the
    /// queue.
    pub fn write_delegation_requests<T: RequestKey, F: FnOnce(LocalKey, RequestQueue<T>)>(
        kind: DelegationKind,
        queue: RequestQueue<T>,
        write_local: F,
    )
        requires
            call_requires(write_local, (kind.slot(), queue)),
        ensures
            call_ensures(write_local, (kind.slot(), queue), ()),
    {
        write_local(kind.local_key(), queue)
    }

    /// The requests to claim that wait. `read_local` is asked once, for the
    /// slot of the claims; where it finds nothing, or no list, the list is
    /// empty.
    pub fn read_claim_requests<F: FnOnce(LocalKey) -> Result<Option<ClaimRequestList>, Error>>(
        read_local: F,
    ) -> (r: ClaimRequestList)
        requires
            call_requires(read_local, (LocalKey::ClaimRequests,)),
        ensures
            exists|read: Result<Option<ClaimRequestList>, Error>|
                call_ensures(read_local, (LocalKey::ClaimRequests,), read) && r@ == stored_queue(
                    read,
                ),
    {
        let read = read_local(LocalKey::ClaimRequests);
        Self::queue_or_default(read)
    }

    /// Puts `list` in the place of the requests to claim. `write_local` is
    /// called once, with the slot of the claims and the list.
    pub fn write_claim_requests<F: FnOnce(LocalKey, ClaimRequestList)>(
        list: ClaimRequestList,
        write_local: F,
    )
        requires
            call_requires(write_local, (LocalKey::ClaimRequests, list)),
        ensures
            call_ensures(write_local, (LocalKey::ClaimRequests, list), ()),
    {
        write_local(LocalKey::ClaimRequests, list)
    }
}

} // verus!
