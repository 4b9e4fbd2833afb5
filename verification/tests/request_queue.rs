use pop::account::BlockTime;
use pop::account::PublicKey;
use pop::error::Error;
use pop::request_queue::RequestQueue;
use pop::request_queue::RequestQueueEntry;
use pop::requests::ClaimRequest;
use pop::requests::RedelegateRequestKey;
use pop::requests::UndelegateRequestKey;
use pop::u512::U512;

const KEY1: [u8; 32] = [1; 32];
const KEY2: [u8; 32] = [2; 32];
const KEY3: [u8; 32] = [3; 32];
const KEY4: [u8; 32] = [4; 32];

#[test]
fn test_request_queue_push() {
    let delegator = PublicKey::ed25519_from(KEY1);
    let validator_1 = PublicKey::ed25519_from(KEY2);
    let validator_2 = PublicKey::ed25519_from(KEY3);
    let validator_3 = PublicKey::ed25519_from(KEY4);

    let mut queue: RequestQueue<UndelegateRequestKey> = Default::default();
    assert_eq!(
        Ok(()),
        queue.push(
            UndelegateRequestKey::new(delegator, validator_1),
            U512::from(5),
            BlockTime::new(100)
        )
    );
    assert_eq!(
        Ok(()),
        queue.push(
            UndelegateRequestKey::new(delegator, validator_2),
            U512::from(5),
            BlockTime::new(101)
        )
    );
    assert_eq!(
        Err(Error::MultipleRequests),
        queue.push(
            UndelegateRequestKey::new(delegator, validator_1),
            U512::from(6),
            BlockTime::new(102)
        )
    );
    assert_eq!(
        Err(Error::TimeWentBackwards),
        queue.push(
            UndelegateRequestKey::new(delegator, validator_3),
            U512::from(5),
            BlockTime::new(100)
        )
    );
}

#[test]
fn test_request_queue_pop_due() {
    let delegator = PublicKey::ed25519_from(KEY1);
    let validator_1 = PublicKey::ed25519_from(KEY2);
    let validator_2 = PublicKey::ed25519_from(KEY3);
    let validator_3 = PublicKey::ed25519_from(KEY4);

    let mut queue: RequestQueue<UndelegateRequestKey> = Default::default();
    assert_eq!(
        Ok(()),
        queue.push(
            UndelegateRequestKey::new(delegator, validator_1),
            U512::from(5),
            BlockTime::new(100)
        )
    );
    assert_eq!(
        Ok(()),
        queue.push(
            UndelegateRequestKey::new(delegator, validator_2),
            U512::from(5),
            BlockTime::new(101)
        )
    );
    assert_eq!(
        Ok(()),
        queue.push(
            UndelegateRequestKey::new(delegator, validator_3),
            U512::from(5),
            BlockTime::new(102)
        )
    );
    assert_eq!(
        vec![
            RequestQueueEntry {
                request_key: UndelegateRequestKey::new(delegator, validator_1),
                amount: U512::from(5),
                timestamp: BlockTime::new(100)
            },
            RequestQueueEntry {
                request_key: UndelegateRequestKey::new(delegator, validator_2),
                amount: U512::from(5),
                timestamp: BlockTime::new(101)
            },
        ],
        queue.pop_due(BlockTime::new(101))
    );
    assert_eq!(
        vec![RequestQueueEntry {
            request_key: UndelegateRequestKey::new(delegator, validator_3),
            amount: U512::from(5),
            timestamp: BlockTime::new(102)
        },],
        queue.pop_due(BlockTime::new(105))
    );
}

fn three_requests() -> RequestQueue<UndelegateRequestKey> {
    let delegator = PublicKey::ed25519_from(KEY1);
    let mut queue = RequestQueue::new();
    for (validator, time) in [(KEY2, 100), (KEY3, 101), (KEY4, 102)] {
        assert_eq!(
            Ok(()),
            queue.push(
                UndelegateRequestKey::new(delegator, PublicKey::ed25519_from(validator)),
                U512::from(5),
                BlockTime::new(time)
            )
        );
    }
    queue
}

#[test]
fn pop_due_leaves_the_rest_in_order() {
    let mut queue = three_requests();
    let due = queue.pop_due(BlockTime::new(100));
    assert_eq!(due.len(), 1);
    assert_eq!(due[0].timestamp, BlockTime::new(100));
    let rest: Vec<u64> = queue.iter().iter().map(|entry| entry.timestamp.value()).collect();
    assert_eq!(rest, vec![101, 102]);
    assert_eq!(queue.len(), 2);
}

#[test]
fn pop_due_twice_hands_out_nothing_new() {
    let mut queue = three_requests();
    assert_eq!(queue.pop_due(BlockTime::new(101)).len(), 2);
    assert!(queue.pop_due(BlockTime::new(101)).is_empty());
    assert!(queue.pop_due(BlockTime::new(50)).is_empty());
    assert_eq!(queue.len(), 1);
}

#[test]
fn pop_due_before_the_first_entry() {
    let mut queue = three_requests();
    assert!(queue.pop_due(BlockTime::new(99)).is_empty());
    assert_eq!(queue.len(), 3);
}

#[test]
fn pop_due_of_empty_queue() {
    let mut queue: RequestQueue<UndelegateRequestKey> = RequestQueue::new();
    assert!(queue.pop_due(BlockTime::new(u64::MAX)).is_empty());
    assert_eq!(queue.len(), 0);
}

#[test]
fn push_earlier_is_refused_whatever_the_key() {
    let delegator = PublicKey::ed25519_from(KEY1);
    let mut queue = three_requests();
    // A key that already waits: the clock is looked at first.
    assert_eq!(
        Err(Error::TimeWentBackwards),
        queue.push(
            UndelegateRequestKey::new(delegator, PublicKey::ed25519_from(KEY2)),
            U512::from(5),
            BlockTime::new(101)
        )
    );
    // A key that is new.
    assert_eq!(
        Err(Error::TimeWentBackwards),
        queue.push(
            UndelegateRequestKey::new(delegator, PublicKey::ed25519_from([9; 32])),
            U512::from(5),
            BlockTime::new(101)
        )
    );
    assert_eq!(queue.len(), 3);
}

#[test]
fn push_at_the_same_time_is_accepted() {
    let delegator = PublicKey::ed25519_from(KEY1);
    let mut queue = three_requests();
    assert_eq!(
        Ok(()),
        queue.push(
            UndelegateRequestKey::new(delegator, PublicKey::ed25519_from([9; 32])),
            U512::from(7),
            BlockTime::new(102)
        )
    );
    assert_eq!(queue.len(), 4);
    assert_eq!(queue.iter()[3].amount, U512::from(7));
}

#[test]
fn push_after_a_full_drain_takes_any_time() {
    let delegator = PublicKey::ed25519_from(KEY1);
    let mut queue = three_requests();
    assert_eq!(queue.pop_due(BlockTime::new(200)).len(), 3);
    assert_eq!(
        Ok(()),
        queue.push(
            UndelegateRequestKey::new(delegator, PublicKey::ed25519_from(KEY2)),
            U512::from(1),
            BlockTime::new(10)
        )
    );
}

#[test]
fn contains_key_tells_waiting_requests() {
    let delegator = PublicKey::ed25519_from(KEY1);
    let queue = three_requests();
    assert!(queue.contains_key(&UndelegateRequestKey::new(delegator, PublicKey::ed25519_from(KEY3))));
    assert!(!queue.contains_key(&UndelegateRequestKey::new(PublicKey::ed25519_from(KEY3), delegator)));
}

#[test]
fn redelegate_requests_differ_by_destination() {
    let a = PublicKey::ed25519_from(KEY1);
    let b = PublicKey::ed25519_from(KEY2);
    let c = PublicKey::ed25519_from(KEY3);
    let mut queue: RequestQueue<RedelegateRequestKey> = RequestQueue::new();
    assert_eq!(Ok(()), queue.push(RedelegateRequestKey::new(a, b, c), U512::from(1), BlockTime::new(1)));
    assert_eq!(Ok(()), queue.push(RedelegateRequestKey::new(a, c, b), U512::from(1), BlockTime::new(1)));
    assert_eq!(
        Err(Error::MultipleRequests),
        queue.push(RedelegateRequestKey::new(a, b, c), U512::from(2), BlockTime::new(2))
    );
}

#[test]
fn one_claim_per_claimant() {
    let a = PublicKey::ed25519_from(KEY1);
    let b = PublicKey::ed25519_from(KEY2);
    let mut queue: RequestQueue<ClaimRequest> = RequestQueue::new();
    assert_eq!(Ok(()), queue.push(ClaimRequest::new(a), U512::from(1), BlockTime::new(1)));
    assert_eq!(Ok(()), queue.push(ClaimRequest::new(b), U512::from(1), BlockTime::new(1)));
    assert_eq!(
        Err(Error::MultipleRequests),
        queue.push(ClaimRequest::new(a), U512::from(1), BlockTime::new(1))
    );
}
