use pop::account::BlockTime;
use pop::account::PublicKey;
use pop::bytesrepr::deserialize;
use pop::bytesrepr::Error;
use pop::request_pool::ClaimRequestList;
use pop::request_pool::ContractQueue;
use pop::request_pool::DelegationKind;
use pop::request_pool::LocalKey;
use pop::request_queue::RequestQueue;
use pop::requests::ClaimRequest;
use pop::requests::UndelegateRequestKey;
use pop::runtime::decode_arg;
use pop::runtime::get_arg;
use pop::u512::U512;

fn one_request() -> RequestQueue<UndelegateRequestKey> {
    let mut queue = RequestQueue::new();
    queue
        .push(
            UndelegateRequestKey::new(
                PublicKey::ed25519_from([1; 32]),
                PublicKey::ed25519_from([2; 32]),
            ),
            U512::from(5),
            BlockTime::new(100),
        )
        .expect("the first push is accepted");
    queue
}

#[test]
fn kinds_have_their_own_slots() {
    assert_eq!(DelegationKind::Undelegate.local_key(), LocalKey::UndelegateRequestQueue);
    assert_eq!(DelegationKind::Redelegate.local_key(), LocalKey::RedelegateRequestQueue);
}

#[test]
fn read_asks_for_the_slot_of_the_kind() {
    let queue: RequestQueue<UndelegateRequestKey> =
        ContractQueue::read_delegation_requests(DelegationKind::Undelegate, |key| {
            assert_eq!(key, LocalKey::UndelegateRequestQueue);
            Ok(Some(one_request()))
        });
    assert_eq!(queue, one_request());
    let queue: RequestQueue<UndelegateRequestKey> =
        ContractQueue::read_delegation_requests(DelegationKind::Redelegate, |key| {
            assert_eq!(key, LocalKey::RedelegateRequestQueue);
            Ok(None)
        });
    assert_eq!(queue.len(), 0);
}

#[test]
fn read_of_what_is_no_queue_is_empty() {
    let queue: RequestQueue<UndelegateRequestKey> =
        ContractQueue::read_delegation_requests(DelegationKind::Undelegate, |_| {
            Err(Error::FormattingError)
        });
    assert_eq!(queue.len(), 0);
    let queue: RequestQueue<UndelegateRequestKey> =
        ContractQueue::queue_or_default(Err(Error::EarlyEndOfStream));
    assert_eq!(queue.len(), 0);
    assert_eq!(ContractQueue::queue_or_default(Ok(Some(one_request()))), one_request());
}

#[test]
fn write_hands_over_slot_and_queue() {
    let mut written = None;
    ContractQueue::write_delegation_requests(DelegationKind::Redelegate, one_request(), |key, queue| {
        written = Some((key, queue));
    });
    assert_eq!(written, Some((LocalKey::RedelegateRequestQueue, one_request())));
}

#[test]
fn claims_have_their_slot() {
    let mut list: ClaimRequestList = ContractQueue::read_claim_requests(|key| {
        assert_eq!(key, LocalKey::ClaimRequests);
        Ok(None)
    });
    assert_eq!(list.len(), 0);
    list.push(
        ClaimRequest::new(PublicKey::ed25519_from([1; 32])),
        U512::from(3),
        BlockTime::new(7),
    )
    .expect("the first push is accepted");
    let mut written = None;
    ContractQueue::write_claim_requests(list.clone(), |key, list| {
        written = Some((key, list));
    });
    assert_eq!(written, Some((LocalKey::ClaimRequests, list)));
}

#[test]
fn numbers_are_read_least_significant_byte_first() {
    assert_eq!(deserialize::<u32>(&[0x78, 0x56, 0x34, 0x12]), Ok(0x1234_5678));
    assert_eq!(
        deserialize::<u64>(&[0xef, 0xcd, 0xab, 0x89, 0x67, 0x45, 0x23, 0x01]),
        Ok(0x0123_4567_89ab_cdef)
    );
    assert_eq!(deserialize::<u64>(&[0xff; 8]), Ok(u64::MAX));
    assert_eq!(deserialize::<BlockTime>(&[100, 0, 0, 0, 0, 0, 0, 0]), Ok(BlockTime::new(100)));
}

#[test]
fn short_and_long_input_is_refused() {
    assert_eq!(deserialize::<u64>(&[1, 2, 3]), Err(Error::EarlyEndOfStream));
    assert_eq!(deserialize::<u64>(&[0; 9]), Err(Error::LeftOverBytes));
    assert_eq!(deserialize::<u32>(&[]), Err(Error::EarlyEndOfStream));
    assert_eq!(deserialize::<BlockTime>(&[0; 7]), Err(Error::EarlyEndOfStream));
}

#[test]
fn public_key_is_read_behind_its_length() {
    let mut bytes = vec![32, 0, 0, 0];
    bytes.extend((1..=32).collect::<Vec<u8>>());
    let mut expected = [0u8; 32];
    for i in 0..32 {
        expected[i] = (i + 1) as u8;
    }
    assert_eq!(deserialize::<PublicKey>(&bytes), Ok(PublicKey::ed25519_from(expected)));
    assert_eq!(PublicKey::ed25519_from(expected).to_bytes(), expected);

    bytes.push(0);
    assert_eq!(deserialize::<PublicKey>(&bytes), Err(Error::LeftOverBytes));
    assert_eq!(deserialize::<PublicKey>(&bytes[..20]), Err(Error::EarlyEndOfStream));
    assert_eq!(deserialize::<PublicKey>(&[32, 0]), Err(Error::EarlyEndOfStream));

    let mut other_length = vec![31, 0, 0, 0];
    other_length.extend([7u8; 32]);
    assert_eq!(deserialize::<PublicKey>(&other_length), Err(Error::FormattingError));
}

#[test]
fn get_arg_asks_the_host_for_the_index() {
    let arg: Option<Result<u64, Error>> = get_arg(3, |i| {
        assert_eq!(i, 3);
        Some(vec![5, 0, 0, 0, 0, 0, 0, 0])
    });
    assert_eq!(arg, Some(Ok(5)));
}

#[test]
fn get_arg_missing_and_malformed() {
    let missing: Option<Result<u64, Error>> = get_arg(0, |_| None);
    assert_eq!(missing, None);
    let malformed: Option<Result<u64, Error>> = get_arg(0, |_| Some(vec![1, 2]));
    assert_eq!(malformed, Some(Err(Error::EarlyEndOfStream)));
    let decoded: Option<Result<u32, Error>> = decode_arg(Some(vec![1, 0, 0, 0, 0]));
    assert_eq!(decoded, Some(Err(Error::LeftOverBytes)));
}
