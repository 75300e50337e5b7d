use engula::descriptor::{GroupDesc, HashPartition, RangePartition, ShardDesc, ShardPartition};
use engula::error::ErrorKind;
use engula::gc::{next_start_key, take_versions};
use engula::objects::string::BoxObject;
use engula::retry::{
    begin, belongs_to, has_target, is_executable, is_target_shard_exists, on_outcome, Action,
    Outcome, Request, ShardKey, RETRY_PAUSE_MICROS,
};

#[test]
fn retry_decisions() {

    assert_eq!(RETRY_PAUSE_MICROS, 200);
    let hashed = ShardDesc {
        id: 1,
        collection_id: 1,
        partition: Some(ShardPartition::Hash(HashPartition { slot_id: 6, slots: 16 })),
    };
    let ranged = ShardDesc {
        id: 2,
        collection_id: 1,
        partition: Some(ShardPartition::Range(RangePartition { start: b"g".to_vec(), end: b"p".to_vec() })),
    };
    let bare = ShardDesc { id: 3, collection_id: 1, partition: None };
    assert!(belongs_to(&hashed, b"123456789", 0xCBF43926));
    assert!(!belongs_to(&hashed, b"123456789", 0xCBF43927));
    assert!(belongs_to(&ranged, b"g", 0));
    assert!(belongs_to(&ranged, b"house", 0));
    assert!(!belongs_to(&ranged, b"p", 0));
    assert!(!belongs_to(&ranged, b"f", 0));
    assert!(!belongs_to(&bare, b"g", 0));
    let desc = GroupDesc { id: 1, epoch: 7, shards: vec![hashed, ranged, bare], replicas: vec![] };
    // The checksum of "123456789" falls into slot 6 of 16.
    assert!(is_target_shard_exists(&desc, 1, b"123456789"));
    assert!(!is_target_shard_exists(&desc, 1, b""));
    assert!(is_target_shard_exists(&desc, 2, b"h"));
    assert!(!is_target_shard_exists(&desc, 3, b"h"));
    assert!(!is_target_shard_exists(&desc, 4, b"h"));
    assert!(has_target(&desc, 1, b"any", 22));

    let key = |shard_id, key: &[u8]| ShardKey { shard_id, key: key.to_vec() };
    assert!(is_executable(&desc, &Request::Get(key(2, b"h"))));
    assert!(is_executable(&desc, &Request::Put(key(1, b"123456789"))));
    assert!(!is_executable(&desc, &Request::Delete(key(2, b"z"))));
    assert!(is_executable(&desc, &Request::PrefixList(key(2, b"ha"))));
    assert!(!is_executable(&desc, &Request::ChangeMeta));
    let batch = |deletes, puts| Request::BatchWrite { deletes, puts };
    assert!(is_executable(&desc, &batch(vec![], vec![])));
    assert!(is_executable(&desc, &batch(vec![key(2, b"h")], vec![key(2, b"i"), key(2, b"j")])));
    assert!(!is_executable(&desc, &batch(vec![key(2, b"h")], vec![key(2, b"i"), key(9, b"j")])));
    assert!(!is_executable(&desc, &batch(vec![key(2, b"a")], vec![])));

    let missing = begin(3, None).unwrap_err();
    assert_eq!(missing.kind(), ErrorKind::InvalidArgument);
    assert_eq!(missing.message(), "GroupRequest::request is None");
    let (mut attempts, request) = begin(3, Some(Request::Get(key(2, b"h")))).unwrap();
    assert_eq!(attempts.epoch, 3);
    assert!(matches!(
        on_outcome(&mut attempts, &request, Outcome::Busy, false, false),
        Action::RetryAfterPause
    ));
    assert!(matches!(
        on_outcome(&mut attempts, &request, Outcome::EpochNotMatch(desc), false, false),
        Action::RetryAtNewEpoch
    ));
    assert_eq!(attempts.epoch, 7);
    assert!(matches!(
        on_outcome(&mut attempts, &request, Outcome::Served, false, false),
        Action::ReplyWithDescriptor(d) if d.epoch == 7
    ));
    assert!(attempts.refreshed.is_none());
    assert!(matches!(
        on_outcome(&mut attempts, &request, Outcome::Served, false, false),
        Action::Reply
    ));
    let other = GroupDesc { id: 1, epoch: 8, shards: vec![], replicas: vec![] };
    assert!(matches!(
        on_outcome(&mut attempts, &request, Outcome::EpochNotMatch(other), false, false),
        Action::FailWithDescriptor(d) if d.epoch == 8
    ));
    assert_eq!(attempts.epoch, 7);
    assert!(matches!(
        on_outcome(&mut attempts, &request, Outcome::Forward, true, false),
        Action::HandOver
    ));
    assert!(matches!(
        on_outcome(&mut attempts, &request, Outcome::ShardNotFound(2), false, true),
        Action::FailWithOwnDescriptor
    ));
    assert!(matches!(
        on_outcome(&mut attempts, &request, Outcome::Failed, false, false),
        Action::Fail
    ));
}

#[test]
fn gc_chunks() {
    assert_eq!(next_start_key(&vec![]), None);
    assert_eq!(next_start_key(&vec![(b"a".to_vec(), 3), (b"b".to_vec(), 1)]), Some(b"b".to_vec()));
    let mut chunk = vec![(b"a".to_vec(), 3)];
    assert!(!take_versions(&mut chunk, vec![(b"b".to_vec(), 2), (b"b".to_vec(), 1)], 4));
    assert!(take_versions(&mut chunk, vec![(b"c".to_vec(), 9), (b"c".to_vec(), 8)], 4));
    assert_eq!(chunk.len(), 5);
    assert_eq!(chunk[4], (b"c".to_vec(), 8));
    assert!(take_versions(&mut chunk, vec![], 5));
    assert!(!take_versions(&mut Vec::new(), vec![], 1));
    assert!(take_versions(&mut Vec::new(), vec![], 0));
}

#[test]
fn string_objects() {
    let empty = BoxObject::with_key(b"k");
    assert!(!empty.object().has_value());
    assert_eq!(empty.object().key(), b"k");
    let boxed = BoxObject::with_key_value(b"key", b"value".to_vec());
    assert!(boxed.object().has_value());
    assert_eq!(boxed.object().key(), b"key");
    let mut object = boxed.into_object();
    assert_eq!(object.update_value(Some(b"next".to_vec())), Some(b"value".to_vec()));
    assert_eq!(object.update_value(None), Some(b"next".to_vec()));
    assert!(!object.has_value());
    assert_eq!(object.update_value(None), None);
    assert_eq!(object.update_value(Some(vec![])), None);
    assert!(object.has_value());
}
