use engula::block::{BlockBuilder, BlockHandle, BlockIterator, BLOCK_HANDLE_SIZE};
use engula::buffer::read_u64;
use engula::cmd::frame::Frame;
use engula::cmd::get::Get;
use engula::codec::{
    compare_versions, put_length_prefixed_slice, put_timestamp, put_value, InternalKey,
    ParsedInternalKey, ValueKind, MAX_TIMESTAMP,
};
use engula::iterator::TableIterator;
use engula::lex::{compare, same_bytes, Order};
use engula::quorum::Quorum;
use engula::text::{push_byte_list, push_decimal};
use std::cmp::Ordering;
use std::sync::Arc;

#[test]
fn internal_key_layout() {
    let pk = ParsedInternalKey { user_key: b"ab", timestamp: 0x0102030405060708, value_kind: ValueKind::Present };
    assert_eq!(pk.encode_to_vec(), vec![b'a', b'b', 1, 2, 3, 4, 5, 6, 7, 8, 1]);
    let pk = ParsedInternalKey { user_key: b"", timestamp: MAX_TIMESTAMP, value_kind: ValueKind::Unknown };
    assert_eq!(pk.encode_to_vec(), vec![255; 9]);
}

#[test]
fn internal_key_round_trip() {
    for kind in [ValueKind::Absent, ValueKind::Present, ValueKind::Unknown] {
        let pk = ParsedInternalKey { user_key: b"user", timestamp: 77, value_kind: kind };
        let bytes = pk.encode_to_vec();
        let back = ParsedInternalKey::decode_from(&bytes);
        assert_eq!(back.user_key, b"user");
        assert_eq!(back.timestamp, 77);
        assert_eq!(back.value_kind, kind);
    }
}

#[test]
fn internal_key_for_lookup() {
    let key = InternalKey::for_lookup(b"k", 9);
    assert_eq!(key.as_bytes(), &[b'k', 0, 0, 0, 0, 0, 0, 0, 9, 0]);
    let parsed = key.parse();
    assert_eq!(parsed.user_key, b"k");
    assert_eq!(parsed.timestamp, 9);
    assert_eq!(parsed.value_kind, ValueKind::Absent);
    assert!(key.clone() == key);
}

#[test]
fn value_kind_bytes() {
    assert_eq!(u8::from(ValueKind::Absent), 0);
    assert_eq!(u8::from(ValueKind::Present), 1);
    assert_eq!(u8::from(ValueKind::Unknown), 255);
    assert_eq!(ValueKind::from(0), ValueKind::Absent);
    assert_eq!(ValueKind::from(1), ValueKind::Present);
    assert_eq!(ValueKind::from(2), ValueKind::Unknown);
    assert_eq!(ValueKind::from(255), ValueKind::Unknown);
}

#[test]
fn internal_keys_order_by_user_key_then_newest_first() {
    let key = |user_key: &'static [u8], timestamp| ParsedInternalKey {
        user_key,
        timestamp,
        value_kind: ValueKind::Present,
    };
    assert!(key(b"a", 1) < key(b"b", 9));
    assert!(key(b"a", 9) < key(b"a", 1));
    assert!(key(b"a", 1) > key(b"a", 9));
    assert!(key(b"a", 5) < key(b"ab", 5));
    assert_eq!(key(b"a", 5).partial_cmp(&key(b"a", 5)), Some(Ordering::Equal));
    assert_eq!(key(b"a", 5).compare(&key(b"", 5)), Order::Greater);
    // The kind takes no part in equality or order.
    let absent = ParsedInternalKey { user_key: b"a", timestamp: 5, value_kind: ValueKind::Absent };
    assert!(absent == key(b"a", 5));
    assert!(absent != key(b"a", 6));

    let newer = InternalKey::for_lookup(b"a", 9);
    let older = InternalKey::for_lookup(b"a", 1);
    assert!(newer < older);
    assert!(older < InternalKey::for_lookup(b"b", 9));
    assert_eq!(newer.compare(&older), Order::Less);
    assert!(newer != older);
    assert_eq!(compare_versions(b"a", 9, b"a", 1), Order::Less);
    assert_eq!(compare_versions(b"b", 9, b"a", 1), Order::Greater);
    assert_eq!(compare_versions(b"b", 9, b"b", 9), Order::Equal);
}

#[test]
fn encoded_keys_equal_by_bytes() {
    let absent = InternalKey::from_parsed(ParsedInternalKey {
        user_key: b"a",
        timestamp: 5,
        value_kind: ValueKind::Absent,
    });
    let present = InternalKey::from_parsed(ParsedInternalKey {
        user_key: b"a",
        timestamp: 5,
        value_kind: ValueKind::Present,
    });
    assert!(absent != present);
    assert_eq!(absent.partial_cmp(&present), Some(Ordering::Equal));
}

#[test]
fn put_functions_append() {
    let mut buf = vec![9u8];
    put_timestamp(&mut buf, 258);
    assert_eq!(buf, vec![9, 0, 0, 0, 0, 0, 0, 1, 2]);
    let mut buf = vec![9u8];
    put_length_prefixed_slice(&mut buf, b"xyz");
    assert_eq!(buf, vec![9, 0, 0, 0, 0, 0, 0, 0, 3, b'x', b'y', b'z']);
    let mut buf = vec![9u8];
    put_value(&mut buf, &Some(b"v".to_vec()));
    put_value(&mut buf, &None);
    put_value(&mut buf, &Some(vec![]));
    assert_eq!(buf, vec![9, 1, b'v', 0, 1]);
    assert_eq!(read_u64(&[7, 0, 0, 0, 0, 0, 0, 1, 2, 7], 1), 258);
}

#[test]
fn block_handle_round_trip() {
    let handle = BlockHandle { offset: 0x0102, size: u64::MAX };
    let bytes = handle.encode();
    assert_eq!(bytes.len(), BLOCK_HANDLE_SIZE);
    assert_eq!(bytes, vec![0, 0, 0, 0, 0, 0, 1, 2, 255, 255, 255, 255, 255, 255, 255, 255]);
    assert_eq!(BlockHandle::decode_from(&bytes), handle);
}

#[test]
fn block_builder_and_iterator() {
    let mut builder = BlockBuilder::new();
    assert_eq!(builder.approximate_size(), 0);
    builder.add(9, b"a", b"new");
    builder.add(2, b"a", b"");
    builder.add(5, b"b", b"bee");
    assert_eq!(builder.approximate_size(), 3 * 24 + 3 + 6);
    let block = builder.finish();
    assert_eq!(builder.approximate_size(), 0);
    assert_eq!(&block[..28], &[0, 0, 0, 0, 0, 0, 0, 9, 0, 0, 0, 0, 0, 0, 0, 1, b'a', 0, 0, 0, 0, 0, 0, 0, 3, b'n', b'e', b'w']);

    let mut iter = BlockIterator::new(Arc::new(block));
    assert!(iter.error().is_none());
    assert_eq!(iter.current(), Some((9, &b"a"[..], &b"new"[..])));
    iter.next();
    assert_eq!(iter.current(), Some((2, &b"a"[..], &b""[..])));
    iter.next();
    assert_eq!(iter.current(), Some((5, &b"b"[..], &b"bee"[..])));
    iter.next();
    assert_eq!(iter.current(), None);
    iter.next();
    assert_eq!(iter.current(), None);

    iter.seek(5, b"a");
    assert_eq!(iter.current().unwrap().0, 2);
    iter.seek(9, b"a");
    assert_eq!(iter.current().unwrap().0, 9);
    iter.seek(1, b"a");
    assert_eq!(iter.current().unwrap().1, b"b");
    iter.seek(4, b"b");
    assert_eq!(iter.current(), None);
    iter.seek(u64::MAX, b"");
    assert_eq!(iter.current().unwrap().0, 9);
}

#[test]
fn block_iterator_fails_on_malformed_bytes() {
    let mut builder = BlockBuilder::new();
    builder.add(9, b"a", b"new");
    let mut block = builder.finish();
    block.pop();
    let mut iter = BlockIterator::new(Arc::new(block));
    assert!(matches!(iter.error(), Some(engula::error::Error::Corrupted(_))));
    assert_eq!(iter.current(), None);
    iter.seek(9, b"a");
    iter.next();
    assert_eq!(iter.current(), None);
    assert!(iter.error().is_some());

    let empty = BlockIterator::new(Arc::new(Vec::new()));
    assert!(empty.error().is_none());
    assert_eq!(empty.current(), None);
}

#[test]
fn bytes_compare_lexicographically() {
    assert_eq!(compare(b"", b""), Order::Equal);
    assert_eq!(compare(b"", b"a"), Order::Less);
    assert_eq!(compare(b"a", b""), Order::Greater);
    assert_eq!(compare(b"ab", b"b"), Order::Less);
    assert_eq!(compare(b"abc", b"abd"), Order::Less);
    assert_eq!(compare(b"abc", b"ab"), Order::Greater);
    assert_eq!(compare(&[255], &[1, 255]), Order::Greater);
    assert!(same_bytes(b"abc", b"abc"));
    assert!(!same_bytes(b"abc", b"abcd"));
}

#[test]
fn numbers_and_byte_lists_as_text() {
    let mut text = String::from("n=");
    push_decimal(&mut text, 0);
    text.push(' ');
    push_decimal(&mut text, 10);
    text.push(' ');
    push_decimal(&mut text, 9007199254740993);
    text.push(' ');
    push_decimal(&mut text, u64::MAX);
    assert_eq!(text, "n=0 10 9007199254740993 18446744073709551615");
    let mut text = String::new();
    push_byte_list(&mut text, &[]);
    push_byte_list(&mut text, &[7]);
    push_byte_list(&mut text, &[0, 100, 255]);
    assert_eq!(text, "[][7][0, 100, 255]");
}

#[test]
fn quorum_is_reached_by_more_than_half() {
    for (replicas, needed) in [(1usize, 1usize), (2, 2), (3, 2), (4, 3), (5, 3)] {
        let mut quorum = Quorum::new(replicas);
        assert_eq!(quorum.replicas(), replicas);
        for i in 0..replicas {
            assert!(quorum.is_pending(i));
            assert_eq!(quorum.is_ready(), i >= needed);
            quorum.confirm(i);
            quorum.confirm(i);
            assert!(!quorum.is_pending(i));
        }
        assert!(quorum.is_ready());
    }
    assert!(!Quorum::new(0).is_ready());
}

#[test]
fn get_command() {
    let get = Get::new("hello");
    assert_eq!(get.key(), "hello");
    assert_eq!(Get::new(42).key(), "42");
    assert_eq!(Get::from_key(String::from("k")).key(), "k");
    match get.into_frame() {
        Frame::Array(items) => {
            assert_eq!(items.len(), 2);
            assert!(matches!(&items[0], Frame::Bulk(b) if b == b"get"));
            assert!(matches!(&items[1], Frame::Bulk(b) if b == b"hello"));
        }
        _ => panic!("a command is an array frame"),
    }
    assert!(matches!(Get::reply(Some(vec![1, 2])), Frame::Bulk(b) if b == vec![1, 2]));
    assert!(matches!(Get::reply(None), Frame::Null));
}
