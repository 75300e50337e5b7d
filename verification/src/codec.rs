//! Internal keys: a user key with the timestamp and the kind of one of its
//! versions, and how they are laid out in bytes and ordered.

use crate::buffer::{
    be_u64, lemma_be_u64_round_trip, put_slice, put_u64, put_u8, read_u64, u64_of_be,
};
use crate::lex::{compare, lemma_lex_trichotomy, lex_lt, Order};
use vstd::prelude::*;
use vstd::slice::slice_subrange;

verus! {

/// A logical clock value. Larger is newer.
pub type Timestamp = u64;

/// The timestamp that no version carries.
pub const MAX_TIMESTAMP: u64 = u64::MAX;

/// A value, or the mark that the key was deleted.
pub type Value = Option<Vec<u8>>;

/// The number of bytes that follow the user key in an encoded internal key.
pub const KEY_TRAILER_SIZE: usize = 9;

/// What a version holds.
#[derive(Clone, Copy, Debug, PartialEq, Eq, Structural)]
pub enum ValueKind {
    /// The key was deleted.
    Absent,
    /// The key has a value.
    Present,
    /// Any other mark.
    Unknown,
}

impl ValueKind {
    /// The byte that stands for the kind.
    pub open spec fn spec_to_u8(self) -> u8 {
        match self {
            ValueKind::Absent => 0,
            ValueKind::Present => 1,
            ValueKind::Unknown => 255,
        }
    }

    /// The kind that a byte stands for.
    pub open spec fn spec_from_u8(v: u8) -> ValueKind {
        if v == 0 {
            ValueKind::Absent
        } else if v == 1 {
            ValueKind::Present
        } else {
            ValueKind::Unknown
        }
    }

    /// The byte that stands for the kind.
    #[verifier::when_used_as_spec(spec_to_u8)]
    pub fn to_u8(self) -> (v: u8)
        ensures
            v == self.spec_to_u8(),
    {
        match self {
            ValueKind::Absent => 0,
            ValueKind::Present => 1,
            ValueKind::Unknown => 255,
        }
    }

    /// The kind that a byte stands for: 0 and 1 have their own, every
    /// other byte is `Unknown`.
    #[verifier::when_used_as_spec(spec_from_u8)]
    pub fn from_u8(v: u8) -> (kind: ValueKind)
        ensures
            kind == ValueKind::spec_from_u8(v),
    {
        match v {
            0 => ValueKind::Absent,
            1 => ValueKind::Present,
            _ => ValueKind::Unknown,
        }
    }
}

/// A kind survives the way through its byte.
pub proof fn lemma_value_kind_round_trip(kind: ValueKind)
    ensures
        ValueKind::spec_from_u8(kind.spec_to_u8()) == kind,
{
}

/// The bytes of an internal key: the user key, the timestamp in big-endian
/// order, and the kind's byte.
pub open spec fn encode_key(user_key: Seq<u8>, timestamp: Timestamp, kind: ValueKind) -> Seq<u8> {
    user_key + be_u64(timestamp) + seq![kind.spec_to_u8()]
}

/// The user key of an encoded internal key.
pub open spec fn user_key_of(bytes: Seq<u8>) -> Seq<u8>
    recommends
        bytes.len() >= KEY_TRAILER_SIZE,
{
    bytes.subrange(0, bytes.len() - KEY_TRAILER_SIZE)
}

/// The timestamp of an encoded internal key.
pub open spec fn timestamp_of(bytes: Seq<u8>) -> Timestamp
    recommends
        bytes.len() >= KEY_TRAILER_SIZE,
{
    u64_of_be(bytes.subrange(bytes.len() - KEY_TRAILER_SIZE, bytes.len() - 1))
}

/// The kind of an encoded internal key.
pub open spec fn kind_of(bytes: Seq<u8>) -> ValueKind
    recommends
        bytes.len() >= KEY_TRAILER_SIZE,
{
    ValueKind::spec_from_u8(bytes[bytes.len() - 1])
}

/// Version `(a_key, a_ts)` sorts before version `(b_key, b_ts)`: its user
/// key comes first, or the user keys are equal and it is the newer one.
pub open spec fn version_lt(a_key: Seq<u8>, a_ts: Timestamp, b_key: Seq<u8>, b_ts: Timestamp) -> bool {
    lex_lt(a_key, b_key) || (a_key == b_key && a_ts > b_ts)
}

/// The three-way comparison of two versions.
pub open spec fn version_order(
    a_key: Seq<u8>,
    a_ts: Timestamp,
    b_key: Seq<u8>,
    b_ts: Timestamp,
) -> Order {
    if a_key == b_key && a_ts == b_ts {
        Order::Equal
    } else if version_lt(a_key, a_ts, b_key, b_ts) {
        Order::Less
    } else {
        Order::Greater
    }
}

/// Compares two versions: by user key, and under one user key the newer
/// first.
pub fn compare_versions(a_key: &[u8], a_ts: Timestamp, b_key: &[u8], b_ts: Timestamp) -> (r: Order)
    ensures
        r == version_order(a_key@, a_ts, b_key@, b_ts),
{
    proof {
        lemma_lex_trichotomy(a_key@, b_key@);
    }
    match compare(a_key, b_key) {
        Order::Less => Order::Less,
        Order::Greater => Order::Greater,
        Order::Equal => {
            if a_ts > b_ts {
                Order::Less
            } else if a_ts < b_ts {
                Order::Greater
            } else {
                Order::Equal
            }
        },
    }
}

/// An internal key taken apart.
#[derive(Clone, Copy, Debug)]
pub struct ParsedInternalKey<'a> {
    pub user_key: &'a [u8],
    pub timestamp: Timestamp,
    pub value_kind: ValueKind,
}

impl<'a> ParsedInternalKey<'a> {
    /// The bytes of the key.
    pub fn encode_to_vec(&self) -> (buf: Vec<u8>)
        ensures
            buf@ == encode_key(self.user_key@, self.timestamp, self.value_kind),
    {
        let mut buf = Vec::new();
        put_slice(&mut buf, self.user_key);
        put_u64(&mut buf, self.timestamp);
        put_u8(&mut buf, self.value_kind.to_u8());
        proof {
            assert(buf@ =~= encode_key(self.user_key@, self.timestamp, self.value_kind));
        }
        buf
    }

    /// Takes an encoded key apart. The last nine bytes are the timestamp
    /// and the kind; what comes before them is the user key.
    pub fn decode_from(buf: &'a [u8]) -> (key: ParsedInternalKey<'a>)
        requires
            buf.len() >= KEY_TRAILER_SIZE,
        ensures
            key.user_key@ == user_key_of(buf@),
            key.timestamp == timestamp_of(buf@),
            key.value_kind == kind_of(buf@),
    {
        let n = buf.len() - KEY_TRAILER_SIZE;
        let user_key = slice_subrange(buf, 0, n);
        let timestamp = read_u64(buf, n);
        let value_kind = ValueKind::from_u8(buf[n + 8]);
        ParsedInternalKey { user_key, timestamp, value_kind }
    }

    /// Compares two keys as versions; the kind plays no part.
    pub fn compare(&self, other: &ParsedInternalKey<'_>) -> (r: Order)
        ensures
            r == version_order(self.user_key@, self.timestamp, other.user_key@, other.timestamp),
    {
        compare_versions(self.user_key, self.timestamp, other.user_key, other.timestamp)
    }
}

/// Taking apart what `encode_key` put together gives the parts back.
pub proof fn lemma_key_round_trip(user_key: Seq<u8>, timestamp: Timestamp, kind: ValueKind)
    ensures
        encode_key(user_key, timestamp, kind).len() == user_key.len() + KEY_TRAILER_SIZE,
        user_key_of(encode_key(user_key, timestamp, kind)) == user_key,
        timestamp_of(encode_key(user_key, timestamp, kind)) == timestamp,
        kind_of(encode_key(user_key, timestamp, kind)) == kind,
{
    let bytes = encode_key(user_key, timestamp, kind);
    lemma_be_u64_round_trip(timestamp);
    assert(user_key_of(bytes) =~= user_key);
    assert(bytes.subrange(bytes.len() - KEY_TRAILER_SIZE, bytes.len() - 1) =~= be_u64(timestamp));
}

/// An internal key in its encoded form.
#[derive(Debug)]
pub struct InternalKey(Vec<u8>);

impl View for InternalKey {
    type V = Seq<u8>;

    /// The bytes of the key.
    closed spec fn view(&self) -> Seq<u8> {
        self.0@
    }
}

impl InternalKey {
    /// An encoded key holds at least the timestamp and the kind.
    #[verifier::type_invariant]
    spec fn long_enough(&self) -> bool {
        self.0@.len() >= KEY_TRAILER_SIZE
    }

    /// The key under which version `timestamp` of `user_key` is looked up.
    pub fn for_lookup(user_key: &[u8], timestamp: Timestamp) -> (key: InternalKey)
        ensures
            key@ == encode_key(user_key@, timestamp, ValueKind::Absent),
    {
        let pk = ParsedInternalKey { user_key, timestamp, value_kind: ValueKind::Absent };
        InternalKey::from_parsed(pk)
    }

    /// The encoded form of a key that was taken apart.
    pub fn from_parsed(pk: ParsedInternalKey<'_>) -> (key: InternalKey)
        ensures
            key@ == encode_key(pk.user_key@, pk.timestamp, pk.value_kind),
    {
        let bytes = pk.encode_to_vec();
        proof {
            lemma_key_round_trip(pk.user_key@, pk.timestamp, pk.value_kind);
        }
        InternalKey(bytes)
    }

    /// The key taken apart.
    pub fn parse(&self) -> (key: ParsedInternalKey<'_>)
        ensures
            self@.len() >= KEY_TRAILER_SIZE,
            key.user_key@ == user_key_of(self@),
            key.timestamp == timestamp_of(self@),
            key.value_kind == kind_of(self@),
    {
        proof {
            use_type_invariant(self);
        }
        ParsedInternalKey::decode_from(self.0.as_slice())
    }

    /// The bytes of the key.
    pub fn as_bytes(&self) -> (bytes: &[u8])
        ensures
            bytes@ == self@,
    {
        self.0.as_slice()
    }

    /// Compares two keys as versions; the kind plays no part.
    pub fn compare(&self, other: &InternalKey) -> (r: Order)
        ensures
            r == version_order(
                user_key_of(self@),
                timestamp_of(self@),
                user_key_of(other@),
                timestamp_of(other@),
            ),
    {
        let k1 = self.parse();
        let k2 = other.parse();
        k1.compare(&k2)
    }
}

impl Clone for InternalKey {
    fn clone(&self) -> (key: InternalKey)
        ensures
            key@ == self@,
    {
        proof {
            use_type_invariant(self);
        }
        InternalKey(self.0.clone())
    }
}

/// Appends a timestamp: eight bytes, big-endian.
pub fn put_timestamp(buf: &mut Vec<u8>, ts: Timestamp)
    ensures
        final(buf)@ == old(buf)@ + be_u64(ts),
{
    put_u64(buf, ts);
}

/// The bytes of `s` after their count as a big-endian 64-bit integer.
pub open spec fn length_prefixed(s: Seq<u8>) -> Seq<u8>
    recommends
        s.len() <= u64::MAX,
{
    be_u64(s.len() as u64) + s
}

/// Appends the length of `s`, then `s`.
pub fn put_length_prefixed_slice(buf: &mut Vec<u8>, s: &[u8])
    ensures
        final(buf)@ == old(buf)@ + length_prefixed(s@),
{
    put_u64(buf, s.len() as u64);
    put_slice(buf, s);
    proof {
        assert(buf@ =~= old(buf)@ + length_prefixed(s@));
    }
}

/// The kind's byte, and after it the value where there is one.
pub open spec fn encode_value(value: Option<Seq<u8>>) -> Seq<u8> {
    match value {
        Some(v) => seq![ValueKind::Present.spec_to_u8()] + v,
        None => seq![ValueKind::Absent.spec_to_u8()],
    }
}

/// The mathematical value of a [`Value`].
pub open spec fn value_view(value: Value) -> Option<Seq<u8>> {
    match value {
        Some(v) => Some(v@),
        None => None,
    }
}

/// Appends a value or a deletion mark.
pub fn put_value(buf: &mut Vec<u8>, value: &Value)
    ensures
        final(buf)@ == old(buf)@ + encode_value(value_view(*value)),
{
    match value {
        Some(value) => {
            put_u8(buf, ValueKind::Present.to_u8());
            put_slice(buf, value.as_slice());
            proof {
                assert(buf@ =~= old(buf)@ + (seq![1u8] + value@));
            }
        },
        None => {
            put_u8(buf, ValueKind::Absent.to_u8());
            proof {
                assert(buf@ =~= old(buf)@ + seq![0u8]);
            }
        },
    }
}

/// The record of a memtable that was flushed.
#[derive(Debug)]
pub struct FlushDesc {
    pub memtable_id: String,
}

/// A change to the set of tables.
#[derive(Debug)]
pub enum UpdateDesc {
    Flush(FlushDesc),
}

/// What is recorded of a table.
#[derive(Clone, Copy, Debug, PartialEq, Eq, Structural)]
pub struct TableDesc {
    pub table_size: u64,
}

} // verus!
