//! Blocks: runs of versions packed into bytes, how they are built and read
//! back, and the handles that point at them in a file.
//!
//! A block is a sequence of records. A record is the version's timestamp,
//! the key's length, the key, the value's length and the value; the three
//! numbers take eight bytes each, most significant first.

use crate::buffer::{be_u64, lemma_be_u64_round_trip, put_u64, read_u64, u64_of_be};
use crate::codec::{
    compare_versions, length_prefixed, put_length_prefixed_slice, put_timestamp, Timestamp,
};
use crate::entry::{seek_from, Entry};
use crate::error::{Error, ErrorKind};
use crate::iterator::TableIterator;
use crate::lex::{lemma_lex_irreflexive, Order};
use std::sync::Arc;
use vstd::prelude::*;
use vstd::slice::slice_subrange;

verus! {

/// The number of bytes of an encoded block handle.
pub const BLOCK_HANDLE_SIZE: usize = 16;

/// Where a block lies in a file.
#[derive(Clone, Copy, Debug, PartialEq, Eq, Structural)]
pub struct BlockHandle {
    pub offset: u64,
    pub size: u64,
}

/// The bytes of a handle: the offset, then the size.
pub open spec fn encode_handle(handle: BlockHandle) -> Seq<u8> {
    be_u64(handle.offset) + be_u64(handle.size)
}

/// The handle that the first sixteen of `bytes` encode.
pub open spec fn decode_handle(bytes: Seq<u8>) -> BlockHandle
    recommends
        bytes.len() >= BLOCK_HANDLE_SIZE,
{
    BlockHandle {
        offset: u64_of_be(bytes.subrange(0, 8)),
        size: u64_of_be(bytes.subrange(8, 16)),
    }
}

/// Decoding a handle undoes encoding it.
pub proof fn lemma_handle_round_trip(handle: BlockHandle)
    ensures
        encode_handle(handle).len() == BLOCK_HANDLE_SIZE,
        decode_handle(encode_handle(handle)) == handle,
{
    let bytes = encode_handle(handle);
    lemma_be_u64_round_trip(handle.offset);
    lemma_be_u64_round_trip(handle.size);
    assert(bytes.subrange(0, 8) =~= be_u64(handle.offset));
    assert(bytes.subrange(8, 16) =~= be_u64(handle.size));
}

impl BlockHandle {
    /// The sixteen bytes of the handle.
    pub fn encode(&self) -> (bytes: Vec<u8>)
        ensures
            bytes@ == encode_handle(*self),
    {
        let mut bytes = Vec::new();
        put_u64(&mut bytes, self.offset);
        put_u64(&mut bytes, self.size);
        proof {
            assert(bytes@ =~= encode_handle(*self));
        }
        bytes
    }

    /// The handle that the first sixteen bytes of `buf` encode.
    pub fn decode_from(buf: &[u8]) -> (handle: BlockHandle)
        requires
            buf.len() >= BLOCK_HANDLE_SIZE,
        ensures
            handle == decode_handle(buf@),
    {
        BlockHandle { offset: read_u64(buf, 0), size: read_u64(buf, 8) }
    }
}

/// The bytes of one record.
pub open spec fn encode_entry(e: Entry) -> Seq<u8> {
    be_u64(e.ts) + length_prefixed(e.key) + length_prefixed(e.value)
}

/// The bytes of a block that holds `entries`.
pub open spec fn encode_block(entries: Seq<Entry>) -> Seq<u8>
    decreases entries.len(),
{
    if entries.len() == 0 {
        Seq::empty()
    } else {
        encode_entry(entries[0]) + encode_block(entries.skip(1))
    }
}

/// The key and the value are short enough for their lengths to be written down.
pub open spec fn fits(e: Entry) -> bool {
    e.key.len() <= u64::MAX && e.value.len() <= u64::MAX
}

/// Every entry fits.
pub open spec fn all_fit(entries: Seq<Entry>) -> bool {
    forall|i: int| 0 <= i < entries.len() ==> fits(#[trigger] entries[i])
}

/// The number that the eight bytes at `at` encode.
pub open spec fn number_at(bytes: Seq<u8>, at: int) -> u64 {
    u64_of_be(bytes.subrange(at, at + 8))
}

/// Where the record that starts at `at` ends, if a whole record lies there.
pub open spec fn record_end(bytes: Seq<u8>, at: int) -> Option<int> {
    if at + 16 > bytes.len() {
        None
    } else {
        let key_len = number_at(bytes, at + 8);
        if at + 24 + key_len > bytes.len() {
            None
        } else {
            let value_len = number_at(bytes, at + 16 + key_len);
            if at + 24 + key_len + value_len > bytes.len() {
                None
            } else {
                Some(at + 24 + key_len + value_len)
            }
        }
    }
}

/// The record that starts at `at`.
pub open spec fn record_at(bytes: Seq<u8>, at: int) -> Entry
    recommends
        record_end(bytes, at) is Some,
{
    let key_len = number_at(bytes, at + 8);
    let value_len = number_at(bytes, at + 16 + key_len);
    Entry {
        ts: number_at(bytes, at),
        key: bytes.subrange(at + 16, at + 16 + key_len),
        value: bytes.subrange(at + 24 + key_len, at + 24 + key_len + value_len),
    }
}

/// From `at` on, `bytes` is whole records and nothing else.
pub open spec fn records_from(bytes: Seq<u8>, at: int) -> bool
    decreases bytes.len() - at,
{
    if 0 <= at < bytes.len() {
        match record_end(bytes, at) {
            Some(end) => records_from(bytes, end),
            None => false,
        }
    } else {
        at == bytes.len()
    }
}

/// The entries of the records from `at` on.
pub open spec fn entries_from(bytes: Seq<u8>, at: int) -> Seq<Entry>
    decreases bytes.len() - at,
{
    if 0 <= at < bytes.len() {
        match record_end(bytes, at) {
            Some(end) => seq![record_at(bytes, at)] + entries_from(bytes, end),
            None => Seq::empty(),
        }
    } else {
        Seq::empty()
    }
}

/// `bytes` is a block: whole records and nothing else.
pub open spec fn is_block(bytes: Seq<u8>) -> bool {
    records_from(bytes, 0)
}

/// The entries of a block. Bytes that are no block hold none.
pub open spec fn decode_block(bytes: Seq<u8>) -> Seq<Entry> {
    if is_block(bytes) {
        entries_from(bytes, 0)
    } else {
        Seq::empty()
    }
}

/// A record is read back as it was written, wherever it stands.
pub proof fn lemma_record_round_trip(before: Seq<u8>, e: Entry, after: Seq<u8>)
    requires
        fits(e),
    ensures
        record_end(before + encode_entry(e) + after, before.len() as int) == Some(
            (before.len() + encode_entry(e).len()) as int,
        ),
        record_at(before + encode_entry(e) + after, before.len() as int) == e,
        encode_entry(e).len() == 24 + e.key.len() + e.value.len(),
{
    let bytes = before + encode_entry(e) + after;
    let at = before.len() as int;
    let key_len = e.key.len() as u64;
    let value_len = e.value.len() as u64;
    lemma_be_u64_round_trip(e.ts);
    lemma_be_u64_round_trip(key_len);
    lemma_be_u64_round_trip(value_len);
    assert(bytes.subrange(at, at + 8) =~= be_u64(e.ts));
    assert(bytes.subrange(at + 8, at + 16) =~= be_u64(key_len));
    assert(bytes.subrange(at + 16, at + 16 + key_len) =~= e.key);
    assert(bytes.subrange(at + 16 + key_len, at + 24 + key_len) =~= be_u64(value_len));
    assert(bytes.subrange(at + 24 + key_len, at + 24 + key_len + value_len) =~= e.value);
}

/// Records that follow `before` are read back as they were written.
pub proof fn lemma_entries_round_trip(before: Seq<u8>, entries: Seq<Entry>)
    requires
        all_fit(entries),
    ensures
        records_from(before + encode_block(entries), before.len() as int),
        entries_from(before + encode_block(entries), before.len() as int) == entries,
    decreases entries.len(),
{
    let bytes = before + encode_block(entries);
    let at = before.len() as int;
    if entries.len() == 0 {
        assert(entries_from(bytes, at) =~= entries);
    } else {
        let e = entries[0];
        let tail = entries.skip(1);
        let record = encode_entry(e);
        let tail_bytes = encode_block(tail);
        let next = before + record;
        assert(fits(e));
        assert forall|i: int| 0 <= i < tail.len() implies fits(#[trigger] tail[i]) by {
            assert(tail[i] == entries[i + 1]);
        }
        lemma_record_round_trip(before, e, tail_bytes);
        lemma_entries_round_trip(next, tail);
        lemma_concat_regroup(before, record, tail_bytes);
        assert(encode_block(entries) == record + tail_bytes);
        assert(bytes == next + tail_bytes);
        assert(record_end(bytes, at) == Some(next.len() as int));
        assert(record_at(bytes, at) == e);
        assert(records_from(bytes, at));
        assert(entries_from(bytes, at) == seq![e] + entries_from(bytes, next.len() as int));
        assert(seq![e] + tail =~= entries);
    }
}

/// Joining three runs of bytes gives the same whichever two are joined first.
pub proof fn lemma_concat_regroup(a: Seq<u8>, b: Seq<u8>, c: Seq<u8>)
    ensures
        a + (b + c) == a + b + c,
{
    assert(a + (b + c) =~= a + b + c);
}

/// A block is read back as it was written.
pub proof fn lemma_block_round_trip(entries: Seq<Entry>)
    requires
        all_fit(entries),
    ensures
        is_block(encode_block(entries)),
        decode_block(encode_block(entries)) == entries,
{
    lemma_entries_round_trip(Seq::empty(), entries);
    assert(Seq::<u8>::empty() + encode_block(entries) =~= encode_block(entries));
}

/// Appending a record to a block appends its entry.
pub proof fn lemma_encode_block_push(entries: Seq<Entry>, e: Entry)
    ensures
        encode_block(entries.push(e)) == encode_block(entries) + encode_entry(e),
    decreases entries.len(),
{
    let more = entries.push(e);
    if entries.len() == 0 {
        assert(more.skip(1) =~= Seq::<Entry>::empty());
        assert(encode_block(more.skip(1)) =~= Seq::<u8>::empty());
        assert(encode_block(more) =~= encode_block(entries) + encode_entry(e));
    } else {
        lemma_encode_block_push(entries.skip(1), e);
        assert(more.skip(1) =~= entries.skip(1).push(e));
        lemma_concat_regroup(
            encode_entry(entries[0]),
            encode_block(entries.skip(1)),
            encode_entry(e),
        );
    }
}

/// A block with an entry has bytes, and one without has none.
pub proof fn lemma_block_size(entries: Seq<Entry>)
    ensures
        entries.len() > 0 <==> encode_block(entries).len() > 0,
{
    if entries.len() > 0 {
        assert(encode_block(entries).len() >= encode_entry(entries[0]).len());
        lemma_be_u64_round_trip(entries[0].ts);
    }
}

/// Packs versions into the bytes of a block.
pub struct BlockBuilder {
    buf: Vec<u8>,
    entries: Ghost<Seq<Entry>>,
}

impl BlockBuilder {
    /// The buffer holds the records of the entries.
    #[verifier::type_invariant]
    spec fn coherent(&self) -> bool {
        self.buf@ == encode_block(self.entries@) && all_fit(self.entries@)
    }

    /// The entries added since the builder was made or last finished.
    pub closed spec fn entries(&self) -> Seq<Entry> {
        self.entries@
    }

    /// A builder without entries.
    pub fn new() -> (builder: BlockBuilder)
        ensures
            builder.entries() == Seq::<Entry>::empty(),
    {
        BlockBuilder { buf: Vec::new(), entries: Ghost(Seq::empty()) }
    }

    /// Appends a version. The caller keeps the versions in order.
    pub fn add(&mut self, ts: Timestamp, key: &[u8], value: &[u8])
        ensures
            final(self).entries() == old(self).entries().push(
                Entry { ts, key: key@, value: value@ },
            ),
    {
        let mut taken = BlockBuilder::new();
        std::mem::swap(self, &mut taken);
        proof {
            use_type_invariant(&taken);
        }
        let ghost e = Entry { ts, key: key@, value: value@ };
        let ghost before = taken.entries@;
        let mut buf = taken.buf;
        put_timestamp(&mut buf, ts);
        put_length_prefixed_slice(&mut buf, key);
        put_length_prefixed_slice(&mut buf, value);
        proof {
            lemma_encode_block_push(before, e);
            assert(buf@ =~= encode_block(before) + encode_entry(e));
            assert(key@.len() == key.len() && value@.len() == value.len());
            assert(fits(e));
            assert forall|i: int| 0 <= i < before.push(e).len() implies fits(
                #[trigger] before.push(e)[i],
            ) by {
                if i < before.len() {
                    assert(fits(before[i]));
                }
            }
        }
        *self = BlockBuilder { buf, entries: Ghost(before.push(e)) };
    }

    /// The number of bytes that the block takes so far.
    pub fn approximate_size(&self) -> (size: usize)
        ensures
            size == encode_block(self.entries()).len(),
    {
        proof {
            use_type_invariant(self);
        }
        self.buf.len()
    }

    /// Hands out the block's bytes and leaves the builder without entries.
    pub fn finish(&mut self) -> (block: Vec<u8>)
        ensures
            block@ == encode_block(old(self).entries()),
            all_fit(old(self).entries()),
            final(self).entries() == Seq::<Entry>::empty(),
    {
        let mut taken = BlockBuilder::new();
        std::mem::swap(self, &mut taken);
        proof {
            use_type_invariant(&taken);
        }
        taken.buf
    }
}

/// Reads the record that starts at `at`: its timestamp, where its value
/// starts, and where it ends. The key lies between the sixteenth byte of the
/// record and the value's length, which takes the eight bytes before the
/// value.
fn parse_record(block: &[u8], at: usize) -> (record: Option<(Timestamp, usize, usize)>)
    requires
        at <= block.len(),
    ensures
        match record {
            Some((ts, value_start, end)) => {
                &&& record_end(block@, at as int) == Some(end as int)
                &&& at + 24 <= value_start <= end <= block.len()
                &&& record_at(block@, at as int) == (Entry {
                    ts,
                    key: block@.subrange(at + 16, value_start - 8),
                    value: block@.subrange(value_start as int, end as int),
                })
            },
            None => record_end(block@, at as int) is None,
        },
{
    let len = block.len();
    if len - at < 16 {
        return None;
    }
    let ts = read_u64(block, at);
    let key_len = read_u64(block, at + 8);
    let room = len - at - 16;
    if key_len > room as u64 || room - (key_len as usize) < 8 {
        return None;
    }
    let value_len_at = at + 16 + key_len as usize;
    let value_len = read_u64(block, value_len_at);
    let value_start = value_len_at + 8;
    if value_len > (len - value_start) as u64 {
        return None;
    }
    Some((ts, value_start, value_start + value_len as usize))
}

/// Calls `Arc::clone`, which hands out another pointer to the same value.
#[verifier::external_body]
pub(crate) fn share(block: &Arc<Vec<u8>>) -> (shared: Arc<Vec<u8>>)
    ensures
        shared == *block,
{
    block.clone()
}

/// The error of an iterator over bytes that are no block.
pub open spec fn is_malformed_block(e: Error) -> bool {
    e.kind() == ErrorKind::Corrupted && e.text() == "block is malformed"@
}

/// Walks the versions of one block.
pub struct BlockIterator {
    block: Arc<Vec<u8>>,
    /// The bytes are a block.
    intact: bool,
    /// What is wrong with the bytes if they are no block.
    error: Option<Error>,
    /// Where the current record starts; the block's length at the end.
    at: usize,
    /// How many entries lie before the current one.
    passed: Ghost<int>,
}

impl BlockIterator {
    /// An iterator over the entries of `block`, at the first of them. If the
    /// bytes are no block the iterator has failed from the start.
    pub fn new(block: Arc<Vec<u8>>) -> (iter: BlockIterator)
        ensures
            iter.valid(),
            iter.all() == decode_block(block@),
            iter.rest() == iter.all(),
            (iter.failure() is Some) == !is_block(block@),
            iter.sound() == is_block(block@),
            iter.failure() matches Some(e) ==> is_malformed_block(e),
    {
        let mut at: usize = 0;
        let mut intact = true;
        while at < block.len()
            invariant_except_break
                intact,
                at <= block.len(),
                is_block(block@) == records_from(block@, at as int),
            ensures
                intact == is_block(block@),
            decreases block.len() - at,
        {
            match parse_record(block.as_slice(), at) {
                Some((_, _, end)) => {
                    at = end;
                },
                None => {
                    intact = false;
                    break ;
                },
            }
        }
        proof {
            assert(entries_from(block@, 0).skip(0) =~= entries_from(block@, 0));
        }
        let error = if intact {
            None
        } else {
            Some(Error::Corrupted(String::from_str("block is malformed")))
        };
        BlockIterator { block, intact, error, at: 0, passed: Ghost(0) }
    }
}

impl TableIterator for BlockIterator {
    closed spec fn valid(&self) -> bool {
        &&& self.at <= self.block@.len()
        &&& self.intact == is_block(self.block@)
        &&& self.intact == (self.error is None)
        &&& self.error matches Some(e) ==> is_malformed_block(e)
        &&& self.intact ==> {
            &&& records_from(self.block@, self.at as int)
            &&& 0 <= self.passed@ <= entries_from(self.block@, 0).len()
            &&& entries_from(self.block@, self.at as int) == entries_from(self.block@, 0).skip(
                self.passed@,
            )
        }
    }

    closed spec fn all(&self) -> Seq<Entry> {
        decode_block(self.block@)
    }

    closed spec fn rest(&self) -> Seq<Entry> {
        if self.intact {
            entries_from(self.block@, self.at as int)
        } else {
            Seq::empty()
        }
    }

    closed spec fn failure(&self) -> Option<Error> {
        self.error
    }

    closed spec fn sound(&self) -> bool {
        self.intact
    }

    open spec fn failures(&self) -> Set<Error> {
        Set::new(|e: Error| is_malformed_block(e))
    }

    open spec fn dependable(&self) -> bool {
        true
    }

    open spec fn doomed(&self) -> bool {
        self.failure() is Some
    }

    proof fn lemma_valid(&self) {
    }

    fn seek(&mut self, ts: Timestamp, key: &[u8])
        ensures
            final(self).rest() == seek_from(old(self).all(), key@, ts),
    {
        if !self.intact {
            return ;
        }
        self.at = 0;
        self.passed = Ghost(0);
        proof {
            assert(entries_from(self.block@, 0).skip(0) =~= entries_from(self.block@, 0));
        }
        loop
            invariant
                self.intact,
                self.valid(),
                self.block == old(self).block,
                self.error == old(self).error,
                seek_from(entries_from(self.block@, 0), key@, ts) == seek_from(
                    entries_from(self.block@, self.at as int),
                    key@,
                    ts,
                ),
            ensures
                self.intact,
                self.valid(),
                self.block == old(self).block,
                self.error == old(self).error,
                entries_from(self.block@, self.at as int) == seek_from(
                    entries_from(self.block@, 0),
                    key@,
                    ts,
                ),
            decreases self.block.len() - self.at,
        {
            if self.at >= self.block.len() {
                break ;
            }
            match parse_record(self.block.as_slice(), self.at) {
                Some((record_ts, value_start, end)) => {
                    let record_key = slice_subrange(
                        self.block.as_slice(),
                        self.at + 16,
                        value_start - 8,
                    );
                    let ghost here = entries_from(self.block@, self.at as int);
                    proof {
                        assert(here.skip(1) =~= entries_from(self.block@, end as int));
                        assert(here[0] == record_at(self.block@, self.at as int));
                        assert(here.skip(1) =~= entries_from(self.block@, 0).skip(
                            self.passed@ + 1,
                        ));
                        lemma_lex_irreflexive(key@);
                    }
                    match compare_versions(record_key, record_ts, key, ts) {
                        Order::Less => {
                            self.at = end;
                            self.passed = Ghost(self.passed@ + 1);
                        },
                        _ => {
                            break ;
                        },
                    }
                },
                None => {
                    break ;
                },
            }
        }
    }

    fn current(&self) -> (entry: Option<(Timestamp, &[u8], &[u8])>) {
        if !self.intact || self.at >= self.block.len() {
            return None;
        }
        match parse_record(self.block.as_slice(), self.at) {
            Some((ts, value_start, end)) => {
                let key = slice_subrange(self.block.as_slice(), self.at + 16, value_start - 8);
                let value = slice_subrange(self.block.as_slice(), value_start, end);
                Some((ts, key, value))
            },
            None => None,
        }
    }

    fn next(&mut self) {
        if !self.intact || self.at >= self.block.len() {
            return ;
        }
        match parse_record(self.block.as_slice(), self.at) {
            Some((_, _, end)) => {
                proof {
                    let here = entries_from(self.block@, self.at as int);
                    assert(here.skip(1) =~= entries_from(self.block@, end as int));
                    assert(here.skip(1) =~= entries_from(self.block@, 0).skip(self.passed@ + 1));
                }
                self.at = end;
                self.passed = Ghost(self.passed@ + 1);
            },
            None => {},
        }
    }

    fn error(&self) -> (error: Option<Error>)
        ensures
            error matches Some(e) ==> is_malformed_block(e),
    {
        match &self.error {
            Some(error) => Some(error.clone()),
            None => None,
        }
    }
}

} // verus!
