//! The versions that a table holds, as mathematical values, and their order.

use crate::codec::{version_lt, Timestamp};
use crate::lex::{lemma_lex_transitive, lemma_lex_trichotomy, lex_lt};
use vstd::prelude::*;

verus! {

/// One version of a key: what a table stores and an iterator yields.
pub struct Entry {
    pub ts: Timestamp,
    pub key: Seq<u8>,
    pub value: Seq<u8>,
}

/// `a` sorts strictly before `b`.
pub open spec fn entry_lt(a: Entry, b: Entry) -> bool {
    version_lt(a.key, a.ts, b.key, b.ts)
}

/// `e` sorts strictly before version `ts` of `key`.
pub open spec fn precedes(e: Entry, key: Seq<u8>, ts: Timestamp) -> bool {
    version_lt(e.key, e.ts, key, ts)
}

/// `e` is version `ts` of `key`.
pub open spec fn is_version(e: Entry, key: Seq<u8>, ts: Timestamp) -> bool {
    e.key == key && e.ts == ts
}

/// Each entry sorts strictly before the next.
pub open spec fn ascending(entries: Seq<Entry>) -> bool {
    forall|i: int| 0 <= i < entries.len() - 1 ==> entry_lt(#[trigger] entries[i], entries[i + 1])
}

/// What is left of `entries` from the first entry on that does not sort
/// before version `ts` of `key`.
pub open spec fn seek_from(entries: Seq<Entry>, key: Seq<u8>, ts: Timestamp) -> Seq<Entry>
    decreases entries.len(),
{
    if entries.len() == 0 || !precedes(entries[0], key, ts) {
        entries
    } else {
        seek_from(entries.skip(1), key, ts)
    }
}

/// What `next` leaves of what was left.
pub open spec fn advance(rest: Seq<Entry>) -> Seq<Entry> {
    if rest.len() == 0 {
        rest
    } else {
        rest.skip(1)
    }
}

/// The value of version `ts` of `key` if the first of `rest` is that version.
pub open spec fn value_at(rest: Seq<Entry>, key: Seq<u8>, ts: Timestamp) -> Option<Seq<u8>> {
    if rest.len() > 0 && is_version(rest[0], key, ts) {
        Some(rest[0].value)
    } else {
        None
    }
}

/// The order of versions is transitive.
pub proof fn lemma_version_lt_transitive(
    a_key: Seq<u8>,
    a_ts: Timestamp,
    b_key: Seq<u8>,
    b_ts: Timestamp,
    c_key: Seq<u8>,
    c_ts: Timestamp,
)
    requires
        version_lt(a_key, a_ts, b_key, b_ts),
        version_lt(b_key, b_ts, c_key, c_ts),
    ensures
        version_lt(a_key, a_ts, c_key, c_ts),
{
    if lex_lt(a_key, b_key) && lex_lt(b_key, c_key) {
        lemma_lex_transitive(a_key, b_key, c_key);
    }
}

/// Of two versions at most one sorts before the other, and none before itself.
pub proof fn lemma_version_lt_asymmetric(a_key: Seq<u8>, a_ts: Timestamp, b_key: Seq<u8>, b_ts: Timestamp)
    ensures
        !(version_lt(a_key, a_ts, b_key, b_ts) && version_lt(b_key, b_ts, a_key, a_ts)),
        !(a_key == b_key && a_ts == b_ts) ==> version_lt(a_key, a_ts, b_key, b_ts) || version_lt(
            b_key,
            b_ts,
            a_key,
            a_ts,
        ),
{
    lemma_lex_trichotomy(a_key, b_key);
}

/// In an ascending sequence every entry sorts before every later one.
pub proof fn lemma_ascending_pairs(entries: Seq<Entry>, i: int, j: int)
    requires
        ascending(entries),
        0 <= i < j < entries.len(),
    ensures
        entry_lt(entries[i], entries[j]),
    decreases j - i,
{
    if i + 1 < j {
        lemma_ascending_pairs(entries, i, j - 1);
        assert(entry_lt(entries[j - 1], entries[j - 1 + 1]));
        lemma_version_lt_transitive(
            entries[i].key,
            entries[i].ts,
            entries[j - 1].key,
            entries[j - 1].ts,
            entries[j].key,
            entries[j].ts,
        );
    }
}

/// What `seek_from` leaves: a suffix of the entries, before which every
/// entry sorts before the target, and whose first entry does not.
pub proof fn lemma_seek_from(entries: Seq<Entry>, key: Seq<u8>, ts: Timestamp)
    ensures
        exists|n: int|
            {
                &&& 0 <= n <= entries.len()
                &&& #[trigger] entries.skip(n) == seek_from(entries, key, ts)
                &&& forall|i: int| 0 <= i < n ==> precedes(#[trigger] entries[i], key, ts)
                &&& n < entries.len() ==> !precedes(entries[n], key, ts)
            },
    decreases entries.len(),
{
    if entries.len() == 0 || !precedes(entries[0], key, ts) {
        assert(entries.skip(0) =~= entries);
    } else {
        let tail = entries.skip(1);
        lemma_seek_from(tail, key, ts);
        let n = choose|n: int|
            {
                &&& 0 <= n <= tail.len()
                &&& #[trigger] tail.skip(n) == seek_from(tail, key, ts)
                &&& forall|i: int| 0 <= i < n ==> precedes(#[trigger] tail[i], key, ts)
                &&& n < tail.len() ==> !precedes(tail[n], key, ts)
            };
        assert(entries.skip(n + 1) =~= tail.skip(n));
        assert forall|i: int| 0 <= i < n + 1 implies precedes(#[trigger] entries[i], key, ts) by {
            if i > 0 {
                assert(precedes(tail[i - 1], key, ts));
            }
        }
    }
}

} // verus!
