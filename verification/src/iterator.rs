//! The capability that every iterator over versions offers.

use crate::codec::Timestamp;
use crate::entry::{advance, seek_from, Entry};
use crate::error::Error;
use vstd::prelude::*;
use vstd::slice::slice_to_vec;

verus! {

/// `rest` is what is left of `all` after some of its entries.
pub open spec fn is_suffix(rest: Seq<Entry>, all: Seq<Entry>) -> bool {
    exists|n: int| 0 <= n <= all.len() && rest == #[trigger] all.skip(n)
}

/// A forward iterator over a finite run of versions.
///
/// An iterator ranges over the entries `all`, and at any time has the
/// entries `rest` still to yield, the current one first. The first error
/// that an operation meets sticks: from then on the iterator has that
/// `failure` and yields nothing. An iterator whose source is `sound` never
/// fails, and seeks as a scan of `all` from its start would. One whose
/// source is `dependable` fails on its way to the end exactly if it is
/// `doomed` to: if damage lies ahead.
pub trait TableIterator {
    /// The iterator's internal invariant.
    spec fn valid(&self) -> bool;

    /// Every entry that the iterator ranges over, in order.
    spec fn all(&self) -> Seq<Entry>;

    /// The entries still to yield, the current one first.
    spec fn rest(&self) -> Seq<Entry>;

    /// The error that has been met, if any.
    spec fn failure(&self) -> Option<Error>;

    /// The iterator's source is well-formed and can be relied on.
    spec fn sound(&self) -> bool;

    /// The errors that the iterator may meet.
    spec fn failures(&self) -> Set<Error>;

    /// The iterator's source answers every read, so that the iterator only
    /// fails where its source is damaged.
    spec fn dependable(&self) -> bool;

    /// A walk from the current entry to the end meets damage.
    spec fn doomed(&self) -> bool;

    /// A failed iterator yields nothing, and has met one of its errors. One
    /// with a dependable source has only failed if it was doomed to, and
    /// one that has reached the end without failing was not. A sound one
    /// does not fail, and what it has left is a suffix of what it ranges
    /// over.
    proof fn lemma_valid(&self)
        requires
            self.valid(),
        ensures
            self.failure() is Some ==> self.rest().len() == 0,
            self.failure() matches Some(error) ==> self.failures().contains(error),
            self.failure() is Some && self.dependable() ==> self.doomed(),
            self.failure() is None && self.rest().len() == 0 ==> !self.doomed(),
            self.sound() ==> self.failure() is None && is_suffix(self.rest(), self.all()),
    ;

    /// Moves to the first entry that does not sort before version `ts` of
    /// `key`.
    fn seek(&mut self, ts: Timestamp, key: &[u8])
        requires
            old(self).valid(),
        ensures
            final(self).valid(),
            final(self).all() == old(self).all(),
            final(self).sound() == old(self).sound(),
            final(self).failures() == old(self).failures(),
            final(self).dependable() == old(self).dependable(),
            old(self).failure() is Some ==> final(self).failure() == old(self).failure(),
            old(self).sound() ==> final(self).rest() == seek_from(old(self).all(), key@, ts),
    ;

    /// The current entry: its timestamp, key and value. `None` at the end
    /// and after an error.
    fn current(&self) -> (entry: Option<(Timestamp, &[u8], &[u8])>)
        requires
            self.valid(),
        ensures
            match entry {
                Some((ts, key, value)) => self.rest().len() > 0 && self.rest()[0] == (Entry {
                    ts,
                    key: key@,
                    value: value@,
                }),
                None => self.rest().len() == 0,
            },
    ;

    /// Moves to the next entry. At the end it stays there.
    fn next(&mut self)
        requires
            old(self).valid(),
        ensures
            final(self).valid(),
            final(self).all() == old(self).all(),
            final(self).sound() == old(self).sound(),
            final(self).failures() == old(self).failures(),
            final(self).dependable() == old(self).dependable(),
            old(self).dependable() ==> final(self).doomed() == old(self).doomed(),
            old(self).failure() is Some ==> final(self).failure() == old(self).failure(),
            final(self).failure() is None ==> final(self).rest() == advance(old(self).rest()),
    ;

    /// The error that stopped the iterator, if one did.
    fn error(&self) -> (error: Option<Error>)
        requires
            self.valid(),
        ensures
            error == self.failure(),
    ;
}

/// A version as an iterator hands it out, but owned.
pub type Version = (Timestamp, Vec<u8>, Vec<u8>);

/// The mathematical value of a [`Version`].
pub open spec fn version_view(version: Version) -> Entry {
    Entry { ts: version.0, key: version.1@, value: version.2@ }
}

/// The mathematical values of a run of versions.
pub open spec fn versions_view(versions: Seq<Version>) -> Seq<Entry> {
    versions.map_values(|v: Version| version_view(v))
}

/// Walks the iterator to its end and returns the versions passed on the
/// way, the current one first. If the iterator fails on the way, the
/// versions passed before that are returned. An iterator with a dependable
/// source fails on the way exactly if it is doomed to.
pub fn collect<I: TableIterator>(iter: &mut I) -> (versions: Vec<Version>)
    requires
        old(iter).valid(),
    ensures
        final(iter).valid(),
        final(iter).all() == old(iter).all(),
        final(iter).sound() == old(iter).sound(),
        final(iter).failures() == old(iter).failures(),
        final(iter).dependable() == old(iter).dependable(),
        old(iter).dependable() ==> (final(iter).failure() is Some <==> old(iter).doomed()),
        final(iter).rest().len() == 0,
        final(iter).failure() is None ==> versions_view(versions@)
            == old(iter).rest(),
{
    let mut versions: Vec<Version> = Vec::new();
    let ghost all = iter.rest();
    proof {
        assert(all.skip(0) =~= all);
        assert(versions_view(versions@) =~= all.take(0));
    }
    loop
        invariant
            iter.valid(),
            iter.all() == old(iter).all(),
            iter.sound() == old(iter).sound(),
            iter.failures() == old(iter).failures(),
            iter.dependable() == old(iter).dependable(),
            iter.dependable() ==> iter.doomed() == old(iter).doomed(),
            iter.failure() is None ==> versions@.len() <= all.len() && iter.rest() == all.skip(
                versions@.len() as int,
            ) && versions_view(versions@) == all.take(
                versions@.len() as int,
            ),
        ensures
            iter.valid(),
            iter.all() == old(iter).all(),
            iter.sound() == old(iter).sound(),
            iter.failures() == old(iter).failures(),
            iter.dependable() == old(iter).dependable(),
            iter.dependable() ==> (iter.failure() is Some <==> old(iter).doomed()),
            iter.rest().len() == 0,
            iter.failure() is None ==> versions_view(versions@) == all,
        decreases iter.rest().len(),
    {
        let ghost before = iter.rest();
        let ghost passed = versions@;
        proof {
            iter.lemma_valid();
        }
        let version = match iter.current() {
            Some((ts, key, value)) => (ts, slice_to_vec(key), slice_to_vec(value)),
            None => {
                proof {
                    if iter.failure() is None {
                        assert(all.take(versions@.len() as int) =~= all);
                    }
                }
                break ;
            },
        };
        versions.push(version);
        iter.next();
        proof {
            iter.lemma_valid();
            if iter.failure() is None {
                let n = passed.len() as int;
                assert(before.skip(1) =~= all.skip(n + 1));
                assert(versions_view(versions@) =~= all.take(n + 1)) by {
                    assert(version_view(version) == all[n]);
                    assert(versions_view(versions@) =~= versions_view(passed).push(
                        version_view(version),
                    ));
                }
            }
        }
    }
    versions
}

} // verus!
