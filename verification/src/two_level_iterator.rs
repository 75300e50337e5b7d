//! Iteration over a whole table: an iterator over the index, and under it one
//! data block at a time.

use crate::codec::Timestamp;
use crate::entry::{
    advance, ascending, entry_lt, lemma_ascending_pairs, lemma_version_lt_transitive, precedes,
    seek_from, Entry,
};
use crate::error::Error;
use crate::iterator::TableIterator;
use vstd::prelude::*;

verus! {

/// Makes an iterator over a data block from the value of its index entry.
pub trait BlockIterGenerator {
    /// The iterators that the generator makes.
    type Iter: TableIterator;

    /// The entries of the block that `index_value` points at. `None` where
    /// it points at no block.
    spec fn block_of(&self, index_value: Seq<u8>) -> Option<Seq<Entry>>;

    /// Fetching a block never fails.
    spec fn dependable(&self) -> bool;

    /// The errors that the generator may report.
    spec fn failures(&self) -> Set<Error>;

    /// Fetches the block that `index_value` points at and hands out a sound
    /// iterator at its first entry. Fails where there is no such block, or
    /// where fetching fails.
    fn spawn(&self, index_value: &[u8]) -> (made: Result<Self::Iter, Error>)
        ensures
            match made {
                Ok(iter) => {
                    &&& iter.valid()
                    &&& iter.sound()
                    &&& self.block_of(index_value@) == Some(iter.all())
                    &&& iter.rest() == iter.all()
                },
                Err(error) => self.failures().contains(error) && (self.block_of(index_value@) is None
                    || !self.dependable()),
            },
    ;
}

/// The entries of the blocks that `index` points at, block after block, up
/// to the first entry of `index` that points at no block.
pub open spec fn table_from<G: BlockIterGenerator>(generator: G, index: Seq<Entry>) -> Seq<Entry>
    decreases index.len(),
{
    if index.len() == 0 {
        Seq::empty()
    } else {
        match generator.block_of(index[0].value) {
            Some(block) => block + table_from(generator, index.skip(1)),
            None => Seq::empty(),
        }
    }
}

/// The index entry points at a block that is not empty, and names the
/// version of that block's last entry.
pub open spec fn names_block<G: BlockIterGenerator>(generator: G, pointer: Entry) -> bool {
    match generator.block_of(pointer.value) {
        Some(block) => block.len() > 0 && block.last().key == pointer.key && block.last().ts
            == pointer.ts,
        None => false,
    }
}

/// The index and its blocks make a table: each index entry names a block,
/// and the entries of all blocks together ascend.
pub open spec fn well_indexed<G: BlockIterGenerator>(generator: G, index: Seq<Entry>) -> bool {
    &&& forall|j: int| 0 <= j < index.len() ==> names_block(generator, #[trigger] index[j])
    &&& ascending(table_from(generator, index))
}

/// What a seek leaves of a table: the index is searched for the first
/// block whose entry does not sort before the target, that block is
/// searched in the same way, and the blocks after it follow.
pub open spec fn table_seek<G: BlockIterGenerator>(
    generator: G,
    index: Seq<Entry>,
    key: Seq<u8>,
    ts: Timestamp,
) -> Seq<Entry> {
    let found = seek_from(index, key, ts);
    if found.len() == 0 {
        Seq::empty()
    } else {
        match generator.block_of(found[0].value) {
            Some(block) => seek_from(block, key, ts) + table_from(generator, found.skip(1)),
            None => Seq::empty(),
        }
    }
}

/// Some entry of `index` points at no block.
pub open spec fn table_breaks<G: BlockIterGenerator>(generator: G, index: Seq<Entry>) -> bool {
    exists|j: int| 0 <= j < index.len() && generator.block_of((#[trigger] index[j]).value) is None
}

/// An iterator cannot be placed at the start of the table: the walk over
/// the blocks meets an index entry that points at no block before it
/// meets an entry.
pub open spec fn start_fails<G: BlockIterGenerator>(generator: G, index: Seq<Entry>) -> bool {
    table_from(generator, index).len() == 0 && table_breaks(generator, index)
}

/// A seek fails: the index entry found points at no block, or the block
/// found holds nothing from the target on and no iterator can be placed at
/// the start of what follows.
pub open spec fn table_seek_fails<G: BlockIterGenerator>(
    generator: G,
    index: Seq<Entry>,
    key: Seq<u8>,
    ts: Timestamp,
) -> bool {
    let found = seek_from(index, key, ts);
    found.len() > 0 && match generator.block_of(found[0].value) {
        Some(block) => seek_from(block, key, ts).len() == 0 && start_fails(
            generator,
            found.skip(1),
        ),
        None => true,
    }
}

/// Whether a table breaks shows at its first index entry or in the rest.
pub proof fn lemma_table_breaks<G: BlockIterGenerator>(generator: G, index: Seq<Entry>)
    requires
        index.len() > 0,
    ensures
        table_breaks(generator, index) == (generator.block_of(index[0].value) is None
            || table_breaks(generator, index.skip(1))),
{
    let tail = index.skip(1);
    if table_breaks(generator, index) {
        let j = choose|j: int|
            0 <= j < index.len() && generator.block_of((#[trigger] index[j]).value) is None;
        if j > 0 {
            assert(tail[j - 1] == index[j]);
        }
    }
    if table_breaks(generator, tail) {
        let j = choose|j: int|
            0 <= j < tail.len() && generator.block_of((#[trigger] tail[j]).value) is None;
        assert(index[j + 1] == tail[j]);
    }
}

/// A seek passes over a run of entries that all sort before the target.
pub proof fn lemma_seek_passes(low: Seq<Entry>, more: Seq<Entry>, key: Seq<u8>, ts: Timestamp)
    requires
        forall|i: int| 0 <= i < low.len() ==> precedes(#[trigger] low[i], key, ts),
    ensures
        seek_from(low + more, key, ts) == seek_from(more, key, ts),
    decreases low.len(),
{
    if low.len() == 0 {
        assert(low + more =~= more);
    } else {
        let tail = low.skip(1);
        assert((low + more)[0] == low[0]);
        assert((low + more).skip(1) =~= tail + more);
        assert forall|i: int| 0 <= i < tail.len() implies precedes(#[trigger] tail[i], key, ts) by {
            assert(tail[i] == low[i + 1]);
        }
        lemma_seek_passes(tail, more, key, ts);
    }
}

/// A seek stops within a run of entries one of which does not sort before
/// the target, and what follows the run is left as it is.
pub proof fn lemma_seek_stops(run: Seq<Entry>, more: Seq<Entry>, key: Seq<u8>, ts: Timestamp, at: int)
    requires
        0 <= at < run.len(),
        !precedes(run[at], key, ts),
    ensures
        seek_from(run + more, key, ts) == seek_from(run, key, ts) + more,
        seek_from(run, key, ts).len() > 0,
    decreases run.len(),
{
    assert((run + more)[0] == run[0]);
    if precedes(run[0], key, ts) {
        let tail = run.skip(1);
        assert((run + more).skip(1) =~= tail + more);
        assert(tail[at - 1] == run[at]);
        lemma_seek_stops(tail, more, key, ts, at - 1);
    }
}

/// What follows the first entries of an ascending run ascends too.
pub proof fn lemma_ascending_skip(entries: Seq<Entry>, n: int)
    requires
        ascending(entries),
        0 <= n <= entries.len(),
    ensures
        ascending(entries.skip(n)),
{
    let tail = entries.skip(n);
    assert forall|i: int| 0 <= i < tail.len() - 1 implies entry_lt(#[trigger] tail[i], tail[i + 1]) by {
        assert(entry_lt(entries[i + n], entries[i + n + 1]));
    }
}

/// On a table, a seek through the index finds what a scan of all entries
/// from the start would find.
pub proof fn lemma_table_seek<G: BlockIterGenerator>(
    generator: G,
    index: Seq<Entry>,
    key: Seq<u8>,
    ts: Timestamp,
)
    requires
        well_indexed(generator, index),
    ensures
        table_seek(generator, index, key, ts) == seek_from(table_from(generator, index), key, ts),
    decreases index.len(),
{
    if index.len() > 0 {
        let pointer = index[0];
        let tail = index.skip(1);
        assert(names_block(generator, pointer));
        let block = generator.block_of(pointer.value)->0;
        let after = table_from(generator, tail);
        let table = block + after;
        assert(table == table_from(generator, index));
        let last = block.len() - 1;
        assert(table[last] == block.last());
        if precedes(pointer, key, ts) {
            assert forall|j: int| 0 <= j < tail.len() implies names_block(
                generator,
                #[trigger] tail[j],
            ) by {
                assert(tail[j] == index[j + 1]);
            }
            lemma_ascending_skip(table, block.len() as int);
            assert(table.skip(block.len() as int) =~= after);
            lemma_table_seek(generator, tail, key, ts);
            assert forall|i: int| 0 <= i < block.len() implies precedes(
                #[trigger] block[i],
                key,
                ts,
            ) by {
                assert(table[i] == block[i]);
                if i < last {
                    lemma_ascending_pairs(table, i, last);
                    lemma_version_lt_transitive(
                        block[i].key,
                        block[i].ts,
                        pointer.key,
                        pointer.ts,
                        key,
                        ts,
                    );
                }
            }
            lemma_seek_passes(block, after, key, ts);
        } else {
            lemma_seek_stops(block, after, key, ts, last);
        }
    }
}

/// Where the first `n` index entries point at blocks, the table is the
/// entries of those blocks and then the table of the remaining index.
pub proof fn lemma_table_split<G: BlockIterGenerator>(generator: G, index: Seq<Entry>, n: int)
    requires
        0 <= n <= index.len(),
        forall|j: int| 0 <= j < n ==> generator.block_of((#[trigger] index[j]).value) is Some,
    ensures
        table_from(generator, index) == table_from(generator, index.take(n)) + table_from(
            generator,
            index.skip(n),
        ),
    decreases n,
{
    if n == 0 {
        assert(index.skip(0) =~= index);
        assert(index.take(0) =~= Seq::<Entry>::empty());
        assert(table_from(generator, index.take(0)) =~= Seq::<Entry>::empty());
        assert(Seq::<Entry>::empty() + table_from(generator, index) =~= table_from(
            generator,
            index,
        ));
    } else {
        let tail = index.skip(1);
        assert forall|j: int| 0 <= j < n - 1 implies generator.block_of(
            (#[trigger] tail[j]).value,
        ) is Some by {
            assert(tail[j] == index[j + 1]);
        }
        lemma_table_split(generator, tail, n - 1);
        assert(generator.block_of(index[0].value) is Some);
        let block = generator.block_of(index[0].value)->0;
        assert(index.take(n)[0] == index[0]);
        assert(index.take(n).skip(1) =~= tail.take(n - 1));
        assert(tail.skip(n - 1) =~= index.skip(n));
        assert(block + (table_from(generator, tail.take(n - 1)) + table_from(
            generator,
            index.skip(n),
        )) =~= block + table_from(generator, tail.take(n - 1)) + table_from(
            generator,
            index.skip(n),
        ));
    }
}

/// An iterator over a table, made of an iterator over its index and a
/// generator of iterators over its blocks. It holds one block at a time.
pub struct TwoLevelIterator<I: TableIterator, G: BlockIterGenerator> {
    index_iter: I,
    generator: G,
    data_iter: Option<G::Iter>,
    error: Option<Error>,
}

impl<I: TableIterator, G: BlockIterGenerator> TwoLevelIterator<I, G> {
    /// The generator of block iterators.
    pub closed spec fn generator(&self) -> G {
        self.generator
    }

    /// Every entry of the index.
    pub closed spec fn index(&self) -> Seq<Entry> {
        self.index_iter.all()
    }

    /// The index iterator is sound.
    pub closed spec fn index_sound(&self) -> bool {
        self.index_iter.sound()
    }

    /// The errors that the index iterator may meet.
    pub closed spec fn index_failures(&self) -> Set<Error> {
        self.index_iter.failures()
    }

    /// The index iterator's source answers every read.
    pub closed spec fn index_dependable(&self) -> bool {
        self.index_iter.dependable()
    }

    /// The index iterator is doomed.
    pub closed spec fn index_doomed(&self) -> bool {
        self.index_iter.doomed()
    }

    /// The entries of the index from that of the block at hand on.
    pub closed spec fn index_rest(&self) -> Seq<Entry> {
        self.index_iter.rest()
    }

    /// What the iterator ranges over, and when it is sound, in terms of its
    /// parts.
    pub proof fn lemma_parts(&self)
        ensures
            self.all() == table_from(self.generator(), self.index()),
            self.sound() == (self.index_sound() && self.generator().dependable() && well_indexed(
                self.generator(),
                self.index(),
            )),
            self.failures() == self.index_failures().union(self.generator().failures()),
            self.dependable() == (self.index_dependable() && self.generator().dependable()),
            self.doomed() == (self.failure() is Some || self.index_doomed() || table_breaks(
                self.generator(),
                self.index_rest(),
            )),
    {
    }

    /// The invariant, but for this: the block at hand may be used up.
    spec fn settled_but_for_block(&self) -> bool {
        &&& self.index_iter.valid()
        &&& self.error is None ==> self.index_iter.failure() is None
        &&& self.error is Some ==> !self.sound()
        &&& self.error matches Some(error) ==> self.index_iter.failures().contains(error)
            || self.generator.failures().contains(error)
        &&& match self.data_iter {
            Some(iter) => {
                &&& self.error is None
                &&& iter.valid()
                &&& iter.sound()
                &&& self.index_iter.rest().len() > 0
                &&& self.generator.block_of(self.index_iter.rest()[0].value) == Some(iter.all())
            },
            None => self.error is None ==> self.index_iter.rest().len() == 0,
        }
    }

    /// The block at hand is used up, and no iterator can be placed at the
    /// start of what follows.
    spec fn at_dead_end(&self) -> bool {
        match self.data_iter {
            Some(iter) => iter.rest().len() == 0 && start_fails(
                self.generator,
                self.index_iter.rest().skip(1),
            ),
            None => false,
        }
    }

    /// What is left to yield, whether or not the block at hand is used up.
    spec fn left(&self) -> Seq<Entry> {
        match self.data_iter {
            Some(iter) => iter.rest() + table_from(self.generator, self.index_iter.rest().skip(1)),
            None => Seq::empty(),
        }
    }

    /// An iterator over the table that `index_iter` and `generator` make,
    /// from the index iterator's current entry on.
    pub fn new(index_iter: I, generator: G) -> (iter: TwoLevelIterator<I, G>)
        requires
            index_iter.valid(),
        ensures
            iter.valid(),
            iter.generator() == generator,
            iter.index() == index_iter.all(),
            iter.index_sound() == index_iter.sound(),
            iter.index_failures() == index_iter.failures(),
            iter.index_dependable() == index_iter.dependable(),
            iter.dependable() ==> iter.doomed() == (index_iter.doomed() || table_breaks(
                generator,
                index_iter.rest(),
            )),
            index_iter.failure() is Some ==> iter.failure() == index_iter.failure(),
            iter.failure() is None ==> iter.rest() == table_from(generator, index_iter.rest()),
            index_iter.sound() && generator.dependable() ==> (iter.failure() is Some) == start_fails(
                generator,
                index_iter.rest(),
            ),
    {
        let error = index_iter.error();
        let mut iter = TwoLevelIterator { index_iter, generator, data_iter: None, error };
        proof {
            iter.index_iter.lemma_valid();
        }
        if iter.error.is_none() {
            iter.load();
            iter.settle();
        }
        iter
    }

    /// Fetches the block of the index iterator's current entry.
    fn load(&mut self)
        requires
            old(self).index_iter.valid(),
            old(self).index_iter.failure() is None,
            old(self).error is None,
            old(self).data_iter is None,
        ensures
            final(self).settled_but_for_block(),
            final(self).index_iter == old(self).index_iter,
            final(self).generator == old(self).generator,
            final(self).error is None ==> final(self).left() == table_from(
                final(self).generator,
                final(self).index_iter.rest(),
            ),
            final(self).data_iter matches Some(iter) ==> iter.rest() == iter.all(),
            final(self).generator.dependable() ==> {
                let index = final(self).index_iter.rest();
                &&& (final(self).error is Some || final(self).at_dead_end()) == start_fails(
                    final(self).generator,
                    index,
                )
                &&& (final(self).error is Some) == (index.len() > 0 && final(self).generator.block_of(index[0].value) is None)
                &&& final(self).doomed() == (old(self).index_iter.doomed() || table_breaks(
                    final(self).generator,
                    index,
                ))
            },
    {
        proof {
            if self.index_iter.rest().len() > 0 {
                lemma_table_breaks(self.generator, self.index_iter.rest());
            }
        }
        match self.index_iter.current() {
            Some((_, _, value)) => {
                match self.generator.spawn(value) {
                    Ok(iter) => {
                        self.data_iter = Some(iter);
                    },
                    Err(error) => {
                        proof {
                            self.lemma_unreadable();
                        }
                        self.error = Some(error);
                    },
                }
            },
            None => {},
        }
    }

    /// A sound iterator's index points at blocks only.
    proof fn lemma_unreadable(&self)
        requires
            self.index_iter.valid(),
            self.index_iter.rest().len() > 0,
            self.generator.block_of(self.index_iter.rest()[0].value) is None
                || !self.generator.dependable(),
        ensures
            !self.sound(),
    {
        self.index_iter.lemma_valid();
        if self.sound() {
            let all = self.index_iter.all();
            let n = choose|n: int| 0 <= n <= all.len() && self.index_iter.rest() == #[trigger] all.skip(n);
            assert(all.skip(n)[0] == all[n]);
            assert(names_block(self.generator, all[n]));
        }
    }

    /// Moves on to the first block that has an entry left.
    fn settle(&mut self)
        requires
            old(self).settled_but_for_block(),
        ensures
            final(self).valid(),
            final(self).generator == old(self).generator,
            final(self).index_iter.all() == old(self).index_iter.all(),
            final(self).index_iter.sound() == old(self).index_iter.sound(),
            final(self).index_iter.failures() == old(self).index_iter.failures(),
            final(self).index_iter.dependable() == old(self).index_iter.dependable(),
            old(self).dependable() ==> final(self).doomed() == old(self).doomed(),
            old(self).error is Some ==> final(self).error == old(self).error,
            final(self).error is None ==> final(self).rest() == old(self).left(),
            old(self).error is None && old(self).index_iter.sound() && old(self).generator.dependable() ==> (final(self).failure() is Some) == old(self).at_dead_end(),
    {
        loop
            invariant
                self.settled_but_for_block(),
                self.generator == old(self).generator,
                self.index_iter.all() == old(self).index_iter.all(),
                self.index_iter.sound() == old(self).index_iter.sound(),
                self.index_iter.failures() == old(self).index_iter.failures(),
                self.index_iter.dependable() == old(self).index_iter.dependable(),
                old(self).dependable() ==> self.doomed() == old(self).doomed(),
                old(self).error is Some ==> self.error == old(self).error,
                self.error is None ==> self.left() == old(self).left(),
                old(self).error is None && self.index_iter.sound() && self.generator.dependable()
                    ==> (self.error is Some || self.at_dead_end()) == old(self).at_dead_end(),
            ensures
                self.valid(),
                self.generator == old(self).generator,
                self.index_iter.all() == old(self).index_iter.all(),
                self.index_iter.sound() == old(self).index_iter.sound(),
                self.index_iter.failures() == old(self).index_iter.failures(),
                self.index_iter.dependable() == old(self).index_iter.dependable(),
                old(self).dependable() ==> self.doomed() == old(self).doomed(),
                old(self).error is Some ==> self.error == old(self).error,
                self.error is None ==> self.rest() == old(self).left(),
                old(self).error is None && self.index_iter.sound() && self.generator.dependable()
                    ==> (self.error is Some) == old(self).at_dead_end(),
            decreases self.index_iter.rest().len(),
        {
            let used_up = match &self.data_iter {
                Some(iter) => iter.current().is_none(),
                None => false,
            };
            if !used_up {
                break ;
            }
            let ghost before = self.index_iter.rest();
            proof {
                assert(self.left() =~= table_from(self.generator, before.skip(1)));
                lemma_table_breaks(self.generator, before);
            }
            self.data_iter = None;
            self.index_iter.next();
            match self.index_iter.error() {
                Some(error) => {
                    proof {
                        self.index_iter.lemma_valid();
                    }
                    self.error = Some(error);
                    break ;
                },
                None => {},
            }
            self.load();
        }
    }
}

impl<I: TableIterator, G: BlockIterGenerator> TableIterator for TwoLevelIterator<I, G> {
    closed spec fn valid(&self) -> bool {
        &&& self.settled_but_for_block()
        &&& self.data_iter matches Some(iter) ==> iter.rest().len() > 0
    }

    closed spec fn all(&self) -> Seq<Entry> {
        table_from(self.generator, self.index_iter.all())
    }

    closed spec fn rest(&self) -> Seq<Entry> {
        self.left()
    }

    closed spec fn failure(&self) -> Option<Error> {
        self.error
    }

    closed spec fn sound(&self) -> bool {
        &&& self.index_iter.sound()
        &&& self.generator.dependable()
        &&& well_indexed(self.generator, self.index_iter.all())
    }

    closed spec fn failures(&self) -> Set<Error> {
        self.index_iter.failures().union(self.generator.failures())
    }

    closed spec fn dependable(&self) -> bool {
        self.index_iter.dependable() && self.generator.dependable()
    }

    closed spec fn doomed(&self) -> bool {
        self.error is Some || self.index_iter.doomed() || table_breaks(
            self.generator,
            self.index_iter.rest(),
        )
    }

    proof fn lemma_valid(&self) {
        self.index_iter.lemma_valid();
        if self.sound() {
            match self.data_iter {
                Some(iter) => {
                    iter.lemma_valid();
                    let index = self.index_iter.all();
                    let block = iter.all();
                    let n = choose|n: int|
                        0 <= n <= index.len() && self.index_iter.rest() == #[trigger] index.skip(n);
                    let m = choose|m: int| 0 <= m <= block.len() && iter.rest() == #[trigger] block.skip(m);
                    assert forall|j: int| 0 <= j < n implies self.generator.block_of(
                        (#[trigger] index[j]).value,
                    ) is Some by {
                        assert(names_block(self.generator, index[j]));
                    }
                    lemma_table_split(self.generator, index, n);
                    let before = table_from(self.generator, index.take(n));
                    let after = table_from(self.generator, index.skip(n).skip(1));
                    assert(index.skip(n)[0] == index[n]);
                    assert(table_from(self.generator, index.skip(n)) == block + after);
                    assert(self.all() == before + (block + after));
                    assert(self.rest() =~= self.all().skip(before.len() + m));
                },
                None => {
                    assert(self.rest() =~= self.all().skip(self.all().len() as int));
                },
            }
        }
    }

    fn seek(&mut self, ts: Timestamp, key: &[u8])
        ensures
            final(self).generator() == old(self).generator(),
            final(self).index() == old(self).index(),
            final(self).index_sound() == old(self).index_sound(),
            old(self).index_sound() && final(self).failure() is None ==> final(self).rest() == table_seek(
                old(self).generator(),
                old(self).index(),
                key@,
                ts,
            ),
            old(self).failure() is None && old(self).index_sound() && old(self).generator().dependable()
                ==> (final(self).failure() is Some) == table_seek_fails(
                old(self).generator(),
                old(self).index(),
                key@,
                ts,
            ),
    {
        if self.error.is_some() {
            return ;
        }
        proof {
            if old(self).sound() {
                lemma_table_seek(self.generator, self.index_iter.all(), key@, ts);
            }
        }
        self.data_iter = None;
        self.index_iter.seek(ts, key);
        match self.index_iter.error() {
            Some(error) => {
                proof {
                    self.index_iter.lemma_valid();
                }
                self.error = Some(error);
                return ;
            },
            None => {},
        }
        proof {
            self.index_iter.lemma_valid();
        }
        self.load();
        match self.data_iter.take() {
            Some(iter) => {
                let mut iter = iter;
                iter.seek(ts, key);
                self.data_iter = Some(iter);
            },
            None => {},
        }
        self.settle();
    }

    fn current(&self) -> (entry: Option<(Timestamp, &[u8], &[u8])>) {
        match &self.data_iter {
            Some(iter) => iter.current(),
            None => None,
        }
    }

    fn next(&mut self)
        ensures
            final(self).generator() == old(self).generator(),
            final(self).index() == old(self).index(),
            final(self).index_sound() == old(self).index_sound(),
    {
        match self.data_iter.take() {
            Some(iter) => {
                let mut iter = iter;
                let ghost after = table_from(self.generator, self.index_iter.rest().skip(1));
                proof {
                    iter.lemma_valid();
                    assert(advance(iter.rest() + after) =~= advance(iter.rest()) + after);
                }
                iter.next();
                proof {
                    iter.lemma_valid();
                }
                self.data_iter = Some(iter);
                self.settle();
            },
            None => {},
        }
    }

    fn error(&self) -> (error: Option<Error>) {
        match &self.error {
            Some(error) => Some(error.clone()),
            None => None,
        }
    }
}

} // verus!
