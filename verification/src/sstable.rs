//! Sorted tables: the builder that writes one, and the reader that looks
//! versions up in one.

use crate::block::{
    all_fit, decode_block, decode_handle, encode_block, encode_handle, is_block, lemma_block_size,
    lemma_handle_round_trip, share, BlockBuilder, BlockHandle, BlockIterator, BLOCK_HANDLE_SIZE,
};
use crate::codec::{compare_versions, value_view, version_lt, Timestamp};
use crate::entry::{ascending, value_at, Entry};
use crate::error::{Error, ErrorKind};
use crate::file_system::{RandomAccessReader, SequentialWriter};
use crate::iterator::{collect, versions_view, TableIterator, Version};
use crate::lex::{lemma_lex_irreflexive, same_bytes, Order};
use crate::table::{
    bytes_at, data_bytes, encode_table, entries_of, index_bytes_of, index_for, index_handle,
    lemma_data_push, lemma_index_push, pointed_block, table_blocks, FOOTER_SIZE,
};
use crate::two_level_iterator::{
    start_fails, table_breaks, table_from, table_seek, table_seek_fails, well_indexed,
    BlockIterGenerator,
    TwoLevelIterator,
};
use std::sync::Arc;
use vstd::prelude::*;
use vstd::slice::slice_to_vec;

verus! {

/// How a table is built.
#[derive(Clone, Copy, Debug)]
pub struct SstOptions {
    /// The size in bytes from which a data block is closed.
    pub block_size: usize,
}

impl SstOptions {
    /// Blocks of eight kilobytes.
    pub fn default() -> (options: SstOptions)
        ensures
            options.block_size == 8192,
    {
        SstOptions { block_size: 8192 }
    }
}

/// The last bytes of a table file: the handle of the index block.
#[derive(Clone, Copy, Debug)]
pub struct SstFooter {
    pub index_handle: BlockHandle,
}

impl SstFooter {
    /// The footer that the first sixteen bytes of `buf` encode.
    pub fn decode_from(buf: &[u8]) -> (footer: SstFooter)
        requires
            buf.len() >= FOOTER_SIZE,
        ensures
            footer.index_handle == decode_handle(buf@),
    {
        SstFooter { index_handle: BlockHandle::decode_from(buf) }
    }

    /// The sixteen bytes of the footer.
    pub fn encode(&self) -> (bytes: Vec<u8>)
        ensures
            bytes@ == encode_handle(self.index_handle),
    {
        self.index_handle.encode()
    }
}

/// The bytes that went into a sink, and their count.
struct Tally {
    count: usize,
    bytes: Ghost<Seq<u8>>,
}

impl Tally {
    /// The count is the number of the bytes.
    #[verifier::type_invariant]
    spec fn counted(&self) -> bool {
        self.count == self.bytes@.len()
    }
}

/// A sink with a count of the bytes that went into it.
pub struct SstFileWriter<W: SequentialWriter> {
    file: W,
    tally: Tally,
    base: Ghost<Seq<u8>>,
}

impl<W: SequentialWriter> SstFileWriter<W> {
    /// The sink.
    pub closed spec fn file(&self) -> W {
        self.file
    }

    /// What the sink held when the writer was made.
    pub closed spec fn base(&self) -> Seq<u8> {
        self.base@
    }

    /// What the writer has written. Its length is the writer's count.
    pub closed spec fn written(&self) -> Seq<u8> {
        self.tally.bytes@
    }

    /// The sink holds what it held at first and then what was written.
    pub closed spec fn valid(&self) -> bool {
        self.file.contents() == self.base@ + self.tally.bytes@
    }

    /// A writer on `file` that has written nothing.
    pub fn new(file: W) -> (writer: SstFileWriter<W>)
        ensures
            writer.valid(),
            writer.file() == file,
            writer.base() == file.contents(),
            writer.written() == Seq::<u8>::empty(),
    {
        let ghost base = file.contents();
        proof {
            assert(base + Seq::<u8>::empty() =~= base);
        }
        SstFileWriter {
            file,
            tally: Tally { count: 0, bytes: Ghost(Seq::empty()) },
            base: Ghost(base),
        }
    }

    /// The number of bytes written.
    pub fn file_size(&self) -> (size: usize)
        ensures
            size == self.written().len(),
    {
        proof {
            use_type_invariant(&self.tally);
        }
        self.tally.count
    }

    /// Writes a block and returns its handle. Fails where the count of
    /// bytes would no longer fit, before anything goes to the sink, and
    /// where the sink fails. After a failure the count is what it was.
    pub fn write_block(&mut self, block: &[u8]) -> (handle: Result<BlockHandle, Error>)
        requires
            old(self).valid(),
        ensures
            final(self).base() == old(self).base(),
            final(self).file().dependable() == old(self).file().dependable(),
            old(self).written().len() + block@.len() > usize::MAX ==> handle is Err && final(self).file() == old(self).file(),
            match handle {
                Ok(handle) => {
                    &&& final(self).valid()
                    &&& final(self).written() == old(self).written() + block@
                    &&& handle.offset == old(self).written().len()
                    &&& handle.size == block@.len()
                },
                Err(e) => {
                    &&& final(self).written() == old(self).written()
                    &&& !old(self).file().dependable() || (old(self).written().len() + block@.len()
                        > usize::MAX && e.kind() == ErrorKind::InvalidArgument)
                },
            },
    {
        proof {
            use_type_invariant(&self.tally);
        }
        let offset = self.tally.count;
        let end = match offset.checked_add(block.len()) {
            Some(end) => end,
            None => {
                return Err(Error::InvalidArgument(String::from_str("table is too large")));
            },
        };
        let handle = BlockHandle { offset: offset as u64, size: block.len() as u64 };
        match self.file.write_all(block) {
            Ok(_) => {},
            Err(error) => {
                return Err(error);
            },
        }
        let ghost written = self.tally.bytes@;
        proof {
            assert(self.base@ + (written + block@) =~= self.base@ + written + block@);
        }
        self.tally = Tally { count: end, bytes: Ghost(written + block@) };
        Ok(handle)
    }

    /// Hands the sink back.
    pub fn into_inner(self) -> (file: W)
        ensures
            file == self.file(),
    {
        self.file
    }
}

/// The blocks of a table once its open block is closed.
pub open spec fn closed_blocks(blocks: Seq<Seq<Entry>>, pending: Seq<Entry>) -> Seq<Seq<Entry>> {
    if pending.len() > 0 {
        blocks.push(pending)
    } else {
        blocks
    }
}

/// Writes a table: versions go into data blocks, each closed block gets an
/// entry in the index, and the index and a footer end the table.
pub struct SstBuilder<W: SequentialWriter> {
    options: SstOptions,
    file: SstFileWriter<W>,
    error: Option<Error>,
    last_ts: Timestamp,
    last_key: Vec<u8>,
    data_block: BlockBuilder,
    index_block: BlockBuilder,
    /// The blocks closed since the table began.
    blocks: Ghost<Seq<Seq<Entry>>>,
    /// How many bytes were written before the table began.
    start: Ghost<nat>,
}

impl<W: SequentialWriter> SstBuilder<W> {
    /// The first error met, which stops the builder for good.
    pub closed spec fn error(&self) -> Option<Error> {
        self.error
    }

    /// An error has been met.
    pub open spec fn failed(&self) -> bool {
        self.error() is Some
    }

    /// The size from which a data block is closed.
    pub closed spec fn block_size(&self) -> usize {
        self.options.block_size
    }

    /// The sink.
    pub closed spec fn sink(&self) -> W {
        self.file.file()
    }

    /// What the sink held when the builder was made.
    pub closed spec fn base(&self) -> Seq<u8> {
        self.file.base()
    }

    /// What the builder has written.
    pub closed spec fn written(&self) -> Seq<u8> {
        self.file.written()
    }

    /// How many bytes were written before the table at hand began.
    pub closed spec fn start(&self) -> nat {
        self.start@
    }

    /// The blocks closed since the table began.
    pub closed spec fn blocks(&self) -> Seq<Seq<Entry>> {
        self.blocks@
    }

    /// The entries of the open block.
    pub closed spec fn pending(&self) -> Seq<Entry> {
        self.data_block.entries()
    }

    /// The entries added since the table began.
    pub open spec fn entries(&self) -> Seq<Entry> {
        entries_of(self.blocks()) + self.pending()
    }

    /// The user key of the version added last, empty before the first.
    pub closed spec fn last_key(&self) -> Seq<u8> {
        self.last_key@
    }

    /// The timestamp of the version added last, zero before the first.
    pub closed spec fn last_ts(&self) -> Timestamp {
        self.last_ts
    }

    /// Unless an error has been met: the sink holds what it held at first
    /// and then what was written; what was written since the table began is
    /// the bytes of the closed blocks; the index has their entries; no
    /// closed block is empty; the entries ascend, and the last of them is
    /// the version added last.
    pub closed spec fn valid(&self) -> bool {
        self.error is None ==> {
            &&& self.file.valid()
            &&& self.start@ <= self.file.written().len()
            &&& self.file.written().skip(self.start@ as int) == data_bytes(self.blocks@)
            &&& self.index_block.entries() == index_for(self.start@, self.blocks@)
            &&& forall|j: int|
                0 <= j < self.blocks@.len() ==> (#[trigger] self.blocks@[j]).len() > 0 && all_fit(
                    self.blocks@[j],
                )
            &&& self.entries().len() > 0 ==> self.last_key@ == self.entries().last().key
                && self.last_ts == self.entries().last().ts
            &&& ascending(self.entries())
        }
    }

    /// What a valid builder that has met no error tells of its sink.
    pub proof fn lemma_valid(&self)
        requires
            self.valid(),
            !self.failed(),
        ensures
            self.sink().contents() == self.base() + self.written(),
            self.start() <= self.written().len(),
            self.written().skip(self.start() as int) == data_bytes(self.blocks()),
            ascending(self.entries()),
            forall|j: int|
                0 <= j < self.blocks().len() ==> (#[trigger] self.blocks()[j]).len() > 0 && all_fit(
                    self.blocks()[j],
                ),
    {
    }

    /// A builder that writes to `file`.
    pub fn new(options: SstOptions, file: W) -> (builder: SstBuilder<W>)
        ensures
            builder.valid(),
            !builder.failed(),
            builder.block_size() == options.block_size,
            builder.sink() == file,
            builder.base() == file.contents(),
            builder.written() == Seq::<u8>::empty(),
            builder.start() == 0,
            builder.blocks() == Seq::<Seq<Entry>>::empty(),
            builder.pending() == Seq::<Entry>::empty(),
            builder.last_key() == Seq::<u8>::empty(),
            builder.last_ts() == 0,
    {
        let builder = SstBuilder {
            options,
            file: SstFileWriter::new(file),
            error: None,
            last_ts: 0,
            last_key: Vec::new(),
            data_block: BlockBuilder::new(),
            index_block: BlockBuilder::new(),
            blocks: Ghost(Seq::empty()),
            start: Ghost(0),
        };
        proof {
            assert(builder.file.written().skip(0) =~= data_bytes(builder.blocks@));
            assert(builder.index_block.entries() =~= index_for(0, builder.blocks@));
            assert(builder.entries() =~= Seq::<Entry>::empty());
        }
        builder
    }

    /// Whether `add` takes version `ts` of `key` next: it sorts after the
    /// version added last. A builder that has met an error takes anything,
    /// and adds nothing.
    pub fn accepts(&self, ts: Timestamp, key: &[u8]) -> (ok: bool)
        ensures
            ok == (self.failed() || version_lt(self.last_key(), self.last_ts(), key@, ts)),
    {
        if self.error.is_some() {
            return true;
        }
        proof {
            lemma_lex_irreflexive(key@);
        }
        match compare_versions(self.last_key.as_slice(), self.last_ts, key, ts) {
            Order::Less => true,
            _ => false,
        }
    }

    /// Closes the open block: writes it out and enters it in the index.
    fn flush_data_block(&mut self) -> (done: Result<(), Error>)
        requires
            old(self).valid(),
            old(self).error is None,
            old(self).pending().len() > 0,
        ensures
            final(self).options == old(self).options,
            final(self).base() == old(self).base(),
            final(self).sink().dependable() == old(self).sink().dependable(),
            final(self).error is None,
            final(self).last_key == old(self).last_key,
            final(self).last_ts == old(self).last_ts,
            final(self).start == old(self).start,
            match done {
                Ok(_) => {
                    &&& final(self).valid()
                    &&& final(self).blocks() == old(self).blocks().push(old(self).pending())
                    &&& final(self).pending() == Seq::<Entry>::empty()
                    &&& final(self).written() == old(self).written() + encode_block(
                        old(self).pending(),
                    )
                },
                Err(e) => {
                    &&& final(self).written() == old(self).written()
                    &&& !old(self).sink().dependable() || (old(self).written().len()
                        + encode_block(old(self).pending()).len() > usize::MAX && e.kind()
                        == ErrorKind::InvalidArgument)
                },
            },
            old(self).written().len() + encode_block(old(self).pending()).len() > usize::MAX ==> {
                &&& done is Err
                &&& final(self).sink() == old(self).sink()
            },
    {
        let ghost blocks = self.blocks@;
        let ghost pending = self.data_block.entries();
        let ghost start = self.start@;
        let ghost written = self.file.written();
        let block = self.data_block.finish();
        let handle = match self.file.write_block(block.as_slice()) {
            Ok(handle) => handle,
            Err(error) => {
                return Err(error);
            },
        };
        let encoded_handle = handle.encode();
        self.index_block.add(self.last_ts, self.last_key.as_slice(), encoded_handle.as_slice());
        self.blocks = Ghost(blocks.push(pending));
        proof {
            lemma_data_push(blocks, pending);
            lemma_index_push(start, blocks, pending);
            assert(written.len() == start + data_bytes(blocks).len()) by {
                assert(written.skip(start as int).len() == written.len() - start);
            }
            assert((written + block@).skip(start as int) =~= written.skip(start as int) + block@);
            assert(self.entries() =~= old(self).entries());
            assert(old(self).entries().last() == pending.last());
        }
        Ok(())
    }

    /// Adds a version. It must sort after the version added last: a later
    /// user key, or the same user key and an earlier timestamp. Once the
    /// open block has reached the block size it is closed, and only then
    /// does anything go to the sink. After an error nothing is added, and
    /// the builder stays as it is.
    pub fn add(&mut self, ts: Timestamp, key: &[u8], value: &[u8])
        requires
            old(self).valid(),
            !old(self).failed() ==> version_lt(old(self).last_key(), old(self).last_ts(), key@, ts),
        ensures
            final(self).valid(),
            final(self).block_size() == old(self).block_size(),
            final(self).base() == old(self).base(),
            final(self).start() == old(self).start(),
            final(self).sink().dependable() == old(self).sink().dependable(),
            old(self).failed() ==> *final(self) == *old(self),
            !old(self).failed() && encode_block(
                old(self).pending().push(Entry { ts, key: key@, value: value@ }),
            ).len() < old(self).block_size() ==> {
                &&& !final(self).failed()
                &&& final(self).sink() == old(self).sink()
            },
            !final(self).failed() ==> {
                let filled = old(self).pending().push(Entry { ts, key: key@, value: value@ });
                &&& final(self).entries() == old(self).entries().push(
                    Entry { ts, key: key@, value: value@ },
                )
                &&& final(self).last_key() == key@
                &&& final(self).last_ts() == ts
                &&& if encode_block(filled).len() >= old(self).block_size() {
                    &&& final(self).blocks() == old(self).blocks().push(filled)
                    &&& final(self).pending() == Seq::<Entry>::empty()
                    &&& final(self).written() == old(self).written() + encode_block(filled)
                } else {
                    &&& final(self).blocks() == old(self).blocks()
                    &&& final(self).pending() == filled
                    &&& final(self).written() == old(self).written()
                }
            },
            !old(self).failed() && final(self).failed() ==> {
                let filled = old(self).pending().push(Entry { ts, key: key@, value: value@ });
                &&& encode_block(filled).len() >= old(self).block_size()
                &&& final(self).written() == old(self).written()
                &&& {
                    ||| !old(self).sink().dependable()
                    ||| {
                        &&& old(self).written().len() + encode_block(filled).len() > usize::MAX
                        &&& final(self).error()->0.kind() == ErrorKind::InvalidArgument
                        &&& final(self).sink() == old(self).sink()
                    }
                }
            },
    {
        if self.error.is_some() {
            return ;
        }
        let ghost e = Entry { ts, key: key@, value: value@ };
        let ghost before = self.entries();
        self.last_ts = ts;
        self.last_key = slice_to_vec(key);
        self.data_block.add(ts, key, value);
        proof {
            assert(self.entries() =~= before.push(e));
            assert forall|i: int| 0 <= i < self.entries().len() - 1 implies crate::entry::entry_lt(
                #[trigger] self.entries()[i],
                self.entries()[i + 1],
            ) by {
                if i < before.len() - 1 {
                    assert(crate::entry::entry_lt(before[i], before[i + 1]));
                }
            }
        }
        if self.data_block.approximate_size() >= self.options.block_size {
            let ghost blocks = self.blocks@;
            let ghost filled = self.data_block.entries();
            match self.flush_data_block() {
                Ok(_) => {
                    proof {
                        lemma_data_push(blocks, filled);
                        assert(self.entries() =~= before.push(e));
                    }
                },
                Err(error) => {
                    self.error = Some(error);
                },
            }
        }
    }

    /// Writes the index block and the footer, if there is any block.
    fn write_index(&mut self) -> (done: Result<(), Error>)
        requires
            old(self).valid(),
            old(self).error is None,
            old(self).pending().len() == 0,
        ensures
            final(self).options == old(self).options,
            final(self).base() == old(self).base(),
            final(self).sink().dependable() == old(self).sink().dependable(),
            final(self).error is None,
            final(self).last_key == old(self).last_key,
            final(self).last_ts == old(self).last_ts,
            final(self).start == old(self).start,
            final(self).blocks == old(self).blocks,
            final(self).pending() == old(self).pending(),
            match done {
                Ok(_) => {
                    &&& final(self).file.valid()
                    &&& final(self).written() == old(self).written().take(old(self).start() as int)
                        + encode_table(old(self).start(), old(self).blocks())
                    &&& final(self).index_block.entries() == Seq::<Entry>::empty()
                },
                Err(e) => !old(self).sink().dependable() || (old(self).start() + encode_table(
                    old(self).start(),
                    old(self).blocks(),
                ).len() > usize::MAX && e.kind() == ErrorKind::InvalidArgument),
            },
            old(self).blocks().len() == 0 ==> done is Ok && final(self).sink() == old(self).sink(),
    {
        let ghost start = self.start@;
        let ghost blocks = self.blocks@;
        let ghost written = self.file.written();
        proof {
            lemma_block_size(self.index_block.entries());
            assert(written.skip(start as int).len() == written.len() - start);
            assert(written =~= written.take(start as int) + data_bytes(blocks)) by {
                assert(written =~= written.take(start as int) + written.skip(start as int));
            }
        }
        if self.index_block.approximate_size() > 0 {
            let block = self.index_block.finish();
            let index_handle = match self.file.write_block(block.as_slice()) {
                Ok(handle) => handle,
                Err(error) => {
                    return Err(error);
                },
            };
            proof {
                assert(index_handle == crate::table::index_handle(start, blocks));
                lemma_handle_round_trip(index_handle);
            }
            let footer = SstFooter { index_handle };
            let encoded_footer = footer.encode();
            match self.file.write_block(encoded_footer.as_slice()) {
                Ok(_) => {},
                Err(error) => {
                    return Err(error);
                },
            }
            proof {
                assert(self.file.written() =~= written.take(start as int) + encode_table(
                    start,
                    blocks,
                ));
            }
        } else {
            proof {
                assert(blocks.len() == 0);
                assert(data_bytes(blocks) =~= encode_table(start, blocks));
            }
        }
        Ok(())
    }

    /// Ends the table: closes the open block if it holds an entry, and, if
    /// there is any block, writes the index and the footer. Returns the
    /// number of bytes written so far. A table without an entry sends
    /// nothing to the sink. After an error, returns that error and leaves
    /// the builder, and with it the sink, as it is.
    pub fn finish(&mut self) -> (size: Result<usize, Error>)
        requires
            old(self).valid(),
        ensures
            final(self).valid(),
            final(self).block_size() == old(self).block_size(),
            final(self).base() == old(self).base(),
            final(self).sink().dependable() == old(self).sink().dependable(),
            !old(self).failed() && closed_blocks(old(self).blocks(), old(self).pending()).len()
                == 0 ==> size is Ok && final(self).sink() == old(self).sink(),
            match size {
                Ok(size) => {
                    let blocks = closed_blocks(old(self).blocks(), old(self).pending());
                    &&& !old(self).failed()
                    &&& !final(self).failed()
                    &&& size == final(self).written().len()
                    &&& final(self).written() == old(self).written().take(old(self).start() as int)
                        + encode_table(old(self).start(), blocks)
                    &&& final(self).sink().contents() == final(self).base() + final(self).written()
                    &&& entries_of(blocks) == old(self).entries()
                    &&& ascending(entries_of(blocks))
                    &&& blocks.len() > 0 ==> table_blocks(blocks)
                    &&& final(self).start() == final(self).written().len()
                    &&& final(self).blocks() == Seq::<Seq<Entry>>::empty()
                    &&& final(self).pending() == Seq::<Entry>::empty()
                },
                Err(error) => {
                    &&& final(self).failed()
                    &&& old(self).failed() ==> Some(error) == old(self).error() && *final(self)
                        == *old(self)
                    &&& final(self).error() == Some(error)
                    &&& !old(self).failed() ==> !old(self).sink().dependable() || (old(self).start()
                        + encode_table(
                        old(self).start(),
                        closed_blocks(old(self).blocks(), old(self).pending()),
                    ).len() > usize::MAX && error.kind() == ErrorKind::InvalidArgument)
                },
            },
    {
        match &self.error {
            Some(error) => {
                return Err(error.clone());
            },
            None => {},
        }
        let ghost start = self.start@;
        let ghost written = self.file.written();
        let ghost blocks = closed_blocks(self.blocks@, self.data_block.entries());
        proof {
            lemma_block_size(self.data_block.entries());
            lemma_data_push(self.blocks@, self.data_block.entries());
            assert(written.skip(start as int).len() == written.len() - start);
            assert(entries_of(blocks) =~= self.entries());
        }
        if self.data_block.approximate_size() > 0 {
            match self.flush_data_block() {
                Ok(_) => {},
                Err(error) => {
                    self.error = Some(error.clone());
                    return Err(error);
                },
            }
            proof {
                assert(self.file.written().take(start as int) =~= written.take(start as int));
            }
        }
        match self.write_index() {
            Ok(_) => {},
            Err(error) => {
                self.error = Some(error.clone());
                return Err(error);
            },
        }
        let size = self.file.file_size();
        self.start = Ghost(self.file.written().len());
        self.blocks = Ghost(Seq::empty());
        proof {
            assert(self.file.written().skip(self.start@ as int) =~= data_bytes(self.blocks@));
            assert(self.index_block.entries() =~= index_for(self.start@, self.blocks@));
            assert(self.entries() =~= Seq::<Entry>::empty());
        }
        Ok(size)
    }

    /// Hands the sink back.
    pub fn into_inner(self) -> (file: W)
        ensures
            file == self.sink(),
    {
        self.file.into_inner()
    }
}

/// Reads the bytes that `handle` points at. Fails where the file ends
/// before them, or where reading fails.
fn read_block<R: RandomAccessReader>(file: &R, handle: BlockHandle) -> (block: Result<Vec<u8>, Error>)
    ensures
        match block {
            Ok(block) => bytes_at(file.contents(), handle) == Some(block@),
            Err(e) => !file.dependable() || (bytes_at(file.contents(), handle) is None && e.kind()
                == ErrorKind::Corrupted),
        },
{
    if handle.size > usize::MAX as u64 {
        return Err(Error::Corrupted(String::from_str("block is larger than memory")));
    }
    let size = handle.size as usize;
    let mut block: Vec<u8> = vec![0u8; size];
    let read = match file.read_at(block.as_mut_slice(), handle.offset) {
        Ok(read) => read,
        Err(error) => {
            return Err(error);
        },
    };
    if read != size {
        return Err(Error::Corrupted(String::from_str("file ends within a block")));
    }
    proof {
        assert(block@.take(size as int) =~= block@);
        if size == 0 {
            assert(block@ =~= Seq::<u8>::empty());
        }
    }
    Ok(block)
}

/// Makes iterators over the data blocks of a table file.
pub struct SstBlockIterGenerator<'a, R: RandomAccessReader> {
    file: &'a R,
}

impl<'a, R: RandomAccessReader> SstBlockIterGenerator<'a, R> {
    /// The file that the blocks are read from.
    pub closed spec fn file(&self) -> &'a R {
        self.file
    }

    /// A generator that reads from `file`.
    pub fn new(file: &'a R) -> (generator: SstBlockIterGenerator<'a, R>)
        ensures
            generator.file() == file,
    {
        SstBlockIterGenerator { file }
    }
}

impl<'a, R: RandomAccessReader> BlockIterGenerator for SstBlockIterGenerator<'a, R> {
    type Iter = BlockIterator;

    open spec fn block_of(&self, index_value: Seq<u8>) -> Option<Seq<Entry>> {
        pointed_block(self.file().contents(), index_value)
    }

    open spec fn dependable(&self) -> bool {
        self.file().dependable()
    }

    open spec fn failures(&self) -> Set<Error> {
        Set::new(|e: Error| !self.file().dependable() || e.kind() == ErrorKind::Corrupted)
    }

    fn spawn(&self, index_value: &[u8]) -> (made: Result<BlockIterator, Error>) {
        if index_value.len() < BLOCK_HANDLE_SIZE {
            return Err(Error::Corrupted(String::from_str("index entry holds no block handle")));
        }
        let block_handle = BlockHandle::decode_from(index_value);
        let block = match read_block(self.file, block_handle) {
            Ok(block) => block,
            Err(error) => {
                return Err(error);
            },
        };
        let iter = BlockIterator::new(Arc::new(block));
        match iter.error() {
            Some(error) => Err(error),
            None => Ok(iter),
        }
    }
}

/// Looks versions up in a table file.
pub struct SstReader<R: RandomAccessReader> {
    file: R,
    size: usize,
    index_block: Arc<Vec<u8>>,
}

impl<R: RandomAccessReader> SstReader<R> {
    /// The file.
    pub closed spec fn file(&self) -> R {
        self.file
    }

    /// The size that the file was opened with.
    pub closed spec fn size(&self) -> usize {
        self.size
    }

    /// The bytes of the index block, as read when the file was opened.
    pub closed spec fn index_bytes(&self) -> Seq<u8> {
        self.index_block@
    }

    /// The entries of the index. Bytes that are no block hold none.
    pub open spec fn index(&self) -> Seq<Entry> {
        decode_block(self.index_bytes())
    }

    /// The generator of iterators over the file's data blocks.
    pub closed spec fn blocks(&self) -> SstBlockIterGenerator<'_, R> {
        SstBlockIterGenerator { file: &self.file }
    }

    /// Every entry of the table, block after block.
    pub open spec fn entries(&self) -> Seq<Entry> {
        table_from(self.blocks(), self.index())
    }

    /// The file can be relied on and holds a table: the index is a
    /// block, each of its entries names a data block, and the entries of
    /// all data blocks together ascend.
    pub open spec fn sound(&self) -> bool {
        &&& self.file().dependable()
        &&& is_block(self.index_bytes())
        &&& well_indexed(self.blocks(), self.index())
    }

    /// The errors that reading the table may meet: those of a damaged
    /// table, and any error other than those where the file cannot be
    /// relied on.
    pub open spec fn failures(&self) -> Set<Error> {
        Set::new(|e: Error| !self.file().dependable() || e.kind() == ErrorKind::Corrupted)
    }

    /// The index block held is the one that the footer points at.
    pub closed spec fn valid(&self) -> bool {
        index_bytes_of(self.file.contents(), self.size as nat) == Some(self.index_block@)
    }

    /// What a valid reader holds.
    pub proof fn lemma_valid(&self)
        requires
            self.valid(),
        ensures
            index_bytes_of(self.file().contents(), self.size() as nat) == Some(self.index_bytes()),
    {
    }

    /// What the generator of a reader reads from.
    pub proof fn lemma_blocks(&self)
        ensures
            self.blocks().file() == self.file(),
            self.blocks().dependable() == self.file().dependable(),
            forall|v: Seq<u8>| #[trigger]
                self.blocks().block_of(v) == pointed_block(self.file().contents(), v),
    {
    }

    /// Opens a table file of `size` bytes: reads the footer from its last
    /// bytes, and the index block that the footer points at. Fails where
    /// the file is too short to hold a footer or the index block, or where
    /// reading fails.
    pub fn open(file: R, size: usize) -> (reader: Result<SstReader<R>, Error>)
        ensures
            match reader {
                Ok(reader) => {
                    &&& reader.valid()
                    &&& reader.file() == file
                    &&& reader.size() == size
                    &&& index_bytes_of(file.contents(), size as nat) == Some(reader.index_bytes())
                },
                Err(e) => !file.dependable() || (index_bytes_of(file.contents(), size as nat) is None
                    && e.kind() == ErrorKind::Corrupted),
            },
    {
        if size < FOOTER_SIZE {
            return Err(Error::Corrupted(String::from_str("file is too short for a footer")));
        }
        let mut footer_data: Vec<u8> = vec![0u8; FOOTER_SIZE];
        let read = match file.read_at(footer_data.as_mut_slice(), (size - FOOTER_SIZE) as u64) {
            Ok(read) => read,
            Err(error) => {
                return Err(error);
            },
        };
        if read != FOOTER_SIZE {
            return Err(Error::Corrupted(String::from_str("file ends within the footer")));
        }
        proof {
            assert(footer_data@.take(FOOTER_SIZE as int) =~= footer_data@);
        }
        let footer = SstFooter::decode_from(footer_data.as_slice());
        let index_block = match read_block(&file, footer.index_handle) {
            Ok(block) => block,
            Err(error) => {
                return Err(error);
            },
        };
        Ok(SstReader { file, size, index_block: Arc::new(index_block) })
    }

    /// An iterator over the table, at its first entry. Fails where the
    /// index block is malformed, and where the first data block cannot be
    /// fetched.
    pub fn new_iterator(&self) -> (iter: Result<
        TwoLevelIterator<BlockIterator, SstBlockIterGenerator<'_, R>>,
        Error,
    >)
        ensures
            match iter {
                Ok(iter) => {
                    &&& iter.valid()
                    &&& iter.failure() is None
                    &&& is_block(self.index_bytes())
                    &&& iter.index_sound()
                    &&& iter.generator() == self.blocks()
                    &&& iter.index() == self.index()
                    &&& iter.all() == self.entries()
                    &&& iter.rest() == self.entries()
                    &&& iter.sound() == self.sound()
                    &&& iter.failures() == self.failures()
                    &&& iter.dependable() == self.file().dependable()
                    &&& iter.dependable() ==> iter.doomed() == table_breaks(
                        self.blocks(),
                        self.index(),
                    )
                },
                Err(e) => !self.sound() && (!self.file().dependable() || e.kind()
                    == ErrorKind::Corrupted),
            },
            self.file().dependable() ==> (iter is Err <==> !is_block(self.index_bytes())
                || start_fails(self.blocks(), self.index())),
    {
        let index_iter = BlockIterator::new(share(&self.index_block));
        let block_iter_generator = SstBlockIterGenerator::new(&self.file);
        let two_level_iter = TwoLevelIterator::new(index_iter, block_iter_generator);
        proof {
            two_level_iter.lemma_parts();
            two_level_iter.lemma_valid();
        }
        match two_level_iter.error() {
            Some(error) => Err(error),
            None => Ok(two_level_iter),
        }
    }

    /// Every version of the table, in the table's order. Fails where the
    /// table cannot be read to its end: for a file that can be relied on,
    /// where the index block is damaged or an entry of it points at no
    /// block.
    pub fn scan(&self) -> (versions: Result<Vec<Version>, Error>)
        ensures
            match versions {
                Ok(versions) => versions_view(versions@) == self.entries(),
                Err(e) => !self.sound() && (!self.file().dependable() || e.kind()
                    == ErrorKind::Corrupted),
            },
            self.file().dependable() ==> (versions is Err <==> !is_block(self.index_bytes())
                || table_breaks(self.blocks(), self.index())),
    {
        let mut iter = match self.new_iterator() {
            Ok(iter) => iter,
            Err(error) => {
                return Err(error);
            },
        };
        let versions = collect(&mut iter);
        proof {
            iter.lemma_valid();
        }
        match iter.error() {
            Some(error) => Err(error),
            None => Ok(versions),
        }
    }

    /// The value of version `ts` of `key`. The table is searched as a seek
    /// does it, and the value is returned if the entry found is that
    /// version.
    pub fn get(&self, ts: Timestamp, key: &[u8]) -> (found: Result<Option<Vec<u8>>, Error>)
        ensures
            match found {
                Ok(value) => is_block(self.index_bytes()) && value_view(value) == value_at(
                    table_seek(self.blocks(), self.index(), key@, ts),
                    key@,
                    ts,
                ),
                Err(e) => !self.sound() && (!self.file().dependable() || e.kind()
                    == ErrorKind::Corrupted),
            },
            self.file().dependable() ==> (found is Err <==> !is_block(self.index_bytes())
                || start_fails(self.blocks(), self.index()) || table_seek_fails(
                self.blocks(),
                self.index(),
                key@,
                ts,
            )),
    {
        let mut iter = match self.new_iterator() {
            Ok(iter) => iter,
            Err(error) => {
                return Err(error);
            },
        };
        iter.seek(ts, key);
        proof {
            iter.lemma_valid();
        }
        match iter.error() {
            Some(error) => {
                return Err(error);
            },
            None => {},
        }
        match iter.current() {
            Some(version) => {
                if version.0 == ts && same_bytes(version.1, key) {
                    return Ok(Some(slice_to_vec(version.2)));
                }
            },
            None => {},
        }
        Ok(None)
    }
}

} // verus!
