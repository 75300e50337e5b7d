//! What holds of every table: what is read back is what was written.

use crate::block::{
    all_fit, decode_block, encode_block, encode_handle, fits, is_block, lemma_block_round_trip,
    lemma_block_size, lemma_handle_round_trip,
};
use crate::codec::Timestamp;
use crate::entry::{
    ascending, is_version, lemma_ascending_pairs, lemma_seek_from, lemma_version_lt_asymmetric,
    precedes, seek_from, value_at, Entry,
};
use crate::file_system::RandomAccessReader;
use crate::sstable::SstReader;
use crate::table::{
    block_at, bytes_at, data_bytes, encode_table, entries_of, footer_of, handle_at, index_bytes_of,
    index_for, index_handle, pointed_block, table_blocks, FOOTER_SIZE,
};
use crate::two_level_iterator::{
    lemma_table_seek, lemma_table_split, names_block, table_breaks, table_from, table_seek,
    well_indexed,
    BlockIterGenerator,
};
use vstd::prelude::*;

verus! {

/// The bytes of the first blocks are the first bytes of all blocks.
pub proof fn lemma_data_prefix(blocks: Seq<Seq<Entry>>, j: int)
    requires
        0 <= j <= blocks.len(),
    ensures
        data_bytes(blocks.take(j)).len() <= data_bytes(blocks).len(),
        data_bytes(blocks).take(data_bytes(blocks.take(j)).len() as int) == data_bytes(
            blocks.take(j),
        ),
    decreases blocks.len(),
{
    if j == blocks.len() {
        assert(blocks.take(j) =~= blocks);
        assert(data_bytes(blocks).take(data_bytes(blocks).len() as int) =~= data_bytes(blocks));
    } else {
        let front = blocks.drop_last();
        lemma_data_prefix(front, j);
        assert(front.take(j) =~= blocks.take(j));
        let n = data_bytes(blocks.take(j)).len() as int;
        assert(data_bytes(blocks).take(n) =~= data_bytes(front).take(n));
    }
}

/// The bytes of block `j` lie in the data where its handle says.
pub proof fn lemma_data_block(blocks: Seq<Seq<Entry>>, j: int)
    requires
        0 <= j < blocks.len(),
    ensures
        data_bytes(blocks.take(j)).len() + encode_block(blocks[j]).len() <= data_bytes(
            blocks,
        ).len(),
        data_bytes(blocks).subrange(
            data_bytes(blocks.take(j)).len() as int,
            (data_bytes(blocks.take(j)).len() + encode_block(blocks[j]).len()) as int,
        ) == encode_block(blocks[j]),
{
    let upto = blocks.take(j + 1);
    lemma_data_prefix(blocks, j + 1);
    assert(upto.drop_last() =~= blocks.take(j));
    assert(upto.last() == blocks[j]);
    let a = data_bytes(blocks.take(j)).len() as int;
    let s = encode_block(blocks[j]).len() as int;
    assert(data_bytes(upto) == data_bytes(blocks.take(j)) + encode_block(blocks[j]));
    assert(data_bytes(blocks).subrange(a, a + s) =~= data_bytes(blocks).take(a + s).subrange(
        a,
        a + s,
    ));
    assert(data_bytes(upto).subrange(a, a + s) =~= encode_block(blocks[j]));
}

/// The index of a table fits into a block.
pub proof fn lemma_index_fits(start: nat, blocks: Seq<Seq<Entry>>)
    requires
        table_blocks(blocks),
    ensures
        all_fit(index_for(start, blocks)),
        index_for(start, blocks).len() == blocks.len(),
{
    let index = index_for(start, blocks);
    assert forall|j: int| 0 <= j < index.len() implies fits(#[trigger] index[j]) by {
        lemma_handle_round_trip(handle_at(start, blocks, j));
        let block = blocks[j];
        assert(fits(block[block.len() - 1]));
    }
}

/// In the bytes of a table that starts at the start of its file, the
/// footer points at the index block, the index block holds the table's
/// index, and each entry of the index points at its data block.
pub proof fn lemma_table_layout(blocks: Seq<Seq<Entry>>, j: int)
    requires
        table_blocks(blocks),
        encode_table(0, blocks).len() <= usize::MAX,
        0 <= j < blocks.len(),
    ensures
        ({
            let contents = encode_table(0, blocks);
            let index = index_for(0, blocks);
            &&& index_bytes_of(contents, contents.len()) == Some(encode_block(index))
            &&& is_block(encode_block(index))
            &&& decode_block(encode_block(index)) == index
            &&& pointed_block(contents, index[j].value) == Some(blocks[j])
        }),
{
    let contents = encode_table(0, blocks);
    let data = data_bytes(blocks);
    let index = index_for(0, blocks);
    let index_bytes = encode_block(index);
    let pointer = index_handle(0, blocks);
    let footer = encode_handle(pointer);
    lemma_index_fits(0, blocks);
    lemma_block_round_trip(index);
    lemma_block_size(index);
    lemma_handle_round_trip(pointer);
    assert(contents == data + index_bytes + footer);
    assert(contents.len() == data.len() + index_bytes.len() + FOOTER_SIZE);
    assert(contents.subrange(contents.len() - FOOTER_SIZE, contents.len() as int) =~= footer);
    assert(footer_of(contents, contents.len()) == Some(pointer));
    assert(contents.subrange(data.len() as int, (data.len() + index_bytes.len()) as int) =~= index_bytes);
    assert(bytes_at(contents, pointer) == Some(index_bytes));
    let handle = handle_at(0, blocks, j);
    let block = blocks[j];
    lemma_handle_round_trip(handle);
    lemma_data_block(blocks, j);
    lemma_block_size(block);
    lemma_block_round_trip(block);
    let a = data_bytes(blocks.take(j)).len() as int;
    let s = encode_block(block).len() as int;
    assert(contents.subrange(a, a + s) =~= data.subrange(a, a + s));
    assert(bytes_at(contents, handle) == Some(encode_block(block)));
    assert(block_at(contents, handle) == Some(block));
    assert(index[j].value == encode_handle(handle));
}

/// Where each index entry points at its block, the table is the entries
/// of the blocks, block after block.
pub proof fn lemma_table_from_blocks<G: BlockIterGenerator>(
    generator: G,
    index: Seq<Entry>,
    blocks: Seq<Seq<Entry>>,
)
    requires
        index.len() == blocks.len(),
        forall|j: int|
            0 <= j < index.len() ==> generator.block_of((#[trigger] index[j]).value) == Some(
                blocks[j],
            ),
    ensures
        table_from(generator, index) == entries_of(blocks),
    decreases index.len(),
{
    if index.len() > 0 {
        let n = index.len() - 1;
        let front = index.take(n);
        let last = index.skip(n);
        lemma_table_split(generator, index, n);
        assert forall|j: int| 0 <= j < front.len() implies generator.block_of(
            (#[trigger] front[j]).value,
        ) == Some(blocks.drop_last()[j]) by {
            assert(front[j] == index[j]);
        }
        lemma_table_from_blocks(generator, front, blocks.drop_last());
        assert(last[0] == index[n]);
        assert(last.skip(1) =~= Seq::<Entry>::empty());
        assert(table_from(generator, last.skip(1)) =~= Seq::<Entry>::empty());
        assert(table_from(generator, last) =~= blocks[n]);
    }
}

/// What a reader holds of a table that starts at the start of its file:
/// its index is the table's index, and every entry of the index points at
/// its block; its entries are the entries written, in the order written;
/// and if those ascend and the file can be relied on, the reader is sound.
pub proof fn lemma_round_trip<R: RandomAccessReader>(reader: SstReader<R>, blocks: Seq<Seq<Entry>>)
    requires
        reader.valid(),
        reader.file().contents() == encode_table(0, blocks),
        reader.size() == reader.file().contents().len(),
        table_blocks(blocks),
    ensures
        is_block(reader.index_bytes()),
        reader.index() == index_for(0, blocks),
        reader.entries() == entries_of(blocks),
        forall|j: int|
            0 <= j < blocks.len() ==> reader.blocks().block_of(
                (#[trigger] index_for(0, blocks)[j]).value,
            ) == Some(blocks[j]),
        !table_breaks(reader.blocks(), reader.index()),
        ascending(entries_of(blocks)) ==> well_indexed(reader.blocks(), reader.index()),
        ascending(entries_of(blocks)) && reader.file().dependable() ==> reader.sound(),
{
    let contents = reader.file().contents();
    let index = index_for(0, blocks);
    reader.lemma_valid();
    reader.lemma_blocks();
    lemma_table_layout(blocks, 0);
    assert forall|j: int| 0 <= j < blocks.len() implies reader.blocks().block_of(
        (#[trigger] index[j]).value,
    ) == Some(blocks[j]) by {
        lemma_table_layout(blocks, j);
    }
    lemma_table_from_blocks(reader.blocks(), index, blocks);
    if ascending(entries_of(blocks)) {
        assert forall|j: int| 0 <= j < index.len() implies names_block(
            reader.blocks(),
            #[trigger] index[j],
        ) by {
            assert(reader.blocks().block_of(index[j].value) == Some(blocks[j]));
        }
    }
}

/// In an ascending run, a seek for a version finds that version if the
/// run holds it, and something else or nothing if it does not.
pub proof fn lemma_seek_finds(entries: Seq<Entry>, key: Seq<u8>, ts: Timestamp)
    requires
        ascending(entries),
    ensures
        forall|i: int|
            0 <= i < entries.len() && is_version(#[trigger] entries[i], key, ts) ==> value_at(
                seek_from(entries, key, ts),
                key,
                ts,
            ) == Some(entries[i].value),
        (forall|i: int| 0 <= i < entries.len() ==> !is_version(#[trigger] entries[i], key, ts))
            ==> value_at(seek_from(entries, key, ts), key, ts) is None,
{
    lemma_seek_from(entries, key, ts);
    let found = seek_from(entries, key, ts);
    let n = choose|n: int|
        {
            &&& 0 <= n <= entries.len()
            &&& #[trigger] entries.skip(n) == found
            &&& forall|i: int| 0 <= i < n ==> precedes(#[trigger] entries[i], key, ts)
            &&& n < entries.len() ==> !precedes(entries[n], key, ts)
        };
    if n < entries.len() {
        assert(found[0] == entries[n]);
    }
    assert forall|i: int|
        0 <= i < entries.len() && is_version(#[trigger] entries[i], key, ts) implies value_at(
        found,
        key,
        ts,
    ) == Some(entries[i].value) by {
        lemma_version_lt_asymmetric(entries[i].key, entries[i].ts, key, ts);
        if i < n {
            assert(precedes(entries[i], key, ts));
        } else if i > n {
            lemma_ascending_pairs(entries, n, i);
            lemma_version_lt_asymmetric(entries[n].key, entries[n].ts, key, ts);
        }
    }
    if forall|i: int| 0 <= i < entries.len() ==> !is_version(#[trigger] entries[i], key, ts) {
        if n < entries.len() {
            assert(!is_version(entries[n], key, ts));
        }
    }
}

/// A lookup in a table finds every version that was written, and none
/// that was not: for a table whose entries ascend, what `get` computes for
/// version `ts` of `key` is the value written for that version, or
/// nothing if no such version was written.
pub proof fn lemma_point_lookup<R: RandomAccessReader>(
    reader: SstReader<R>,
    blocks: Seq<Seq<Entry>>,
    key: Seq<u8>,
    ts: Timestamp,
)
    requires
        reader.valid(),
        reader.file().contents() == encode_table(0, blocks),
        reader.size() == reader.file().contents().len(),
        table_blocks(blocks),
        ascending(entries_of(blocks)),
    ensures
        ({
            let found = value_at(table_seek(reader.blocks(), reader.index(), key, ts), key, ts);
            let written = entries_of(blocks);
            &&& forall|i: int|
                0 <= i < written.len() && is_version(#[trigger] written[i], key, ts) ==> found
                    == Some(written[i].value)
            &&& (forall|i: int| 0 <= i < written.len() ==> !is_version(#[trigger] written[i], key, ts))
                ==> found is None
        }),
{
    lemma_round_trip(reader, blocks);
    lemma_table_seek(reader.blocks(), reader.index(), key, ts);
    lemma_seek_finds(entries_of(blocks), key, ts);
}

/// Where blocks end does not show: two tables that hold the same entries,
/// cut into blocks in different places, read back as the same entries.
pub proof fn lemma_block_boundaries_transparent<R: RandomAccessReader, S: RandomAccessReader>(
    one: SstReader<R>,
    one_blocks: Seq<Seq<Entry>>,
    other: SstReader<S>,
    other_blocks: Seq<Seq<Entry>>,
)
    requires
        one.valid(),
        one.file().contents() == encode_table(0, one_blocks),
        one.size() == one.file().contents().len(),
        table_blocks(one_blocks),
        other.valid(),
        other.file().contents() == encode_table(0, other_blocks),
        other.size() == other.file().contents().len(),
        table_blocks(other_blocks),
        entries_of(one_blocks) == entries_of(other_blocks),
    ensures
        one.entries() == other.entries(),
{
    lemma_round_trip(one, one_blocks);
    lemma_round_trip(other, other_blocks);
}

} // verus!
