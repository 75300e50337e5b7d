//! The layout of a table file: data blocks, then the index block, then a
//! footer that points at the index.

use crate::block::{
    all_fit, decode_block, decode_handle, encode_block, encode_handle, is_block, BlockHandle,
    BLOCK_HANDLE_SIZE,
};
use crate::entry::Entry;
use crate::file_system::readable;
use vstd::prelude::*;

verus! {

/// The number of bytes of a footer.
pub const FOOTER_SIZE: usize = BLOCK_HANDLE_SIZE;

/// The bytes of `blocks`, block after block.
pub open spec fn data_bytes(blocks: Seq<Seq<Entry>>) -> Seq<u8>
    decreases blocks.len(),
{
    if blocks.len() == 0 {
        Seq::empty()
    } else {
        data_bytes(blocks.drop_last()) + encode_block(blocks.last())
    }
}

/// The entries of `blocks`, block after block.
pub open spec fn entries_of(blocks: Seq<Seq<Entry>>) -> Seq<Entry>
    decreases blocks.len(),
{
    if blocks.len() == 0 {
        Seq::empty()
    } else {
        entries_of(blocks.drop_last()) + blocks.last()
    }
}

/// The handle of block `j` of a table whose data starts at `start`.
pub open spec fn handle_at(start: nat, blocks: Seq<Seq<Entry>>, j: int) -> BlockHandle {
    BlockHandle {
        offset: (start + data_bytes(blocks.take(j)).len()) as u64,
        size: encode_block(blocks[j]).len() as u64,
    }
}

/// The index entry of block `j`: the version of the block's last entry,
/// and as its value the block's handle.
pub open spec fn pointer_at(start: nat, blocks: Seq<Seq<Entry>>, j: int) -> Entry {
    Entry {
        ts: blocks[j].last().ts,
        key: blocks[j].last().key,
        value: encode_handle(handle_at(start, blocks, j)),
    }
}

/// The index of a table: one entry for each block.
pub open spec fn index_for(start: nat, blocks: Seq<Seq<Entry>>) -> Seq<Entry> {
    Seq::new(blocks.len(), |j: int| pointer_at(start, blocks, j))
}

/// The handle of the index block.
pub open spec fn index_handle(start: nat, blocks: Seq<Seq<Entry>>) -> BlockHandle {
    BlockHandle {
        offset: (start + data_bytes(blocks).len()) as u64,
        size: encode_block(index_for(start, blocks)).len() as u64,
    }
}

/// The bytes of a table that holds `blocks` and starts at `start`. A
/// table without blocks has no bytes at all.
pub open spec fn encode_table(start: nat, blocks: Seq<Seq<Entry>>) -> Seq<u8> {
    if blocks.len() == 0 {
        Seq::empty()
    } else {
        data_bytes(blocks) + encode_block(index_for(start, blocks)) + encode_handle(
            index_handle(start, blocks),
        )
    }
}

/// The blocks can make a table: there is at least one, none is empty, and
/// every entry fits.
pub open spec fn table_blocks(blocks: Seq<Seq<Entry>>) -> bool {
    &&& blocks.len() > 0
    &&& forall|j: int| 0 <= j < blocks.len() ==> (#[trigger] blocks[j]).len() > 0 && all_fit(blocks[j])
}

/// Closing a block adds its bytes to the data.
pub proof fn lemma_data_push(blocks: Seq<Seq<Entry>>, block: Seq<Entry>)
    ensures
        data_bytes(blocks.push(block)) == data_bytes(blocks) + encode_block(block),
        entries_of(blocks.push(block)) == entries_of(blocks) + block,
{
    assert(blocks.push(block).drop_last() =~= blocks);
}

/// Closing a block adds its entry to the index and leaves the others as
/// they were.
pub proof fn lemma_index_push(start: nat, blocks: Seq<Seq<Entry>>, block: Seq<Entry>)
    ensures
        index_for(start, blocks.push(block)) == index_for(start, blocks).push(
            pointer_at(start, blocks.push(block), blocks.len() as int),
        ),
        handle_at(start, blocks.push(block), blocks.len() as int) == (BlockHandle {
            offset: (start + data_bytes(blocks).len()) as u64,
            size: encode_block(block).len() as u64,
        }),
{
    let more = blocks.push(block);
    assert(more.take(blocks.len() as int) =~= blocks);
    assert forall|j: int| 0 <= j < blocks.len() implies pointer_at(start, more, j) == pointer_at(
        start,
        blocks,
        j,
    ) by {
        assert(more.take(j) =~= blocks.take(j));
    }
    assert(index_for(start, more) =~= index_for(start, blocks).push(
        pointer_at(start, more, blocks.len() as int),
    ));
}

/// The bytes that `handle` points at, where all of them lie in `contents`.
pub open spec fn bytes_at(contents: Seq<u8>, handle: BlockHandle) -> Option<Seq<u8>> {
    if handle.size <= usize::MAX && readable(contents.len(), handle.offset, handle.size as nat)
        == handle.size {
        if handle.size == 0 {
            Some(Seq::empty())
        } else {
            Some(contents.subrange(handle.offset as int, handle.offset + handle.size))
        }
    } else {
        None
    }
}

/// The entries of the block that `handle` points at, where it points at one.
pub open spec fn block_at(contents: Seq<u8>, handle: BlockHandle) -> Option<Seq<Entry>> {
    match bytes_at(contents, handle) {
        Some(bytes) => if is_block(bytes) {
            Some(decode_block(bytes))
        } else {
            None
        },
        None => None,
    }
}

/// The entries of the block that the value of an index entry points at.
pub open spec fn pointed_block(contents: Seq<u8>, index_value: Seq<u8>) -> Option<Seq<Entry>> {
    if index_value.len() >= BLOCK_HANDLE_SIZE {
        block_at(contents, decode_handle(index_value))
    } else {
        None
    }
}

/// The handle in the footer of a file of `size` bytes.
pub open spec fn footer_of(contents: Seq<u8>, size: nat) -> Option<BlockHandle> {
    if FOOTER_SIZE <= size <= contents.len() {
        Some(decode_handle(contents.subrange(size - FOOTER_SIZE, size as int)))
    } else {
        None
    }
}

/// The bytes of the index block of a file of `size` bytes.
pub open spec fn index_bytes_of(contents: Seq<u8>, size: nat) -> Option<Seq<u8>> {
    match footer_of(contents, size) {
        Some(handle) => bytes_at(contents, handle),
        None => None,
    }
}

} // verus!
