//! The bytes of an archive: a header, the entries in a row, each a record
//! followed by a gzip stream, and an index of the entries' positions.
use vstd::prelude::*;
use vstd::bytes::*;
use crate::entry::{lemma_metadata_len, metadata_bytes, EntryView};
use crate::format::{HEADER_LEN, SIGNATURE, VERSION};
use crate::stream::overwrite;

verus! {

/// One entry as it lies in an archive: its record, then its gzip stream.
pub struct Block {
    pub record: EntryView,
    pub payload: Seq<u8>,
}

/// The bytes of one entry.
pub open spec fn block_bytes(block: Block) -> Seq<u8> {
    metadata_bytes(block.record) + block.payload
}

/// The bytes of a row of entries.
pub open spec fn blocks_bytes(blocks: Seq<Block>) -> Seq<u8>
    decreases blocks.len(),
{
    if blocks.len() == 0 {
        Seq::empty()
    } else {
        blocks_bytes(blocks.drop_last()) + block_bytes(blocks.last())
    }
}

/// The header of an archive of `count` entries whose index starts at
/// `index_offset`.
pub open spec fn header_bytes(count: u32, index_offset: u64) -> Seq<u8> {
    SIGNATURE@ + VERSION@ + spec_u32_to_le_bytes(count) + spec_u64_to_le_bytes(index_offset)
}

/// The index of an archive: the position of every entry, in the order of
/// the entries, each as eight bytes.
pub open spec fn index_bytes(entries: Seq<EntryView>) -> Seq<u8>
    decreases entries.len(),
{
    if entries.len() == 0 {
        Seq::empty()
    } else {
        index_bytes(entries.drop_last()) + spec_u64_to_le_bytes(entries.last().position)
    }
}

/// The records of a row of blocks.
pub open spec fn records_of(blocks: Seq<Block>) -> Seq<EntryView> {
    Seq::new(blocks.len(), |i: int| blocks[i].record)
}

/// The archive that is made of `blocks`: the header, the blocks, and the
/// index, which starts where the blocks end.
pub open spec fn archive_bytes(blocks: Seq<Block>) -> Seq<u8> {
    header_bytes(blocks.len() as u32, (HEADER_LEN + blocks_bytes(blocks).len()) as u64)
        + blocks_bytes(blocks) + index_bytes(records_of(blocks))
}

/// The bytes that take the place of the zeros in a record: the compressed
/// size and the checksums of the content and of the gzip stream.
pub open spec fn patch_bytes(size: u64, checksums: (u32, u32)) -> Seq<u8> {
    spec_u64_to_le_bytes(size) + spec_u32_to_le_bytes(checksums.0) + spec_u32_to_le_bytes(
        checksums.1,
    )
}

/// `bytes` after the patch of each entry was written at its offset, in the
/// order of the entries.
pub open spec fn patched(
    bytes: Seq<u8>,
    offsets: Seq<u64>,
    sizes: Seq<u64>,
    checksums: Seq<(u32, u32)>,
) -> Seq<u8>
    recommends
        offsets.len() == sizes.len(),
        offsets.len() == checksums.len(),
    decreases offsets.len(),
{
    if offsets.len() == 0 {
        bytes
    } else {
        overwrite(
            patched(bytes, offsets.drop_last(), sizes.drop_last(), checksums.drop_last()),
            offsets.last() as int,
            patch_bytes(sizes.last(), checksums.last()),
        )
    }
}

/// The block `block` with what `sizes` and `checksums` say in the place of
/// its compressed size and its checksums.
pub open spec fn patched_block(block: Block, size: u64, checksums: (u32, u32)) -> Block {
    Block {
        record: EntryView {
            compressed_size: size,
            original_checksum: checksums.0,
            compressed_checksum: checksums.1,
            ..block.record
        },
        payload: block.payload,
    }
}

/// The blocks `blocks`, each patched with its size and checksums.
pub open spec fn patched_blocks(
    blocks: Seq<Block>,
    sizes: Seq<u64>,
    checksums: Seq<(u32, u32)>,
) -> Seq<Block> {
    Seq::new(blocks.len(), |i: int| patched_block(blocks[i], sizes[i], checksums[i]))
}

/// Whether two rows of blocks have the same names and the same gzip
/// streams, block by block.
pub open spec fn same_shape(a: Seq<Block>, b: Seq<Block>) -> bool {
    &&& a.len() == b.len()
    &&& forall|i: int|
        #![trigger a[i]]
        #![trigger b[i]]
        0 <= i < a.len() ==> a[i].record.name == b[i].record.name && a[i].payload == b[i].payload
}

/// Whether `offsets` are the places of the compressed sizes in the records
/// of `blocks`, which lie in a row behind `front` bytes.
pub open spec fn offsets_fit(front: nat, blocks: Seq<Block>, offsets: Seq<u64>) -> bool {
    &&& offsets.len() == blocks.len()
    &&& forall|i: int|
        #![trigger offsets[i]]
        0 <= i < blocks.len() ==> offsets[i] == front + blocks_bytes(blocks.take(i)).len() + 12
            + blocks[i].record.name.len()
}

/// A write of as many bytes as lie between two parts replaces what lies
/// there.
pub proof fn lemma_overwrite_middle(
    front: Seq<u8>,
    old_part: Seq<u8>,
    new_part: Seq<u8>,
    back: Seq<u8>,
)
    requires
        old_part.len() == new_part.len(),
    ensures
        overwrite(front + old_part + back, front.len() as int, new_part) == front + new_part
            + back,
{
    assert(overwrite(front + old_part + back, front.len() as int, new_part) =~= front + new_part
        + back);
}

/// Four writes into an empty sink make the header.
pub proof fn lemma_header_written(count: u32, index_offset: u64)
    ensures
        header_bytes(count, index_offset).len() == HEADER_LEN,
        overwrite(
            overwrite(
                overwrite(overwrite(Seq::empty(), 0, SIGNATURE@), 4, VERSION@),
                6,
                spec_u32_to_le_bytes(count),
            ),
            10,
            spec_u64_to_le_bytes(index_offset),
        ) == header_bytes(count, index_offset),
{
    lemma_auto_spec_u32_to_from_le_bytes();
    lemma_auto_spec_u64_to_from_le_bytes();
    assert(overwrite(
        overwrite(
            overwrite(overwrite(Seq::empty(), 0, SIGNATURE@), 4, VERSION@),
            6,
            spec_u32_to_le_bytes(count),
        ),
        10,
        spec_u64_to_le_bytes(index_offset),
    ) =~= header_bytes(count, index_offset));
}

/// The bytes of a row of blocks start with the bytes of the first block.
pub proof fn lemma_blocks_first(blocks: Seq<Block>)
    requires
        blocks.len() > 0,
    ensures
        blocks_bytes(blocks) == block_bytes(blocks[0]) + blocks_bytes(blocks.skip(1)),
    decreases blocks.len(),
{
    if blocks.len() == 1 {
        assert(blocks.drop_last() =~= Seq::<Block>::empty());
        assert(blocks.skip(1) =~= Seq::<Block>::empty());
        assert(blocks_bytes(blocks) =~= block_bytes(blocks[0]) + blocks_bytes(blocks.skip(1)));
    } else {
        lemma_blocks_first(blocks.drop_last());
        assert(blocks.drop_last().skip(1) =~= blocks.skip(1).drop_last());
        assert(blocks.skip(1).last() == blocks.last());
        assert(blocks.drop_last()[0] == blocks[0]);
        assert(blocks_bytes(blocks) =~= block_bytes(blocks[0]) + blocks_bytes(blocks.skip(1)));
    }
}

/// The bytes of a row of blocks are those of its first `k` blocks, then
/// those of the others.
pub proof fn lemma_blocks_split(blocks: Seq<Block>, k: int)
    requires
        0 <= k <= blocks.len(),
    ensures
        blocks_bytes(blocks) == blocks_bytes(blocks.take(k)) + blocks_bytes(blocks.skip(k)),
    decreases blocks.len(),
{
    if k == blocks.len() {
        assert(blocks.take(k) =~= blocks);
        assert(blocks.skip(k) =~= Seq::<Block>::empty());
        assert(blocks_bytes(blocks) =~= blocks_bytes(blocks.take(k)) + blocks_bytes(
            blocks.skip(k),
        ));
    } else {
        lemma_blocks_split(blocks.drop_last(), k);
        assert(blocks.drop_last().take(k) =~= blocks.take(k));
        assert(blocks.drop_last().skip(k) =~= blocks.skip(k).drop_last());
        assert(blocks.skip(k).last() == blocks.last());
        assert(blocks_bytes(blocks) =~= blocks_bytes(blocks.take(k)) + blocks_bytes(
            blocks.skip(k),
        ));
    }
}

/// Rows of blocks of the same shape take the same number of bytes.
pub proof fn lemma_same_shape_len(a: Seq<Block>, b: Seq<Block>)
    requires
        same_shape(a, b),
    ensures
        blocks_bytes(a).len() == blocks_bytes(b).len(),
    decreases a.len(),
{
    if a.len() > 0 {
        assert(same_shape(a.drop_last(), b.drop_last())) by {
            assert forall|i: int| 0 <= i < a.drop_last().len() implies a.drop_last()[i].record.name
                == b.drop_last()[i].record.name && a.drop_last()[i].payload
                == b.drop_last()[i].payload by {
                assert(a.drop_last()[i] == a[i]);
                assert(b.drop_last()[i] == b[i]);
            }
        }
        lemma_same_shape_len(a.drop_last(), b.drop_last());
        lemma_metadata_len(a.last().record);
        lemma_metadata_len(b.last().record);
        assert(a.last() == a[a.len() - 1]);
        assert(b.last() == b[b.len() - 1]);
    }
}

/// The index is made of the positions alone.
pub proof fn lemma_index_of_positions(a: Seq<EntryView>, b: Seq<EntryView>)
    requires
        a.len() == b.len(),
        forall|i: int| 0 <= i < a.len() ==> (#[trigger] a[i]).position == b[i].position,
    ensures
        index_bytes(a) == index_bytes(b),
    decreases a.len(),
{
    if a.len() > 0 {
        assert forall|i: int| 0 <= i < a.drop_last().len() implies (#[trigger] a.drop_last()[i]).position
            == b.drop_last()[i].position by {
            assert(a.drop_last()[i] == a[i]);
            assert(b.drop_last()[i] == b[i]);
        }
        lemma_index_of_positions(a.drop_last(), b.drop_last());
        assert(a.last() == a[a.len() - 1]);
        assert(b.last() == b[b.len() - 1]);
    }
}

/// The patch of one block, written at the place of the compressed size in
/// its record, turns the block into the patched block.
pub proof fn lemma_patch_one(
    front: Seq<u8>,
    block: Block,
    size: u64,
    checksums: (u32, u32),
    back: Seq<u8>,
)
    ensures
        overwrite(
            front + block_bytes(block) + back,
            (front.len() + 12 + block.record.name.len()) as int,
            patch_bytes(size, checksums),
        ) == front + block_bytes(patched_block(block, size, checksums)) + back,
{
    lemma_auto_spec_u32_to_from_le_bytes();
    lemma_auto_spec_u64_to_from_le_bytes();
    let r = block.record;
    let head = spec_u32_to_le_bytes(r.name.len() as u32) + r.name + spec_u64_to_le_bytes(
        r.original_size,
    );
    let open = patch_bytes(r.compressed_size, (r.original_checksum, r.compressed_checksum));
    let closed = patch_bytes(size, checksums);
    assert(front + block_bytes(block) + back =~= (front + head) + open + (block.payload + back));
    assert(front + block_bytes(patched_block(block, size, checksums)) + back =~= (front + head)
        + closed + (block.payload + back));
    lemma_overwrite_middle(front + head, open, closed, block.payload + back);
}

/// Patched blocks keep their shape.
pub proof fn lemma_patched_shape(
    blocks: Seq<Block>,
    sizes: Seq<u64>,
    checksums: Seq<(u32, u32)>,
    k: int,
)
    requires
        0 <= k <= blocks.len(),
    ensures
        same_shape(patched_blocks(blocks, sizes, checksums).take(k), blocks.take(k)),
        blocks_bytes(patched_blocks(blocks, sizes, checksums).take(k)).len() == blocks_bytes(
            blocks.take(k),
        ).len(),
{
    let done = patched_blocks(blocks, sizes, checksums).take(k);
    let open = blocks.take(k);
    assert forall|i: int| 0 <= i < done.len() implies (#[trigger] done[i]).record.name
        == open[i].record.name && done[i].payload == open[i].payload by {
        assert(done[i] == patched_block(blocks[i], sizes[i], checksums[i]));
        assert(open[i] == blocks[i]);
    }
    assert forall|i: int| 0 <= i < done.len() implies done[i].record.name == (
    #[trigger] open[i]).record.name && done[i].payload == open[i].payload by {
        assert(done[i] == patched_block(blocks[i], sizes[i], checksums[i]));
        assert(open[i] == blocks[i]);
    }
    lemma_same_shape_len(done, open);
}

/// One more patch turns one more block into its patched block.
proof fn lemma_patch_step(
    front: Seq<u8>,
    blocks: Seq<Block>,
    offset: u64,
    size: u64,
    checksums: (u32, u32),
    done: Seq<Block>,
    j: int,
)
    requires
        0 <= j < blocks.len(),
        done.len() == j,
        blocks_bytes(done).len() == blocks_bytes(blocks.take(j)).len(),
        offset == front.len() + blocks_bytes(blocks.take(j)).len() + 12
            + blocks[j].record.name.len(),
    ensures
        overwrite(
            front + blocks_bytes(done) + blocks_bytes(blocks.skip(j)),
            offset as int,
            patch_bytes(size, checksums),
        ) == front + blocks_bytes(done.push(patched_block(blocks[j], size, checksums)))
            + blocks_bytes(blocks.skip(j + 1)),
{
    let before = front + blocks_bytes(done);
    let back = blocks_bytes(blocks.skip(j + 1));
    let closed = patched_block(blocks[j], size, checksums);
    lemma_blocks_first(blocks.skip(j));
    assert(blocks.skip(j).skip(1) =~= blocks.skip(j + 1));
    assert(blocks.skip(j)[0] == blocks[j]);
    assert(before + blocks_bytes(blocks.skip(j)) =~= before + block_bytes(blocks[j]) + back);
    lemma_patch_one(before, blocks[j], size, checksums, back);
    let grown = done.push(closed);
    assert(grown.drop_last() =~= done);
    assert(grown.last() == closed);
    assert(before + block_bytes(closed) + back =~= front + blocks_bytes(grown) + back);
}

/// The first `k` patches turn the first `k` blocks into patched blocks and
/// leave all else as it was.
pub proof fn lemma_patch_blocks(
    front: Seq<u8>,
    blocks: Seq<Block>,
    offsets: Seq<u64>,
    sizes: Seq<u64>,
    checksums: Seq<(u32, u32)>,
    k: int,
)
    requires
        0 <= k <= blocks.len(),
        sizes.len() == blocks.len(),
        checksums.len() == blocks.len(),
        offsets_fit(front.len(), blocks, offsets),
    ensures
        patched(
            front + blocks_bytes(blocks),
            offsets.take(k),
            sizes.take(k),
            checksums.take(k),
        ) == front + blocks_bytes(patched_blocks(blocks, sizes, checksums).take(k)) + blocks_bytes(
            blocks.skip(k),
        ),
    decreases k,
{
    let done = patched_blocks(blocks, sizes, checksums);
    if k == 0 {
        assert(offsets.take(0) =~= Seq::<u64>::empty());
        assert(done.take(0) =~= Seq::<Block>::empty());
        assert(blocks.skip(0) =~= blocks);
        assert(front + blocks_bytes(blocks) =~= front + blocks_bytes(done.take(0)) + blocks_bytes(
            blocks.skip(0),
        ));
    } else {
        let j = k - 1;
        lemma_patch_blocks(front, blocks, offsets, sizes, checksums, j);
        assert(offsets.take(k).drop_last() =~= offsets.take(j));
        assert(sizes.take(k).drop_last() =~= sizes.take(j));
        assert(checksums.take(k).drop_last() =~= checksums.take(j));
        assert(offsets.take(k).last() == offsets[j]);
        assert(sizes.take(k).last() == sizes[j]);
        assert(checksums.take(k).last() == checksums[j]);
        lemma_patched_shape(blocks, sizes, checksums, j);
        lemma_patch_step(front, blocks, offsets[j], sizes[j], checksums[j], done.take(j), j);
        assert(done.take(j).push(patched_block(blocks[j], sizes[j], checksums[j])) =~= done.take(
            k,
        ));
    }
}

} // verus!
