//! What holds of packing and unpacking together.
use vstd::prelude::*;
use vstd::bytes::*;
use crate::checksum::crc32;
use crate::entry::{lemma_metadata_len, metadata_bytes, metadata_len, parse_metadata, EntryView};
use crate::error::ErrorView;
use crate::format::{BUFFER_SIZE, HEADER_LEN, SIGNATURE, VERSION};
use crate::gzip::gunzip;
use crate::layout::{
    archive_bytes, block_bytes, blocks_bytes, header_bytes, index_bytes, lemma_blocks_first,
    lemma_blocks_split, lemma_same_shape_len, records_of, same_shape, Block,
};
use crate::pack::{
    entry_name, lemma_planned_error_stays, lemma_written_block_at, lemma_written_blocks_len,
    pack_plan, packed_blocks, payload_of, planned_entries, written_blocks, SourceFile,
};
use crate::path::{
    all_normal, components, confined_path, file_name, join, lemma_confined_path_is_plain,
    lemma_empty_name_is_refused, lemma_ordinary_components_are_read_back, names_of,
    ComponentView, PathKind,
};
use crate::unpack::{
    bad_signature_text, check_content, decode_payload, extraction_root, stays_below,
    unpack_entries, unpack_entry, unpacked, FileView,
};

verus! {

/// Whether `block` is the entry of a file with the content `content` as an
/// archive has to hold it: under a name that stays below the extraction
/// directory, and with the size and the checksums of what it holds.
pub open spec fn sound_block(block: Block, content: Seq<u8>) -> bool {
    &&& 0 < block.record.name.len() <= BUFFER_SIZE
    &&& confined_path(block.record.name) is Some
    &&& block.record.original_size == content.len()
    &&& block.record.compressed_size == block.payload.len()
    &&& block.record.original_checksum == crc32(content)
    &&& block.record.compressed_checksum == crc32(block.payload)
    &&& gunzip(block.payload) == Some(content)
}

/// Whether every block is sound for the content at its place.
pub open spec fn sound_blocks(blocks: Seq<Block>, contents: Seq<Seq<u8>>) -> bool {
    &&& blocks.len() == contents.len()
    &&& forall|i: int| 0 <= i < blocks.len() ==> sound_block(#[trigger] blocks[i], contents[i])
}

/// The file that a sound block unpacks to.
pub open spec fn file_of(block: Block, content: Seq<u8>) -> FileView {
    FileView { path: confined_path(block.record.name)->Some_0, content }
}

/// The files that sound blocks unpack to.
pub open spec fn files_of(blocks: Seq<Block>, contents: Seq<Seq<u8>>) -> Seq<FileView> {
    Seq::new(blocks.len(), |i: int| file_of(blocks[i], contents[i]))
}

/// The files that go into an archive as they come out of it: each under the
/// path that its name stands for, with its content.
pub open spec fn stored_files(entries: Seq<EntryView>, contents: Seq<Seq<u8>>) -> Seq<FileView> {
    Seq::new(
        entries.len(),
        |i: int| FileView { path: confined_path(entries[i].name)->Some_0, content: contents[i] },
    )
}

/// Whether every entry has a name that stays below the extraction
/// directory.
pub open spec fn names_confined(entries: Seq<EntryView>) -> bool {
    forall|i: int| 0 <= i < entries.len() ==> confined_path((#[trigger] entries[i]).name) is Some
}

/// Whether `archive` unpacks to `files`, wherever it lies and whatever
/// directory it is extracted to.
pub open spec fn unpacks_to(archive: Seq<u8>, files: Seq<FileView>) -> bool {
    forall|source: Seq<u8>, extraction_path: Seq<u8>| #[trigger]
        unpacked(source, extraction_path, archive) == match extraction_root(
            source,
            extraction_path,
            files.len() as u32,
        ) {
            Ok(root) => Ok::<(Seq<u8>, Seq<FileView>), ErrorView>((root, files)),
            Err(e) => Err(e),
        }
}

/// The record of an entry is read back as that entry, at the position where
/// it is read.
pub proof fn lemma_record_parses(record: EntryView, rest: Seq<u8>, position: u64)
    requires
        0 < record.name.len() <= BUFFER_SIZE,
    ensures
        parse_metadata(metadata_bytes(record) + rest, position) == Ok::<(EntryView, nat), ErrorView>(
            (EntryView { position, ..record }, metadata_len(record.name.len())),
        ),
{
    lemma_auto_spec_u32_to_from_le_bytes();
    lemma_auto_spec_u64_to_from_le_bytes();
    lemma_metadata_len(record);
    let input = metadata_bytes(record) + rest;
    let n = record.name.len() as int;
    assert(input.take(4) =~= spec_u32_to_le_bytes(record.name.len() as u32));
    assert(input.subrange(4, 4 + n) =~= record.name);
    assert(input.subrange(4 + n, 12 + n) =~= spec_u64_to_le_bytes(record.original_size));
    assert(input.subrange(12 + n, 20 + n) =~= spec_u64_to_le_bytes(record.compressed_size));
    assert(input.subrange(20 + n, 24 + n) =~= spec_u32_to_le_bytes(record.original_checksum));
    assert(input.subrange(24 + n, 28 + n) =~= spec_u32_to_le_bytes(record.compressed_checksum));
}

/// A sound block unpacks to its file, whatever follows it.
pub proof fn lemma_block_unpacks(block: Block, content: Seq<u8>, rest: Seq<u8>, position: nat)
    requires
        sound_block(block, content),
    ensures
        unpack_entry(block_bytes(block) + rest, position) == Ok::<(FileView, nat), ErrorView>(
            (file_of(block, content), block_bytes(block).len()),
        ),
{
    let input = block_bytes(block) + rest;
    let record = block.record;
    lemma_metadata_len(record);
    lemma_record_parses(record, block.payload + rest, position as u64);
    assert(input =~= metadata_bytes(record) + (block.payload + rest));
    let used = metadata_len(record.name.len());
    let end = used + record.compressed_size;
    assert(input.subrange(used as int, end) =~= block.payload);
    let entry = EntryView { position: position as u64, ..record };
    assert(decode_payload(entry, block.payload) == Ok::<Seq<u8>, ErrorView>(content));
    assert(check_content(entry, block.payload) == Ok::<Seq<u8>, ErrorView>(content));
}

/// Sound blocks in a row unpack to their files, whatever follows them.
pub proof fn lemma_blocks_unpack(
    blocks: Seq<Block>,
    contents: Seq<Seq<u8>>,
    rest: Seq<u8>,
    position: nat,
)
    requires
        sound_blocks(blocks, contents),
    ensures
        unpack_entries(blocks_bytes(blocks) + rest, position, blocks.len()) == Ok::<
            (Seq<FileView>, nat),
            ErrorView,
        >((files_of(blocks, contents), blocks_bytes(blocks).len())),
    decreases blocks.len(),
{
    if blocks.len() == 0 {
        assert(files_of(blocks, contents) =~= Seq::<FileView>::empty());
    } else {
        let first = blocks[0];
        let others = blocks.skip(1);
        let input = blocks_bytes(blocks) + rest;
        lemma_blocks_first(blocks);
        assert(input =~= block_bytes(first) + (blocks_bytes(others) + rest));
        lemma_block_unpacks(first, contents[0], blocks_bytes(others) + rest, position);
        let used = block_bytes(first).len();
        assert(input.skip(used as int) =~= blocks_bytes(others) + rest);
        assert(sound_blocks(others, contents.skip(1))) by {
            assert forall|i: int| 0 <= i < others.len() implies sound_block(
                #[trigger] others[i],
                contents.skip(1)[i],
            ) by {
                assert(others[i] == blocks[i + 1]);
            }
        }
        lemma_blocks_unpack(others, contents.skip(1), rest, position + used);
        assert(seq![file_of(first, contents[0])] + files_of(others, contents.skip(1))
            =~= files_of(blocks, contents));
    }
}

/// An archive of sound blocks unpacks to the files that the blocks hold, in
/// their order, with the contents unchanged: unpacking gives back what
/// packing took.
pub proof fn lemma_sound_archive_unpacks(
    source: Seq<u8>,
    extraction_path: Seq<u8>,
    blocks: Seq<Block>,
    contents: Seq<Seq<u8>>,
)
    requires
        blocks.len() <= u32::MAX,
        sound_blocks(blocks, contents),
    ensures
        unpacked(source, extraction_path, archive_bytes(blocks)) == match extraction_root(
            source,
            extraction_path,
            blocks.len() as u32,
        ) {
            Ok(root) => Ok::<(Seq<u8>, Seq<FileView>), ErrorView>(
                (root, files_of(blocks, contents)),
            ),
            Err(e) => Err(e),
        },
{
    lemma_auto_spec_u32_to_from_le_bytes();
    lemma_auto_spec_u64_to_from_le_bytes();
    let archive = archive_bytes(blocks);
    let count = blocks.len() as u32;
    let index = index_bytes(records_of(blocks));
    let header = header_bytes(count, (HEADER_LEN + blocks_bytes(blocks).len()) as u64);
    assert(header.len() == HEADER_LEN);
    assert(archive.take(4) =~= SIGNATURE@);
    assert(archive[4] == VERSION[0]);
    assert(archive.subrange(6, 10) =~= spec_u32_to_le_bytes(count));
    assert(archive.skip(HEADER_LEN as int) =~= blocks_bytes(blocks) + index);
    lemma_blocks_unpack(blocks, contents, index, HEADER_LEN as nat);
}

/// The archive that packing makes of files whose names stay below the
/// extraction directory unpacks to these files: the same names, the same
/// contents, the same order. It rests on this of each file: its entry
/// records its length, and its gzip stream decodes to its content and is no
/// longer than a `u64` counts.
pub proof fn lemma_packed_archive_unpacks(entries: Seq<EntryView>, contents: Seq<Seq<u8>>)
    requires
        entries.len() == contents.len(),
        entries.len() <= u32::MAX,
        names_confined(entries),
        forall|i: int|
            #![trigger entries[i]]
            0 <= i < entries.len() ==> {
                &&& entries[i].name.len() <= BUFFER_SIZE
                &&& entries[i].original_size == contents[i].len()
                &&& payload_of(contents[i]).len() <= u64::MAX
                &&& gunzip(payload_of(contents[i])) == Some(contents[i])
            },
    ensures
        unpacks_to(
            archive_bytes(packed_blocks(entries, contents)),
            stored_files(entries, contents),
        ),
{
    let blocks = packed_blocks(entries, contents);
    lemma_empty_name_is_refused();
    lemma_written_blocks_len(entries, contents, HEADER_LEN as nat);
    assert forall|i: int| 0 <= i < blocks.len() implies sound_block(
        #[trigger] blocks[i],
        contents[i],
    ) by {
        lemma_written_block_at(entries, contents, HEADER_LEN as nat, i);
        assert(entries[i].name.len() <= BUFFER_SIZE);
        assert(confined_path(entries[i].name) is Some);
    }
    assert(files_of(blocks, contents) =~= stored_files(entries, contents)) by {
        assert forall|i: int| 0 <= i < blocks.len() implies files_of(blocks, contents)[i]
            == stored_files(entries, contents)[i] by {
            lemma_written_block_at(entries, contents, HEADER_LEN as nat, i);
        }
    }
    assert forall|source: Seq<u8>, extraction_path: Seq<u8>| #[trigger]
        unpacked(source, extraction_path, archive_bytes(blocks)) == match extraction_root(
            source,
            extraction_path,
            stored_files(entries, contents).len() as u32,
        ) {
            Ok(root) => Ok::<(Seq<u8>, Seq<FileView>), ErrorView>(
                (root, stored_files(entries, contents)),
            ),
            Err(e) => Err(e),
        } by {
        lemma_sound_archive_unpacks(source, extraction_path, blocks, contents);
    }
}

/// In the archive that packing makes, every entry records the position at
/// which its record starts, which is the position that the index gives for
/// it, and the index starts where the last gzip stream ends.
pub proof fn lemma_packed_positions(entries: Seq<EntryView>, contents: Seq<Seq<u8>>, i: int)
    requires
        entries.len() == contents.len(),
        0 <= i < entries.len(),
        HEADER_LEN + blocks_bytes(packed_blocks(entries, contents)).len() <= u64::MAX,
    ensures
        packed_blocks(entries, contents).len() == entries.len(),
        packed_blocks(entries, contents)[i].record.position == HEADER_LEN + blocks_bytes(
            packed_blocks(entries, contents).take(i),
        ).len(),
        archive_bytes(packed_blocks(entries, contents)).len() == HEADER_LEN + blocks_bytes(
            packed_blocks(entries, contents),
        ).len() + index_bytes(records_of(packed_blocks(entries, contents))).len(),
{
    lemma_auto_spec_u32_to_from_le_bytes();
    lemma_auto_spec_u64_to_from_le_bytes();
    let open = written_blocks(entries, contents, HEADER_LEN as nat);
    let closed = packed_blocks(entries, contents);
    lemma_written_blocks_len(entries, contents, HEADER_LEN as nat);
    lemma_written_block_at(entries, contents, HEADER_LEN as nat, i);
    assert(same_shape(closed.take(i), open.take(i))) by {
        assert forall|j: int| 0 <= j < i implies (#[trigger] closed.take(i)[j]).record.name
            == open.take(i)[j].record.name && closed.take(i)[j].payload
            == open.take(i)[j].payload by {
            assert(closed.take(i)[j] == closed[j]);
            assert(open.take(i)[j] == open[j]);
        }
        assert forall|j: int| 0 <= j < i implies closed.take(i)[j].record.name == (
        #[trigger] open.take(i)[j]).record.name && closed.take(i)[j].payload
            == open.take(i)[j].payload by {
            assert(closed.take(i)[j] == closed[j]);
            assert(open.take(i)[j] == open[j]);
        }
    }
    lemma_same_shape_len(closed.take(i), open.take(i));
    lemma_blocks_split(closed, i);
    let header = header_bytes(closed.len() as u32, (HEADER_LEN + blocks_bytes(closed).len()) as u64);
    assert(header.len() == HEADER_LEN);
}

/// The name under which a file is stored is read back as the names that
/// lead to the file: as its file name where the source is that one file, and
/// else as the names that lead to it from the source directory, where these
/// are ordinary names and not `..`.
pub proof fn lemma_entry_name_is_read_back(
    root: Seq<u8>,
    root_kind: PathKind,
    path: Seq<u8>,
)
    requires
        entry_name(root, root_kind, path) is Ok,
        root_kind != PathKind::File ==> components(root).len() < components(path).len()
            && all_normal(components(path).skip(components(root).len() as int)),
    ensures
        confined_path(entry_name(root, root_kind, path)->Ok_0) == Some(
            if root_kind == PathKind::File {
                seq![file_name(path)->Some_0]
            } else {
                names_of(components(path).skip(components(root).len() as int))
            },
        ),
{
    let cs = components(path);
    if root_kind == PathKind::File {
        let from = cs.len() - 1;
        let one = cs.skip(from);
        let name = file_name(path)->Some_0;
        assert(one =~= seq![cs.last()]);
        assert(all_normal(one));
        lemma_ordinary_components_are_read_back(path, from);
        assert(names_of(one) =~= seq![name]);
        assert(one.drop_last() =~= Seq::<ComponentView>::empty());
        assert(join(one.drop_last()) =~= Seq::<u8>::empty());
        assert(join(one) == name);
    } else {
        lemma_ordinary_components_are_read_back(path, components(root).len() as int);
    }
}

/// A file that does not start with the signature is refused for that, and no
/// entry is read: the answer is the same whatever follows the first four
/// bytes.
pub proof fn lemma_bad_signature_is_refused(
    source: Seq<u8>,
    extraction_path: Seq<u8>,
    archive: Seq<u8>,
)
    requires
        archive.len() >= 4,
        archive.take(4) != SIGNATURE@,
    ensures
        unpacked(source, extraction_path, archive) == Err::<
            (Seq<u8>, Seq<FileView>),
            ErrorView,
        >(ErrorView::Path(bad_signature_text(source))),
{
}

/// An archive of another major version is refused for that, and no entry is
/// read: the answer is the same whatever follows the version.
pub proof fn lemma_other_version_is_refused(
    source: Seq<u8>,
    extraction_path: Seq<u8>,
    archive: Seq<u8>,
)
    requires
        archive.len() >= 6,
        archive.take(4) == SIGNATURE@,
        archive[4] != VERSION[0],
    ensures
        unpacked(source, extraction_path, archive) == Err::<
            (Seq<u8>, Seq<FileView>),
            ErrorView,
        >(ErrorView::UnsupportedVersion(archive[4] as usize)),
{
}

/// Whether `block` is an entry whose record is in order but for the
/// checksum of its gzip stream, which is not the recorded one.
pub open spec fn damaged_block(block: Block) -> bool {
    &&& 0 < block.record.name.len() <= BUFFER_SIZE
    &&& confined_path(block.record.name) is Some
    &&& block.record.compressed_size == block.payload.len()
    &&& block.record.compressed_checksum != crc32(block.payload)
}

/// An entry whose gzip stream has another checksum than the recorded one is
/// refused as corrupted, whether or not the stream still decodes.
pub proof fn lemma_damaged_block_is_refused(block: Block, rest: Seq<u8>, position: nat)
    requires
        damaged_block(block),
    ensures
        unpack_entry(block_bytes(block) + rest, position) matches Err(
            ErrorView::CorruptedArchive(_),
        ),
{
    let input = block_bytes(block) + rest;
    let record = block.record;
    lemma_metadata_len(record);
    lemma_record_parses(record, block.payload + rest, position as u64);
    assert(input =~= metadata_bytes(record) + (block.payload + rest));
    let used = metadata_len(record.name.len());
    let end = used + record.compressed_size;
    assert(input.subrange(used as int, end) =~= block.payload);
    let entry = EntryView { position: position as u64, ..record };
    assert(check_content(entry, block.payload) matches Err(ErrorView::CorruptedArchive(_)));
}

/// Sound blocks with a damaged one behind them: unpacking stops at the
/// damaged one and says that the archive is corrupted.
pub proof fn lemma_damage_is_found(
    blocks: Seq<Block>,
    contents: Seq<Seq<u8>>,
    k: int,
    rest: Seq<u8>,
    position: nat,
)
    requires
        0 <= k < blocks.len(),
        blocks.len() == contents.len(),
        forall|i: int| 0 <= i < k ==> sound_block(#[trigger] blocks[i], contents[i]),
        damaged_block(blocks[k]),
    ensures
        unpack_entries(blocks_bytes(blocks) + rest, position, blocks.len()) matches Err(
            ErrorView::CorruptedArchive(_),
        ),
    decreases k,
{
    let first = blocks[0];
    let others = blocks.skip(1);
    let input = blocks_bytes(blocks) + rest;
    lemma_blocks_first(blocks);
    assert(input =~= block_bytes(first) + (blocks_bytes(others) + rest));
    if k == 0 {
        lemma_damaged_block_is_refused(first, blocks_bytes(others) + rest, position);
    } else {
        lemma_block_unpacks(first, contents[0], blocks_bytes(others) + rest, position);
        let used = block_bytes(first).len();
        assert(input.skip(used as int) =~= blocks_bytes(others) + rest);
        assert forall|i: int| 0 <= i < k - 1 implies sound_block(
            #[trigger] others[i],
            contents.skip(1)[i],
        ) by {
            assert(others[i] == blocks[i + 1]);
        }
        assert(others[k - 1] == blocks[k]);
        lemma_damage_is_found(others, contents.skip(1), k - 1, rest, position + used);
    }
}

/// The blocks `blocks` with `payload` in the place of the gzip stream of
/// the block at `k`.
pub open spec fn with_payload(blocks: Seq<Block>, k: int, payload: Seq<u8>) -> Seq<Block> {
    blocks.update(k, Block { record: blocks[k].record, payload })
}

/// A sound archive in which the gzip stream of one entry was changed, its
/// length kept, is refused as corrupted wherever the checksum of the changed
/// stream is not the one of the stream that was written. Nothing is said
/// here of a change that leaves the checksum as it was.
pub proof fn lemma_changed_payload_is_refused(
    source: Seq<u8>,
    extraction_path: Seq<u8>,
    blocks: Seq<Block>,
    contents: Seq<Seq<u8>>,
    k: int,
    changed: Seq<u8>,
)
    requires
        blocks.len() <= u32::MAX,
        sound_blocks(blocks, contents),
        0 <= k < blocks.len(),
        changed.len() == blocks[k].payload.len(),
        crc32(changed) != crc32(blocks[k].payload),
        extraction_root(source, extraction_path, blocks.len() as u32) is Ok,
    ensures
        unpacked(source, extraction_path, archive_bytes(with_payload(blocks, k, changed))) matches Err(
            ErrorView::CorruptedArchive(_),
        ),
{
    lemma_auto_spec_u32_to_from_le_bytes();
    lemma_auto_spec_u64_to_from_le_bytes();
    let damaged = with_payload(blocks, k, changed);
    let archive = archive_bytes(damaged);
    let count = damaged.len() as u32;
    let index = index_bytes(records_of(damaged));
    let header = header_bytes(count, (HEADER_LEN + blocks_bytes(damaged).len()) as u64);
    assert(header.len() == HEADER_LEN);
    assert(archive.take(4) =~= SIGNATURE@);
    assert(archive[4] == VERSION[0]);
    assert(archive.subrange(6, 10) =~= spec_u32_to_le_bytes(count));
    assert(archive.skip(HEADER_LEN as int) =~= blocks_bytes(damaged) + index);
    assert forall|i: int| 0 <= i < k implies sound_block(#[trigger] damaged[i], contents[i]) by {
        assert(damaged[i] == blocks[i]);
    }
    assert(damaged_block(damaged[k]));
    lemma_damage_is_found(damaged, contents, k, index, HEADER_LEN as nat);
}

/// Another byte at one place in the gzip stream of an entry changes the
/// archive at one place and nowhere else.
pub proof fn lemma_changed_byte_is_changed_payload(blocks: Seq<Block>, k: int, j: int, byte: u8)
    requires
        0 <= k < blocks.len(),
        0 <= j < blocks[k].payload.len(),
    ensures
        archive_bytes(with_payload(blocks, k, blocks[k].payload.update(j, byte))) == archive_bytes(
            blocks,
        ).update(
            HEADER_LEN + blocks_bytes(blocks.take(k)).len() + metadata_len(
                blocks[k].record.name.len(),
            ) + j,
            byte,
        ),
{
    lemma_auto_spec_u32_to_from_le_bytes();
    lemma_auto_spec_u64_to_from_le_bytes();
    let changed = with_payload(blocks, k, blocks[k].payload.update(j, byte));
    let header = header_bytes(blocks.len() as u32, (HEADER_LEN + blocks_bytes(blocks).len()) as u64);
    assert(header.len() == HEADER_LEN);
    lemma_blocks_split(blocks, k);
    lemma_blocks_split(changed, k);
    lemma_blocks_first(blocks.skip(k));
    lemma_blocks_first(changed.skip(k));
    assert(changed.take(k) =~= blocks.take(k));
    assert(changed.skip(k).skip(1) =~= blocks.skip(k).skip(1));
    assert(changed.skip(k)[0] == changed[k]);
    assert(blocks.skip(k)[0] == blocks[k]);
    lemma_metadata_len(blocks[k].record);
    let front = blocks_bytes(blocks.take(k));
    let back = blocks_bytes(blocks.skip(k).skip(1));
    let record = metadata_bytes(blocks[k].record);
    assert(blocks_bytes(blocks) =~= front + (record + blocks[k].payload) + back);
    assert(blocks_bytes(changed) =~= front + (record + blocks[k].payload.update(j, byte)) + back);
    assert(blocks_bytes(changed) =~= blocks_bytes(blocks).update(
        front.len() + record.len() + j,
        byte,
    ));
    assert(records_of(changed) =~= records_of(blocks));
    assert(archive_bytes(changed) =~= archive_bytes(blocks).update(
        HEADER_LEN + front.len() + record.len() + j,
        byte,
    ));
}

/// A sound archive in which one byte of the gzip stream of an entry was
/// replaced by another is refused as corrupted, wherever the checksum of the
/// changed stream is not the one of the stream that was written.
pub proof fn lemma_changed_byte_is_refused(
    source: Seq<u8>,
    extraction_path: Seq<u8>,
    blocks: Seq<Block>,
    contents: Seq<Seq<u8>>,
    k: int,
    j: int,
    byte: u8,
)
    requires
        blocks.len() <= u32::MAX,
        sound_blocks(blocks, contents),
        0 <= k < blocks.len(),
        0 <= j < blocks[k].payload.len(),
        crc32(blocks[k].payload.update(j, byte)) != crc32(blocks[k].payload),
        extraction_root(source, extraction_path, blocks.len() as u32) is Ok,
    ensures
        unpacked(
            source,
            extraction_path,
            archive_bytes(blocks).update(
                HEADER_LEN + blocks_bytes(blocks.take(k)).len() + metadata_len(
                    blocks[k].record.name.len(),
                ) + j,
                byte,
            ),
        ) matches Err(ErrorView::CorruptedArchive(_)),
{
    lemma_changed_byte_is_changed_payload(blocks, k, j, byte);
    lemma_changed_payload_is_refused(
        source,
        extraction_path,
        blocks,
        contents,
        k,
        blocks[k].payload.update(j, byte),
    );
}

/// An entry whose record gives its name more than `BUFFER_SIZE` bytes is
/// refused for that, and nothing is read of the name.
pub proof fn lemma_long_name_is_refused(input: Seq<u8>, position: nat, count: nat)
    requires
        input.len() >= 4,
        spec_u32_from_le_bytes(input.take(4)) > BUFFER_SIZE,
        count > 0,
    ensures
        unpack_entries(input, position, count) == Err::<(Seq<FileView>, nat), ErrorView>(
            ErrorView::BufferOverflow(spec_u32_from_le_bytes(input.take(4)) as usize),
        ),
{
}

/// A file whose name in the archive would have more than `BUFFER_SIZE`
/// bytes makes no archive: where the source is a file or a directory and the
/// files before it can be named, packing says how long the name is, and cuts
/// nothing off.
pub proof fn lemma_long_name_is_not_packed(
    source: Seq<u8>,
    source_kind: PathKind,
    files: Seq<SourceFile>,
    k: int,
)
    requires
        source_kind == PathKind::File || source_kind == PathKind::Directory,
        files.len() <= u32::MAX,
        0 <= k < files.len(),
        planned_entries(source, source_kind, files.take(k)) is Ok,
        entry_name(source, source_kind, files[k].path@) matches Ok(name) && name.len()
            > BUFFER_SIZE,
    ensures
        pack_plan(source, source_kind, files) == Err::<Seq<EntryView>, ErrorView>(
            ErrorView::BufferOverflow(
                entry_name(source, source_kind, files[k].path@)->Ok_0.len() as usize,
            ),
        ),
{
    assert(files.take(k + 1).drop_last() =~= files.take(k));
    assert(files.take(k + 1).last() == files[k]);
    lemma_planned_error_stays(source, source_kind, files, k + 1);
}

/// A file whose name in the archive would have more than `BUFFER_SIZE`
/// bytes makes no archive, whatever the other files are.
pub proof fn lemma_long_name_never_packs(
    source: Seq<u8>,
    source_kind: PathKind,
    files: Seq<SourceFile>,
    k: int,
)
    requires
        0 <= k < files.len(),
        entry_name(source, source_kind, files[k].path@) matches Ok(name) && name.len()
            > BUFFER_SIZE,
    ensures
        pack_plan(source, source_kind, files) is Err,
{
    if planned_entries(source, source_kind, files.take(k)) is Err {
        lemma_planned_error_stays(source, source_kind, files, k);
    } else {
        assert(files.take(k + 1).drop_last() =~= files.take(k));
        assert(files.take(k + 1).last() == files[k]);
        lemma_planned_error_stays(source, source_kind, files, k + 1);
    }
}

/// Every file that an archive unpacks to has a path made of plain names
/// alone, so that none lies outside the extraction directory: an entry
/// whose name holds `..` or starts at the root directory is refused, and
/// with it the whole archive.
pub proof fn lemma_unpacked_entries_stay_below(input: Seq<u8>, position: nat, count: nat)
    requires
        unpack_entries(input, position, count) is Ok,
    ensures
        unpack_entries(input, position, count)->Ok_0.0.len() == count,
        forall|i: int|
            0 <= i < count ==> stays_below(
                #[trigger] unpack_entries(input, position, count)->Ok_0.0[i],
            ),
    decreases count,
{
    if count > 0 {
        let (file, used) = unpack_entry(input, position)->Ok_0;
        let entry = parse_metadata(input, position as u64)->Ok_0.0;
        lemma_confined_path_is_plain(entry.name);
        lemma_unpacked_entries_stay_below(
            input.skip(used as int),
            position + used,
            (count - 1) as nat,
        );
        let others = unpack_entries(
            input.skip(used as int),
            position + used,
            (count - 1) as nat,
        )->Ok_0.0;
        let all = unpack_entries(input, position, count)->Ok_0.0;
        assert(all == seq![file] + others);
        assert(stays_below(file));
        assert forall|i: int| 0 <= i < count implies stays_below(#[trigger] all[i]) by {
            if i > 0 {
                assert(all[i] == others[i - 1]);
            }
        }
    }
}

} // verus!
