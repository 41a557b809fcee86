//! Writing an archive: every file's record goes out with zeros where the
//! compressed size and the checksums belong, the file follows as a gzip
//! stream, and the zeros are replaced once all files are written.
use vstd::prelude::*;
use vstd::bytes::*;
use vstd::string::*;
use flate2::Crc;
use crate::checksum::{absorbed, crc32};
use crate::entry::{lemma_metadata_len, metadata_bytes, EntryView, InnerFile};
use crate::error::{
    invalid_source_text, no_stem_text, path_error, path_text, ArchiveError, ErrorView,
};
use crate::format::{BUFFER_SIZE, EXTENSION, HEADER_LEN, INDEX_OFFSET_POSITION, SIGNATURE, VERSION};
use crate::gzip::{
    encoder_chunks, encoder_emitted, encoder_finish, encoder_new, encoder_write, gunzip,
    gzip_stream, Encoder,
};
use crate::laws::{lemma_packed_archive_unpacks, names_confined, stored_files, unpacks_to};
use crate::layout::{
    archive_bytes, block_bytes, blocks_bytes, header_bytes, index_bytes, lemma_blocks_first,
    lemma_blocks_split, lemma_header_written, lemma_index_of_positions, lemma_overwrite_middle,
    lemma_patch_blocks, lemma_same_shape_len, offsets_fit, patch_bytes, patched, patched_block,
    patched_blocks, records_of, same_shape, Block,
};
use crate::path::{
    extension, file_name, file_stem, is_archive_extension, normalize_path, normalized_path,
    path_extension, path_file_name, path_file_stem, path_strip_prefix, path_with_extension, push,
    push_path, strip_prefix, with_extension, PathKind,
};
use crate::stream::{
    lemma_overwrite_twice, out_of_range_text, overwrite, ArchiveReader, ArchiveSink, HasherWriter,
};

verus! {

/// The text of the error for a content that could not be compressed.
pub open spec fn uncompressible_text() -> Seq<char> {
    "failed to encode the compressed stream"@
}

/// The text of the error for a path that does not start with the source.
pub open spec fn prefix_not_found_text() -> Seq<char> {
    "prefix not found"@
}

/// The text of the error for a source directory without a name.
pub open spec fn no_directory_name_text(path: Seq<u8>) -> Seq<char> {
    path_text("Failed to get directory name from path: "@, path)
}

/// The text of the error for a source file without a name.
pub open spec fn no_file_name_text(path: Seq<u8>) -> Seq<char> {
    path_text("Failed to get file name from path: "@, path)
}

/// One file that goes into an archive.
#[derive(Debug)]
pub struct SourceFile {
    /// The path at which the file was found.
    pub path: Vec<u8>,
    /// The content of the file.
    pub content: Vec<u8>,
}

/// The contents of a row of files.
pub open spec fn contents_view(files: Seq<SourceFile>) -> Seq<Seq<u8>> {
    Seq::new(files.len(), |i: int| files[i].content@)
}

/// The views of a row of entries.
pub open spec fn entries_view(entries: Seq<InnerFile>) -> Seq<EntryView> {
    Seq::new(entries.len(), |i: int| entries[i]@)
}

/// The name that an archive of `source` gets, without its extension: the
/// stem of a file's name, the whole name of a directory.
pub open spec fn archive_name(source: Seq<u8>, source_kind: PathKind) -> Result<
    Seq<u8>,
    ErrorView,
> {
    if source_kind == PathKind::File {
        match file_stem(source) {
            Some(stem) => Ok(stem),
            None => Err(ErrorView::Path(no_stem_text(source))),
        }
    } else {
        match file_name(source) {
            Some(name) => Ok(name),
            None => Err(ErrorView::Path(no_directory_name_text(source))),
        }
    }
}

/// Names the archive of `source`: after the stem of a file's name, or after
/// the whole name of a directory. A source without a name is refused.
pub fn get_archive_name(source: &[u8], source_kind: PathKind) -> (res: Result<
    Vec<u8>,
    ArchiveError,
>)
    ensures
        match archive_name(source@, source_kind) {
            Ok(name) => res matches Ok(n) && n@ == name,
            Err(e) => res matches Err(err) && err@ == e,
        },
{
    if source_kind == PathKind::File {
        match path_file_stem(source) {
            Some(stem) => Ok(stem),
            None => Err(path_error("Failed to get file stem from path: ", source)),
        }
    } else {
        match path_file_name(source) {
            Some(name) => Ok(name),
            None => Err(path_error("Failed to get directory name from path: ", source)),
        }
    }
}

/// The path of the archive of `source`: `target` itself where its extension
/// is `slf`, else the file in `target` that is named after the source, with
/// the extension `slf`. Both paths are taken in their simplest form, and
/// `source_kind` is what the file system holds at the source.
pub open spec fn archive_path(source: Seq<u8>, source_kind: PathKind, target: Seq<u8>) -> Result<
    Seq<u8>,
    ErrorView,
> {
    let source = normalized_path(source);
    let target = normalized_path(target);
    if source_kind != PathKind::File && source_kind != PathKind::Directory {
        Err(ErrorView::Path(invalid_source_text(source)))
    } else if extension(target) == Some(EXTENSION@) {
        Ok(target)
    } else {
        match archive_name(source, source_kind) {
            Ok(name) => Ok(with_extension(push_path(target, name), EXTENSION@)),
            Err(e) => Err(e),
        }
    }
}

/// Decides where the archive of `source` is written. Refuses a source that is
/// neither a file nor a directory, and one without a name where the target
/// does not name the archive. `source_kind` is what the file system holds at
/// the source in its simplest form.
pub fn get_archive_path(source: &[u8], source_kind: PathKind, target: &[u8]) -> (res: Result<
    Vec<u8>,
    ArchiveError,
>)
    ensures
        match archive_path(source@, source_kind, target@) {
            Ok(path) => res matches Ok(p) && p@ == path,
            Err(e) => res matches Err(err) && err@ == e,
        },
{
    let source = normalize_path(source);
    let target = normalize_path(target);
    if source_kind != PathKind::File && source_kind != PathKind::Directory {
        return Err(path_error("Invalid source destination at path: ", source.as_slice()));
    }
    let named = match path_extension(target.as_slice()) {
        Some(ext) => is_archive_extension(&ext),
        None => false,
    };
    if named {
        Ok(target)
    } else {
        let archive_name = match get_archive_name(source.as_slice(), source_kind) {
            Ok(name) => name,
            Err(e) => { return Err(e); },
        };
        let mut joined = target;
        push(&mut joined, archive_name.as_slice());
        Ok(path_with_extension(joined.as_slice(), EXTENSION.as_slice()))
    }
}

/// The name under which the file at `path` is stored: its file name where
/// the source is that one file, else what is left of `path` behind the
/// source directory `root`.
pub open spec fn entry_name(root: Seq<u8>, root_kind: PathKind, path: Seq<u8>) -> Result<
    Seq<u8>,
    ErrorView,
> {
    if root_kind == PathKind::File {
        match file_name(path) {
            Some(name) => Ok(name),
            None => Err(ErrorView::Path(no_file_name_text(root))),
        }
    } else {
        match strip_prefix(path, root) {
            Some(name) => Ok(name),
            None => Err(ErrorView::Path(prefix_not_found_text())),
        }
    }
}

/// The entry that stands for a file before it is compressed: its name and
/// its size, and zero for all that is not known yet. An empty name is an
/// error, and so is a name of more than `BUFFER_SIZE` bytes.
pub open spec fn planned_entry(root: Seq<u8>, root_kind: PathKind, file: SourceFile) -> Result<
    EntryView,
    ErrorView,
> {
    match entry_name(root, root_kind, file.path@) {
        Err(e) => Err(e),
        Ok(name) => if name.len() == 0 {
            Err(ErrorView::EmptyFilename)
        } else if name.len() > BUFFER_SIZE {
            Err(ErrorView::BufferOverflow(name.len() as usize))
        } else {
            Ok(
                EntryView {
                    name,
                    original_size: file.content@.len() as u64,
                    compressed_size: 0,
                    original_checksum: 0,
                    compressed_checksum: 0,
                    position: 0,
                },
            )
        },
    }
}

/// The entries that stand for `files`, in their order; or the error of the
/// first file that cannot be named.
pub open spec fn planned_entries(root: Seq<u8>, root_kind: PathKind, files: Seq<SourceFile>) -> Result<
    Seq<EntryView>,
    ErrorView,
>
    decreases files.len(),
{
    if files.len() == 0 {
        Ok(Seq::empty())
    } else {
        match planned_entries(root, root_kind, files.drop_last()) {
            Err(e) => Err(e),
            Ok(entries) => match planned_entry(root, root_kind, files.last()) {
                Err(e) => Err(e),
                Ok(entry) => Ok(entries.push(entry)),
            },
        }
    }
}

/// Planned entries are as many as the files.
pub proof fn lemma_planned_len(root: Seq<u8>, root_kind: PathKind, files: Seq<SourceFile>)
    ensures
        planned_entries(root, root_kind, files) matches Ok(entries) ==> entries.len()
            == files.len(),
    decreases files.len(),
{
    if files.len() > 0 {
        lemma_planned_len(root, root_kind, files.drop_last());
    }
}

/// An error among the first `k` files is the error of all the files.
pub proof fn lemma_planned_error_stays(
    root: Seq<u8>,
    root_kind: PathKind,
    files: Seq<SourceFile>,
    k: int,
)
    requires
        0 <= k <= files.len(),
        planned_entries(root, root_kind, files.take(k)) is Err,
    ensures
        planned_entries(root, root_kind, files) == planned_entries(root, root_kind, files.take(k)),
    decreases files.len(),
{
    if k == files.len() {
        assert(files.take(k) =~= files);
    } else {
        assert(files.drop_last().take(k) =~= files.take(k));
        lemma_planned_error_stays(root, root_kind, files.drop_last(), k);
    }
}

/// Planned entries are as many as the files, and each is the planned entry
/// of its file, with a name of at least one and at most `BUFFER_SIZE` bytes.
pub proof fn lemma_planned_entries(
    root: Seq<u8>,
    root_kind: PathKind,
    files: Seq<SourceFile>,
    i: int,
)
    requires
        planned_entries(root, root_kind, files) is Ok,
        0 <= i < files.len(),
    ensures
        planned_entries(root, root_kind, files)->Ok_0.len() == files.len(),
        planned_entry(root, root_kind, files[i]) == Ok::<EntryView, ErrorView>(
            planned_entries(root, root_kind, files)->Ok_0[i],
        ),
        0 < planned_entries(root, root_kind, files)->Ok_0[i].name.len() <= BUFFER_SIZE,
    decreases files.len(),
{
    lemma_planned_len(root, root_kind, files);
    lemma_planned_len(root, root_kind, files.drop_last());
    if i < files.len() - 1 {
        lemma_planned_entries(root, root_kind, files.drop_last(), i);
    }
}

/// Makes the entry of every file: its name relative to the source `root`
/// and its size. Stops at the first file that cannot be named, or whose name
/// is empty or has more than `BUFFER_SIZE` bytes.
pub fn inner_files(root: &[u8], root_kind: PathKind, files: &Vec<SourceFile>) -> (res: Result<
    Vec<InnerFile>,
    ArchiveError,
>)
    ensures
        match planned_entries(root@, root_kind, files@) {
            Ok(entries) => res matches Ok(inners) && entries_view(inners@) == entries,
            Err(e) => res matches Err(err) && err@ == e,
        },
{
    let mut inners: Vec<InnerFile> = Vec::new();
    let mut i: usize = 0;
    proof {
        assert(files@.take(0) =~= Seq::<SourceFile>::empty());
        assert(entries_view(inners@) =~= Seq::<EntryView>::empty());
    }
    while i < files.len()
        invariant
            i <= files@.len(),
            planned_entries(root@, root_kind, files@.take(i as int)) == Ok::<
                Seq<EntryView>,
                ErrorView,
            >(entries_view(inners@)),
        decreases files@.len() - i,
    {
        proof {
            assert(files@.take(i + 1).drop_last() =~= files@.take(i as int));
            assert(files@.take(i + 1).last() == files@[i as int]);
            if planned_entries(root@, root_kind, files@.take(i + 1)) is Err {
                lemma_planned_error_stays(root@, root_kind, files@, i + 1);
            }
        }
        let path = files[i].path.as_slice();
        let relative_name = if root_kind == PathKind::File {
            match path_file_name(path) {
                Some(name) => name,
                None => {
                    return Err(path_error("Failed to get file name from path: ", root));
                },
            }
        } else {
            match path_strip_prefix(path, root) {
                Some(name) => name,
                None => {
                    return Err(ArchiveError::Path(String::from_str("prefix not found")));
                },
            }
        };
        if relative_name.len() == 0 {
            return Err(ArchiveError::EmptyFilename);
        }
        if relative_name.len() > BUFFER_SIZE {
            return Err(ArchiveError::BufferOverflow(relative_name.len()));
        }
        let file_size = files[i].content.len() as u64;
        let inner_file = InnerFile::create(relative_name, file_size, 0, 0, 0);
        let ghost before = entries_view(inners@);
        inners.push(inner_file);
        assert(entries_view(inners@) =~= before.push(inner_file@));
        i = i + 1;
    }
    proof {
        assert(files@.take(i as int) =~= files@);
    }
    Ok(inners)
}

/// `data` cut into chunks of `size` bytes, the last one shorter where the
/// length is no multiple of `size`.
pub open spec fn chunked(data: Seq<u8>, size: nat) -> Seq<Seq<u8>>
    decreases data.len(),
{
    if data.len() == 0 || size == 0 {
        Seq::empty()
    } else if data.len() <= size {
        seq![data]
    } else {
        seq![data.take(size as int)] + chunked(data.skip(size as int), size)
    }
}

/// The gzip stream that the encoder makes of `content`, given in chunks of
/// `BUFFER_SIZE` bytes; `None` where the encoder fails on it.
pub open spec fn stored_stream(content: Seq<u8>) -> Option<Seq<u8>> {
    gzip_stream(chunked(content, BUFFER_SIZE as nat))
}

/// The gzip stream that holds `content` in an archive, where the encoder
/// makes one.
pub open spec fn payload_of(content: Seq<u8>) -> Seq<u8>
    recommends
        stored_stream(content) is Some,
{
    stored_stream(content)->Some_0
}

/// The chunks of `data` in a row are `data`.
pub proof fn lemma_chunked_flatten(data: Seq<u8>, size: nat)
    requires
        size > 0,
    ensures
        chunked(data, size).flatten() == data,
    decreases data.len(),
{
    if data.len() == 0 {
        assert(chunked(data, size).flatten() =~= data);
    } else if data.len() <= size {
        let one = seq![data];
        assert(one.drop_first() =~= Seq::<Seq<u8>>::empty());
        assert(one.drop_first().flatten() =~= Seq::<u8>::empty());
        assert(one.flatten() =~= data);
    } else {
        let rest = chunked(data.skip(size as int), size);
        let all = seq![data.take(size as int)] + rest;
        lemma_chunked_flatten(data.skip(size as int), size);
        assert(all.drop_first() =~= rest);
        assert(all.first() == data.take(size as int));
        assert(all.flatten() =~= data.take(size as int) + data.skip(size as int));
        assert(data.take(size as int) + data.skip(size as int) =~= data);
    }
}

fn compress_error() -> (e: ArchiveError)
    ensures
        e@ == ErrorView::Io(uncompressible_text()),
{
    ArchiveError::Io(String::from_str("failed to encode the compressed stream"))
}

/// Reads `reader` to its end in chunks of at most `BUFFER_SIZE` bytes, adds
/// every chunk to `checksum` and hands it to `encoder`, whose output goes to
/// `hasher_writer` as it comes. On success `hasher_writer` has written the
/// whole gzip stream of what was read. It fails where the encoder does, which
/// depends on what is read alone.
pub(crate) fn compress_file_content(
    reader: &mut ArchiveReader,
    encoder: Encoder,
    checksum: &mut Crc,
    hasher_writer: &mut HasherWriter,
) -> (res: Result<(), ArchiveError>)
    requires
        old(hasher_writer).wf(),
        encoder_chunks(encoder) == Seq::<Seq<u8>>::empty(),
        encoder_emitted(encoder) == Seq::<u8>::empty(),
    ensures
        final(hasher_writer).wf(),
        res is Ok <==> stored_stream(old(reader).remaining()) is Some,
        match res {
            Ok(()) => {
                let content = old(reader).remaining();
                let payload = payload_of(content);
                &&& gunzip(payload) == Some(content)
                &&& final(reader).remaining() == Seq::<u8>::empty()
                &&& final(reader).position() == old(reader).position() + content.len()
                &&& absorbed(*final(checksum)) == absorbed(*old(checksum)) + content
                &&& final(hasher_writer).hashed() == old(hasher_writer).hashed() + payload
                &&& final(hasher_writer).counted() == old(hasher_writer).counted() + payload.len()
                &&& final(hasher_writer).sink().bytes() == overwrite(
                    old(hasher_writer).sink().bytes(),
                    old(hasher_writer).sink().position() as int,
                    payload,
                )
                &&& final(hasher_writer).sink().position() == old(
                    hasher_writer,
                ).sink().position() + payload.len()
            },
            Err(e) => e@ == ErrorView::Io(uncompressible_text()),
        },
{
    let mut encoder = encoder;
    let ghost content = reader.remaining();
    let ghost start = reader.position();
    let ghost sum0 = absorbed(*checksum);
    let ghost hashed0 = hasher_writer.hashed();
    let ghost counted0 = hasher_writer.counted();
    let ghost sink0 = hasher_writer.sink().bytes();
    let ghost at0 = hasher_writer.sink().position() as int;
    let ghost mut done: int = 0;
    proof {
        assert(content.skip(0) =~= content);
        assert(content.take(0) =~= Seq::<u8>::empty());
        assert(sum0 + content.take(0) =~= sum0);
        assert(hashed0 + Seq::<u8>::empty() =~= hashed0);
        assert(Seq::<Seq<u8>>::empty() + chunked(content, BUFFER_SIZE as nat) =~= chunked(
            content,
            BUFFER_SIZE as nat,
        ));
    }
    loop
        invariant
            hasher_writer.wf(),
            0 <= at0,
            0 <= done <= content.len(),
            content == old(reader).remaining(),
            reader.remaining() == content.skip(done),
            reader.position() == start + done,
            absorbed(*checksum) == sum0 + content.take(done),
            chunked(content, BUFFER_SIZE as nat) == encoder_chunks(encoder) + chunked(
                content.skip(done),
                BUFFER_SIZE as nat,
            ),
            hasher_writer.hashed() == hashed0 + encoder_emitted(encoder),
            hasher_writer.counted() == counted0 + encoder_emitted(encoder).len(),
            hasher_writer.sink().bytes() == overwrite(sink0, at0, encoder_emitted(encoder)),
            hasher_writer.sink().position() == at0 + encoder_emitted(encoder).len(),
        ensures
            hasher_writer.wf(),
            0 <= at0,
            done == content.len(),
            reader.remaining() == Seq::<u8>::empty(),
            reader.position() == start + done,
            absorbed(*checksum) == sum0 + content,
            chunked(content, BUFFER_SIZE as nat) == encoder_chunks(encoder),
            hasher_writer.hashed() == hashed0 + encoder_emitted(encoder),
            hasher_writer.counted() == counted0 + encoder_emitted(encoder).len(),
            hasher_writer.sink().bytes() == overwrite(sink0, at0, encoder_emitted(encoder)),
            hasher_writer.sink().position() == at0 + encoder_emitted(encoder).len(),
        decreases content.len() - done,
    {
        let ghost left = content.skip(done);
        let chunk = reader.read(BUFFER_SIZE);
        let bytes = chunk.len();
        if bytes == 0 {
            proof {
                assert(left =~= Seq::<u8>::empty());
                assert(content.take(done) =~= content);
                assert(encoder_chunks(encoder) + Seq::<Seq<u8>>::empty() =~= encoder_chunks(
                    encoder,
                ));
            }
            break ;
        }
        checksum.update(chunk);
        let ghost emitted = encoder_emitted(encoder);
        let ghost fed = encoder_chunks(encoder);
        let ghost rest = chunked(left.skip(bytes as int), BUFFER_SIZE as nat);
        proof {
            assert(chunked(left, BUFFER_SIZE as nat) =~= seq![chunk@] + rest) by {
                if left.len() <= BUFFER_SIZE {
                    assert(chunk@ =~= left);
                    assert(left.skip(bytes as int) =~= Seq::<u8>::empty());
                }
            }
            assert(fed.push(chunk@) + rest =~= fed + (seq![chunk@] + rest));
        }
        match encoder_write(&mut encoder, chunk) {
            Ok(out) => {
                hasher_writer.write(out.as_slice());
                proof {
                    assert(hashed0 + emitted + out@ =~= hashed0 + (emitted + out@));
                    lemma_overwrite_twice(sink0, at0, emitted, out@);
                }
            },
            Err(_) => {
                assert(gzip_stream(fed.push(chunk@) + rest) is None);
                return Err(compress_error());
            },
        }
        proof {
            assert(left.skip(bytes as int) =~= content.skip(done + bytes));
            assert(sum0 + content.take(done) + chunk@ =~= sum0 + content.take(done + bytes));
            done = done + bytes;
        }
    }
    let ghost emitted = encoder_emitted(encoder);
    match encoder_finish(encoder) {
        Ok(out) => {
            hasher_writer.write(out.as_slice());
            proof {
                assert(hashed0 + emitted + out@ =~= hashed0 + (emitted + out@));
                lemma_overwrite_twice(sink0, at0, emitted, out@);
                lemma_chunked_flatten(content, BUFFER_SIZE as nat);
            }
            Ok(())
        },
        Err(_) => Err(compress_error()),
    }
}

/// Compresses `content` into `hasher_writer`. Returns the number of bytes
/// that `hasher_writer` has counted, which is the length of the gzip stream
/// where the count stood at zero, then the checksum of `content` and the
/// checksum of all that `hasher_writer` has written. It fails where the
/// encoder fails on `content`, and only there.
pub fn process_single_file(content: &[u8], hasher_writer: &mut HasherWriter) -> (res: Result<
    (u64, (u32, u32)),
    ArchiveError,
>)
    requires
        old(hasher_writer).wf(),
    ensures
        final(hasher_writer).wf(),
        res is Ok <==> stored_stream(content@) is Some,
        match res {
            Ok((size, (original_checksum, compressed_checksum))) => {
                let payload = payload_of(content@);
                &&& gunzip(payload) == Some(content@)
                &&& size == old(hasher_writer).counted() + payload.len()
                &&& original_checksum == crc32(content@)
                &&& compressed_checksum == crc32(old(hasher_writer).hashed() + payload)
                &&& final(hasher_writer).hashed() == old(hasher_writer).hashed() + payload
                &&& final(hasher_writer).counted() == 0
                &&& final(hasher_writer).sink().bytes() == overwrite(
                    old(hasher_writer).sink().bytes(),
                    old(hasher_writer).sink().position() as int,
                    payload,
                )
                &&& final(hasher_writer).sink().position() == old(
                    hasher_writer,
                ).sink().position() + payload.len()
            },
            Err(e) => e@ == ErrorView::Io(uncompressible_text()),
        },
{
    let mut reader = ArchiveReader::new(content);
    let mut original_checksum = Crc::new();
    let encoder = encoder_new();
    match compress_file_content(&mut reader, encoder, &mut original_checksum, hasher_writer) {
        Ok(()) => {},
        Err(e) => { return Err(e); },
    }
    assert(Seq::<u8>::empty() + content@ =~= content@);
    let size = hasher_writer.take_written_bytes();
    let original_checksum = original_checksum.sum();
    let compressed_checksum = hasher_writer.sum();
    Ok((size, (original_checksum, compressed_checksum)))
}

/// The entries `entries` as they are written from position `start` on, each
/// with its position and followed by the gzip stream of its content.
pub open spec fn written_blocks(entries: Seq<EntryView>, contents: Seq<Seq<u8>>, start: nat) -> Seq<
    Block,
>
    recommends
        entries.len() == contents.len(),
    decreases entries.len(),
{
    if entries.len() == 0 {
        Seq::empty()
    } else {
        let before = written_blocks(entries.drop_last(), contents.drop_last(), start);
        before.push(
            Block {
                record: EntryView {
                    position: (start + blocks_bytes(before).len()) as u64,
                    ..entries.last()
                },
                payload: payload_of(contents.last()),
            },
        )
    }
}

/// `written_blocks` has one block for each entry.
pub proof fn lemma_written_blocks_len(entries: Seq<EntryView>, contents: Seq<Seq<u8>>, start: nat)
    ensures
        written_blocks(entries, contents, start).len() == entries.len(),
    decreases entries.len(),
{
    if entries.len() > 0 {
        lemma_written_blocks_len(entries.drop_last(), contents.drop_last(), start);
    }
}

/// The blocks of the first `k` entries are the first `k` blocks.
pub proof fn lemma_written_blocks_take(
    entries: Seq<EntryView>,
    contents: Seq<Seq<u8>>,
    start: nat,
    k: int,
)
    requires
        entries.len() == contents.len(),
        0 <= k <= entries.len(),
    ensures
        written_blocks(entries.take(k), contents.take(k), start) == written_blocks(
            entries,
            contents,
            start,
        ).take(k),
    decreases entries.len(),
{
    lemma_written_blocks_len(entries, contents, start);
    if k == entries.len() {
        assert(entries.take(k) =~= entries);
        assert(contents.take(k) =~= contents);
        assert(written_blocks(entries, contents, start).take(k) =~= written_blocks(
            entries,
            contents,
            start,
        ));
    } else {
        lemma_written_blocks_take(entries.drop_last(), contents.drop_last(), start, k);
        lemma_written_blocks_len(entries.drop_last(), contents.drop_last(), start);
        assert(entries.drop_last().take(k) =~= entries.take(k));
        assert(contents.drop_last().take(k) =~= contents.take(k));
        assert(written_blocks(entries, contents, start).take(k) =~= written_blocks(
            entries.drop_last(),
            contents.drop_last(),
            start,
        ).take(k));
    }
}

/// Every block of `written_blocks` is its entry, at the position where the
/// blocks before it end, with the gzip stream of its content.
pub proof fn lemma_written_block_at(
    entries: Seq<EntryView>,
    contents: Seq<Seq<u8>>,
    start: nat,
    i: int,
)
    requires
        entries.len() == contents.len(),
        0 <= i < entries.len(),
    ensures
        written_blocks(entries, contents, start).len() == entries.len(),
        written_blocks(entries, contents, start)[i] == (Block {
            record: EntryView {
                position: (start + blocks_bytes(
                    written_blocks(entries, contents, start).take(i),
                ).len()) as u64,
                ..entries[i]
            },
            payload: payload_of(contents[i]),
        }),
{
    let all = written_blocks(entries, contents, start);
    lemma_written_blocks_len(entries, contents, start);
    lemma_written_blocks_take(entries, contents, start, i);
    lemma_written_blocks_take(entries, contents, start, i + 1);
    assert(entries.take(i + 1).drop_last() =~= entries.take(i));
    assert(contents.take(i + 1).drop_last() =~= contents.take(i));
    assert(entries.take(i + 1).last() == entries[i]);
    assert(contents.take(i + 1).last() == contents[i]);
    assert(all.take(i + 1).last() == all[i]);
}

/// Why writing `entries` with the contents `contents` stops, if it does: at
/// the first entry whose name has more than `BUFFER_SIZE` bytes, or on whose
/// content the encoder fails.
pub open spec fn writing_failure(entries: Seq<EntryView>, contents: Seq<Seq<u8>>) -> Option<
    ErrorView,
>
    recommends
        entries.len() == contents.len(),
    decreases entries.len(),
{
    if entries.len() == 0 {
        None
    } else {
        match writing_failure(entries.drop_last(), contents.drop_last()) {
            Some(e) => Some(e),
            None => if entries.last().name.len() > BUFFER_SIZE {
                Some(ErrorView::BufferOverflow(entries.last().name.len() as usize))
            } else if stored_stream(contents.last()) is None {
                Some(ErrorView::Io(uncompressible_text()))
            } else {
                None
            },
        }
    }
}

/// A failure among the first `k` entries is the failure of all of them.
pub proof fn lemma_writing_failure_stays(
    entries: Seq<EntryView>,
    contents: Seq<Seq<u8>>,
    k: int,
)
    requires
        entries.len() == contents.len(),
        0 <= k <= entries.len(),
        writing_failure(entries.take(k), contents.take(k)) is Some,
    ensures
        writing_failure(entries, contents) == writing_failure(entries.take(k), contents.take(k)),
    decreases entries.len(),
{
    if k == entries.len() {
        assert(entries.take(k) =~= entries);
        assert(contents.take(k) =~= contents);
    } else {
        assert(entries.drop_last().take(k) =~= entries.take(k));
        assert(contents.drop_last().take(k) =~= contents.take(k));
        lemma_writing_failure_stays(entries.drop_last(), contents.drop_last(), k);
    }
}

/// Whether the encoder makes a stream of every content.
pub open spec fn all_compressible(contents: Seq<Seq<u8>>) -> bool {
    forall|i: int| 0 <= i < contents.len() ==> stored_stream(#[trigger] contents[i]) is Some
}

/// Entries whose names all fit are written unless the encoder fails on one
/// of the contents, and then that is what the failure says.
pub proof fn lemma_writing_failure_of_fitting_names(
    entries: Seq<EntryView>,
    contents: Seq<Seq<u8>>,
)
    requires
        entries.len() == contents.len(),
        forall|i: int| 0 <= i < entries.len() ==> (#[trigger] entries[i]).name.len()
            <= BUFFER_SIZE,
    ensures
        writing_failure(entries, contents) == if all_compressible(contents) {
            None
        } else {
            Some(ErrorView::Io(uncompressible_text()))
        },
    decreases entries.len(),
{
    if entries.len() > 0 {
        let init = entries.drop_last();
        let before = contents.drop_last();
        assert forall|i: int| 0 <= i < init.len() implies (#[trigger] init[i]).name.len()
            <= BUFFER_SIZE by {
            assert(init[i] == entries[i]);
        }
        lemma_writing_failure_of_fitting_names(init, before);
        assert(entries.last() == entries[entries.len() - 1]);
        assert(contents.last() == contents[contents.len() - 1]);
        if all_compressible(contents) {
            assert forall|i: int| 0 <= i < before.len() implies stored_stream(
                #[trigger] before[i],
            ) is Some by {
                assert(before[i] == contents[i]);
            }
        } else if all_compressible(before) {
            assert(stored_stream(contents.last()) is None) by {
                if stored_stream(contents.last()) is Some {
                    assert forall|i: int| 0 <= i < contents.len() implies stored_stream(
                        #[trigger] contents[i],
                    ) is Some by {
                        if i < before.len() {
                            assert(before[i] == contents[i]);
                        }
                    }
                }
            }
        }
    }
}

/// Writes every entry of `inners` at the sink's position: its record as it
/// stands, then the content of the file at the same place in `files` as a
/// gzip stream. Each entry learns its position. Returns, entry by entry, the
/// position of the compressed size in the record, the length of the gzip
/// stream, and the checksums of the content and of the gzip stream. Stops at
/// the first entry whose name has more than `BUFFER_SIZE` bytes or on whose
/// content the encoder fails, and says which of the two it was.
pub fn process_files(inners: &mut Vec<InnerFile>, files: &Vec<SourceFile>, writer: &mut ArchiveSink) -> (res:
    Result<(Vec<u64>, Vec<u64>, Vec<(u32, u32)>), ArchiveError>)
    requires
        old(inners)@.len() == files@.len(),
    ensures
        final(inners)@.len() == files@.len(),
        match writing_failure(entries_view(old(inners)@), contents_view(files@)) {
            Some(e) => res matches Err(err) && err@ == e,
            None => res is Ok,
        },
        match res {
            Ok((temp_offsets, compressed_sizes, checksums)) => {
                let blocks = written_blocks(
                    entries_view(old(inners)@),
                    contents_view(files@),
                    old(writer).position(),
                );
                &&& final(writer).bytes() == overwrite(
                    old(writer).bytes(),
                    old(writer).position() as int,
                    blocks_bytes(blocks),
                )
                &&& final(writer).position() == old(writer).position() + blocks_bytes(blocks).len()
                &&& temp_offsets@.len() == files@.len()
                &&& compressed_sizes@.len() == files@.len()
                &&& checksums@.len() == files@.len()
                &&& forall|i: int|
                    #![trigger blocks[i]]
                    0 <= i < files@.len() ==> {
                        &&& final(inners)@[i]@ == blocks[i].record
                        &&& blocks[i].record.name.len() <= BUFFER_SIZE
                        &&& temp_offsets@[i] == blocks[i].record.position + 12
                            + blocks[i].record.name.len()
                        &&& compressed_sizes@[i] == blocks[i].payload.len()
                        &&& checksums@[i] == (
                            crc32(files@[i].content@),
                            crc32(blocks[i].payload),
                        )
                        &&& gunzip(blocks[i].payload) == Some(files@[i].content@)
                    }
            },
            Err(e) => true,
        },
{
    let mut temp_offsets: Vec<u64> = Vec::new();
    let mut compressed_sizes: Vec<u64> = Vec::new();
    let mut checksums: Vec<(u32, u32)> = Vec::new();
    let ghost entries = entries_view(inners@);
    let ghost contents = contents_view(files@);
    let ghost sink0 = writer.bytes();
    let ghost at0 = writer.position();
    let ghost all = written_blocks(entries, contents, at0);
    let n = files.len();
    let mut i: usize = 0;
    proof {
        lemma_written_blocks_len(entries, contents, at0);
        assert(all.take(0) =~= Seq::<Block>::empty());
    }
    while i < n
        invariant
            i <= n,
            n == files@.len(),
            inners@.len() == n,
            entries == entries_view(old(inners)@),
            contents == contents_view(files@),
            entries.len() == n,
            contents.len() == n,
            all == written_blocks(entries, contents, at0),
            all.len() == n,
            writing_failure(entries.take(i as int), contents.take(i as int)) is None,
            writer.bytes() == overwrite(sink0, at0 as int, blocks_bytes(all.take(i as int))),
            writer.position() == at0 + blocks_bytes(all.take(i as int)).len(),
            temp_offsets@.len() == i,
            compressed_sizes@.len() == i,
            checksums@.len() == i,
            forall|j: int| i <= j < n ==> (#[trigger] inners@[j])@ == entries[j],
            forall|j: int|
                #![trigger all[j]]
                0 <= j < i ==> {
                    &&& inners@[j]@ == all[j].record
                    &&& all[j].record.name.len() <= BUFFER_SIZE
                    &&& temp_offsets@[j] == all[j].record.position + 12 + all[j].record.name.len()
                    &&& compressed_sizes@[j] == all[j].payload.len()
                    &&& checksums@[j] == (crc32(files@[j].content@), crc32(all[j].payload))
                    &&& gunzip(all[j].payload) == Some(files@[j].content@)
                },
        decreases n - i,
    {
        let ghost done = blocks_bytes(all.take(i as int));
        proof {
            lemma_written_blocks_take(entries, contents, at0, i as int);
            lemma_written_blocks_take(entries, contents, at0, i + 1);
            assert(entries.take(i + 1).drop_last() =~= entries.take(i as int));
            assert(contents.take(i + 1).drop_last() =~= contents.take(i as int));
            assert(all.take(i + 1).drop_last() =~= all.take(i as int));
            assert(all.take(i + 1).last() == all[i as int]);
            assert(entries.take(i + 1).last() == entries[i as int]);
            assert(contents.take(i + 1).last() == files@[i as int].content@);
        }
        let offset = match inners[i].write_metadata(writer) {
            Ok(offset) => offset,
            Err(e) => {
                proof {
                    assert(old(inners)@[i as int]@ == entries[i as int]);
                    lemma_writing_failure_stays(entries, contents, i + 1);
                }
                return Err(e);
            },
        };
        let ghost record = inners@[i as int]@;
        assert(record == all[i as int].record);
        let hasher = Crc::new();
        let mut sink = ArchiveSink::new();
        core::mem::swap(writer, &mut sink);
        let mut hasher_writer = HasherWriter::new(sink, hasher);
        let (size, (original_checksum, compressed_checksum)) = match process_single_file(
            files[i].content.as_slice(),
            &mut hasher_writer,
        ) {
            Ok(sums) => sums,
            Err(e) => {
                proof {
                    lemma_writing_failure_stays(entries, contents, i + 1);
                }
                return Err(e);
            },
        };
        let mut sink = hasher_writer.into_inner();
        core::mem::swap(writer, &mut sink);
        temp_offsets.push(offset);
        compressed_sizes.push(size);
        checksums.push((original_checksum, compressed_checksum));
        proof {
            let payload = payload_of(files@[i as int].content@);
            lemma_metadata_len(entries[i as int]);
            assert(Seq::<u8>::empty() + payload =~= payload);
            assert(all[i as int].payload == payload);
            lemma_overwrite_twice(sink0, at0 as int, done, metadata_bytes(entries[i as int]));
            lemma_overwrite_twice(
                sink0,
                at0 as int,
                done + metadata_bytes(entries[i as int]),
                payload,
            );
            assert(metadata_bytes(entries[i as int]) =~= metadata_bytes(record));
            assert(done + metadata_bytes(record) + payload =~= done + block_bytes(all[i as int]));
            assert(blocks_bytes(all.take(i + 1)) == done + block_bytes(all[i as int]));
        }
        i = i + 1;
    }
    proof {
        assert(all.take(i as int) =~= all);
        assert(entries.take(i as int) =~= entries);
        assert(contents.take(i as int) =~= contents);
    }
    Ok((temp_offsets, compressed_sizes, checksums))
}

/// Completes what was written with zeros in the place of what was not known
/// yet: the sink's position goes into the header as the start of the index,
/// and every record gets its compressed size and its checksums at the offset
/// given for it. The sink ends at the position that it started from. An
/// offset that no `usize` holds is refused.
pub fn rewrite_temp_fields(
    writer: &mut ArchiveSink,
    temp_offsets: Vec<u64>,
    compressed_sizes: Vec<u64>,
    checksums: Vec<(u32, u32)>,
) -> (res: Result<(), ArchiveError>)
    requires
        temp_offsets@.len() == compressed_sizes@.len(),
        temp_offsets@.len() == checksums@.len(),
    ensures
        match res {
            Ok(()) => {
                &&& forall|i: int| 0 <= i < temp_offsets@.len() ==> temp_offsets@[i] <= usize::MAX
                &&& final(writer).bytes() == patched(
                    overwrite(
                        old(writer).bytes(),
                        INDEX_OFFSET_POSITION as int,
                        spec_u64_to_le_bytes(old(writer).position() as u64),
                    ),
                    temp_offsets@,
                    compressed_sizes@,
                    checksums@,
                )
                &&& final(writer).position() == old(writer).position()
            },
            Err(e) => {
                &&& e@ == ErrorView::TryFromInt(out_of_range_text())
                &&& exists|i: int| 0 <= i < temp_offsets@.len() && temp_offsets@[i] > usize::MAX
            },
        },
{
    let end = writer.stream_position();
    match writer.seek(INDEX_OFFSET_POSITION) {
        Ok(_) => {},
        Err(e) => { return Err(e); },
    }
    let field = u64_to_le_bytes(end);
    writer.write_all(field.as_slice());
    writer.flush();
    let ghost headed = writer.bytes();
    let n = temp_offsets.len();
    let mut i: usize = 0;
    proof {
        assert(temp_offsets@.take(0) =~= Seq::<u64>::empty());
    }
    while i < n
        invariant
            i <= n,
            n == temp_offsets@.len(),
            n == compressed_sizes@.len(),
            n == checksums@.len(),
            forall|j: int| 0 <= j < i ==> temp_offsets@[j] <= usize::MAX,
            writer.bytes() == patched(
                headed,
                temp_offsets@.take(i as int),
                compressed_sizes@.take(i as int),
                checksums@.take(i as int),
            ),
        decreases n - i,
    {
        let position = temp_offsets[i];
        match writer.seek(position) {
            Ok(_) => {},
            Err(e) => { return Err(e); },
        }
        let size = compressed_sizes[i];
        let checksum = checksums[i];
        let mut patch = u64_to_le_bytes(size);
        let mut field = u32_to_le_bytes(checksum.0);
        patch.append(&mut field);
        let mut field = u32_to_le_bytes(checksum.1);
        patch.append(&mut field);
        writer.write_all(patch.as_slice());
        writer.flush();
        proof {
            assert(patch@ =~= patch_bytes(size, checksum));
            assert(temp_offsets@.take(i + 1).drop_last() =~= temp_offsets@.take(i as int));
            assert(compressed_sizes@.take(i + 1).drop_last() =~= compressed_sizes@.take(i as int));
            assert(checksums@.take(i + 1).drop_last() =~= checksums@.take(i as int));
        }
        i = i + 1;
    }
    proof {
        assert(temp_offsets@.take(i as int) =~= temp_offsets@);
        assert(compressed_sizes@.take(i as int) =~= compressed_sizes@);
        assert(checksums@.take(i as int) =~= checksums@);
    }
    match writer.seek(end) {
        Ok(_) => {},
        Err(e) => { return Err(e); },
    }
    Ok(())
}

/// Writes the index at the sink's position.
pub fn write_index_array(writer: &mut ArchiveSink, inners: &Vec<InnerFile>)
    ensures
        final(writer).bytes() == overwrite(
            old(writer).bytes(),
            old(writer).position() as int,
            index_bytes(entries_view(inners@)),
        ),
        final(writer).position() == old(writer).position() + index_bytes(
            entries_view(inners@),
        ).len(),
{
    let ghost sink0 = writer.bytes();
    let ghost at0 = writer.position() as int;
    let ghost all = entries_view(inners@);
    let mut i: usize = 0;
    proof {
        assert(all.take(0) =~= Seq::<EntryView>::empty());
    }
    while i < inners.len()
        invariant
            i <= inners@.len(),
            0 <= at0,
            all == entries_view(inners@),
            writer.bytes() == overwrite(sink0, at0, index_bytes(all.take(i as int))),
            writer.position() == at0 + index_bytes(all.take(i as int)).len(),
        decreases inners@.len() - i,
    {
        let position = inners[i].position();
        let field = u64_to_le_bytes(position);
        writer.write_all(field.as_slice());
        proof {
            assert(all.take(i + 1).drop_last() =~= all.take(i as int));
            assert(all.take(i + 1).last() == inners@[i as int]@);
            lemma_overwrite_twice(sink0, at0, index_bytes(all.take(i as int)), field@);
        }
        i = i + 1;
    }
    proof {
        assert(all.take(i as int) =~= all);
    }
}

/// The block `block` of the file with the content `content`, with the
/// length of its gzip stream and the two checksums in its record.
pub open spec fn completed(block: Block, content: Seq<u8>) -> Block {
    patched_block(block, block.payload.len() as u64, (crc32(content), crc32(block.payload)))
}

/// The blocks of an archive that holds the files with the contents
/// `contents` under the names and sizes that `entries` give.
pub open spec fn packed_blocks(entries: Seq<EntryView>, contents: Seq<Seq<u8>>) -> Seq<Block> {
    let written = written_blocks(entries, contents, HEADER_LEN as nat);
    Seq::new(written.len(), |i: int| completed(written[i], contents[i]))
}

/// The entries that an archive of `files` is made of; or the error for a
/// source that is neither a file nor a directory, for more files than a `u32`
/// counts, or for the first file that cannot be named, in this order.
pub open spec fn pack_plan(source: Seq<u8>, source_kind: PathKind, files: Seq<SourceFile>) -> Result<
    Seq<EntryView>,
    ErrorView,
> {
    if source_kind != PathKind::File && source_kind != PathKind::Directory {
        Err(ErrorView::Path(invalid_source_text(normalized_path(source))))
    } else if files.len() > u32::MAX {
        Err(ErrorView::TryFromInt(out_of_range_text()))
    } else {
        planned_entries(source, source_kind, files)
    }
}

/// The index offset, written into a header that held zero in its place,
/// changes the header and nothing behind it.
pub proof fn lemma_header_patched(count: u32, index_offset: u64, body: Seq<u8>)
    ensures
        header_bytes(count, index_offset).len() == HEADER_LEN,
        overwrite(
            header_bytes(count, 0) + body,
            INDEX_OFFSET_POSITION as int,
            spec_u64_to_le_bytes(index_offset),
        ) == header_bytes(count, index_offset) + body,
{
    lemma_auto_spec_u32_to_from_le_bytes();
    lemma_auto_spec_u64_to_from_le_bytes();
    let front = SIGNATURE@ + VERSION@ + spec_u32_to_le_bytes(count);
    assert(header_bytes(count, 0) + body =~= front + spec_u64_to_le_bytes(0) + body);
    lemma_overwrite_middle(front, spec_u64_to_le_bytes(0), spec_u64_to_le_bytes(index_offset), body);
    assert(front + spec_u64_to_le_bytes(index_offset) + body =~= header_bytes(count, index_offset)
        + body);
}

/// The offsets that the first pass returns are the places of the compressed
/// sizes in the records, and each is a number that a `usize` holds.
pub proof fn lemma_written_offsets(
    entries: Seq<EntryView>,
    contents: Seq<Seq<u8>>,
    offsets: Seq<u64>,
    end: nat,
)
    requires
        entries.len() == contents.len(),
        offsets.len() == entries.len(),
        end == HEADER_LEN + blocks_bytes(written_blocks(entries, contents, HEADER_LEN as nat)).len(),
        end <= usize::MAX,
        forall|i: int|
            #![trigger written_blocks(entries, contents, HEADER_LEN as nat)[i]]
            0 <= i < entries.len() ==> {
                let block = written_blocks(entries, contents, HEADER_LEN as nat)[i];
                offsets[i] == block.record.position + 12 + block.record.name.len()
            },
    ensures
        offsets_fit(
            HEADER_LEN as nat,
            written_blocks(entries, contents, HEADER_LEN as nat),
            offsets,
        ),
        forall|i: int| 0 <= i < offsets.len() ==> #[trigger] offsets[i] <= usize::MAX,
{
    let open = written_blocks(entries, contents, HEADER_LEN as nat);
    lemma_written_blocks_len(entries, contents, HEADER_LEN as nat);
    assert forall|i: int| 0 <= i < entries.len() implies #[trigger] offsets[i] == HEADER_LEN
        + blocks_bytes(open.take(i)).len() + 12 + open[i].record.name.len() && offsets[i]
        <= usize::MAX by {
        lemma_written_block_at(entries, contents, HEADER_LEN as nat, i);
        lemma_blocks_split(open, i);
        lemma_blocks_first(open.skip(i));
        lemma_metadata_len(open[i].record);
        assert(open.skip(i)[0] == open[i]);
    }
}

/// What the first pass wrote, with the index offset and the patches of the
/// second pass in place, is the header and the blocks of the archive.
pub proof fn lemma_patched_archive(
    count: u32,
    entries: Seq<EntryView>,
    contents: Seq<Seq<u8>>,
    offsets: Seq<u64>,
    sizes: Seq<u64>,
    checksums: Seq<(u32, u32)>,
    end: nat,
)
    requires
        entries.len() == contents.len(),
        offsets.len() == entries.len(),
        sizes.len() == entries.len(),
        checksums.len() == entries.len(),
        end == HEADER_LEN + blocks_bytes(written_blocks(entries, contents, HEADER_LEN as nat)).len(),
        end <= usize::MAX,
        forall|i: int|
            #![trigger written_blocks(entries, contents, HEADER_LEN as nat)[i]]
            0 <= i < entries.len() ==> {
                let block = written_blocks(entries, contents, HEADER_LEN as nat)[i];
                &&& offsets[i] == block.record.position + 12 + block.record.name.len()
                &&& sizes[i] == block.payload.len()
                &&& checksums[i] == (crc32(contents[i]), crc32(block.payload))
            },
    ensures
        packed_blocks(entries, contents).len() == entries.len(),
        blocks_bytes(packed_blocks(entries, contents)).len() == blocks_bytes(
            written_blocks(entries, contents, HEADER_LEN as nat),
        ).len(),
        forall|i: int| 0 <= i < offsets.len() ==> #[trigger] offsets[i] <= usize::MAX,
        patched(
            overwrite(
                header_bytes(count, 0) + blocks_bytes(
                    written_blocks(entries, contents, HEADER_LEN as nat),
                ),
                INDEX_OFFSET_POSITION as int,
                spec_u64_to_le_bytes(end as u64),
            ),
            offsets,
            sizes,
            checksums,
        ) == header_bytes(count, end as u64) + blocks_bytes(packed_blocks(entries, contents)),
{
    let n = entries.len() as int;
    let open = written_blocks(entries, contents, HEADER_LEN as nat);
    let closed = packed_blocks(entries, contents);
    let header1 = header_bytes(count, end as u64);
    lemma_written_blocks_len(entries, contents, HEADER_LEN as nat);
    lemma_header_patched(count, end as u64, blocks_bytes(open));
    lemma_written_offsets(entries, contents, offsets, end);
    lemma_patch_blocks(header1, open, offsets, sizes, checksums, n);
    let done = patched_blocks(open, sizes, checksums);
    assert(offsets.take(n) =~= offsets);
    assert(sizes.take(n) =~= sizes);
    assert(checksums.take(n) =~= checksums);
    assert(done.take(n) =~= done);
    assert(open.skip(n) =~= Seq::<Block>::empty());
    assert(header1 + blocks_bytes(done) + blocks_bytes(open.skip(n)) =~= header1 + blocks_bytes(
        done,
    ));
    assert(done =~= closed);
    assert(same_shape(closed, open));
    lemma_same_shape_len(closed, open);
}

/// The index of entries that stand at the positions of the written blocks
/// is the index of the archive.
pub proof fn lemma_packed_index(
    inners: Seq<EntryView>,
    entries: Seq<EntryView>,
    contents: Seq<Seq<u8>>,
)
    requires
        entries.len() == contents.len(),
        inners.len() == entries.len(),
        forall|i: int|
            #![trigger written_blocks(entries, contents, HEADER_LEN as nat)[i]]
            0 <= i < entries.len() ==> inners[i] == written_blocks(
                entries,
                contents,
                HEADER_LEN as nat,
            )[i].record,
    ensures
        index_bytes(inners) == index_bytes(records_of(packed_blocks(entries, contents))),
{
    let open = written_blocks(entries, contents, HEADER_LEN as nat);
    let closed = records_of(packed_blocks(entries, contents));
    lemma_written_blocks_len(entries, contents, HEADER_LEN as nat);
    assert forall|i: int| 0 <= i < inners.len() implies (#[trigger] inners[i]).position
        == closed[i].position by {
        assert(inners[i] == open[i].record);
    }
    lemma_index_of_positions(inners, closed);
}

/// Makes the archive of `files`, which were found at or below `source`; the
/// entries stand in the order of `files`. `source_kind` is what the file
/// system holds at `source`. Which files make no archive is decided before
/// anything is compressed: a source that is neither a file nor a directory,
/// more files than a `u32` counts, a file that cannot be named relative to the
/// source, an empty name, a name of more than `BUFFER_SIZE` bytes. For all
/// others the archive is made unless the encoder fails on one of the
/// contents. Every gzip stream in the archive decodes to the content that it
/// was made of: where the names stay below the extraction directory,
/// unpacking the archive gives the files back.
pub fn pack(source: &[u8], source_kind: PathKind, files: &Vec<SourceFile>) -> (res: Result<
    Vec<u8>,
    ArchiveError,
>)
    ensures
        match pack_plan(source@, source_kind, files@) {
            Err(e) => res matches Err(err) && err@ == e,
            Ok(entries) => {
                &&& res is Ok <==> all_compressible(contents_view(files@))
                &&& match res {
                    Ok(bytes) => {
                        let blocks = packed_blocks(entries, contents_view(files@));
                        &&& bytes@ == archive_bytes(blocks)
                        &&& blocks.len() == files@.len()
                        &&& forall|i: int|
                            #![trigger blocks[i]]
                            0 <= i < blocks.len() ==> gunzip(blocks[i].payload) == Some(
                                files@[i].content@,
                            )
                        &&& names_confined(entries) ==> unpacks_to(
                            bytes@,
                            stored_files(entries, contents_view(files@)),
                        )
                    },
                    Err(err) => err@ == ErrorView::Io(uncompressible_text()),
                }
            },
        },
{
    if source_kind != PathKind::File && source_kind != PathKind::Directory {
        let normalized = normalize_path(source);
        return Err(path_error("Invalid source destination at path: ", normalized.as_slice()));
    }
    if files.len() > u32::MAX as usize {
        return Err(
            ArchiveError::TryFromInt(
                String::from_str("out of range integral type conversion attempted"),
            ),
        );
    }
    let count = files.len() as u32;
    let mut writer = ArchiveSink::new();
    writer.write_all(SIGNATURE.as_slice());
    writer.write_all(VERSION.as_slice());
    let field = u32_to_le_bytes(count);
    writer.write_all(field.as_slice());
    let field = u64_to_le_bytes(0);
    writer.write_all(field.as_slice());
    proof {
        lemma_header_written(count, 0);
    }
    let mut inners = match inner_files(source, source_kind, files) {
        Ok(inners) => inners,
        Err(e) => { return Err(e); },
    };
    let ghost entries = entries_view(inners@);
    let ghost contents = contents_view(files@);
    let ghost open = written_blocks(entries, contents, HEADER_LEN as nat);
    proof {
        lemma_planned_len(source@, source_kind, files@);
        assert forall|i: int| 0 <= i < entries.len() implies (#[trigger] entries[i]).name.len()
            <= BUFFER_SIZE by {
            lemma_planned_entries(source@, source_kind, files@, i);
        }
        lemma_writing_failure_of_fitting_names(entries, contents);
    }
    let (temp_offsets, compressed_sizes, checksums) = match process_files(
        &mut inners,
        files,
        &mut writer,
    ) {
        Ok(done) => done,
        Err(e) => { return Err(e); },
    };
    writer.flush();
    let ghost end = writer.position();
    proof {
        writer.lemma_position_fits();
        assert(writer.bytes() =~= header_bytes(count, 0) + blocks_bytes(open));
        lemma_patched_archive(
            count,
            entries,
            contents,
            temp_offsets@,
            compressed_sizes@,
            checksums@,
            end,
        );
        lemma_packed_index(entries_view(inners@), entries, contents);
        if names_confined(entries) {
            assert forall|i: int|
                #![trigger entries[i]]
                0 <= i < entries.len() implies {
                &&& entries[i].name.len() <= BUFFER_SIZE
                &&& entries[i].original_size == contents[i].len()
                &&& payload_of(contents[i]).len() <= u64::MAX
                &&& gunzip(payload_of(contents[i])) == Some(contents[i])
            } by {
                lemma_planned_entries(source@, source_kind, files@, i);
                lemma_written_block_at(entries, contents, HEADER_LEN as nat, i);
                assert(files@[i].content.len() == contents[i].len());
                assert(compressed_sizes@[i] == open[i].payload.len());
            }
            lemma_packed_archive_unpacks(entries, contents);
        }
    }
    match rewrite_temp_fields(&mut writer, temp_offsets, compressed_sizes, checksums) {
        Ok(()) => {},
        Err(e) => { return Err(e); },
    }
    let ghost closed = packed_blocks(entries, contents);
    let ghost body = header_bytes(count, end as u64) + blocks_bytes(closed);
    proof {
        lemma_header_written(count, end as u64);
        assert(writer.bytes() == body);
        assert(body.len() == end);
    }
    write_index_array(&mut writer, &inners);
    writer.flush();
    proof {
        let index = index_bytes(entries_view(inners@));
        assert(overwrite(body, end as int, index) =~= body + index);
        assert(closed.len() as u32 == count);
        assert(HEADER_LEN + blocks_bytes(closed).len() == end);
        assert(writer.bytes() == archive_bytes(closed));
    }
    Ok(writer.into_bytes())
}

} // verus!
