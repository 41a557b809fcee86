//! Reading an archive: the header is checked, then every entry is decoded,
//! held against its checksums and its size, and given a path that stays below
//! the directory it is extracted to.
use vstd::prelude::*;
use vstd::bytes::*;
use vstd::string::*;
use flate2::Crc;
use crate::checksum::{absorbed, crc32};
use crate::entry::{parse_metadata, record_consumed, EntryView, InnerFile};
use crate::error::{
    invalid_source_text, no_stem_text, path_error, path_text, ArchiveError, ErrorView,
};
use crate::format::{BUFFER_SIZE, EXTENSION, HEADER_LEN, SIGNATURE, VERSION};
use crate::gzip::{decoder_emitted, decoder_fed, decoder_finish, decoder_new, decoder_write, gunzip};
use crate::path::{
    confine, confined_path, extension, file_stem, is_archive_extension, is_plain_name,
    lemma_confined_path_is_plain, names_view,
    normalize_path, normalized_path, path_extension, path_file_stem, push, push_path, PathKind,
};
use crate::stream::{
    lemma_overwrite_twice, overwrite, short_read_text, ArchiveReader, ArchiveSink, HasherWriter,
};
use crate::text::{decimal, decimal_string, lossy_string, lossy_text};

verus! {

/// The text of the error for a gzip stream that does not decode.
pub open spec fn undecodable_text() -> Seq<char> {
    "failed to decode the compressed stream"@
}

/// The text of the error for a checksum that differs from the recorded one.
pub open spec fn checksum_text(found: u32, recorded: u32) -> Seq<char> {
    "Archive corrupted! Unpacked checksums isn't equal to! "@ + decimal(found as nat)
        + " isn't equal to "@ + decimal(recorded as nat)
}

/// The text of the error for a content whose length differs from the
/// recorded one.
pub open spec fn size_text(recorded: u64, found: u64) -> Seq<char> {
    "Archive corrupted! Unpacked file has another size! "@ + decimal(recorded as nat)
        + " isn't equal to "@ + decimal(found as nat)
}

/// The text of the error for an entry name that could lead out of the
/// extraction directory, or that names no file.
pub open spec fn unsafe_name_text(name: Seq<u8>) -> Seq<char> {
    path_text("Entry name is not a path below the extraction directory: "@, name)
}

/// The text of the error for a target that is a file.
pub open spec fn target_is_file_text(path: Seq<u8>) -> Seq<char> {
    path_text("Archive can't be unpacked into file at path: "@, path)
}

/// The text of the error for a file that does not start with the signature.
pub open spec fn bad_signature_text(path: Seq<u8>) -> Seq<char> {
    path_text("File is corrupted or has incorrect type. File at path: "@, path)
}

fn checksum_error(found: u32, recorded: u32) -> (e: ArchiveError)
    ensures
        e@ == ErrorView::CorruptedArchive(checksum_text(found, recorded)),
{
    let mut s = String::from_str("Archive corrupted! Unpacked checksums isn't equal to! ");
    s.append(decimal_string(found as u64).as_str());
    s.append(" isn't equal to ");
    s.append(decimal_string(recorded as u64).as_str());
    ArchiveError::CorruptedArchive(s)
}

fn size_error(recorded: u64, found: u64) -> (e: ArchiveError)
    ensures
        e@ == ErrorView::CorruptedArchive(size_text(recorded, found)),
{
    let mut s = String::from_str("Archive corrupted! Unpacked file has another size! ");
    s.append(decimal_string(recorded).as_str());
    s.append(" isn't equal to ");
    s.append(decimal_string(found).as_str());
    ArchiveError::CorruptedArchive(s)
}

fn short_read_error() -> (e: ArchiveError)
    ensures
        e@ == ErrorView::Io(short_read_text()),
{
    ArchiveError::Io(String::from_str("failed to fill whole buffer"))
}

fn unsafe_name_error(name: &[u8]) -> (e: ArchiveError)
    ensures
        e@ == ErrorView::Path(unsafe_name_text(name@)),
{
    path_error("Entry name is not a path below the extraction directory: ", name)
}

/// The directory that the archive at `source` is extracted to, in its
/// simplest form; or the error for a source that is no file or whose
/// extension is not `slf`, or for a target that is a file. The kinds are what
/// the file system holds at the two paths in their simplest form.
pub open spec fn extraction_path(
    source: Seq<u8>,
    source_kind: PathKind,
    target: Seq<u8>,
    target_kind: PathKind,
) -> Result<Seq<u8>, ErrorView> {
    let source = normalized_path(source);
    let target = normalized_path(target);
    if source_kind != PathKind::File {
        Err(ErrorView::Path(invalid_source_text(source)))
    } else if extension(source) != Some(EXTENSION@) {
        Err(
            ErrorView::IncorrectType(
                lossy_text(
                    match extension(source) {
                        Some(ext) => ext,
                        None => Seq::empty(),
                    },
                ),
            ),
        )
    } else if target_kind == PathKind::File {
        Err(ErrorView::Path(target_is_file_text(target)))
    } else {
        Ok(target)
    }
}

/// Decides where the archive at `source` is extracted to: the target, in its
/// simplest form. Refuses a source that is no file or whose extension is not
/// `slf`, and a target that is a file. `source_kind` and `target_kind` are
/// what the file system holds at the two paths in their simplest form.
pub fn get_extraction_path(
    source: &[u8],
    source_kind: PathKind,
    target: &[u8],
    target_kind: PathKind,
) -> (res: Result<Vec<u8>, ArchiveError>)
    ensures
        match extraction_path(source@, source_kind, target@, target_kind) {
            Ok(path) => res matches Ok(p) && p@ == path,
            Err(e) => res matches Err(err) && err@ == e,
        },
{
    let source = normalize_path(source);
    let target = normalize_path(target);
    if source_kind != PathKind::File {
        return Err(path_error("Invalid source destination at path: ", source.as_slice()));
    }
    match path_extension(source.as_slice()) {
        Some(ext) => {
            if !is_archive_extension(&ext) {
                return Err(ArchiveError::IncorrectType(lossy_string(ext.as_slice())));
            }
        },
        None => {
            let ext: Vec<u8> = Vec::new();
            assert(ext@ =~= Seq::<u8>::empty());
            return Err(ArchiveError::IncorrectType(lossy_string(ext.as_slice())));
        },
    }
    if target_kind == PathKind::File {
        return Err(
            path_error("Archive can't be unpacked into file at path: ", target.as_slice()),
        );
    }
    Ok(target)
}

/// Whether `input` starts with the signature and a supported version; else
/// the error that says what is wrong. `path` is the archive's path, for the
/// error's text.
pub open spec fn header_check(input: Seq<u8>, path: Seq<u8>) -> Result<(), ErrorView> {
    if input.len() < 4 {
        Err(ErrorView::Io(short_read_text()))
    } else if input.take(4) != SIGNATURE@ {
        Err(ErrorView::Path(bad_signature_text(path)))
    } else if input.len() < 6 {
        Err(ErrorView::Io(short_read_text()))
    } else if input[4] != VERSION[0] {
        Err(ErrorView::UnsupportedVersion(input[4] as usize))
    } else {
        Ok(())
    }
}

/// How many bytes of `input` the check of the header takes: the four of the
/// signature, and the two of the version only where the signature is the
/// right one; none of a field that is cut short.
pub open spec fn header_consumed(input: Seq<u8>) -> nat {
    if input.len() < 4 {
        0
    } else if input.take(4) != SIGNATURE@ || input.len() < 6 {
        4
    } else {
        6
    }
}

/// Reads the signature and refuses one that is not `.slf`; then reads the
/// version and refuses a major version that is not the supported one. After
/// a wrong signature nothing more is read, and nothing after the version in
/// any case.
pub fn validate_archive(reader: &mut ArchiveReader, path: &[u8]) -> (res: Result<(), ArchiveError>)
    ensures
        match header_check(old(reader).remaining(), path@) {
            Ok(()) => res is Ok && header_consumed(old(reader).remaining()) == 6,
            Err(e) => res matches Err(err) && err@ == e,
        },
        final(reader).remaining() == old(reader).remaining().skip(
            header_consumed(old(reader).remaining()) as int,
        ),
        final(reader).position() == old(reader).position() + header_consumed(
            old(reader).remaining(),
        ),
{
    let ghost input = reader.remaining();
    assert(input.skip(0) =~= input);
    let signature = match reader.read_exact(4) {
        Ok(bytes) => bytes,
        Err(e) => { return Err(e); },
    };
    if signature[0] != SIGNATURE[0] || signature[1] != SIGNATURE[1] || signature[2] != SIGNATURE[2]
        || signature[3] != SIGNATURE[3] {
        return Err(path_error("File is corrupted or has incorrect type. File at path: ", path));
    }
    assert(signature@ =~= SIGNATURE@);
    let version = match reader.read_exact(2) {
        Ok(bytes) => bytes,
        Err(e) => { return Err(e); },
    };
    assert(version@[0] == input[4]);
    assert(reader.remaining() =~= input.skip(6));
    if version[0] != VERSION[0] {
        return Err(ArchiveError::UnsupportedVersion(version[0] as usize));
    }
    assert(reader.remaining() =~= input.skip(6));
    Ok(())
}

/// The error for a gzip stream that does not decode: that the archive is
/// corrupted where the checksum of the stream is not the recorded one, else
/// that the stream could not be decoded.
pub open spec fn undecodable(entry: EntryView, compressed_checksum: u32) -> ErrorView {
    if compressed_checksum != entry.compressed_checksum {
        ErrorView::CorruptedArchive(checksum_text(compressed_checksum, entry.compressed_checksum))
    } else {
        ErrorView::Io(undecodable_text())
    }
}

/// Says what is wrong with the entry `inner_file` whose gzip stream, of the
/// checksum `compressed_checksum`, did not decode.
pub fn undecodable_error(inner_file: &InnerFile, compressed_checksum: u32) -> (e: ArchiveError)
    ensures
        e@ == undecodable(inner_file@, compressed_checksum),
{
    if compressed_checksum != inner_file.compressed_checksum() {
        checksum_error(compressed_checksum, inner_file.compressed_checksum())
    } else {
        ArchiveError::Io(String::from_str("failed to decode the compressed stream"))
    }
}

/// What reading the gzip stream of an entry gives, before the decoded bytes
/// are held against the entry: the decoded bytes, or the error for a stream
/// that does not decode.
pub open spec fn decode_payload(entry: EntryView, payload: Seq<u8>) -> Result<Seq<u8>, ErrorView> {
    match gunzip(payload) {
        Some(content) => Ok(content),
        None => Err(undecodable(entry, crc32(payload))),
    }
}

/// How many bytes of `input` reading the gzip stream of `entry` takes,
/// whether or not it succeeds: the whole stream, or all that is left where
/// that is less.
pub open spec fn payload_consumed(entry: EntryView, input: Seq<u8>) -> nat {
    if input.len() < entry.compressed_size {
        input.len()
    } else {
        entry.compressed_size as nat
    }
}

/// Decodes the gzip stream of `inner_file`, which is the next
/// `compressed_size` bytes of `reader`, in chunks of at most `BUFFER_SIZE`
/// bytes, and writes the decoded bytes to `hasher_writer`. Returns the
/// checksum of all that `hasher_writer` has written and the checksum of the
/// gzip stream. The stream is read to its end also where it does not decode,
/// so that its checksum can be held against the recorded one.
pub fn unpack_single_file(
    inner_file: &InnerFile,
    reader: &mut ArchiveReader,
    hasher_writer: &mut HasherWriter,
) -> (res: Result<(u32, u32), ArchiveError>)
    requires
        old(hasher_writer).wf(),
    ensures
        final(hasher_writer).wf(),
        final(reader).remaining() == old(reader).remaining().skip(
            payload_consumed(inner_file@, old(reader).remaining()) as int,
        ),
        final(reader).position() == old(reader).position() + payload_consumed(
            inner_file@,
            old(reader).remaining(),
        ),
        old(reader).remaining().len() < inner_file@.compressed_size ==> (res matches Err(e) && e@
            == ErrorView::Io(short_read_text())),
        old(reader).remaining().len() >= inner_file@.compressed_size ==> {
            let payload = old(reader).remaining().take(inner_file@.compressed_size as int);
            match decode_payload(inner_file@, payload) {
                Ok(content) => {
                    &&& res == Ok::<(u32, u32), ArchiveError>(
                        (crc32(old(hasher_writer).hashed() + content), crc32(payload)),
                    )
                    &&& final(reader).remaining() == old(reader).remaining().skip(
                        inner_file@.compressed_size as int,
                    )
                    &&& final(reader).position() == old(reader).position()
                        + inner_file@.compressed_size
                    &&& final(hasher_writer).hashed() == old(hasher_writer).hashed() + content
                    &&& final(hasher_writer).counted() == old(hasher_writer).counted()
                        + content.len()
                    &&& final(hasher_writer).sink().bytes() == overwrite(
                        old(hasher_writer).sink().bytes(),
                        old(hasher_writer).sink().position() as int,
                        content,
                    )
                    &&& final(hasher_writer).sink().position() == old(
                        hasher_writer,
                    ).sink().position() + content.len()
                },
                Err(e) => res matches Err(err) && err@ == e,
            }
        },
{
    let ghost input = reader.remaining();
    let ghost start = reader.position();
    let ghost size = inner_file@.compressed_size as int;
    let ghost hashed0 = hasher_writer.hashed();
    let ghost counted0 = hasher_writer.counted();
    let ghost sink0 = hasher_writer.sink().bytes();
    let ghost at0 = hasher_writer.sink().position() as int;
    let mut compressed_checksum = Crc::new();
    let mut decoder = decoder_new();
    let mut failed = false;
    let mut remaining_bytes = inner_file.compressed_size();
    let ghost mut done: int = 0;
    let ghost mut emitted: Seq<u8> = Seq::empty();
    proof {
        assert(input.take(0) =~= Seq::<u8>::empty());
        assert(hashed0 + emitted =~= hashed0);
    }
    loop
        invariant
            hasher_writer.wf(),
            0 <= done <= size,
            done <= input.len(),
            input == old(reader).remaining(),
            start == old(reader).position(),
            remaining_bytes == size - done,
            size == inner_file@.compressed_size,
            reader.remaining() == input.skip(done),
            reader.position() == start + done,
            absorbed(compressed_checksum) == input.take(done),
            0 <= at0,
            !failed ==> decoder_fed(decoder) == input.take(done),
            !failed ==> decoder_emitted(decoder) == emitted,
            failed && size <= input.len() ==> gunzip(input.take(size)) is None,
            hasher_writer.hashed() == hashed0 + emitted,
            hasher_writer.counted() == counted0 + emitted.len(),
            hasher_writer.sink().bytes() == overwrite(sink0, at0, emitted),
            hasher_writer.sink().position() == at0 + emitted.len(),
        ensures
            hasher_writer.wf(),
            0 <= done <= size,
            done <= input.len(),
            done < size ==> done == input.len(),
            size == inner_file@.compressed_size,
            reader.remaining() == input.skip(done),
            reader.position() == start + done,
            absorbed(compressed_checksum) == input.take(done),
            0 <= at0,
            !failed ==> decoder_fed(decoder) == input.take(done),
            !failed ==> decoder_emitted(decoder) == emitted,
            failed && size <= input.len() ==> gunzip(input.take(size)) is None,
            hasher_writer.hashed() == hashed0 + emitted,
            hasher_writer.counted() == counted0 + emitted.len(),
            hasher_writer.sink().bytes() == overwrite(sink0, at0, emitted),
            hasher_writer.sink().position() == at0 + emitted.len(),
        decreases size - done,
    {
        let to_read = if remaining_bytes < BUFFER_SIZE as u64 {
            remaining_bytes as usize
        } else {
            BUFFER_SIZE
        };
        let chunk = reader.read(to_read);
        let bytes = chunk.len();
        if bytes == 0 {
            break ;
        }
        let ghost fed = input.take(done);
        compressed_checksum.update(chunk);
        assert(fed + chunk@ =~= input.take(done + bytes));
        assert(input.skip(done).skip(bytes as int) =~= input.skip(done + bytes));
        if !failed {
            match decoder_write(&mut decoder, chunk) {
                Ok(out) => {
                    hasher_writer.write(out.as_slice());
                    proof {
                        assert(hashed0 + emitted + out@ =~= hashed0 + (emitted + out@));
                        lemma_overwrite_twice(sink0, at0, emitted, out@);
                        emitted = emitted + out@;
                    }
                },
                Err(_) => {
                    failed = true;
                    proof {
                        if size <= input.len() {
                            let rest = input.subrange(done + bytes, size);
                            assert(fed + chunk@ + rest =~= input.take(size));
                            assert(gunzip(fed + chunk@ + rest) is None);
                        }
                    }
                },
            }
        }
        remaining_bytes = remaining_bytes - bytes as u64;
        proof {
            done = done + bytes;
        }
    }
    if remaining_bytes != 0 {
        return Err(short_read_error());
    }
    assert(input.len() >= size);
    let ghost payload = input.take(size);
    let compressed = compressed_checksum.sum();
    if !failed {
        match decoder_finish(decoder) {
            Ok(out) => {
                hasher_writer.write(out.as_slice());
                proof {
                    assert(hashed0 + emitted + out@ =~= hashed0 + (emitted + out@));
                    lemma_overwrite_twice(sink0, at0, emitted, out@);
                }
                return Ok((hasher_writer.sum(), compressed));
            },
            Err(_) => {},
        }
    }
    Err(undecodable_error(inner_file, compressed))
}

/// What is wrong with an entry whose content was decoded, given the
/// checksum of the content, the checksum of the gzip stream and the length
/// of the content: the first of these, in this order, that is not the
/// recorded one; `None` where all three are.
pub open spec fn mismatch(
    entry: EntryView,
    original_checksum: u32,
    compressed_checksum: u32,
    size: u64,
) -> Option<ErrorView> {
    if original_checksum != entry.original_checksum {
        Some(
            ErrorView::CorruptedArchive(checksum_text(original_checksum, entry.original_checksum)),
        )
    } else if compressed_checksum != entry.compressed_checksum {
        Some(
            ErrorView::CorruptedArchive(
                checksum_text(compressed_checksum, entry.compressed_checksum),
            ),
        )
    } else if size != entry.original_size {
        Some(ErrorView::CorruptedArchive(size_text(entry.original_size, size)))
    } else {
        None
    }
}

/// Holds what was found of a decoded entry against its record: the checksum
/// of the content, the checksum of the gzip stream, and the length of the
/// content.
pub fn check_entry(
    inner_file: &InnerFile,
    original_checksum: u32,
    compressed_checksum: u32,
    size: u64,
) -> (res: Result<(), ArchiveError>)
    ensures
        match mismatch(inner_file@, original_checksum, compressed_checksum, size) {
            None => res is Ok,
            Some(e) => res matches Err(err) && err@ == e,
        },
{
    if original_checksum != inner_file.original_checksum() {
        return Err(checksum_error(original_checksum, inner_file.original_checksum()));
    }
    if compressed_checksum != inner_file.compressed_checksum() {
        return Err(checksum_error(compressed_checksum, inner_file.compressed_checksum()));
    }
    if inner_file.original_size() != size {
        return Err(size_error(inner_file.original_size(), size));
    }
    Ok(())
}

/// The content that the gzip stream `payload` of `entry` holds, if it
/// decodes and both checksums and the size are the recorded ones; else the
/// error of the first of these that fails.
pub open spec fn check_content(entry: EntryView, payload: Seq<u8>) -> Result<Seq<u8>, ErrorView> {
    match decode_payload(entry, payload) {
        Err(e) => Err(e),
        Ok(content) => match mismatch(
            entry,
            crc32(content),
            crc32(payload),
            content.len() as u64,
        ) {
            Some(e) => Err(e),
            None => Ok(content),
        },
    }
}

/// One file that was read out of an archive.
#[derive(Debug)]
pub struct UnpackedFile {
    /// The names that lead from the extraction directory to the file: each
    /// an ordinary name, the last one the file's own.
    pub path: Vec<Vec<u8>>,
    /// The content of the file.
    pub content: Vec<u8>,
}

/// An `UnpackedFile` as plain values.
pub struct FileView {
    pub path: Seq<Seq<u8>>,
    pub content: Seq<u8>,
}

impl View for UnpackedFile {
    type V = FileView;

    open spec fn view(&self) -> FileView {
        FileView { path: names_view(self.path@), content: self.content@ }
    }
}

/// Whether the path of `file` leads to a file below the directory that it
/// starts from: it is not empty and made of plain names alone.
pub open spec fn stays_below(file: FileView) -> bool {
    &&& file.path.len() > 0
    &&& forall|j: int| 0 <= j < file.path.len() ==> is_plain_name(#[trigger] file.path[j])
}

/// The views of a row of files.
pub open spec fn files_view(files: Seq<UnpackedFile>) -> Seq<FileView> {
    Seq::new(files.len(), |i: int| files[i]@)
}

/// The file that the entry at the start of `input` holds, and the number of
/// bytes that the entry takes; or the error that reading it gives. `position`
/// is where `input` starts in the archive.
pub open spec fn unpack_entry(input: Seq<u8>, position: nat) -> Result<(FileView, nat), ErrorView> {
    match parse_metadata(input, position as u64) {
        Err(e) => Err(e),
        Ok((entry, used)) => match confined_path(entry.name) {
            None => Err(ErrorView::Path(unsafe_name_text(entry.name))),
            Some(path) => if input.len() - used < entry.compressed_size {
                Err(ErrorView::Io(short_read_text()))
            } else {
                let end = used + entry.compressed_size;
                match check_content(entry, input.subrange(used as int, end)) {
                    Err(e) => Err(e),
                    Ok(content) => Ok((FileView { path, content }, end as nat)),
                }
            },
        },
    }
}

/// How many bytes of `input` reading one entry takes, whether or not it
/// succeeds: its record; then, unless the record cannot be read or its name
/// is refused, its gzip stream.
pub open spec fn entry_consumed(input: Seq<u8>, position: nat) -> nat {
    match parse_metadata(input, position as u64) {
        Err(_) => record_consumed(input),
        Ok((entry, used)) => match confined_path(entry.name) {
            None => used,
            Some(_) => used + payload_consumed(entry, input.skip(used as int)),
        },
    }
}

/// Reads one entry: its record, then its gzip stream, which is decoded and
/// held against the record. The file comes with a path that stays below the
/// extraction directory; an entry whose name could lead out of it is refused
/// before its stream is read.
pub fn unpack_next(reader: &mut ArchiveReader) -> (res: Result<UnpackedFile, ArchiveError>)
    ensures
        match unpack_entry(old(reader).remaining(), old(reader).position()) {
            Ok((file, used)) => {
                &&& res matches Ok(unpacked)
                &&& unpacked@ == file
                &&& stays_below(unpacked@)
                &&& used == entry_consumed(old(reader).remaining(), old(reader).position())
            },
            Err(e) => res matches Err(err) && err@ == e,
        },
        final(reader).remaining() == old(reader).remaining().skip(
            entry_consumed(old(reader).remaining(), old(reader).position()) as int,
        ),
        final(reader).position() == old(reader).position() + entry_consumed(
            old(reader).remaining(),
            old(reader).position(),
        ),
{
    let ghost here = reader.remaining();
    let inner_file = match InnerFile::from_archive(reader) {
        Ok(file) => file,
        Err(e) => { return Err(e); },
    };
    let ghost record = (here.len() - reader.remaining().len()) as nat;
    let ghost behind = reader.remaining();
    let path = match confine(inner_file.name().as_slice()) {
        Some(path) => path,
        None => { return Err(unsafe_name_error(inner_file.name().as_slice())); },
    };
    let hasher = Crc::new();
    let mut hasher_writer = HasherWriter::new(ArchiveSink::new(), hasher);
    proof {
        lemma_confined_path_is_plain(inner_file@.name);
        assert(behind.skip(payload_consumed(inner_file@, behind) as int) =~= here.skip(
            (record + payload_consumed(inner_file@, behind)) as int,
        ));
        if here.len() - record >= inner_file@.compressed_size {
            assert(here.skip(record as int).take(inner_file@.compressed_size as int)
                =~= here.subrange(record as int, record + inner_file@.compressed_size));
        }
    }
    let (original_checksum, compressed_checksum) = match unpack_single_file(
        &inner_file,
        reader,
        &mut hasher_writer,
    ) {
        Ok(sums) => sums,
        Err(e) => { return Err(e); },
    };
    let ghost payload = here.subrange(record as int, record + inner_file@.compressed_size);
    let ghost content = gunzip(payload)->Some_0;
    assert(hasher_writer.hashed() =~= content);
    let size = hasher_writer.take_written_bytes();
    match check_entry(&inner_file, original_checksum, compressed_checksum, size) {
        Ok(()) => {},
        Err(e) => { return Err(e); },
    }
    let content_bytes = hasher_writer.into_inner().into_bytes();
    proof {
        assert(content_bytes@ =~= content);
        assert(here.skip(record as int).skip(inner_file@.compressed_size as int) =~= here.skip(
            record + inner_file@.compressed_size,
        ));
    }
    Ok(UnpackedFile { path, content: content_bytes })
}

/// The files that the first `count` entries of `input` hold, and the number
/// of bytes that these entries take; or the error of the first entry that
/// cannot be read.
pub open spec fn unpack_entries(input: Seq<u8>, position: nat, count: nat) -> Result<
    (Seq<FileView>, nat),
    ErrorView,
>
    decreases count,
{
    if count == 0 {
        Ok((Seq::empty(), 0))
    } else {
        match unpack_entry(input, position) {
            Err(e) => Err(e),
            Ok((file, used)) => match unpack_entries(
                input.skip(used as int),
                position + used,
                (count - 1) as nat,
            ) {
                Err(e) => Err(e),
                Ok((files, more)) => Ok((seq![file] + files, used + more)),
            },
        }
    }
}

/// How many bytes of `input` reading the first `count` entries takes,
/// whether or not it succeeds: reading stops within the first entry that
/// cannot be read, and nothing behind that entry is read.
pub open spec fn entries_consumed(input: Seq<u8>, position: nat, count: nat) -> nat
    decreases count,
{
    if count == 0 {
        0
    } else {
        match unpack_entry(input, position) {
            Err(_) => entry_consumed(input, position),
            Ok((_, used)) => used + entries_consumed(
                input.skip(used as int),
                position + used,
                (count - 1) as nat,
            ),
        }
    }
}

/// The files of the entries that stand before the first of the first
/// `count` entries of `input` that cannot be read: all that was found sound
/// when reading stops.
pub open spec fn verified_before(input: Seq<u8>, position: nat, count: nat) -> Seq<FileView>
    decreases count,
{
    if count == 0 {
        Seq::empty()
    } else {
        match unpack_entry(input, position) {
            Err(_) => Seq::empty(),
            Ok((file, used)) => seq![file] + verified_before(
                input.skip(used as int),
                position + used,
                (count - 1) as nat,
            ),
        }
    }
}

/// `rest` behind the files `done`, which took `used` bytes.
pub open spec fn after_done(
    done: Seq<FileView>,
    used: nat,
    rest: Result<(Seq<FileView>, nat), ErrorView>,
) -> Result<(Seq<FileView>, nat), ErrorView> {
    match rest {
        Ok((files, more)) => Ok((done + files, used + more)),
        Err(e) => Err(e),
    }
}

proof fn lemma_after_done_step(
    done: Seq<FileView>,
    used: nat,
    input: Seq<u8>,
    position: nat,
    count: nat,
)
    requires
        count > 0,
    ensures
        after_done(done, used, unpack_entries(input, position, count)) == match unpack_entry(
            input,
            position,
        ) {
            Err(e) => Err(e),
            Ok((file, n)) => after_done(
                done.push(file),
                used + n,
                unpack_entries(input.skip(n as int), position + n, (count - 1) as nat),
            ),
        },
{
    match unpack_entry(input, position) {
        Err(e) => {},
        Ok((file, n)) => {
            match unpack_entries(input.skip(n as int), position + n, (count - 1) as nat) {
                Err(e) => {},
                Ok((files, more)) => {
                    assert(done + (seq![file] + files) =~= done.push(file) + files);
                },
            }
        },
    }
}

proof fn lemma_verified_step(done: Seq<FileView>, input: Seq<u8>, position: nat, count: nat)
    requires
        count > 0,
    ensures
        done + verified_before(input, position, count) == match unpack_entry(input, position) {
            Err(_) => done,
            Ok((file, n)) => done.push(file) + verified_before(
                input.skip(n as int),
                position + n,
                (count - 1) as nat,
            ),
        },
{
    match unpack_entry(input, position) {
        Err(_) => {
            assert(done + Seq::<FileView>::empty() =~= done);
        },
        Ok((file, n)) => {
            let rest = verified_before(input.skip(n as int), position + n, (count - 1) as nat);
            assert(done + (seq![file] + rest) =~= done.push(file) + rest);
        },
    }
}

/// Where all entries can be read, all their files are what was found
/// sound.
pub proof fn lemma_all_verified(input: Seq<u8>, position: nat, count: nat)
    requires
        unpack_entries(input, position, count) is Ok,
    ensures
        verified_before(input, position, count) == unpack_entries(input, position, count)->Ok_0.0,
    decreases count,
{
    if count > 0 {
        let used = unpack_entry(input, position)->Ok_0.1;
        lemma_all_verified(input.skip(used as int), position + used, (count - 1) as nat);
    }
}

/// Reads `file_count` entries in a row and puts the file of each behind
/// `files` as soon as it is found sound. Stops at the first entry that cannot
/// be read, that names a path outside the extraction directory, or whose
/// content is not what its record says: the files of the entries before it
/// are in `files` then, and nothing of an entry after it was read.
pub fn unpack_files(reader: &mut ArchiveReader, file_count: u32, files: &mut Vec<UnpackedFile>) -> (res:
    Result<(), ArchiveError>)
    ensures
        files_view(final(files)@) == files_view(old(files)@) + verified_before(
            old(reader).remaining(),
            old(reader).position(),
            file_count as nat,
        ),
        forall|i: int| 0 <= i < old(files)@.len() ==> final(files)@[i] == old(files)@[i],
        forall|i: int|
            old(files)@.len() <= i < final(files)@.len() ==> stays_below(#[trigger] final(files)@[i]@),
        match unpack_entries(old(reader).remaining(), old(reader).position(), file_count as nat) {
            Ok((unpacked, used)) => {
                &&& res is Ok
                &&& unpacked == verified_before(
                    old(reader).remaining(),
                    old(reader).position(),
                    file_count as nat,
                )
                &&& final(files)@.len() == old(files)@.len() + file_count
                &&& used == entries_consumed(
                    old(reader).remaining(),
                    old(reader).position(),
                    file_count as nat,
                )
            },
            Err(e) => res matches Err(err) && err@ == e,
        },
        final(reader).remaining() == old(reader).remaining().skip(
            entries_consumed(old(reader).remaining(), old(reader).position(), file_count as nat) as int,
        ),
        final(reader).position() == old(reader).position() + entries_consumed(
            old(reader).remaining(),
            old(reader).position(),
            file_count as nat,
        ),
{
    let ghost input = reader.remaining();
    let ghost start = reader.position();
    let ghost whole = unpack_entries(input, start, file_count as nat);
    let ghost found = verified_before(input, start, file_count as nat);
    let ghost before = files_view(files@);
    let ghost mut done: Seq<FileView> = Seq::empty();
    let ghost mut used: nat = 0;
    let mut i: u32 = 0;
    proof {
        assert(input.skip(0) =~= input);
        assert(before + done =~= before);
        assert(done + found =~= found);
        match whole {
            Ok((fs, n)) => {
                assert(done + fs =~= fs);
                lemma_all_verified(input, start, file_count as nat);
            },
            Err(e) => {},
        }
    }
    while i < file_count
        invariant
            i <= file_count,
            input == old(reader).remaining(),
            start == old(reader).position(),
            before == files_view(old(files)@),
            whole == unpack_entries(input, start, file_count as nat),
            found == verified_before(input, start, file_count as nat),
            whole matches Ok((fs, n)) ==> fs == found,
            reader.remaining() == input.skip(used as int),
            reader.position() == start + used,
            used <= input.len(),
            done.len() == i,
            files@.len() == old(files)@.len() + i,
            files_view(files@) == before + done,
            forall|j: int| 0 <= j < old(files)@.len() ==> files@[j] == old(files)@[j],
            forall|j: int| old(files)@.len() <= j < files@.len() ==> stays_below(#[trigger] files@[j]@),
            whole == after_done(
                done,
                used,
                unpack_entries(reader.remaining(), reader.position(), (file_count - i) as nat),
            ),
            found == done + verified_before(
                reader.remaining(),
                reader.position(),
                (file_count - i) as nat,
            ),
            entries_consumed(input, start, file_count as nat) == used + entries_consumed(
                reader.remaining(),
                reader.position(),
                (file_count - i) as nat,
            ),
        decreases file_count - i,
    {
        let ghost here = reader.remaining();
        let ghost at = reader.position();
        proof {
            lemma_after_done_step(done, used, here, at, (file_count - i) as nat);
            lemma_verified_step(done, here, at, (file_count - i) as nat);
            assert(input.skip(used as int).skip(entry_consumed(here, at) as int) =~= input.skip(
                (used + entry_consumed(here, at)) as int,
            ));
        }
        let file = match unpack_next(reader) {
            Ok(file) => file,
            Err(e) => { return Err(e); },
        };
        let ghost n = unpack_entry(here, at)->Ok_0.1;
        let ghost held = files_view(files@);
        files.push(file);
        proof {
            assert(files_view(files@) =~= held.push(file@));
            assert(before + done.push(file@) =~= (before + done).push(file@));
            assert(input.skip(used as int).skip(n as int) =~= input.skip((used + n) as int));
            done = done.push(file@);
            used = used + n;
        }
        i = i + 1;
    }
    proof {
        assert(done + Seq::<FileView>::empty() =~= done);
    }
    Ok(())
}

/// What was read out of an archive.
#[derive(Debug)]
pub struct Unpacked {
    /// The directory that the files belong in.
    pub root: Vec<u8>,
    /// The files, in the order of the archive.
    pub files: Vec<UnpackedFile>,
}

/// An archive whose header was read: what reading its entries needs.
pub struct Opened<'a> {
    /// The reader, which stands at the first entry.
    pub reader: ArchiveReader<'a>,
    /// The number of entries.
    pub file_count: u32,
    /// The directory that the files belong in.
    pub root: Vec<u8>,
}

/// The directory that the files of an archive of `count` entries belong in:
/// `extraction_path` for at most one entry, else the directory in it that is
/// named after the archive at `source`.
pub open spec fn extraction_root(source: Seq<u8>, extraction_path: Seq<u8>, count: u32) -> Result<
    Seq<u8>,
    ErrorView,
> {
    if count > 1 {
        match file_stem(source) {
            Some(stem) => Ok(push_path(extraction_path, stem)),
            None => Err(ErrorView::Path(no_stem_text(source))),
        }
    } else {
        Ok(extraction_path)
    }
}

/// The number of entries of `archive` and the directory that its files
/// belong in; or the error for a header that is cut short or not in order, or
/// for an archive of several entries whose path `source` has no file name.
pub open spec fn opened(source: Seq<u8>, extraction_path: Seq<u8>, archive: Seq<u8>) -> Result<
    (u32, Seq<u8>),
    ErrorView,
> {
    match header_check(archive, source) {
        Err(e) => Err(e),
        Ok(()) => if archive.len() < HEADER_LEN {
            Err(ErrorView::Io(short_read_text()))
        } else {
            let count = spec_u32_from_le_bytes(archive.subrange(6, 10));
            match extraction_root(source, extraction_path, count) {
                Err(e) => Err(e),
                Ok(root) => Ok((count, root)),
            }
        },
    }
}

/// The directory and the files that the archive `archive` unpacks to; or
/// the error of the first thing that is wrong with it.
pub open spec fn unpacked(source: Seq<u8>, extraction_path: Seq<u8>, archive: Seq<u8>) -> Result<
    (Seq<u8>, Seq<FileView>),
    ErrorView,
> {
    match opened(source, extraction_path, archive) {
        Err(e) => Err(e),
        Ok((count, root)) => match unpack_entries(
            archive.skip(HEADER_LEN as int),
            HEADER_LEN as nat,
            count as nat,
        ) {
            Err(e) => Err(e),
            Ok((files, used)) => Ok((root, files)),
        },
    }
}

/// Reads the header of the archive `archive`, which was found at `source`,
/// for extraction below `extraction_path`: checks signature and version,
/// reads the number of entries, passes over the position of the index, and
/// decides which directory the files belong in. The reader that comes back
/// stands at the first entry.
pub fn open_archive<'a>(source: &[u8], extraction_path: &[u8], archive: &'a [u8]) -> (res: Result<
    Opened<'a>,
    ArchiveError,
>)
    ensures
        match opened(source@, extraction_path@, archive@) {
            Ok((count, root)) => {
                &&& res matches Ok(open)
                &&& open.file_count == count
                &&& open.root@ == root
                &&& open.reader.remaining() == archive@.skip(HEADER_LEN as int)
                &&& open.reader.position() == HEADER_LEN
            },
            Err(e) => res matches Err(err) && err@ == e,
        },
{
    let mut reader = ArchiveReader::new(archive);
    match validate_archive(&mut reader, source) {
        Ok(()) => {},
        Err(e) => { return Err(e); },
    }
    let bytes = match reader.read_exact(4) {
        Ok(bytes) => bytes,
        Err(e) => { return Err(e); },
    };
    assert(bytes@ =~= archive@.subrange(6, 10));
    let file_count = u32_from_le_bytes(bytes);
    match reader.read_exact(8) {
        Ok(_) => {},
        Err(e) => { return Err(e); },
    }
    assert(reader.remaining() =~= archive@.skip(HEADER_LEN as int));
    let mut root: Vec<u8> = Vec::new();
    root.extend_from_slice(extraction_path);
    assert(root@ =~= extraction_path@);
    if file_count > 1 {
        match path_file_stem(source) {
            Some(stem) => {
                push(&mut root, stem.as_slice());
            },
            None => {
                return Err(path_error("Failed to get file stem from path: ", source));
            },
        }
    }
    Ok(Opened { reader, file_count, root })
}

/// Reads the archive `archive`, which was found at `source`, for extraction
/// below `extraction_path`. Every file comes with a path below the returned
/// root, and none is returned unless all of them are sound.
pub fn unpack(source: &[u8], extraction_path: &[u8], archive: &[u8]) -> (res: Result<
    Unpacked,
    ArchiveError,
>)
    ensures
        match unpacked(source@, extraction_path@, archive@) {
            Ok((root, files)) => {
                &&& res matches Ok(out)
                &&& out.root@ == root
                &&& files_view(out.files@) == files
                &&& forall|i: int|
                    0 <= i < out.files@.len() ==> stays_below(#[trigger] out.files@[i]@)
            },
            Err(e) => res matches Err(err) && err@ == e,
        },
{
    let open = match open_archive(source, extraction_path, archive) {
        Ok(open) => open,
        Err(e) => { return Err(e); },
    };
    let mut reader = open.reader;
    let mut files: Vec<UnpackedFile> = Vec::new();
    assert(files_view(files@) =~= Seq::<FileView>::empty());
    match unpack_files(&mut reader, open.file_count, &mut files) {
        Ok(()) => {
            proof {
                let found = verified_before(
                    archive@.skip(HEADER_LEN as int),
                    HEADER_LEN as nat,
                    open.file_count as nat,
                );
                assert(Seq::<FileView>::empty() + found =~= found);
            }
            Ok(Unpacked { root: open.root, files })
        },
        Err(e) => Err(e),
    }
}

} // verus!
