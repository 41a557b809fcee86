//! One entry of an archive: its name, sizes and checksums, and the bytes that
//! record them.
use vstd::prelude::*;
use vstd::bytes::*;
use crate::error::{ArchiveError, ErrorView};
use crate::format::BUFFER_SIZE;
use crate::stream::{lemma_overwrite_twice, overwrite, short_read_text, ArchiveReader, ArchiveSink};

verus! {

/// What an entry records, as plain values.
pub struct EntryView {
    /// The name, as raw bytes.
    pub name: Seq<u8>,
    /// The length of the content.
    pub original_size: u64,
    /// The length of the gzip stream that holds the content.
    pub compressed_size: u64,
    /// The CRC32 of the content.
    pub original_checksum: u32,
    /// The CRC32 of the gzip stream.
    pub compressed_checksum: u32,
    /// The position in the archive at which the entry's record starts.
    pub position: u64,
}

/// The bytes that record an entry: the length of the name, the name, the two
/// sizes and the two checksums, every number little-endian.
pub open spec fn metadata_bytes(e: EntryView) -> Seq<u8> {
    spec_u32_to_le_bytes(e.name.len() as u32) + e.name + spec_u64_to_le_bytes(e.original_size)
        + spec_u64_to_le_bytes(e.compressed_size) + spec_u32_to_le_bytes(e.original_checksum)
        + spec_u32_to_le_bytes(e.compressed_checksum)
}

/// The length of the record of an entry whose name has `name_len` bytes.
pub open spec fn metadata_len(name_len: nat) -> nat {
    4 + name_len + 24
}

/// The record of an entry has the length that `metadata_len` gives.
pub proof fn lemma_metadata_len(e: EntryView)
    ensures
        metadata_bytes(e).len() == metadata_len(e.name.len()),
{
    lemma_auto_spec_u32_to_from_le_bytes();
    lemma_auto_spec_u64_to_from_le_bytes();
}

/// The entry that `input` starts with, taken to start at `position`, and the
/// length of its record; or the error that reading it gives.
pub open spec fn parse_metadata(input: Seq<u8>, position: u64) -> Result<(EntryView, nat), ErrorView> {
    if input.len() < 4 {
        Err(ErrorView::Io(short_read_text()))
    } else {
        let name_len = spec_u32_from_le_bytes(input.take(4));
        if name_len == 0 {
            Err(ErrorView::EmptyFilename)
        } else if name_len > BUFFER_SIZE {
            Err(ErrorView::BufferOverflow(name_len as usize))
        } else if input.len() < metadata_len(name_len as nat) {
            Err(ErrorView::Io(short_read_text()))
        } else {
            let n = name_len as int;
            Ok(
                (
                    EntryView {
                        name: input.subrange(4, 4 + n),
                        original_size: spec_u64_from_le_bytes(input.subrange(4 + n, 12 + n)),
                        compressed_size: spec_u64_from_le_bytes(input.subrange(12 + n, 20 + n)),
                        original_checksum: spec_u32_from_le_bytes(input.subrange(20 + n, 24 + n)),
                        compressed_checksum: spec_u32_from_le_bytes(
                            input.subrange(24 + n, 28 + n),
                        ),
                        position,
                    },
                    metadata_len(name_len as nat),
                ),
            )
        }
    }
}

/// How many bytes of `input` reading a record takes, whether or not it
/// succeeds: the fields are read one after the other, each as a whole, up to
/// the first that is cut short; after the length of the name nothing more is
/// read where that length is zero or more than `BUFFER_SIZE`.
pub open spec fn record_consumed(input: Seq<u8>) -> nat {
    if input.len() < 4 {
        0
    } else {
        let n = spec_u32_from_le_bytes(input.take(4)) as nat;
        if n == 0 || n > BUFFER_SIZE || input.len() < 4 + n {
            4
        } else if input.len() < 12 + n {
            4 + n
        } else if input.len() < 20 + n {
            12 + n
        } else if input.len() < 24 + n {
            20 + n
        } else if input.len() < 28 + n {
            24 + n
        } else {
            28 + n
        }
    }
}

/// One entry of an archive.
#[derive(Debug)]
pub struct InnerFile {
    name: Vec<u8>,
    original_size: u64,
    compressed_size: u64,
    original_checksum: u32,
    compressed_checksum: u32,
    position: u64,
}

impl View for InnerFile {
    type V = EntryView;

    closed spec fn view(&self) -> EntryView {
        EntryView {
            name: self.name@,
            original_size: self.original_size,
            compressed_size: self.compressed_size,
            original_checksum: self.original_checksum,
            compressed_checksum: self.compressed_checksum,
            position: self.position,
        }
    }
}

impl Default for InnerFile {
    /// An entry with an empty name and zero in every number.
    fn default() -> (file: Self)
        ensures
            file@ == (EntryView {
                name: Seq::empty(),
                original_size: 0,
                compressed_size: 0,
                original_checksum: 0,
                compressed_checksum: 0,
                position: 0,
            }),
    {
        InnerFile {
            name: Vec::new(),
            original_size: 0,
            compressed_size: 0,
            original_checksum: 0,
            compressed_checksum: 0,
            position: 0,
        }
    }
}

impl InnerFile {
    /// An entry of the given name, with zero in every number.
    pub fn new(name: Vec<u8>) -> (file: Self)
        ensures
            file@ == (EntryView {
                name: name@,
                original_size: 0,
                compressed_size: 0,
                original_checksum: 0,
                compressed_checksum: 0,
                position: 0,
            }),
    {
        InnerFile {
            name,
            original_size: 0,
            compressed_size: 0,
            original_checksum: 0,
            compressed_checksum: 0,
            position: 0,
        }
    }

    /// An entry of the given name, sizes and checksums, at position zero.
    pub fn create(
        name: Vec<u8>,
        original_size: u64,
        compressed_size: u64,
        original_checksum: u32,
        compressed_checksum: u32,
    ) -> (file: Self)
        ensures
            file@ == (EntryView {
                name: name@,
                original_size,
                compressed_size,
                original_checksum,
                compressed_checksum,
                position: 0,
            }),
    {
        let mut file = Self::new(name);
        file.set_original_size(original_size);
        file.set_compressed_size(compressed_size);
        file.set_original_checksum(original_checksum);
        file.set_compressed_checksum(compressed_checksum);
        file
    }

    /// Reads the record of one entry. The entry's position is the reader's
    /// position before the call. After an error the reader stands behind the
    /// last field that was read as a whole.
    pub fn from_archive(reader: &mut ArchiveReader) -> (res: Result<Self, ArchiveError>)
        ensures
            match parse_metadata(old(reader).remaining(), old(reader).position() as u64) {
                Ok((entry, used)) => {
                    &&& res matches Ok(file)
                    &&& file@ == entry
                    &&& used == record_consumed(old(reader).remaining())
                },
                Err(e) => res matches Err(err) && err@ == e,
            },
            final(reader).remaining() == old(reader).remaining().skip(
                record_consumed(old(reader).remaining()) as int,
            ),
            final(reader).position() == old(reader).position() + record_consumed(
                old(reader).remaining(),
            ),
    {
        let ghost input = reader.remaining();
        let position = reader.stream_position();
        assert(input.skip(0) =~= input);
        let head = match reader.read_exact(4) {
            Ok(bytes) => bytes,
            Err(e) => { return Err(e); },
        };
        let name_len = u32_from_le_bytes(head);
        if name_len == 0 {
            return Err(ArchiveError::EmptyFilename);
        }
        if name_len as usize > BUFFER_SIZE {
            return Err(ArchiveError::BufferOverflow(name_len as usize));
        }
        let ghost n = name_len as int;
        let name_bytes = match reader.read_exact(name_len as usize) {
            Ok(bytes) => bytes,
            Err(e) => { return Err(e); },
        };
        assert(reader.remaining() =~= input.skip(4 + n));
        let mut name: Vec<u8> = Vec::new();
        name.extend_from_slice(name_bytes);
        assert(name@ =~= input.subrange(4, 4 + n));
        let bytes = match reader.read_exact(8) {
            Ok(bytes) => bytes,
            Err(e) => { return Err(e); },
        };
        assert(bytes@ =~= input.subrange(4 + n, 12 + n));
        assert(reader.remaining() =~= input.skip(12 + n));
        let original_size = u64_from_le_bytes(bytes);
        let bytes = match reader.read_exact(8) {
            Ok(bytes) => bytes,
            Err(e) => { return Err(e); },
        };
        assert(bytes@ =~= input.subrange(12 + n, 20 + n));
        assert(reader.remaining() =~= input.skip(20 + n));
        let compressed_size = u64_from_le_bytes(bytes);
        let bytes = match reader.read_exact(4) {
            Ok(bytes) => bytes,
            Err(e) => { return Err(e); },
        };
        assert(bytes@ =~= input.subrange(20 + n, 24 + n));
        assert(reader.remaining() =~= input.skip(24 + n));
        let original_checksum = u32_from_le_bytes(bytes);
        let bytes = match reader.read_exact(4) {
            Ok(bytes) => bytes,
            Err(e) => { return Err(e); },
        };
        assert(bytes@ =~= input.subrange(24 + n, 28 + n));
        let compressed_checksum = u32_from_le_bytes(bytes);
        assert(reader.remaining() =~= input.skip(28 + n));
        let mut file = InnerFile::create(
            name,
            original_size,
            compressed_size,
            original_checksum,
            compressed_checksum,
        );
        file.position = position;
        Ok(file)
    }

    /// Writes the record of this entry at the sink's position, which becomes
    /// the entry's position. Returns the position of the compressed size in
    /// the record. A name of more than `BUFFER_SIZE` bytes is refused, and
    /// nothing is written.
    pub fn write_metadata(&mut self, writer: &mut ArchiveSink) -> (res: Result<u64, ArchiveError>)
        ensures
            match res {
                Ok(offset) => {
                    &&& old(self)@.name.len() <= BUFFER_SIZE
                    &&& final(self)@ == (EntryView {
                        position: old(writer).position() as u64,
                        ..old(self)@
                    })
                    &&& final(writer).bytes() == overwrite(
                        old(writer).bytes(),
                        old(writer).position() as int,
                        metadata_bytes(old(self)@),
                    )
                    &&& final(writer).position() == old(writer).position() + metadata_len(
                        old(self)@.name.len(),
                    )
                    &&& offset == old(writer).position() + 12 + old(self)@.name.len()
                },
                Err(e) => {
                    &&& old(self)@.name.len() > BUFFER_SIZE
                    &&& e@ == ErrorView::BufferOverflow(old(self)@.name.len() as usize)
                    &&& *final(self) == *old(self)
                    &&& *final(writer) == *old(writer)
                },
            },
    {
        if self.name.len() > BUFFER_SIZE {
            return Err(ArchiveError::BufferOverflow(self.name.len()));
        }
        let ghost start = writer.position() as int;
        let ghost before = writer.bytes();
        self.position = writer.stream_position();
        let mut record = u32_to_le_bytes(self.name.len() as u32);
        record.extend_from_slice(self.name.as_slice());
        let mut field = u64_to_le_bytes(self.original_size);
        record.append(&mut field);
        writer.write_all(record.as_slice());
        let position = writer.stream_position();
        let mut tail = u64_to_le_bytes(self.compressed_size);
        let mut field = u32_to_le_bytes(self.original_checksum);
        tail.append(&mut field);
        let mut field = u32_to_le_bytes(self.compressed_checksum);
        tail.append(&mut field);
        writer.write_all(tail.as_slice());
        proof {
            assert(record@ + tail@ =~= metadata_bytes(old(self)@));
            lemma_overwrite_twice(before, start, record@, tail@);
        }
        Ok(position)
    }

    /// The name, as raw bytes.
    pub fn name(&self) -> (name: &Vec<u8>)
        ensures
            name@ == self@.name,
    {
        &self.name
    }

    /// The length of the content.
    pub fn original_size(&self) -> (size: u64)
        ensures
            size == self@.original_size,
    {
        self.original_size
    }

    /// The length of the gzip stream that holds the content.
    pub fn compressed_size(&self) -> (size: u64)
        ensures
            size == self@.compressed_size,
    {
        self.compressed_size
    }

    /// The CRC32 of the content.
    pub fn original_checksum(&self) -> (checksum: u32)
        ensures
            checksum == self@.original_checksum,
    {
        self.original_checksum
    }

    /// The CRC32 of the gzip stream.
    pub fn compressed_checksum(&self) -> (checksum: u32)
        ensures
            checksum == self@.compressed_checksum,
    {
        self.compressed_checksum
    }

    /// The position in the archive at which the entry's record starts.
    pub fn position(&self) -> (position: u64)
        ensures
            position == self@.position,
    {
        self.position
    }

    fn set_original_size(&mut self, size: u64)
        ensures
            final(self)@ == (EntryView { original_size: size, ..old(self)@ }),
    {
        self.original_size = size
    }

    fn set_compressed_size(&mut self, size: u64)
        ensures
            final(self)@ == (EntryView { compressed_size: size, ..old(self)@ }),
    {
        self.compressed_size = size
    }

    fn set_original_checksum(&mut self, checksum: u32)
        ensures
            final(self)@ == (EntryView { original_checksum: checksum, ..old(self)@ }),
    {
        self.original_checksum = checksum
    }

    fn set_compressed_checksum(&mut self, checksum: u32)
        ensures
            final(self)@ == (EntryView { compressed_checksum: checksum, ..old(self)@ }),
    {
        self.compressed_checksum = checksum
    }
}

} // verus!
