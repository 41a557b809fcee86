//! Byte streams held in memory: a source that is read front to back, a sink
//! that can be written and patched at any position, and a writer that counts
//! and checksums what passes through it.
use vstd::prelude::*;
use vstd::slice::slice_subrange;
use vstd::string::*;
use flate2::Crc;
use crate::checksum::{absorbed, crc32};
use crate::error::{ArchiveError, ErrorView};

verus! {

/// The text of the error that a read past the end of a source gives.
pub open spec fn short_read_text() -> Seq<char> {
    "failed to fill whole buffer"@
}

/// The text of the error for a number that its integer type cannot hold.
pub open spec fn out_of_range_text() -> Seq<char> {
    "out of range integral type conversion attempted"@
}

/// `n` zero bytes.
pub open spec fn zeros(n: nat) -> Seq<u8> {
    Seq::new(n, |i: int| 0u8)
}

/// `bytes` after `patch` was written at position `at`: what lay there is
/// replaced, the sequence grows where the patch reaches past its end, and a
/// gap before the patch is filled with zero bytes. An empty patch changes
/// nothing.
pub open spec fn overwrite(bytes: Seq<u8>, at: int, patch: Seq<u8>) -> Seq<u8>
    recommends
        0 <= at,
{
    if patch.len() == 0 {
        bytes
    } else if at <= bytes.len() {
        bytes.take(at) + patch + if at + patch.len() < bytes.len() {
            bytes.skip(at + patch.len())
        } else {
            Seq::empty()
        }
    } else {
        bytes + zeros((at - bytes.len()) as nat) + patch
    }
}

/// Two writes in a row are one write of both patches.
pub proof fn lemma_overwrite_twice(bytes: Seq<u8>, at: int, first: Seq<u8>, second: Seq<u8>)
    requires
        0 <= at,
    ensures
        overwrite(overwrite(bytes, at, first), at + first.len(), second) == overwrite(
            bytes,
            at,
            first + second,
        ),
{
    assert(overwrite(overwrite(bytes, at, first), at + first.len(), second) =~= overwrite(
        bytes,
        at,
        first + second,
    ));
}

/// A byte string that is read front to back.
pub struct ArchiveReader<'a> {
    data: &'a [u8],
    pos: usize,
}

impl<'a> ArchiveReader<'a> {
    #[verifier::type_invariant]
    spec fn in_bounds(self) -> bool {
        self.pos <= self.data@.len()
    }

    /// The number of bytes read so far.
    pub closed spec fn position(self) -> nat {
        self.pos as nat
    }

    /// The bytes that are still to be read.
    pub closed spec fn remaining(self) -> Seq<u8> {
        self.data@.skip(self.pos as int)
    }

    /// A reader at the start of `data`.
    pub fn new(data: &'a [u8]) -> (reader: Self)
        ensures
            reader.position() == 0,
            reader.remaining() == data@,
    {
        assert(data@.skip(0) =~= data@);
        ArchiveReader { data, pos: 0 }
    }

    /// The number of bytes read so far.
    pub fn stream_position(&self) -> (pos: u64)
        ensures
            pos == self.position(),
    {
        self.pos as u64
    }

    /// Reads exactly `n` bytes, or fails and reads nothing where fewer are
    /// left.
    pub fn read_exact(&mut self, n: usize) -> (res: Result<&'a [u8], ArchiveError>)
        ensures
            match res {
                Ok(bytes) => {
                    &&& n <= old(self).remaining().len()
                    &&& bytes@ == old(self).remaining().take(n as int)
                    &&& final(self).remaining() == old(self).remaining().skip(n as int)
                    &&& final(self).position() == old(self).position() + n
                },
                Err(e) => {
                    &&& n > old(self).remaining().len()
                    &&& e@ == ErrorView::Io(short_read_text())
                    &&& *final(self) == *old(self)
                },
            },
    {
        proof {
            use_type_invariant(&*self);
        }
        let data: &'a [u8] = self.data;
        if n > data.len() - self.pos {
            return Err(ArchiveError::Io(String::from_str("failed to fill whole buffer")));
        }
        let bytes = slice_subrange(data, self.pos, self.pos + n);
        assert(bytes@ =~= self.remaining().take(n as int));
        assert(data@.skip(self.pos + n) =~= self.remaining().skip(n as int));
        self.pos = self.pos + n;
        Ok(bytes)
    }

    /// Reads up to `max` bytes: as many as are left, if fewer.
    pub fn read(&mut self, max: usize) -> (bytes: &'a [u8])
        ensures
            bytes@.len() == if max <= old(self).remaining().len() {
                max as nat
            } else {
                old(self).remaining().len()
            },
            bytes@ == old(self).remaining().take(bytes@.len() as int),
            final(self).remaining() == old(self).remaining().skip(bytes@.len() as int),
            final(self).position() == old(self).position() + bytes@.len(),
    {
        proof {
            use_type_invariant(&*self);
        }
        let data: &'a [u8] = self.data;
        let left = data.len() - self.pos;
        let n = if max <= left {
            max
        } else {
            left
        };
        let bytes = slice_subrange(data, self.pos, self.pos + n);
        assert(bytes@ =~= self.remaining().take(n as int));
        assert(data@.skip(self.pos + n) =~= self.remaining().skip(n as int));
        self.pos = self.pos + n;
        bytes
    }
}

/// A byte string that grows as it is written, and in which a write may also
/// replace what was written before. A write that starts past the end first
/// fills the gap with zero bytes.
pub struct ArchiveSink {
    data: Vec<u8>,
    pos: usize,
}

impl ArchiveSink {
    /// All the bytes written so far.
    pub closed spec fn bytes(self) -> Seq<u8> {
        self.data@
    }

    /// The position at which the next write starts.
    pub closed spec fn position(self) -> nat {
        self.pos as nat
    }

    /// A position is a number that a `usize` holds.
    pub proof fn lemma_position_fits(self)
        ensures
            self.position() <= usize::MAX,
    {
    }

    /// An empty sink.
    pub fn new() -> (sink: Self)
        ensures
            sink.bytes() == Seq::<u8>::empty(),
            sink.position() == 0,
    {
        ArchiveSink { data: Vec::new(), pos: 0 }
    }

    /// The position at which the next write starts.
    pub fn stream_position(&self) -> (pos: u64)
        ensures
            pos == self.position(),
            pos <= usize::MAX,
    {
        self.pos as u64
    }

    /// Moves to `pos` bytes from the start. A position that no `usize` holds
    /// is refused.
    pub fn seek(&mut self, pos: u64) -> (res: Result<u64, ArchiveError>)
        ensures
            final(self).bytes() == old(self).bytes(),
            match res {
                Ok(p) => pos <= usize::MAX && p == pos && final(self).position() == pos,
                Err(e) => {
                    &&& pos > usize::MAX
                    &&& e@ == ErrorView::TryFromInt(out_of_range_text())
                    &&& final(self).position() == old(self).position()
                },
            },
    {
        if pos > usize::MAX as u64 {
            return Err(
                ArchiveError::TryFromInt(
                    String::from_str("out of range integral type conversion attempted"),
                ),
            );
        }
        self.pos = pos as usize;
        Ok(pos)
    }

    /// Writes `buf` at the current position and moves behind it.
    pub fn write_all(&mut self, buf: &[u8])
        ensures
            final(self).bytes() == overwrite(old(self).bytes(), old(self).position() as int, buf@),
            final(self).position() == old(self).position() + buf@.len(),
    {
        let n = buf.len();
        if n == 0 {
            return ;
        }
        let start = self.pos;
        let ghost before = self.data@;
        while self.data.len() < start
            invariant
                self.pos == start,
                before.len() <= self.data@.len(),
                self.data@.len() <= start || self.data@.len() == before.len(),
                self.data@ == before + zeros((self.data@.len() - before.len()) as nat),
            decreases start - self.data@.len(),
        {
            self.data.push(0u8);
            assert(self.data@ =~= before + zeros((self.data@.len() - before.len()) as nat));
        }
        let ghost filled = self.data@;
        let mut i: usize = 0;
        while i < n && start + i < self.data.len()
            invariant
                i <= n,
                n == buf@.len(),
                start <= filled.len(),
                self.pos == start,
                self.data.len() == filled.len(),
                start + i <= filled.len(),
                self.data@ == filled.take(start as int) + buf@.take(i as int) + filled.skip(
                    start + i,
                ),
            decreases n - i,
        {
            self.data.set(start + i, buf[i]);
            i = i + 1;
            assert(self.data@ =~= filled.take(start as int) + buf@.take(i as int) + filled.skip(
                start + i,
            ));
        }
        let rest = slice_subrange(buf, i, n);
        self.data.extend_from_slice(rest);
        assert(self.data@ =~= overwrite(before, start as int, buf@));
        assert(start + n <= self.data.len());
        self.pos = start + n;
    }

    /// Nothing is held back, so there is nothing to flush.
    pub fn flush(&mut self)
        ensures
            *final(self) == *old(self),
    {
    }

    /// Hands out all the bytes written.
    pub fn into_bytes(self) -> (bytes: Vec<u8>)
        ensures
            bytes@ == self.bytes(),
    {
        self.data
    }
}

/// A writer that hands every byte on to a sink unchanged, and on the way
/// counts the bytes and keeps their CRC32.
pub struct HasherWriter {
    writer: ArchiveSink,
    hasher: Crc,
    bytes: u64,
}

impl HasherWriter {
    /// The counter never runs ahead of the sink.
    pub closed spec fn wf(self) -> bool {
        self.bytes <= self.writer.pos
    }

    /// The sink that the bytes go to.
    pub closed spec fn sink(self) -> ArchiveSink {
        self.writer
    }

    /// All the bytes that the checksum covers.
    pub closed spec fn hashed(self) -> Seq<u8> {
        absorbed(self.hasher)
    }

    /// The number of bytes written since the count was last taken.
    pub closed spec fn counted(self) -> u64 {
        self.bytes
    }

    /// A writer in front of `writer` that continues the checksum `hasher` and
    /// starts counting at zero.
    pub fn new(writer: ArchiveSink, hasher: Crc) -> (tee: Self)
        ensures
            tee.wf(),
            tee.sink() == writer,
            tee.hashed() == absorbed(hasher),
            tee.counted() == 0,
    {
        HasherWriter { writer, hasher, bytes: 0 }
    }

    /// The CRC32 of all the bytes written.
    pub fn sum(&self) -> (sum: u32)
        ensures
            sum == crc32(self.hashed()),
    {
        self.hasher.sum()
    }

    /// The position of the sink.
    pub fn stream_position(&self) -> (pos: u64)
        ensures
            pos == self.sink().position(),
    {
        self.writer.stream_position()
    }

    /// Returns the number of bytes written since the last call, and starts
    /// counting at zero again.
    pub fn take_written_bytes(&mut self) -> (count: u64)
        ensures
            count == old(self).counted(),
            final(self).counted() == 0,
            final(self).sink() == old(self).sink(),
            final(self).hashed() == old(self).hashed(),
            final(self).wf(),
    {
        let old = self.bytes;
        self.bytes = 0;
        old
    }

    /// Writes all of `buf` to the sink, and adds it to the checksum and to the
    /// count. Returns the number of bytes written, the length of `buf`.
    pub fn write(&mut self, buf: &[u8]) -> (written: usize)
        requires
            old(self).wf(),
        ensures
            final(self).wf(),
            written == buf@.len(),
            final(self).hashed() == old(self).hashed() + buf@,
            final(self).counted() == old(self).counted() + buf@.len(),
            final(self).sink().bytes() == overwrite(
                old(self).sink().bytes(),
                old(self).sink().position() as int,
                buf@,
            ),
            final(self).sink().position() == old(self).sink().position() + buf@.len(),
    {
        self.hasher.update(buf);
        self.writer.write_all(buf);
        let bytes = buf.len();
        self.bytes = self.bytes + bytes as u64;
        bytes
    }

    /// Flushes the sink. Nothing is held back here, so nothing changes.
    pub fn flush(&mut self)
        ensures
            *final(self) == *old(self),
    {
        self.writer.flush();
    }

    /// Gives the sink back.
    pub fn into_inner(self) -> (writer: ArchiveSink)
        ensures
            writer == self.sink(),
    {
        self.writer
    }
}

} // verus!
