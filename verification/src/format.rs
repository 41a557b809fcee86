//! The constants of the archive format.
use vstd::prelude::*;

verus! {

/// The four bytes that open every archive: `.slf`.
pub const SIGNATURE: [u8; 4] = [0x2e, 0x73, 0x6c, 0x66];

/// The format version that is written, major then minor.
pub const VERSION: [u8; 2] = [1, 0];

/// The length of the longest chunk that is handed on at once, and of the
/// longest entry name.
pub const BUFFER_SIZE: usize = 131072;

/// The extension of an archive's file name: `slf`.
pub const EXTENSION: [u8; 3] = [0x73, 0x6c, 0x66];

/// The position in an archive of the number that says where the index
/// starts.
pub const INDEX_OFFSET_POSITION: u64 = 10;

/// The length of an archive's header: signature, version, number of entries
/// and the position of the index.
pub const HEADER_LEN: usize = 18;

} // verus!
