//! Codec for `.slf` archives: a container that stores files as gzip streams,
//! each guarded by two CRC32 checksums.
//!
//! The library works on bytes in memory. `pack::pack` makes an archive of
//! files that were read. `unpack::unpack` reads one back and says where each
//! file belongs; `unpack::open_archive` and `unpack::unpack_next` do the same
//! entry by entry, for a caller that keeps each file as soon as it is found
//! sound. The module `path` decides on paths without a look at the file
//! system. What is taken on trust of `flate2` and of the standard
//! library stands in `checksum`, `gzip` and `text`.
pub mod checksum;
pub mod entry;
pub mod error;
pub mod format;
pub mod gzip;
pub mod laws;
pub mod layout;
pub mod pack;
pub mod path;
pub mod stream;
pub mod text;
pub mod unpack;

pub use entry::InnerFile;
pub use error::ArchiveError;
pub use format::{BUFFER_SIZE, SIGNATURE, VERSION};
pub use pack::pack;
pub use path::normalize_path;
pub use stream::HasherWriter;
pub use unpack::unpack;
