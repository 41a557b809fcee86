//! CRC32 checksums, computed by `flate2::Crc`.
use vstd::prelude::*;
use flate2::Crc;

verus! {

/// `flate2::Crc`, a running CRC32 computation.
#[verifier::external_type_specification]
#[verifier::external_body]
pub struct ExCrc(Crc);

/// The CRC32 checksum of a byte string, as `flate2::Crc::sum` reports it.
pub uninterp spec fn crc32(data: Seq<u8>) -> u32;

/// The bytes that a `flate2::Crc` has absorbed since it was created.
pub uninterp spec fn absorbed(crc: Crc) -> Seq<u8>;

/// `Crc::new` starts a computation that has absorbed nothing.
pub assume_specification[ Crc::new ]() -> (crc: Crc)
    ensures
        absorbed(crc) == Seq::<u8>::empty(),
;

/// `Crc::update` appends `data` to what has been absorbed.
pub assume_specification[ Crc::update ](crc: &mut Crc, data: &[u8])
    ensures
        absorbed(*final(crc)) == absorbed(*old(crc)) + data@,
;

/// `Crc::sum` is the CRC32 of everything absorbed so far.
pub assume_specification[ Crc::sum ](crc: &Crc) -> (sum: u32)
    ensures
        sum == crc32(absorbed(*crc)),
;

/// The CRC32 checksum of `data`.
pub fn checksum_of(data: &[u8]) -> (sum: u32)
    ensures
        sum == crc32(data@),
{
    let mut crc = Crc::new();
    crc.update(data);
    assert(absorbed(crc) =~= data@);
    crc.sum()
}

} // verus!
