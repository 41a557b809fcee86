//! Gzip streams, written and read by `flate2`.
//!
//! Nothing here is proved: each function states what `flate2` does with an
//! encoder or a decoder whose output collects in a `Vec<u8>`.
use vstd::prelude::*;
use flate2::write::{GzDecoder, GzEncoder};
use flate2::Compression;
use std::io::Write;

verus! {

/// A `flate2::write::GzEncoder` whose output collects in a `Vec<u8>`.
#[verifier::external_body]
pub struct Encoder {
    inner: GzEncoder<Vec<u8>>,
}

/// A `flate2::write::GzDecoder`, the decoder of one gzip member, whose output
/// collects in a `Vec<u8>`.
#[verifier::external_body]
pub struct Decoder {
    inner: GzDecoder<Vec<u8>>,
}

/// `std::io::Error`, with which `flate2` reports a failure.
#[verifier::external_type_specification]
#[verifier::external_body]
pub struct ExIoError(std::io::Error);

/// The chunks that an encoder has been given, in order.
pub uninterp spec fn encoder_chunks(encoder: Encoder) -> Seq<Seq<u8>>;

/// The output that has been taken out of an encoder so far.
pub uninterp spec fn encoder_emitted(encoder: Encoder) -> Seq<u8>;

/// The gzip stream that an encoder of the default level makes of the given
/// chunks, from its creation to its end; `None` where a write or the end
/// fails. The encoder writes into a `Vec`, so that nothing but the chunks
/// decides which of the two it is.
pub uninterp spec fn gzip_stream(chunks: Seq<Seq<u8>>) -> Option<Seq<u8>>;

/// The bytes that a decoder has taken in so far.
pub uninterp spec fn decoder_fed(decoder: Decoder) -> Seq<u8>;

/// The output that has been taken out of a decoder so far.
pub uninterp spec fn decoder_emitted(decoder: Decoder) -> Seq<u8>;

/// What a decoder makes of `stream`, however the stream is cut into writes:
/// the decoded bytes, or `None` where a write or the end fails, as it does
/// unless `stream` is exactly one gzip member.
pub uninterp spec fn gunzip(stream: Seq<u8>) -> Option<Seq<u8>>;

/// `GzEncoder::new` on an empty `Vec` with `Compression::default()`: an
/// encoder that was given nothing and put out nothing.
#[verifier::external_body]
pub(crate) fn encoder_new() -> (encoder: Encoder)
    ensures
        encoder_chunks(encoder) == Seq::<Seq<u8>>::empty(),
        encoder_emitted(encoder) == Seq::<u8>::empty(),
{
    Encoder { inner: GzEncoder::new(Vec::new(), Compression::default()) }
}

/// `write_all` on a `GzEncoder`, then the output that has collected in its
/// `Vec` is taken out through `get_mut`. On success the encoder has taken all
/// of `chunk`, and what is returned continues the output. A failure means
/// that the chunks given so far and `chunk` make no stream, whatever chunks
/// follow.
#[verifier::external_body]
pub(crate) fn encoder_write(encoder: &mut Encoder, chunk: &[u8]) -> (res: Result<
    Vec<u8>,
    std::io::Error,
>)
    ensures
        res matches Ok(out) ==> {
            &&& encoder_chunks(*final(encoder)) == encoder_chunks(*old(encoder)).push(chunk@)
            &&& encoder_emitted(*final(encoder)) == encoder_emitted(*old(encoder)) + out@
        },
        res is Err ==> forall|rest: Seq<Seq<u8>>| #[trigger]
            gzip_stream(encoder_chunks(*old(encoder)).push(chunk@) + rest) is None,
{
    encoder.inner.write_all(chunk)?;
    Ok(std::mem::take(encoder.inner.get_mut()))
}

/// `GzEncoder::finish`: on success the returned bytes complete the gzip
/// stream of the chunks given, and that stream decodes to the chunks in a
/// row; a failure means that the chunks given make no stream.
#[verifier::external_body]
pub(crate) fn encoder_finish(encoder: Encoder) -> (res: Result<Vec<u8>, std::io::Error>)
    ensures
        res matches Ok(out) ==> {
            &&& gzip_stream(encoder_chunks(encoder)) == Some(encoder_emitted(encoder) + out@)
            &&& gunzip(encoder_emitted(encoder) + out@) == Some(encoder_chunks(encoder).flatten())
        },
        res is Err ==> gzip_stream(encoder_chunks(encoder)) is None,
{
    encoder.inner.finish()
}

/// `GzDecoder::new` on an empty `Vec`: a decoder that took in nothing and put
/// out nothing.
#[verifier::external_body]
pub(crate) fn decoder_new() -> (decoder: Decoder)
    ensures
        decoder_fed(decoder) == Seq::<u8>::empty(),
        decoder_emitted(decoder) == Seq::<u8>::empty(),
{
    Decoder { inner: GzDecoder::new(Vec::new()) }
}

/// `write_all` on a `GzDecoder`, then the output that has collected in its
/// `Vec` is taken out through `get_mut`. On success the decoder has taken all
/// of `chunk`, and what is returned continues the output. A failure means
/// that no stream that starts with the bytes taken so far and `chunk` decodes.
#[verifier::external_body]
pub(crate) fn decoder_write(decoder: &mut Decoder, chunk: &[u8]) -> (res: Result<
    Vec<u8>,
    std::io::Error,
>)
    ensures
        res matches Ok(out) ==> {
            &&& decoder_fed(*final(decoder)) == decoder_fed(*old(decoder)) + chunk@
            &&& decoder_emitted(*final(decoder)) == decoder_emitted(*old(decoder)) + out@
        },
        res is Err ==> forall|rest: Seq<u8>| #[trigger]
            gunzip(decoder_fed(*old(decoder)) + chunk@ + rest) is None,
{
    decoder.inner.write_all(chunk)?;
    Ok(std::mem::take(decoder.inner.get_mut()))
}

/// `GzDecoder::finish`: on success the returned bytes complete the decoded
/// output of the bytes taken in; a failure means that those bytes do not
/// decode.
#[verifier::external_body]
pub(crate) fn decoder_finish(decoder: Decoder) -> (res: Result<Vec<u8>, std::io::Error>)
    ensures
        res matches Ok(out) ==> gunzip(decoder_fed(decoder)) == Some(
            decoder_emitted(decoder) + out@,
        ),
        res is Err ==> gunzip(decoder_fed(decoder)) is None,
{
    decoder.inner.finish()
}

} // verus!
