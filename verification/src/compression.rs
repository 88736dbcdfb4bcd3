//! The zstd stream that an archive's body travels in.

use std::io::{Read, Write};
use vstd::prelude::*;

verus! {

/// An error of the standard library's I/O, carried through unread.
#[verifier::external_type_specification]
#[verifier::external_body]
pub struct ExIoError(std::io::Error);

/// A byte buffer with a reading position.
#[verifier::external_type_specification]
#[verifier::external_body]
#[verifier::reject_recursive_types(T)]
pub struct ExCursor<T>(std::io::Cursor<T>);

/// zstd's decompressing reader.
#[verifier::external_type_specification]
#[verifier::external_body]
#[verifier::reject_recursive_types(R)]
pub struct ExDecoder<'a, R>(zstd::stream::read::Decoder<'a, R>);

/// zstd's decompressing reader over bytes in memory.
pub type FrameDecoder = zstd::stream::read::Decoder<'static, std::io::Cursor<Vec<u8>>>;

/// zstd's compressing writer (`zstd::stream::write::Encoder`) into memory. The
/// bytes it takes in are `encoder_content`; what it works with is
/// `encoder_settings`.
#[verifier::external_body]
pub struct FrameEncoder {
    inner: zstd::stream::write::Encoder<'static, Vec<u8>>,
}

/// The bytes that an encoder has taken in so far.
pub uninterp spec fn encoder_content(encoder: FrameEncoder) -> Seq<u8>;

/// The compression level and the checksum switch that an encoder works with.
pub uninterp spec fn encoder_settings(encoder: FrameEncoder) -> (i32, bool);

/// The compressed stream that an encoder makes of a content: what
/// `Encoder::finish` leaves in its output.
pub uninterp spec fn zstd_stream(content: Seq<u8>, level: i32, checksum: bool) -> Seq<u8>;

/// What a compressed stream decodes to: the whole content when the stream
/// decodes without a fault up to its end, nothing otherwise.
pub uninterp spec fn zstd_content(stream: Seq<u8>) -> Option<Seq<u8>>;

/// What a decoder has still to hand out: all of it when reading on to the end
/// of the stream meets no fault, nothing otherwise.
pub uninterp spec fn decoder_rest(decoder: FrameDecoder) -> Option<Seq<u8>>;

/// `zstd::stream::write::Encoder::new` on an empty output. Trusted: a new
/// encoder has taken in nothing, has the level that was asked for, and writes
/// no checksum.
#[verifier::external_body]
pub(crate) fn encoder_new(level: i32) -> (r: Result<FrameEncoder, std::io::Error>)
    ensures
        r matches Ok(encoder) ==> encoder_content(encoder) == Seq::<u8>::empty(),
        r matches Ok(encoder) ==> encoder_settings(encoder) == (level, false),
{
    let inner = zstd::stream::write::Encoder::new(Vec::new(), level)?;
    Ok(FrameEncoder { inner })
}

/// `Encoder::include_checksum`. Trusted: on success the switch is as asked for,
/// and nothing else has changed.
#[verifier::external_body]
pub(crate) fn encoder_checksum(encoder: &mut FrameEncoder, on: bool) -> (r: Result<
    (),
    std::io::Error,
>)
    ensures
        r is Ok ==> encoder_content(*final(encoder)) == encoder_content(*old(encoder)),
        r is Ok ==> encoder_settings(*final(encoder)) == (encoder_settings(*old(encoder)).0, on),
{
    encoder.inner.include_checksum(on)
}

/// `std::io::Write::write_all` on `Encoder`. Trusted: on success the encoder has
/// taken in all the bytes, behind those before.
#[verifier::external_body]
pub(crate) fn encoder_write(encoder: &mut FrameEncoder, bytes: &[u8]) -> (r: Result<
    (),
    std::io::Error,
>)
    ensures
        r is Ok ==> encoder_content(*final(encoder)) == encoder_content(*old(encoder)) + bytes@,
        r is Ok ==> encoder_settings(*final(encoder)) == encoder_settings(*old(encoder)),
{
    encoder.inner.write_all(bytes)
}

/// `Encoder::finish`. Trusted: on success the output is a function of the
/// content, the level and the checksum switch, and it decodes to the content.
#[verifier::external_body]
pub(crate) fn encoder_finish(encoder: FrameEncoder) -> (r: Result<Vec<u8>, std::io::Error>)
    ensures
        r matches Ok(stream) ==> stream@ == zstd_stream(
            encoder_content(encoder),
            encoder_settings(encoder).0,
            encoder_settings(encoder).1,
        ),
        r matches Ok(stream) ==> zstd_content(stream@) == Some(encoder_content(encoder)),
{
    encoder.inner.finish()
}

/// `zstd::stream::read::Decoder::with_buffer` over bytes in memory. Trusted: on
/// success everything that the bytes decode to is still to come.
#[verifier::external_body]
pub(crate) fn decoder_new(stream: Vec<u8>) -> (r: Result<FrameDecoder, std::io::Error>)
    ensures
        r matches Ok(decoder) ==> decoder_rest(decoder) == zstd_content(stream@),
{
    zstd::stream::read::Decoder::with_buffer(std::io::Cursor::new(stream))
}

/// Up to `limit` bytes of a decoder, read to the end of what
/// `std::io::Read::take` lets through. Trusted: on success no more than `limit`
/// bytes come; of a stream that decodes without a fault they are the next
/// `limit` bytes, or all that is left when that is less. Fewer than `limit`
/// bytes come only at the end of the stream, which a stream that breaks off, or
/// that is damaged in what is still to be read, never comes to: reading its end
/// is an error. A read that succeeds leaves a fault further on where it is.
/// Whether a read succeeds is not stated: decoding needs memory.
#[verifier::external_body]
pub(crate) fn decoder_read(decoder: &mut FrameDecoder, limit: usize) -> (r: Result<
    Vec<u8>,
    std::io::Error,
>)
    ensures
        r matches Ok(bytes) ==> bytes@.len() <= limit,
        r matches Ok(bytes) ==> (decoder_rest(*old(decoder)) matches Some(rest) ==> {
            let count = if limit < rest.len() {
                limit as int
            } else {
                rest.len() as int
            };
            &&& bytes@ == rest.take(count)
            &&& decoder_rest(*final(decoder)) == Some(rest.skip(count))
        }),
        r matches Ok(bytes) && bytes@.len() < limit ==> decoder_rest(*old(decoder)) is Some,
        r is Ok && decoder_rest(*old(decoder)) is None ==> decoder_rest(*final(decoder)) is None,
{
    let mut bytes: Vec<u8> = Vec::new();
    decoder.take(limit as u64).read_to_end(&mut bytes)?;
    Ok(bytes)
}

} // verus!
