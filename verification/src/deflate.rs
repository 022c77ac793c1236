//! The persistent deflate layer: four independent zlib streams addressed by
//! stream id, each created lazily and keeping its dictionary across calls,
//! plus the one-shot deflate used by the non-persistent ZRLE entry point.

use vstd::prelude::*;

use crate::EncodeError;

verus! {

/// Zlib stream ID for full-color data.
pub const STREAM_ID_FULL_COLOR: u8 = 0;

/// Zlib stream ID for monochrome bitmap data.
pub const STREAM_ID_MONO: u8 = 1;

/// Zlib stream ID for indexed palette data.
pub const STREAM_ID_INDEXED: u8 = 2;

/// Declares `flate2::Compress` to the verifier as an opaque deflate
/// stream.
#[verifier::external_type_specification]
#[verifier::external_body]
pub struct ExCompress(flate2::Compress);

/// Relies on `flate2::Compress::new`: a fresh deflate stream that writes a
/// zlib header, at the given level.
#[verifier::external_body]
pub fn new_deflate_stream(level: u32) -> (r: flate2::Compress)
    requires
        level <= 9,
{
    flate2::Compress::new(flate2::Compression::new(level), true)
}

/// A persistent deflate stream the library owns. Its inner stream is
/// created only by `DeflateStream::new` and driven only by `compress_sync`
/// below, with sync flushes and never a finishing flush, so no reachable
/// value of this type holds a finished stream.
pub struct DeflateStream {
    inner: flate2::Compress,
}

impl DeflateStream {
    /// A fresh persistent stream at the given deflate level, clamped to 9,
    /// with its dictionary kept across `compress_sync` calls.
    pub fn new(level: u8) -> (r: DeflateStream) {
        let lv: u8 = if level > 9 {
            9
        } else {
            level
        };
        DeflateStream { inner: new_deflate_stream(lv as u32) }
    }
}

/// Relies on `flate2::Compress::compress` with a sync flush, on a stream
/// that only this module creates and drives: the bytes this call produced
/// are the growth of the stream's `total_out` counter and fit the supplied
/// capacity. Such a stream is never finished, so with capacity of at least
/// twice the input plus 1024 the backend's loop consumes the whole input
/// and completes the flush (the stored-block worst case stays well under
/// that bound), and the call succeeds; a buffer-error status or a failure
/// reports as an error.
#[verifier::external_body]
pub fn compress_sync(stream: &mut DeflateStream, input: &[u8], out_cap: usize) -> (r: Result<
    Vec<u8>,
    EncodeError,
>)
    ensures
        r is Ok ==> r.unwrap()@.len() <= out_cap,
        2 * input@.len() + 1024 <= out_cap ==> r is Ok,
{
    let mut output = vec![0u8; out_cap];
    let before = stream.inner.total_out();
    match stream.inner.compress(input, &mut output, flate2::FlushCompress::Sync) {
        Ok(flate2::Status::Ok) | Ok(flate2::Status::StreamEnd) => {
            let produced = (stream.inner.total_out() - before) as usize;
            output.truncate(produced);
            Ok(output)
        },
        Ok(flate2::Status::BufError) => Err(EncodeError::Compression),
        Err(_) => Err(EncodeError::Compression),
    }
}

/// What the one-shot deflate of a byte string produces: one whole,
/// finished zlib stream. The result is a function of the input bytes and
/// the level alone.
pub uninterp spec fn deflate_of(input: Seq<u8>, level: int) -> Seq<u8>;

/// Relies on `flate2::write::ZlibEncoder`: deflates the whole input as one
/// finished zlib stream at the given level. Writing into a `Vec` cannot
/// hit an I/O error and deflate with valid parameters does not fail, so
/// the call succeeds; its output depends on the input bytes and the level
/// alone, and stays within the deflate worst-case bound of twice the input
/// plus 1024 (stored blocks cost well under that).
#[verifier::external_body]
pub fn deflate_finish(input: &[u8], level: u32) -> (r: Result<Vec<u8>, EncodeError>)
    requires
        level <= 9,
    ensures
        r is Ok,
        r.unwrap()@ == deflate_of(input@, level as int),
        r.unwrap()@.len() <= 2 * input@.len() + 1024,
{
    let mut enc = flate2::write::ZlibEncoder::new(Vec::new(), flate2::Compression::new(level));
    if std::io::Write::write_all(&mut enc, input).is_err() {
        return Err(EncodeError::Compression);
    }
    match enc.finish() {
        Ok(v) => Ok(v),
        Err(_) => Err(EncodeError::Compression),
    }
}

/// A set of persistent zlib streams for the Tight encoding.
///
/// An implementation keeps one deflate stream per stream id so that the
/// dictionary carries across rectangle updates; `compress_tight_stream`
/// returns exactly the bytes the stream produced for this call.
pub trait TightStreamCompressor {
    /// Compresses `input` on persistent stream `stream_id` at `level`.
    fn compress_tight_stream(&mut self, stream_id: u8, level: u8, input: &[u8]) -> Result<
        Vec<u8>,
        String,
    >;
}

/// A standalone `TightStreamCompressor`: four lazily created persistent
/// zlib streams, one per stream id, capped at the level it was built with.
pub struct SimpleTightCompressor {
    stream_full: Option<DeflateStream>,
    stream_mono: Option<DeflateStream>,
    stream_indexed: Option<DeflateStream>,
    stream_extra: Option<DeflateStream>,
    level: u8,
}

impl SimpleTightCompressor {
    /// A compressor whose streams will not exceed `level`.
    pub fn new(level: u8) -> (r: SimpleTightCompressor) {
        SimpleTightCompressor {
            stream_full: None,
            stream_mono: None,
            stream_indexed: None,
            stream_extra: None,
            level,
        }
    }
}

impl TightStreamCompressor for SimpleTightCompressor {
    /// Deflates the whole input on the selected stream with a sync flush.
    /// An unknown stream id is an error; on an input whose deflate bound
    /// fits the output buffer the call succeeds, and the result never
    /// exceeds that bound.
    fn compress_tight_stream(&mut self, stream_id: u8, level: u8, input: &[u8]) -> (r: Result<
        Vec<u8>,
        String,
    >)
        ensures
            stream_id >= 4 ==> r is Err,
            r is Ok ==> r.unwrap()@.len() <= 2 * input@.len() + 1024,
            stream_id < 4 && 2 * input@.len() + 1024 <= 0xFFFFFFFF ==> r is Ok,
    {
        if stream_id >= 4 {
            return Err("invalid stream id".to_string());
        }
        let use_level: u8 = if level < self.level {
            level
        } else {
            self.level
        };
        let use_level: u8 = if use_level > 9 {
            9
        } else {
            use_level
        };
        let slot: &mut Option<DeflateStream> = match stream_id {
            0 => &mut self.stream_full,
            1 => &mut self.stream_mono,
            2 => &mut self.stream_indexed,
            _ => &mut self.stream_extra,
        };
        if slot.is_none() {
            *slot = Some(DeflateStream::new(use_level));
        }
        let n: usize = input.len();
        if n > (usize::MAX - 1024) / 2 {
            return Err("input too large".to_string());
        }
        match slot {
            Some(stream) => {
                match compress_sync(stream, input, 2 * n + 1024) {
                    Ok(v) => Ok(v),
                    Err(_) => Err("compression failed".to_string()),
                }
            },
            None => Err("compression failed".to_string()),
        }
    }
}

} // verus!
