//! Verified encoders for the RFB (remote framebuffer) wire protocol.
//!
//! The crate implements the Tight and ZRLE rectangle encodings: pixel
//! translation into a client's negotiated format, the compact length codec,
//! palette analysis, tile subencoding selection, and the byte-exact wire
//! framing around zlib-compressed payloads.

use vstd::prelude::*;

pub mod bytebuf;
pub mod compact;
pub mod deflate;
pub mod palette;
pub mod pixel;
pub mod tight;
pub mod zrle;

verus! {

/// The failures an encode call surfaces to its caller.
#[derive(Clone, Copy, Debug, PartialEq, Eq, Structural)]
pub enum EncodeError {
    /// The input buffer is smaller than the dimensions and format demand,
    /// the dimensions are zero, or the pixel format is unsupported.
    InvalidInput,
    /// A deflate stream returned a fatal status.
    Compression,
}

/// A rectangle encoder: turns a framebuffer rectangle in RGBA form into the
/// wire bytes of one encoding.
pub trait Encoding {
    /// Encodes a `width` by `height` RGBA rectangle read from `data`.
    fn encode(&self, data: &[u8], width: u16, height: u16, quality: u8, compression: u8) -> (r:
        bytes::BytesMut)
        requires
            width >= 1,
            height >= 1,
            data@.len() >= 4 * (width as int) * (height as int),
    ;
}

} // verus!
