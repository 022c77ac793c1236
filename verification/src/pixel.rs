//! Client pixel formats and the primitives that read and write pixels in
//! them: bytes-per-pixel, the compact CPIXEL width used by ZRLE, and the
//! translation of internal RGB24 colors into a client's wire bytes.

use vstd::prelude::*;

verus! {

/// A client's negotiated pixel format, as carried by the 16-byte
/// `SetPixelFormat` descriptor of the remote framebuffer protocol.
#[derive(Clone, Copy, Debug, PartialEq, Eq, Structural)]
pub struct PixelFormat {
    pub bits_per_pixel: u8,
    pub depth: u8,
    pub big_endian_flag: u8,
    pub true_colour_flag: u8,
    pub red_max: u16,
    pub green_max: u16,
    pub blue_max: u16,
    pub red_shift: u8,
    pub green_shift: u8,
    pub blue_shift: u8,
}

impl PixelFormat {
    /// Bytes per pixel on the wire: `bits_per_pixel / 8`.
    pub open spec fn bpp(self) -> int {
        self.bits_per_pixel as int / 8
    }

    /// The channel shifts stay below the 32-bit word width, so shifting by
    /// them is defined.
    pub open spec fn shifts_wf(self) -> bool {
        &&& self.red_shift < 32
        &&& self.green_shift < 32
        &&& self.blue_shift < 32
    }

    /// Formats the encoders accept: 8, 16 or 32 bits per pixel and sane
    /// channel shifts.
    pub open spec fn wf(self) -> bool {
        &&& (self.bits_per_pixel == 8 || self.bits_per_pixel == 16 || self.bits_per_pixel == 32)
        &&& self.shifts_wf()
    }

    /// Formats the low-level pixel primitives handle; 24 bits per pixel is
    /// readable even though the encoders reject it.
    pub open spec fn wf_raw(self) -> bool {
        &&& (self.bits_per_pixel == 8 || self.bits_per_pixel == 16 || self.bits_per_pixel == 24
            || self.bits_per_pixel == 32)
        &&& self.shifts_wf()
    }

    /// All RGB bits fall in the least significant 3 bytes of the pixel word.
    pub open spec fn fits_ls3(self) -> bool {
        &&& ((self.red_max as u64) << (self.red_shift as u64)) < 0x1000000
        &&& ((self.green_max as u64) << (self.green_shift as u64)) < 0x1000000
        &&& ((self.blue_max as u64) << (self.blue_shift as u64)) < 0x1000000
    }

    /// All RGB bits fall in the most significant 3 bytes of the pixel word.
    pub open spec fn fits_ms3(self) -> bool {
        &&& self.red_shift > 7
        &&& self.green_shift > 7
        &&& self.blue_shift > 7
    }

    /// CPIXEL width: 3 when a true-colour 32-bpp format with depth at most 24
    /// keeps all RGB bits in three adjacent bytes, else the full pixel width.
    pub open spec fn cpixel(self) -> int {
        if self.true_colour_flag != 0 && self.bits_per_pixel == 32 && self.depth <= 24
            && (self.fits_ls3() || self.fits_ms3()) {
            3
        } else {
            self.bpp()
        }
    }

    /// A 3-byte CPIXEL emits bytes 0,1,2 of the pixel word ("24A") rather
    /// than bytes 1,2,3 ("24B").
    pub open spec fn cpixel_24a(self) -> bool {
        (self.fits_ls3() && self.big_endian_flag == 0)
            || (self.fits_ms3() && self.big_endian_flag != 0)
    }

    /// The common RGBA32 format: little-endian true colour, 32 bits per
    /// pixel, depth 24, 8 bits per channel with R in the low byte.
    pub fn rgba32() -> (r: PixelFormat)
        ensures
            r == rgba32_format(),
    {
        PixelFormat {
            bits_per_pixel: 32,
            depth: 24,
            big_endian_flag: 0,
            true_colour_flag: 1,
            red_max: 255,
            green_max: 255,
            blue_max: 255,
            red_shift: 0,
            green_shift: 8,
            blue_shift: 16,
        }
    }
}

/// The RGBA32 format `PixelFormat::rgba32` builds.
pub open spec fn rgba32_format() -> PixelFormat {
    PixelFormat {
        bits_per_pixel: 32,
        depth: 24,
        big_endian_flag: 0,
        true_colour_flag: 1,
        red_max: 255,
        green_max: 255,
        blue_max: 255,
        red_shift: 0,
        green_shift: 8,
        blue_shift: 16,
    }
}

/// The internal RGB24 pixel: R in the low byte, G in the second, B in the
/// third, top byte zero.
pub open spec fn rgb24(r: u8, g: u8, b: u8) -> u32 {
    ((r as int) + 256 * (g as int) + 65536 * (b as int)) as u32
}

/// The value carried by the first `pf.bpp()` bytes of `d`, read in the
/// client's byte order.
pub open spec fn pix_val(d: Seq<u8>, pf: PixelFormat) -> int {
    let be = pf.big_endian_flag != 0;
    if pf.bpp() == 1 {
        d[0] as int
    } else if pf.bpp() == 2 {
        if be {
            256 * (d[0] as int) + (d[1] as int)
        } else {
            256 * (d[1] as int) + (d[0] as int)
        }
    } else if pf.bpp() == 4 {
        if be {
            16777216 * (d[0] as int) + 65536 * (d[1] as int) + 256 * (d[2] as int) + (d[3] as int)
        } else {
            16777216 * (d[3] as int) + 65536 * (d[2] as int) + 256 * (d[1] as int) + (d[0] as int)
        }
    } else {
        if be {
            65536 * (d[0] as int) + 256 * (d[1] as int) + (d[2] as int)
        } else {
            65536 * (d[2] as int) + 256 * (d[1] as int) + (d[0] as int)
        }
    }
}

/// Byte `i` (little-endian position) of a 32-bit value.
pub open spec fn byte_of(v: u32, i: int) -> u8 {
    if i == 0 {
        (v % 256) as u8
    } else if i == 1 {
        ((v / 256) % 256) as u8
    } else if i == 2 {
        ((v / 65536) % 256) as u8
    } else {
        ((v / 16777216) % 256) as u8
    }
}

/// The CPIXEL bytes a ZRLE encoder emits for `pixel` under `pf`.
pub open spec fn cpixel_bytes(pixel: u32, pf: PixelFormat) -> Seq<u8> {
    let be = pf.big_endian_flag != 0;
    let b0 = byte_of(pixel, 0);
    let b1 = byte_of(pixel, 1);
    let b2 = byte_of(pixel, 2);
    let b3 = byte_of(pixel, 3);
    if pf.cpixel() == 1 {
        seq![b0]
    } else if pf.cpixel() == 2 {
        if be {
            seq![b1, b0]
        } else {
            seq![b0, b1]
        }
    } else if pf.cpixel() == 3 {
        let ordered = if be {
            seq![b3, b2, b1, b0]
        } else {
            seq![b0, b1, b2, b3]
        };
        if pf.cpixel_24a() {
            ordered.subrange(0, 3)
        } else {
            ordered.subrange(1, 4)
        }
    } else {
        if be {
            seq![b3, b2, b1, b0]
        } else {
            seq![b0, b1, b2, b3]
        }
    }
}

/// True when the format is one the encoders accept: 8, 16 or 32 bits per
/// pixel and in-range channel shifts.
pub fn format_supported(pf: &PixelFormat) -> (b: bool)
    ensures
        b == pf.wf(),
{
    (pf.bits_per_pixel == 8 || pf.bits_per_pixel == 16 || pf.bits_per_pixel == 32)
        && pf.red_shift < 32 && pf.green_shift < 32 && pf.blue_shift < 32
}

/// Bytes per input pixel for the format: `bits_per_pixel / 8`.
pub fn bytes_per_pixel(pf: &PixelFormat) -> (r: usize)
    ensures
        r == pf.bpp(),
{
    (pf.bits_per_pixel / 8) as usize
}

/// True when a 3-byte CPIXEL takes bytes 0,1,2 of the pixel word rather than
/// bytes 1,2,3.
pub fn use_cpixel_24a(pf: &PixelFormat) -> (r: bool)
    requires
        pf.shifts_wf(),
    ensures
        r == pf.cpixel_24a(),
{
    let rgb_in_lower_bytes = ((pf.red_max as u64) << (pf.red_shift as u64)) < 0x1000000
        && ((pf.green_max as u64) << (pf.green_shift as u64)) < 0x1000000
        && ((pf.blue_max as u64) << (pf.blue_shift as u64)) < 0x1000000;
    let rgb_in_upper_bytes = pf.red_shift > 7 && pf.green_shift > 7 && pf.blue_shift > 7;
    let big_endian = pf.big_endian_flag != 0;
    (rgb_in_lower_bytes && !big_endian) || (rgb_in_upper_bytes && big_endian)
}

/// CPIXEL width for the format: 3 for a compressible 32-bpp true-colour
/// format, else the full pixel width.
pub fn bytes_per_cpixel(pf: &PixelFormat) -> (r: usize)
    requires
        pf.shifts_wf(),
    ensures
        r == pf.cpixel(),
{
    if pf.true_colour_flag != 0 && pf.bits_per_pixel == 32 && pf.depth <= 24 {
        let rgb_in_lower_bytes = ((pf.red_max as u64) << (pf.red_shift as u64)) < 0x1000000
            && ((pf.green_max as u64) << (pf.green_shift as u64)) < 0x1000000
            && ((pf.blue_max as u64) << (pf.blue_shift as u64)) < 0x1000000;
        let rgb_in_upper_bytes = pf.red_shift > 7 && pf.green_shift > 7 && pf.blue_shift > 7;
        if rgb_in_lower_bytes || rgb_in_upper_bytes {
            return 3;
        }
    }
    bytes_per_pixel(pf)
}

/// Reads one pixel value from the front of `data` in the client's byte
/// order.
pub fn read_pixel(data: &[u8], pf: &PixelFormat) -> (r: u32)
    requires
        pf.wf_raw(),
        data@.len() >= pf.bpp(),
    ensures
        r as int == pix_val(data@, *pf),
{
    let bpp = bytes_per_pixel(pf);
    match bpp {
        1 => data[0] as u32,
        2 => {
            if pf.big_endian_flag != 0 {
                256 * (data[0] as u32) + (data[1] as u32)
            } else {
                256 * (data[1] as u32) + (data[0] as u32)
            }
        },
        4 => {
            if pf.big_endian_flag != 0 {
                16777216 * (data[0] as u32) + 65536 * (data[1] as u32) + 256 * (data[2] as u32)
                    + (data[3] as u32)
            } else {
                16777216 * (data[3] as u32) + 65536 * (data[2] as u32) + 256 * (data[1] as u32)
                    + (data[0] as u32)
            }
        },
        _ => {
            if pf.big_endian_flag != 0 {
                65536 * (data[0] as u32) + 256 * (data[1] as u32) + (data[2] as u32)
            } else {
                65536 * (data[2] as u32) + 256 * (data[1] as u32) + (data[0] as u32)
            }
        },
    }
}

/// Appends the CPIXEL bytes of `pixel` to `buf` in the client's byte order;
/// a 3-byte CPIXEL keeps only the significant 3 bytes of the pixel word.
pub fn write_cpixel(buf: &mut Vec<u8>, pixel: u32, pf: &PixelFormat)
    requires
        pf.wf_raw(),
    ensures
        final(buf)@ == old(buf)@ + cpixel_bytes(pixel, *pf),
{
    let b0: u8 = (pixel % 256) as u8;
    let b1: u8 = ((pixel / 256) % 256) as u8;
    let b2: u8 = ((pixel / 65536) % 256) as u8;
    let b3: u8 = ((pixel / 16777216) % 256) as u8;
    let cpixel_size = bytes_per_cpixel(pf);
    let big_endian = pf.big_endian_flag != 0;
    match cpixel_size {
        1 => {
            buf.push(b0);
        },
        2 => {
            if big_endian {
                buf.push(b1);
                buf.push(b0);
            } else {
                buf.push(b0);
                buf.push(b1);
            }
        },
        3 => {
            if use_cpixel_24a(pf) {
                if big_endian {
                    buf.push(b3);
                    buf.push(b2);
                    buf.push(b1);
                } else {
                    buf.push(b0);
                    buf.push(b1);
                    buf.push(b2);
                }
            } else {
                if big_endian {
                    buf.push(b2);
                    buf.push(b1);
                    buf.push(b0);
                } else {
                    buf.push(b1);
                    buf.push(b2);
                    buf.push(b3);
                }
            }
        },
        _ => {
            if big_endian {
                buf.push(b3);
                buf.push(b2);
                buf.push(b1);
                buf.push(b0);
            } else {
                buf.push(b0);
                buf.push(b1);
                buf.push(b2);
                buf.push(b3);
            }
        },
    }
    assert(buf@ =~= old(buf)@ + cpixel_bytes(pixel, *pf));
}

/// Converts an RGBA pixel's channels to the internal RGB24 form.
pub fn rgba_to_rgb24(r: u8, g: u8, b: u8) -> (c: u32)
    ensures
        c == rgb24(r, g, b),
{
    (r as u32) + 256 * (g as u32) + 65536 * (b as u32)
}

/// The wire bytes of internal color `c` under client format `pf`: three raw
/// RGB bytes for a depth-24 format with full 8-bit channels, otherwise the
/// channels scaled to the client's maxima, packed by its shifts and written
/// in its byte order.
pub open spec fn translated_bytes(c: u32, pf: PixelFormat) -> Seq<u8> {
    let r = byte_of(c, 0);
    let g = byte_of(c, 1);
    let b = byte_of(c, 2);
    if pf.depth == 24 && pf.red_max == 255 && pf.green_max == 255 && pf.blue_max == 255 {
        seq![r, g, b]
    } else {
        let packed = packed_channels(c, pf);
        let be = pf.big_endian_flag != 0;
        let p0 = (packed % 256) as u8;
        let p1 = ((packed / 256) % 256) as u8;
        let p2 = ((packed / 65536) % 256) as u8;
        let p3 = ((packed / 16777216) % 256) as u8;
        if pf.bpp() == 1 {
            seq![p0]
        } else if pf.bpp() == 2 {
            if be {
                seq![p1, p0]
            } else {
                seq![p0, p1]
            }
        } else {
            if be {
                seq![p3, p2, p1, p0]
            } else {
                seq![p0, p1, p2, p3]
            }
        }
    }
}

/// The pixel word for color `c` under `pf`: each channel scaled from 0..255
/// to the client's maximum, shifted to the client's position.
pub open spec fn packed_channels(c: u32, pf: PixelFormat) -> u64 {
    let r = byte_of(c, 0);
    let g = byte_of(c, 1);
    let b = byte_of(c, 2);
    let rv = (((r as u64) * (pf.red_max as u64) / 255) as u64) << (pf.red_shift as u64);
    let gv = (((g as u64) * (pf.green_max as u64) / 255) as u64) << (pf.green_shift as u64);
    let bv = (((b as u64) * (pf.blue_max as u64) / 255) as u64) << (pf.blue_shift as u64);
    rv | gv | bv
}

/// Translates internal color `c` to the wire bytes the client expects.
pub fn translate_pixel_to_client_format(c: u32, pf: &PixelFormat) -> (out: Vec<u8>)
    requires
        pf.wf(),
    ensures
        out@ == translated_bytes(c, *pf),
{
    let r: u8 = (c % 256) as u8;
    let g: u8 = ((c / 256) % 256) as u8;
    let b: u8 = ((c / 65536) % 256) as u8;
    let mut out: Vec<u8> = Vec::new();
    if pf.depth == 24 && pf.red_max == 255 && pf.green_max == 255 && pf.blue_max == 255 {
        out.push(r);
        out.push(g);
        out.push(b);
    } else {
        proof {
            assert((r as u64) * (pf.red_max as u64) <= 255 * 65535) by (nonlinear_arith)
                requires
                    r as u64 <= 255,
                    pf.red_max as u64 <= 65535,
            ;
            assert((g as u64) * (pf.green_max as u64) <= 255 * 65535) by (nonlinear_arith)
                requires
                    g as u64 <= 255,
                    pf.green_max as u64 <= 65535,
            ;
            assert((b as u64) * (pf.blue_max as u64) <= 255 * 65535) by (nonlinear_arith)
                requires
                    b as u64 <= 255,
                    pf.blue_max as u64 <= 65535,
            ;
        }
        let rv: u64 = ((r as u64) * (pf.red_max as u64) / 255) << (pf.red_shift as u64);
        let gv: u64 = ((g as u64) * (pf.green_max as u64) / 255) << (pf.green_shift as u64);
        let bv: u64 = ((b as u64) * (pf.blue_max as u64) / 255) << (pf.blue_shift as u64);
        let packed: u64 = rv | gv | bv;
        let p0: u8 = (packed % 256) as u8;
        let p1: u8 = ((packed / 256) % 256) as u8;
        let p2: u8 = ((packed / 65536) % 256) as u8;
        let p3: u8 = ((packed / 16777216) % 256) as u8;
        let big_endian = pf.big_endian_flag != 0;
        if pf.bits_per_pixel == 8 {
            out.push(p0);
        } else if pf.bits_per_pixel == 16 {
            if big_endian {
                out.push(p1);
                out.push(p0);
            } else {
                out.push(p0);
                out.push(p1);
            }
        } else {
            if big_endian {
                out.push(p3);
                out.push(p2);
                out.push(p1);
                out.push(p0);
            } else {
                out.push(p0);
                out.push(p1);
                out.push(p2);
                out.push(p3);
            }
        }
    }
    assert(out@ =~= translated_bytes(c, *pf));
    out
}

} // verus!
