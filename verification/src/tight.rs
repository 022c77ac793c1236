//! The Tight rectangle encoding: rectangle subdivision under the protocol's
//! width and area caps, greedy solid-area extraction, palette-driven mode
//! selection (solid / mono / indexed / full color), and the byte-exact wire
//! framing of each subrectangle around its compressed or raw payload.

use vstd::prelude::*;

use crate::compact::compact_bytes;
use crate::compact::write_compact_length;
use crate::palette::all_eq;
use crate::palette::analyze_palette;
use crate::palette::exactly_two;
use crate::palette::mono_bg;
use crate::palette::mono_fg;
use crate::palette::mono_threshold;
use crate::palette::tight_colors;
use crate::palette::TightPalette;
use crate::pixel::rgb24;
use crate::pixel::translate_pixel_to_client_format;
use crate::pixel::translated_bytes;
use crate::pixel::PixelFormat;
use crate::deflate::TightStreamCompressor;
use crate::deflate::STREAM_ID_INDEXED;
use crate::deflate::STREAM_ID_MONO;
use crate::zrle::idx_in;
use crate::zrle::p2;
use crate::zrle::push_all;
use crate::zrle::tile_region;

verus! {

/// The largest width a single Tight subrectangle may have.
pub const TIGHT_MAX_RECT_WIDTH: u16 = 2048;

/// The largest pixel count a single Tight subrectangle may have.
pub const TIGHT_MAX_RECT_SIZE: u32 = 65536;

/// A rectangle in framebuffer pixel coordinates.
#[derive(Clone, Copy, Debug, PartialEq, Eq, Structural)]
pub struct Rect {
    pub x: u16,
    pub y: u16,
    pub w: u16,
    pub h: u16,
}

impl Rect {
    /// One past the right edge.
    pub open spec fn x2(self) -> int {
        self.x + self.w
    }

    /// One past the bottom edge.
    pub open spec fn y2(self) -> int {
        self.y + self.h
    }

    /// The pixel `(px, py)` lies inside.
    pub open spec fn has_pt(self, px: int, py: int) -> bool {
        self.x <= px < self.x2() && self.y <= py < self.y2()
    }

    /// Nonempty and within the protocol's caps on a single subrectangle.
    pub open spec fn size_ok(self) -> bool {
        &&& 1 <= self.w <= TIGHT_MAX_RECT_WIDTH
        &&& 1 <= self.h
        &&& self.w * self.h <= TIGHT_MAX_RECT_SIZE
    }
}

/// The internal RGB24 color of the framebuffer pixel at `(x, y)`, with the
/// framebuffer `fw` pixels wide and 4 bytes per pixel.
pub open spec fn color_at(fb: Seq<u8>, fw: int, x: int, y: int) -> u32 {
    rgb24(fb[(y * fw + x) * 4], fb[(y * fw + x) * 4 + 1], fb[(y * fw + x) * 4 + 2])
}

/// Every pixel of the `w` by `h` region at `(x, y)` has color `c`.
pub open spec fn region_solid(fb: Seq<u8>, fw: int, x: int, y: int, w: int, h: int, c: u32) -> bool {
    forall|i: int, j: int|
        x <= i < x + w && y <= j < y + h ==> #[trigger] color_at(fb, fw, i, j) == c
}

/// How many rectangles of the list contain the pixel `(px, py)`.
pub open spec fn count_at(rs: Seq<Rect>, px: int, py: int) -> int
    decreases rs.len(),
{
    if rs.len() == 0 {
        0
    } else {
        count_at(rs.drop_last(), px, py) + if rs.last().has_pt(px, py) {
            1int
        } else {
            0int
        }
    }
}

/// The rectangles of the list cover the region `[x1, x2) x [y1, y2)`
/// exactly once, and no pixel outside it.
pub open spec fn covers_exactly_region(rs: Seq<Rect>, x1: int, y1: int, x2: int, y2: int) -> bool {
    forall|px: int, py: int|
        #[trigger] count_at(rs, px, py) == if x1 <= px < x2 && y1 <= py < y2 {
            1int
        } else {
            0int
        }
}

/// Appending a rectangle raises the count exactly inside it.
pub proof fn lemma_count_at_push(rs: Seq<Rect>, r: Rect, px: int, py: int)
    ensures
        count_at(rs.push(r), px, py) == count_at(rs, px, py) + if r.has_pt(px, py) {
            1int
        } else {
            0int
        },
{
    assert(rs.push(r).drop_last() =~= rs);
    assert(rs.push(r).last() == r);
}

/// Counts over concatenated lists add.
pub proof fn lemma_count_at_concat(a: Seq<Rect>, b: Seq<Rect>, px: int, py: int)
    ensures
        count_at(a + b, px, py) == count_at(a, px, py) + count_at(b, px, py),
    decreases b.len(),
{
    if b.len() == 0 {
        assert(a + b =~= a);
    } else {
        assert((a + b).drop_last() =~= a + b.drop_last());
        assert((a + b).last() == b.last());
        lemma_count_at_concat(a, b.drop_last(), px, py);
    }
}

/// The compression profile index a public compression level selects.
pub open spec fn conf_idx(compression: u8) -> int {
    if compression == 0 {
        0
    } else if compression == 1 {
        1
    } else if compression == 2 || compression == 3 {
        2
    } else {
        3
    }
}

/// The deflate level of the indexed-data stream, by profile.
pub open spec fn idx_zlib_level(compression: u8) -> int {
    if conf_idx(compression) == 0 {
        0
    } else if conf_idx(compression) == 1 {
        1
    } else if conf_idx(compression) == 2 {
        3
    } else {
        7
    }
}

/// The deflate level of the mono-bitmap stream, by profile.
pub open spec fn mono_zlib_level(compression: u8) -> int {
    idx_zlib_level(compression)
}

/// The deflate level of the full-color stream, by profile.
pub open spec fn raw_zlib_level(compression: u8) -> int {
    if conf_idx(compression) == 0 {
        0
    } else if conf_idx(compression) == 1 {
        1
    } else if conf_idx(compression) == 2 {
        2
    } else {
        5
    }
}

/// The compression level the encoder works at: with JPEG enabled (quality
/// below 10) the level is clamped into 1..2, otherwise capped at 1; a
/// remaining level 9 would select the low-bandwidth profile.
pub open spec fn normalized_compression(compression: u8, quality: u8) -> u8 {
    let level = if quality < 10 {
        if compression < 1 {
            1u8
        } else if compression > 2 {
            2u8
        } else {
            compression
        }
    } else {
        if compression > 1 {
            1u8
        } else {
            compression
        }
    };
    if level == 9 {
        3u8
    } else {
        level
    }
}

/// Normalizes the public compression level against the JPEG quality
/// setting.
pub fn normalize_compression_level(compression: u8, quality: u8) -> (r: u8)
    ensures
        r == normalized_compression(compression, quality),
        r <= 2,
{
    let mut level = compression;
    if quality < 10 {
        if level < 1 {
            level = 1;
        } else if level > 2 {
            level = 2;
        }
    } else if level > 1 {
        level = 1;
    }
    if level == 9 {
        level = 3;
    }
    level
}

/// The byte offset of pixel `(x + dx, y + dy)` stays within a framebuffer
/// that holds the whole `w` by `h` region.
proof fn lemma_pixel_offset_bounds(
    len: int,
    fw: int,
    x: int,
    y: int,
    w: int,
    h: int,
    dx: int,
    dy: int,
)
    requires
        0 <= x,
        0 <= y,
        1 <= w,
        1 <= h,
        0 <= dx < w,
        0 <= dy < h,
        x + w <= fw,
        (y + h) * fw * 4 <= len,
    ensures
        0 <= ((y + dy) * fw + (x + dx)) * 4,
        ((y + dy) * fw + (x + dx)) * 4 + 3 < len,
        (y + dy) * fw + (x + dx) <= len,
        (y + dy) * fw <= len,
        ((y + dy) * fw + (x + dx)) * 4 <= len,
{
    assert(0 <= ((y + dy) * fw + (x + dx)) * 4 && ((y + dy) * fw + (x + dx)) * 4 + 4 <= (y + h)
        * fw * 4 && (y + dy) * fw + (x + dx) <= (y + h) * fw * 4 && (y + dy) * fw <= (y + h) * fw
        * 4) by (nonlinear_arith)
        requires
            0 <= x,
            0 <= y,
            1 <= w,
            1 <= h,
            0 <= dx,
            dx < w,
            0 <= dy,
            dy < h,
            x + w <= fw,
    ;
}

/// Tests whether a tile of the framebuffer is one solid color; `Some`
/// returns the top-left pixel's color, which then fills the whole tile and
/// matches `need_same_color` when that is given.
pub fn check_solid_tile(
    framebuffer: &[u8],
    fb_width: u16,
    x: u16,
    y: u16,
    w: u16,
    h: u16,
    need_same_color: Option<u32>,
) -> (r: Option<u32>)
    requires
        1 <= w,
        1 <= h,
        x + w <= fb_width,
        y + h <= 65536,
        // whole rows through the region's bottom, a little more than the
        // bytes the scan reads
        (y + h) * (fb_width as int) * 4 <= framebuffer@.len(),
    ensures
        r is Some <==> ((need_same_color is Some ==> need_same_color.unwrap() == color_at(
            framebuffer@,
            fb_width as int,
            x as int,
            y as int,
        )) && region_solid(
            framebuffer@,
            fb_width as int,
            x as int,
            y as int,
            w as int,
            h as int,
            color_at(framebuffer@, fb_width as int, x as int, y as int),
        )),
        r is Some ==> r.unwrap() == color_at(framebuffer@, fb_width as int, x as int, y as int),
{
    let ghost fb = framebuffer@;
    let ghost fw = fb_width as int;
    let total: usize = framebuffer.len();
    proof {
        lemma_pixel_offset_bounds(fb.len() as int, fw, x as int, y as int, w as int, h as int, 0, 0);
    }
    let offset: usize = ((y as usize) * (fb_width as usize) + (x as usize)) * 4;
    let first_color = crate::pixel::rgba_to_rgb24(
        framebuffer[offset],
        framebuffer[offset + 1],
        framebuffer[offset + 2],
    );
    assert(first_color == color_at(fb, fw, x as int, y as int));

    if let Some(required) = need_same_color {
        if first_color != required {
            return None;
        }
    }

    let mut dy: u16 = 0;
    while dy < h
        invariant
            0 <= dy <= h,
            fb == framebuffer@,
            fw == fb_width as int,
            total == fb.len(),
            1 <= w,
            1 <= h,
            x + w <= fb_width,
            y + h <= 65536,
            (y + h) * fw * 4 <= fb.len(),
            first_color == color_at(fb, fw, x as int, y as int),
            forall|i: int, j: int|
                x <= i < x + w && y <= j < y + dy ==> #[trigger] color_at(fb, fw, i, j)
                    == first_color,
        decreases h - dy,
    {
        let mut dx: u16 = 0;
        while dx < w
            invariant
                0 <= dx <= w,
                dy < h,
                fb == framebuffer@,
                fw == fb_width as int,
                total == fb.len(),
                1 <= w,
                1 <= h,
                x + w <= fb_width,
                y + h <= 65536,
                (y + h) * fw * 4 <= fb.len(),
                first_color == color_at(fb, fw, x as int, y as int),
                forall|i: int, j: int|
                    x <= i < x + w && y <= j < y + dy ==> #[trigger] color_at(fb, fw, i, j)
                        == first_color,
                forall|i: int|
                    x <= i < x + dx ==> #[trigger] color_at(fb, fw, i, y + dy) == first_color,
            decreases w - dx,
        {
            proof {
                lemma_pixel_offset_bounds(
                    fb.len() as int,
                    fw,
                    x as int,
                    y as int,
                    w as int,
                    h as int,
                    dx as int,
                    dy as int,
                );
            }
            let pix_offset: usize = (((y + dy) as usize) * (fb_width as usize) + ((x + dx) as usize))
                * 4;
            let color = crate::pixel::rgba_to_rgb24(
                framebuffer[pix_offset],
                framebuffer[pix_offset + 1],
                framebuffer[pix_offset + 2],
            );
            assert(color == color_at(fb, fw, x + dx, y + dy));
            if color != first_color {
                return None;
            }
            dx = dx + 1;
        }
        dy = dy + 1;
    }
    Some(first_color)
}

/// Grows a solid seed at `(x, y)` downward and rightward in 16-pixel
/// steps, returning the best solid area found: it starts at `(x, y)`, fits
/// in the `w` by `h` window, and is solid of `color_value` throughout.
pub fn find_best_solid_area(
    framebuffer: &[u8],
    fb_width: u16,
    x: u16,
    y: u16,
    w: u16,
    h: u16,
    color_value: u32,
) -> (r: (u16, u16))
    requires
        1 <= w,
        1 <= h,
        x + w <= fb_width,
        y + h <= 65536,
        // whole rows through the region's bottom, a little more than the
        // bytes the scan reads
        (y + h) * (fb_width as int) * 4 <= framebuffer@.len(),
    ensures
        r.0 <= w,
        r.1 <= h,
        region_solid(
            framebuffer@,
            fb_width as int,
            x as int,
            y as int,
            r.0 as int,
            r.1 as int,
            color_value,
        ),
        region_solid(
            framebuffer@,
            fb_width as int,
            x as int,
            y as int,
            (if w < 16 {
                w as int
            } else {
                16int
            }),
            (if h < 16 {
                h as int
            } else {
                16int
            }),
            color_value,
        ) ==> 1 <= r.0 && (if h < 16 {
            h as int
        } else {
            16int
        }) <= r.1 as int && (if w < 16 {
            w as int
        } else {
            16int
        }) * (if h < 16 {
            h as int
        } else {
            16int
        }) <= (r.0 as int) * (r.1 as int),
        !region_solid(
            framebuffer@,
            fb_width as int,
            x as int,
            y as int,
            (if w < 16 {
                w as int
            } else {
                16int
            }),
            (if h < 16 {
                h as int
            } else {
                16int
            }),
            color_value,
        ) ==> r == (0u16, 0u16),
{
    let ghost fb = framebuffer@;
    let ghost fw = fb_width as int;
    let ghost sw: int = if w < 16 {
        w as int
    } else {
        16int
    };
    let ghost sh: int = if h < 16 {
        h as int
    } else {
        16int
    };
    let ghost seeded = region_solid(fb, fw, x as int, y as int, sw, sh, color_value);
    let mut w_best: u16 = 0;
    let mut h_best: u16 = 0;
    let mut w_prev: u16 = w;

    let mut dy: u16 = 0;
    while dy < h
        invariant
            0 <= dy <= h,
            fb == framebuffer@,
            fw == fb_width as int,
            1 <= w,
            1 <= h,
            x + w <= fb_width,
            y + h <= 65536,
            (y + h) * fw * 4 <= fb.len(),
            1 <= w_prev <= w,
            w_best <= w,
            h_best <= h,
            sw == (if w < 16 {
                w as int
            } else {
                16int
            }),
            sh == (if h < 16 {
                h as int
            } else {
                16int
            }),
            seeded == region_solid(fb, fw, x as int, y as int, sw, sh, color_value),
            dy == 0 ==> w_prev == w && w_best == 0 && h_best == 0,
            dy > 0 ==> seeded,
            dy == 0 || sh <= dy as int,
            seeded ==> (dy == 0 || (1 <= w_best && sh <= h_best as int && sw * sh <= (
            w_best as int) * (h_best as int))),
            region_solid(fb, fw, x as int, y as int, w_best as int, h_best as int, color_value),
            region_solid(fb, fw, x as int, y as int, w_prev as int, dy as int, color_value),
        ensures
            w_best <= w,
            h_best <= h,
            region_solid(fb, fw, x as int, y as int, w_best as int, h_best as int, color_value),
            seeded ==> (1 <= w_best && sh <= h_best as int && sw * sh <= (w_best as int) * (
            h_best as int)),
            !seeded ==> w_best == 0 && h_best == 0,
        decreases h - dy,
    {
        let dh: u16 = if h - dy < 16 {
            h - dy
        } else {
            16
        };
        let dw: u16 = if w_prev < 16 {
            w_prev
        } else {
            16
        };
        if dw == 0 {
            break ;
        }
        proof {
            lemma_strip_in_bounds(fb.len() as int, fw, x as int, y as int, w as int, h as int);
        }
        if check_solid_tile(framebuffer, fb_width, x, y + dy, dw, dh, Some(color_value)).is_none() {
            proof {
                if dy == 0 && seeded {
                    // The seed tile is exactly this first check's tile, so a
                    // failed check contradicts a solid seed.
                    assert(color_at(fb, fw, x as int, y as int) == color_value);
                }
            }
            break ;
        }

        let mut dx: u16 = dw;
        while dx < w_prev
            invariant
                dw <= dx <= w_prev,
                dy < h,
                1 <= dh,
                dy + dh <= h,
                fb == framebuffer@,
                fw == fb_width as int,
                1 <= w,
                1 <= h,
                x + w <= fb_width,
                y + h <= 65536,
                (y + h) * fw * 4 <= fb.len(),
                w_prev <= w,
                region_solid(fb, fw, x as int, y + dy, dx as int, dh as int, color_value),
            ensures
                dw <= dx <= w_prev,
                region_solid(fb, fw, x as int, y + dy, dx as int, dh as int, color_value),
            decreases w_prev - dx,
        {
            let dw_check: u16 = if w_prev - dx < 16 {
                w_prev - dx
            } else {
                16
            };
            proof {
                lemma_strip_in_bounds(
                    fb.len() as int,
                    fw,
                    x as int,
                    y as int,
                    w as int,
                    h as int,
                );
            }
            if check_solid_tile(
                framebuffer,
                fb_width,
                x + dx,
                y + dy,
                dw_check,
                dh,
                Some(color_value),
            ).is_none() {
                break ;
            }
            assert forall|i: int, j: int|
                x <= i < x + dx + dw_check && y + dy <= j < y + dy + dh implies #[trigger] color_at(
                fb,
                fw,
                i,
                j,
            ) == color_value by {
                if i >= x + dx {
                    assert(color_at(fb, fw, i, j) == color_value);
                }
            }
            dx = dx + dw_check;
        }

        w_prev = dx;
        proof {
            assert forall|i: int, j: int|
                x <= i < x + w_prev && y <= j < y + dy + dh implies #[trigger] color_at(
                fb,
                fw,
                i,
                j,
            ) == color_value by {
                if j >= y + dy {
                    assert(color_at(fb, fw, i, j) == color_value);
                } else {
                    assert(color_at(fb, fw, i, j) == color_value);
                }
            }
        }
        proof {
            assert((w_prev as int) * ((dy + dh) as int) <= 0xFFFFFFFF && (w_best as int) * (
            h_best as int) <= 0xFFFFFFFF) by (nonlinear_arith)
                requires
                    w_prev as int <= 65535,
                    (dy + dh) as int <= 65535,
                    w_best as int <= 65535,
                    h_best as int <= 65535,
            ;
        }
        let area_new: u64 = (w_prev as u64) * ((dy + dh) as u64);
        let area_best: u64 = (w_best as u64) * (h_best as u64);
        proof {
            assert(1 <= (w_prev as int) * ((dy + dh) as int)) by (nonlinear_arith)
                requires
                    1 <= w_prev as int,
                    1 <= (dy + dh) as int,
            ;
            if dy == 0 {
                assert(sw * sh <= (w_prev as int) * ((dy + dh) as int)) by (nonlinear_arith)
                    requires
                        sw <= w_prev as int,
                        sh == (dy + dh) as int,
                        0 <= sw,
                        0 <= sh,
                ;
            }
        }
        if area_new > area_best {
            w_best = w_prev;
            h_best = dy + dh;
        }
        dy = dy + dh;
    }

    (w_best, h_best)
}

/// Extends a solid area one pixel strip at a time, upward, downward,
/// leftward and rightward, within the window at `(base_x, base_y)` of size
/// `max_w` by `max_h`. The result contains the given area, stays in the
/// window, is solid of `color_value` throughout, and is maximal in the
/// order the strips are tried: the row above, the row below (both at the
/// given width), the column to the left and the column to the right (at
/// the final height) are each either outside the window or not solid.
pub fn extend_solid_area(
    framebuffer: &[u8],
    fb_width: u16,
    base_x: u16,
    base_y: u16,
    max_w: u16,
    max_h: u16,
    color_value: u32,
    x: u16,
    y: u16,
    w: u16,
    h: u16,
) -> (r: (u16, u16, u16, u16))
    requires
        base_x <= x,
        base_y <= y,
        1 <= w,
        1 <= h,
        x + w <= base_x + max_w,
        y + h <= base_y + max_h,
        base_x + max_w <= fb_width,
        base_y + max_h <= 65536,
        // whole rows through the window's bottom, a little more than the
        // bytes the scan reads
        (base_y + max_h) * (fb_width as int) * 4 <= framebuffer@.len(),
        region_solid(
            framebuffer@,
            fb_width as int,
            x as int,
            y as int,
            w as int,
            h as int,
            color_value,
        ),
    ensures
        base_x <= r.0 <= x,
        base_y <= r.1 <= y,
        x + w <= r.0 + r.2,
        y + h <= r.1 + r.3,
        r.0 + r.2 <= base_x + max_w,
        r.1 + r.3 <= base_y + max_h,
        1 <= r.2,
        1 <= r.3,
        region_solid(
            framebuffer@,
            fb_width as int,
            r.0 as int,
            r.1 as int,
            r.2 as int,
            r.3 as int,
            color_value,
        ),
        r.1 > base_y ==> !region_solid(
            framebuffer@,
            fb_width as int,
            x as int,
            r.1 - 1,
            w as int,
            1,
            color_value,
        ),
        r.1 + r.3 < base_y + max_h ==> !region_solid(
            framebuffer@,
            fb_width as int,
            x as int,
            r.1 + r.3,
            w as int,
            1,
            color_value,
        ),
        r.0 > base_x ==> !region_solid(
            framebuffer@,
            fb_width as int,
            r.0 - 1,
            r.1 as int,
            1,
            r.3 as int,
            color_value,
        ),
        r.0 + r.2 < base_x + max_w ==> !region_solid(
            framebuffer@,
            fb_width as int,
            r.0 + r.2,
            r.1 as int,
            1,
            r.3 as int,
            color_value,
        ),
{
    let ghost fb = framebuffer@;
    let ghost fw = fb_width as int;
    let ghost x0 = x as int;
    let ghost y0 = y as int;
    let ghost w0 = w as int;
    let ghost h0 = h as int;
    let mut x = x;
    let mut y = y;
    let mut w = w;
    let mut h = h;

    while y > base_y
        invariant
            base_x <= x,
            base_y <= y,
            x == x0,
            w == w0,
            y <= y0,
            x0 + w0 <= x + w,
            y0 + h0 <= y + h,
            1 <= w,
            1 <= h,
            x + w <= base_x + max_w,
            y + h <= base_y + max_h,
            base_x + max_w <= fb_width,
            base_y + max_h <= 65536,
            (base_y + max_h) * fw * 4 <= fb.len(),
            fb == framebuffer@,
            fw == fb_width as int,
            region_solid(fb, fw, x as int, y as int, w as int, h as int, color_value),
        ensures
            base_x <= x,
            base_y <= y,
            x == x0,
            w == w0,
            y <= y0,
            x0 + w0 <= x + w,
            y0 + h0 <= y + h,
            1 <= w,
            1 <= h,
            x + w <= base_x + max_w,
            y + h <= base_y + max_h,
            region_solid(fb, fw, x as int, y as int, w as int, h as int, color_value),
            y > base_y ==> !region_solid(fb, fw, x0, y - 1, w0, 1, color_value),
        decreases y,
    {
        proof {
            lemma_strip_in_bounds(
                fb.len() as int,
                fw,
                base_x as int,
                base_y as int,
                max_w as int,
                max_h as int,
            );
        }
        if check_solid_tile(framebuffer, fb_width, x, y - 1, w, 1, Some(color_value)).is_none() {
            proof {
                if region_solid(fb, fw, x as int, y - 1, w as int, 1, color_value) {
                    assert(color_at(fb, fw, x as int, y - 1) == color_value);
                }
            }
            break ;
        }
        y = y - 1;
        h = h + 1;
        assert forall|i: int, j: int|
            x <= i < x + w && y <= j < y + h implies #[trigger] color_at(fb, fw, i, j)
            == color_value by {
            assert(color_at(fb, fw, i, j) == color_value);
        }
    }

    while (y as u32) + (h as u32) < (base_y as u32) + (max_h as u32)
        invariant
            base_x <= x,
            base_y <= y,
            x == x0,
            w == w0,
            y <= y0,
            x0 + w0 <= x + w,
            y0 + h0 <= y + h,
            1 <= w,
            1 <= h,
            x + w <= base_x + max_w,
            y + h <= base_y + max_h,
            base_x + max_w <= fb_width,
            base_y + max_h <= 65536,
            (base_y + max_h) * fw * 4 <= fb.len(),
            fb == framebuffer@,
            fw == fb_width as int,
            region_solid(fb, fw, x as int, y as int, w as int, h as int, color_value),
            y > base_y ==> !region_solid(fb, fw, x0, y - 1, w0, 1, color_value),
        ensures
            base_x <= x,
            base_y <= y,
            x == x0,
            w == w0,
            y <= y0,
            x0 + w0 <= x + w,
            y0 + h0 <= y + h,
            1 <= w,
            1 <= h,
            x + w <= base_x + max_w,
            y + h <= base_y + max_h,
            region_solid(fb, fw, x as int, y as int, w as int, h as int, color_value),
            y > base_y ==> !region_solid(fb, fw, x0, y - 1, w0, 1, color_value),
            y + h < base_y + max_h ==> !region_solid(fb, fw, x0, y + h, w0, 1, color_value),
        decreases base_y + max_h - y - h,
    {
        proof {
            lemma_strip_in_bounds(
                fb.len() as int,
                fw,
                base_x as int,
                base_y as int,
                max_w as int,
                max_h as int,
            );
        }
        if check_solid_tile(framebuffer, fb_width, x, y + h, w, 1, Some(color_value)).is_none() {
            proof {
                if region_solid(fb, fw, x as int, y + h, w as int, 1, color_value) {
                    assert(color_at(fb, fw, x as int, y + h) == color_value);
                }
            }
            break ;
        }
        h = h + 1;
        assert forall|i: int, j: int|
            x <= i < x + w && y <= j < y + h implies #[trigger] color_at(fb, fw, i, j)
            == color_value by {
            assert(color_at(fb, fw, i, j) == color_value);
        }
    }

    while x > base_x
        invariant
            base_x <= x,
            base_y <= y,
            x <= x0,
            y <= y0,
            x0 + w0 <= x + w,
            y0 + h0 <= y + h,
            1 <= w,
            1 <= h,
            x + w <= base_x + max_w,
            y + h <= base_y + max_h,
            base_x + max_w <= fb_width,
            base_y + max_h <= 65536,
            (base_y + max_h) * fw * 4 <= fb.len(),
            fb == framebuffer@,
            fw == fb_width as int,
            region_solid(fb, fw, x as int, y as int, w as int, h as int, color_value),
            y > base_y ==> !region_solid(fb, fw, x0, y - 1, w0, 1, color_value),
            y + h < base_y + max_h ==> !region_solid(fb, fw, x0, y + h, w0, 1, color_value),
        ensures
            base_x <= x,
            base_y <= y,
            x <= x0,
            y <= y0,
            x0 + w0 <= x + w,
            y0 + h0 <= y + h,
            1 <= w,
            1 <= h,
            x + w <= base_x + max_w,
            y + h <= base_y + max_h,
            region_solid(fb, fw, x as int, y as int, w as int, h as int, color_value),
            y > base_y ==> !region_solid(fb, fw, x0, y - 1, w0, 1, color_value),
            y + h < base_y + max_h ==> !region_solid(fb, fw, x0, y + h, w0, 1, color_value),
            x > base_x ==> !region_solid(fb, fw, x - 1, y as int, 1, h as int, color_value),
        decreases x,
    {
        proof {
            lemma_strip_in_bounds(
                fb.len() as int,
                fw,
                base_x as int,
                base_y as int,
                max_w as int,
                max_h as int,
            );
        }
        if check_solid_tile(framebuffer, fb_width, x - 1, y, 1, h, Some(color_value)).is_none() {
            proof {
                if region_solid(fb, fw, x - 1, y as int, 1, h as int, color_value) {
                    assert(color_at(fb, fw, x - 1, y as int) == color_value);
                }
            }
            break ;
        }
        x = x - 1;
        w = w + 1;
        assert forall|i: int, j: int|
            x <= i < x + w && y <= j < y + h implies #[trigger] color_at(fb, fw, i, j)
            == color_value by {
            assert(color_at(fb, fw, i, j) == color_value);
        }
    }

    while (x as u32) + (w as u32) < (base_x as u32) + (max_w as u32)
        invariant
            base_x <= x,
            base_y <= y,
            x <= x0,
            y <= y0,
            x0 + w0 <= x + w,
            y0 + h0 <= y + h,
            1 <= w,
            1 <= h,
            x + w <= base_x + max_w,
            y + h <= base_y + max_h,
            base_x + max_w <= fb_width,
            base_y + max_h <= 65536,
            (base_y + max_h) * fw * 4 <= fb.len(),
            fb == framebuffer@,
            fw == fb_width as int,
            region_solid(fb, fw, x as int, y as int, w as int, h as int, color_value),
            y > base_y ==> !region_solid(fb, fw, x0, y - 1, w0, 1, color_value),
            y + h < base_y + max_h ==> !region_solid(fb, fw, x0, y + h, w0, 1, color_value),
            x > base_x ==> !region_solid(fb, fw, x - 1, y as int, 1, h as int, color_value),
        ensures
            base_x <= x,
            base_y <= y,
            x <= x0,
            y <= y0,
            x0 + w0 <= x + w,
            y0 + h0 <= y + h,
            1 <= w,
            1 <= h,
            x + w <= base_x + max_w,
            y + h <= base_y + max_h,
            region_solid(fb, fw, x as int, y as int, w as int, h as int, color_value),
            y > base_y ==> !region_solid(fb, fw, x0, y - 1, w0, 1, color_value),
            y + h < base_y + max_h ==> !region_solid(fb, fw, x0, y + h, w0, 1, color_value),
            x > base_x ==> !region_solid(fb, fw, x - 1, y as int, 1, h as int, color_value),
            x + w < base_x + max_w ==> !region_solid(
                fb,
                fw,
                x + w,
                y as int,
                1,
                h as int,
                color_value,
            ),
        decreases base_x + max_w - x - w,
    {
        proof {
            lemma_strip_in_bounds(
                fb.len() as int,
                fw,
                base_x as int,
                base_y as int,
                max_w as int,
                max_h as int,
            );
        }
        if check_solid_tile(framebuffer, fb_width, x + w, y, 1, h, Some(color_value)).is_none() {
            proof {
                if region_solid(fb, fw, x + w, y as int, 1, h as int, color_value) {
                    assert(color_at(fb, fw, x + w, y as int) == color_value);
                }
            }
            break ;
        }
        w = w + 1;
        assert forall|i: int, j: int|
            x <= i < x + w && y <= j < y + h implies #[trigger] color_at(fb, fw, i, j)
            == color_value by {
            assert(color_at(fb, fw, i, j) == color_value);
        }
    }

    (x, y, w, h)
}

/// A strip inside the window stays inside the framebuffer: the window's
/// last byte bound carries to any lower row bound.
proof fn lemma_strip_in_bounds(len: int, fw: int, base_x: int, base_y: int, max_w: int, max_h: int)
    requires
        0 <= base_x,
        0 <= base_y,
        0 <= max_w,
        0 <= max_h,
        base_x + max_w <= fw,
        (base_y + max_h) * fw * 4 <= len,
    ensures
        forall|yy: int|
            0 <= yy <= base_y + max_h ==> #[trigger] (yy * fw * 4) <= len,
{
    assert forall|yy: int| 0 <= yy <= base_y + max_h implies #[trigger] (yy * fw * 4) <= len by {
        assert(yy * fw * 4 <= (base_y + max_h) * fw * 4) by (nonlinear_arith)
            requires
                0 <= yy,
                yy <= base_y + max_h,
                0 <= fw,
        ;
    }
}

/// How a Tight payload follows its header: a short payload goes raw with
/// no length prefix; at deflate level 0 the raw payload follows its compact
/// length; otherwise the compact length of whatever the deflate stream
/// produced precedes those bytes, raw bytes standing in when the stream
/// fails.
pub open spec fn framed_ok(t: Seq<u8>, payload: Seq<u8>, zl: int) -> bool {
    if payload.len() < 12 {
        t == payload
    } else if zl == 0 {
        t == compact_bytes(payload.len() as int) + payload
    } else {
        exists|z: Seq<u8>| #![auto] z.len() < 0x400000 && t == compact_bytes(z.len() as int) + z
    }
}

/// Appends a payload in Tight framing: raw without a length when short,
/// with a compact length at deflate level 0, and otherwise compressed on
/// the persistent stream with the compact length of the compressed bytes
/// (falling back to the length-prefixed raw payload when the stream
/// fails).
pub fn compress_data<C: TightStreamCompressor>(
    buf: &mut Vec<u8>,
    data: &Vec<u8>,
    zlib_level: u8,
    stream_id: u8,
    compressor: &mut C,
)
    requires
        data@.len() < 0x400000,
    ensures
        exists|t: Seq<u8>|
            #![auto]
            final(buf)@ == old(buf)@ + t && framed_ok(t, data@, zlib_level as int),
{
    if data.len() < 12 {
        push_all(buf, data.as_slice());
        assert(framed_ok(data@, data@, zlib_level as int));
        return ;
    }
    if zlib_level == 0 {
        write_compact_length(buf, data.len());
        push_all(buf, data.as_slice());
        assert(buf@ =~= old(buf)@ + (compact_bytes(data@.len() as int) + data@));
        assert(framed_ok(compact_bytes(data@.len() as int) + data@, data@, zlib_level as int));
        return ;
    }
    let compressed = compressor.compress_tight_stream(stream_id, zlib_level, data.as_slice());
    match compressed {
        Ok(z) => {
            if z.len() < 0x400000 {
                write_compact_length(buf, z.len());
                push_all(buf, z.as_slice());
                assert(buf@ =~= old(buf)@ + (compact_bytes(z@.len() as int) + z@));
                assert(framed_ok(compact_bytes(z@.len() as int) + z@, data@, zlib_level as int));
            } else {
                write_compact_length(buf, data.len());
                push_all(buf, data.as_slice());
                assert(buf@ =~= old(buf)@ + (compact_bytes(data@.len() as int) + data@));
                assert(framed_ok(
                    compact_bytes(data@.len() as int) + data@,
                    data@,
                    zlib_level as int,
                ));
            }
        },
        Err(_) => {
            write_compact_length(buf, data.len());
            push_all(buf, data.as_slice());
            assert(buf@ =~= old(buf)@ + (compact_bytes(data@.len() as int) + data@));
            assert(framed_ok(compact_bytes(data@.len() as int) + data@, data@, zlib_level as int));
        },
    }
}

/// The wire bytes of a solid-fill subrectangle: control byte 0x80 and the
/// fill color in the client's format.
pub open spec fn solid_rect_bytes(c: u32, pf: PixelFormat) -> Seq<u8> {
    seq![0x80u8] + translated_bytes(c, pf)
}

/// Encodes a solid-fill subrectangle.
pub fn encode_solid_rect(color: u32, pf: &PixelFormat) -> (r: Vec<u8>)
    requires
        pf.wf(),
    ensures
        r@ == solid_rect_bytes(color, *pf),
{
    let mut buf: Vec<u8> = Vec::new();
    buf.push(0x80);
    let color_bytes = translate_pixel_to_client_format(color, pf);
    push_all(&mut buf, color_bytes.as_slice());
    assert(buf@ =~= solid_rect_bytes(color, *pf));
    buf
}

/// One mono bitmap row, continued: from pixel `i` on, a set bit marks a
/// pixel different from the background; whole bytes are emitted MSB-first
/// and a trailing partial byte keeps its bits at the high end.
pub open spec fn mono_pack_acc(row: Seq<u32>, bg: u32, i: int, acc: int, nbits: int) -> Seq<u8>
    decreases row.len() - i,
{
    if i < 0 || i >= row.len() {
        if nbits > 0 {
            seq![((acc * p2(8 - nbits)) % 256) as u8]
        } else {
            Seq::empty()
        }
    } else {
        let bit: int = if row[i] == bg {
            0
        } else {
            1
        };
        let acc2 = (acc * 2 + bit) % 256;
        if nbits + 1 >= 8 {
            seq![acc2 as u8] + mono_pack_acc(row, bg, i + 1, 0, 0)
        } else {
            mono_pack_acc(row, bg, i + 1, acc2, nbits + 1)
        }
    }
}

/// The mono bitmap of a two-color rectangle, row by row, each row starting
/// on a byte boundary.
pub open spec fn mono_rows(s: Seq<u32>, w: int, h: int, bg: u32, r: int) -> Seq<u8>
    decreases h - r,
{
    if r < 0 || r >= h {
        Seq::empty()
    } else {
        mono_pack_acc(s.subrange(r * w, r * w + w), bg, 0, 0, 0) + mono_rows(s, w, h, bg, r + 1)
    }
}

/// A mono row packs into exactly the bytes its bit count demands.
proof fn lemma_mono_pack_len(row: Seq<u32>, bg: u32, i: int, acc: int, nbits: int)
    requires
        0 <= i <= row.len(),
        0 <= nbits < 8,
    ensures
        mono_pack_acc(row, bg, i, acc, nbits).len() == ((row.len() - i) + nbits + 7) / 8,
    decreases row.len() - i,
{
    if i < row.len() {
        let bit: int = if row[i] == bg {
            0
        } else {
            1
        };
        let acc2 = (acc * 2 + bit) % 256;
        if nbits + 1 >= 8 {
            lemma_mono_pack_len(row, bg, i + 1, 0, 0);
        } else {
            lemma_mono_pack_len(row, bg, i + 1, acc2, nbits + 1);
        }
    }
}

/// The mono bitmap has one byte row of `(w + 7) / 8` bytes per pixel row.
pub proof fn lemma_mono_rows_len(s: Seq<u32>, w: int, h: int, bg: u32, r: int)
    requires
        0 <= r <= h,
        1 <= w,
        h * w <= s.len(),
    ensures
        mono_rows(s, w, h, bg, r).len() == (h - r) * ((w + 7) / 8),
    decreases h - r,
{
    if r < h {
        assert((r + 1) * w <= h * w && r * w + w == (r + 1) * w && 0 <= r * w)
            by (nonlinear_arith)
            requires
                0 <= r,
                r + 1 <= h,
                1 <= w,
        ;
        let row = s.subrange(r * w, r * w + w);
        assert(row.len() == w);
        lemma_mono_pack_len(row, bg, 0, 0, 0);
        lemma_mono_rows_len(s, w, h, bg, r + 1);
        assert((h - r) * ((w + 7) / 8) == (h - (r + 1)) * ((w + 7) / 8) + ((w + 7) / 8))
            by (nonlinear_arith);
    } else {
        assert((h - r) * ((w + 7) / 8) == 0) by (nonlinear_arith)
            requires
                h == r,
        ;
    }
}

/// Packs a two-color rectangle into its mono bitmap: one bit per pixel,
/// MSB-first, zero for the background color, each row padded out to a byte.
pub fn encode_mono_bitmap(pixels: &[u8], width: u16, height: u16, bg: u32) -> (r: Vec<u8>)
    requires
        1 <= width,
        1 <= height,
        pixels@.len() == 4 * ((width as int) * (height as int)),
    ensures
        r@ == mono_rows(
            tight_colors(pixels@),
            width as int,
            height as int,
            bg,
            0,
        ),
{
    let ghost s = tight_colors(pixels@);
    let ghost w = width as int;
    let ghost h = height as int;
    proof {
        assert(s.len() == w * h) by {
            assert(pixels@.len() / 4 == w * h) by (nonlinear_arith)
                requires
                    pixels@.len() == 4 * (w * h),
                    0 <= w * h,
            ;
        }
    }
    let mut out: Vec<u8> = Vec::new();
    let wu: usize = width as usize;
    let hu: usize = height as usize;
    let total: usize = pixels.len();
    let mut r: usize = 0;
    while r < hu
        invariant
            0 <= r <= hu,
            s == tight_colors(pixels@),
            w == width as int,
            h == height as int,
            wu == w,
            hu == h,
            1 <= w,
            1 <= h,
            total == pixels@.len(),
            pixels@.len() == 4 * (w * h),
            s.len() == w * h,
            out@ + mono_rows(s, w, h, bg, r as int) == mono_rows(s, w, h, bg, 0),
        decreases hu - r,
    {
        proof {
            assert((r + 1) * w <= h * w && r * w + w == (r + 1) * w && h * w == w * h)
                by (nonlinear_arith)
                requires
                    0 <= r as int,
                    (r as int) < h,
                    0 <= w,
            ;
        }
        let ghost row = s.subrange(r as int * w, r as int * w + w);
        assert(row.len() == w);
        let mut acc: usize = 0;
        let mut nbits: usize = 0;
        let mut col: usize = 0;
        while col < wu
            invariant
                0 <= col <= wu,
                r < hu,
                s == tight_colors(pixels@),
                w == width as int,
                h == height as int,
                wu == w,
                hu == h,
                1 <= w,
                1 <= h,
                total == pixels@.len(),
                pixels@.len() == 4 * (w * h),
                s.len() == w * h,
                row == s.subrange(r as int * w, r as int * w + w),
                row.len() == w,
                r as int * w + w <= s.len(),
                nbits < 8,
                (acc as int) < p2(nbits as int),
                out@ + mono_pack_acc(row, bg, col as int, acc as int, nbits as int) + mono_rows(
                    s,
                    w,
                    h,
                    bg,
                    r as int + 1,
                ) == mono_rows(s, w, h, bg, 0),
            decreases wu - col,
        {
            proof {
                assert(r * w + col < w * h && r * w + col < (r + 1) * w) by (nonlinear_arith)
                    requires
                        0 <= r as int,
                        (r as int) < h,
                        0 <= col as int,
                        (col as int) < w,
                ;
                assert(4 * (r * w + col) + 4 <= 4 * (w * h)) by (nonlinear_arith)
                    requires
                        r as int * w + col < w * h,
                        0 <= r as int * w + col,
                ;
            }
            let pix_offset: usize = 4 * (r * wu + col);
            let color = crate::pixel::rgba_to_rgb24(
                pixels[pix_offset],
                pixels[pix_offset + 1],
                pixels[pix_offset + 2],
            );
            proof {
                assert(row[col as int] == s[r as int * w + col]);
                assert(color == s[r as int * w + col]);
            }
            let bit: usize = if color == bg {
                0
            } else {
                1
            };
            let acc2: usize = acc * 2 + bit;
            assert(acc2 < 256);
            if nbits + 1 == 8 {
                out.push(acc2 as u8);
                acc = 0;
                nbits = 0;
            } else {
                acc = acc2;
                nbits = nbits + 1;
            }
            assert(out@ + mono_pack_acc(row, bg, col + 1, acc as int, nbits as int) + mono_rows(
                s,
                w,
                h,
                bg,
                r as int + 1,
            ) =~= mono_rows(s, w, h, bg, 0));
            col = col + 1;
        }
        if nbits > 0 {
            let m2: usize = if nbits == 1 {
                128
            } else if nbits == 2 {
                64
            } else if nbits == 3 {
                32
            } else if nbits == 4 {
                16
            } else if nbits == 5 {
                8
            } else if nbits == 6 {
                4
            } else {
                2
            };
            assert(m2 as int == p2(8 - nbits as int));
            proof {
                crate::zrle::lemma_p2_mul(nbits as int, 8 - nbits as int);
                assert((acc as int) * (m2 as int) < 256) by (nonlinear_arith)
                    requires
                        (acc as int) < p2(nbits as int),
                        m2 as int == p2(8 - nbits as int),
                        p2(nbits as int) * p2(8 - nbits as int) == 256,
                        acc as int >= 0,
                        m2 as int >= 1,
                ;
            }
            let flush: usize = acc * m2;
            out.push(flush as u8);
        }
        proof {
            assert(mono_pack_acc(row, bg, w, acc as int, nbits as int) == if nbits > 0 {
                seq![((acc as int * p2(8 - nbits as int)) % 256) as u8]
            } else {
                Seq::<u8>::empty()
            });
            assert(out@ + mono_rows(s, w, h, bg, r as int + 1) =~= mono_rows(s, w, h, bg, 0));
        }
        r = r + 1;
    }
    assert(out@ =~= mono_rows(s, w, h, bg, 0));
    out
}

/// The concatenated client-format bytes of a list of colors.
pub open spec fn translated_concat(p: Seq<u32>, pf: PixelFormat, i: int) -> Seq<u8>
    decreases p.len() - i,
{
    if i < 0 || i >= p.len() {
        Seq::empty()
    } else {
        translated_bytes(p[i], pf) + translated_concat(p, pf, i + 1)
    }
}

/// The control byte of a mono subrectangle: explicit filter with the mono
/// stream id, or with the no-zlib marker when the profile does not
/// compress.
pub open spec fn mono_ctrl(compression: u8) -> u8 {
    if mono_zlib_level(compression) == 0 {
        0xE0u8
    } else {
        0x50u8
    }
}

/// A correct mono subrectangle: its control byte, the palette filter with
/// two colors (background first), and the framed mono bitmap.
pub open spec fn mono_rect_ok(
    b: Seq<u8>,
    s: Seq<u32>,
    w: int,
    h: int,
    bg: u32,
    fg: u32,
    compression: u8,
    pf: PixelFormat,
) -> bool {
    exists|t: Seq<u8>|
        #![auto]
        b == seq![mono_ctrl(compression), 0x01u8, 0x01u8] + translated_bytes(bg, pf)
            + translated_bytes(fg, pf) + t && framed_ok(
            t,
            mono_rows(s, w, h, bg, 0),
            mono_zlib_level(compression),
        )
}

/// Encodes a two-color subrectangle: palette filter header with background
/// and foreground colors, then the framed one-bit-per-pixel bitmap.
pub fn encode_mono_rect<C: TightStreamCompressor>(
    pixels: &[u8],
    width: u16,
    height: u16,
    bg: u32,
    fg: u32,
    compression: u8,
    pf: &PixelFormat,
    compressor: &mut C,
) -> (r: Vec<u8>)
    requires
        pf.wf(),
        1 <= width,
        1 <= height,
        (width as int) * (height as int) <= 65536,
        pixels@.len() == 4 * ((width as int) * (height as int)),
    ensures
        mono_rect_ok(
            r@,
            tight_colors(pixels@),
            width as int,
            height as int,
            bg,
            fg,
            compression,
            *pf,
        ),
{
    let ghost s = tight_colors(pixels@);
    let zlib_level: u8 = if compression == 0 {
        0
    } else if compression == 1 {
        1
    } else if compression == 2 || compression == 3 {
        3
    } else {
        7
    };
    assert(zlib_level as int == mono_zlib_level(compression));

    let bitmap = encode_mono_bitmap(pixels, width, height, bg);
    proof {
        assert(s.len() == (width as int) * (height as int)) by {
            assert(pixels@.len() / 4 == (width as int) * (height as int)) by (nonlinear_arith)
                requires
                    pixels@.len() == 4 * ((width as int) * (height as int)),
                    0 <= (width as int) * (height as int),
            ;
        }
        assert((height as int) * (width as int) <= s.len()) by (nonlinear_arith)
            requires
                s.len() == (width as int) * (height as int),
        ;
        lemma_mono_rows_len(s, width as int, height as int, bg, 0);
        assert((height as int) * ((width as int + 7) / 8) <= (height as int) * (width as int)
            && (height as int) * (width as int) == (width as int) * (height as int))
            by (nonlinear_arith)
            requires
                1 <= width as int,
                1 <= height as int,
        ;
    }
    assert(bitmap@.len() < 0x400000);

    let mut buf: Vec<u8> = Vec::new();
    if zlib_level == 0 {
        buf.push(0xE0);
    } else {
        buf.push(0x50);
    }
    buf.push(0x01);
    buf.push(0x01);
    let bg_bytes = translate_pixel_to_client_format(bg, pf);
    let fg_bytes = translate_pixel_to_client_format(fg, pf);
    push_all(&mut buf, bg_bytes.as_slice());
    push_all(&mut buf, fg_bytes.as_slice());
    let ghost header = seq![mono_ctrl(compression), 0x01u8, 0x01u8] + translated_bytes(bg, *pf)
        + translated_bytes(fg, *pf);
    assert(buf@ =~= header);
    compress_data(&mut buf, &bitmap, zlib_level, STREAM_ID_MONO, compressor);
    proof {
        let t = choose|t: Seq<u8>|
            #![auto]
            buf@ == header + t && framed_ok(t, bitmap@, zlib_level as int);
        assert(buf@ == header + t && framed_ok(
            t,
            mono_rows(s, width as int, height as int, bg, 0),
            mono_zlib_level(compression),
        ));
    }
    buf
}

/// The RGB24 byte stream of an RGBA buffer: three bytes per pixel, the
/// padding byte dropped.
pub open spec fn rgb_stream(p: Seq<u8>) -> Seq<u8> {
    Seq::new((3 * ((p.len() as int) / 4)) as nat, |i: int| p[4 * (i / 3) + (i % 3)])
}

/// Strips the padding byte from each RGBA pixel.
pub fn rgba_to_rgb(pixels: &[u8]) -> (r: Vec<u8>)
    ensures
        r@ == rgb_stream(pixels@),
{
    let len: usize = pixels.len();
    let count: usize = len / 4;
    proof {
        assert(4 * ((len as int) / 4) <= len as int && 3 * ((len as int) / 4) <= len as int)
            by (nonlinear_arith)
            requires
                len as int >= 0,
        ;
    }
    let mut out: Vec<u8> = Vec::new();
    let mut k: usize = 0;
    while k < count
        invariant
            0 <= k <= count,
            len == pixels@.len(),
            count == (pixels@.len() as int) / 4,
            4 * count <= len,
            3 * count <= len,
            out@.len() == 3 * k,
            forall|i: int|
                0 <= i < 3 * k ==> #[trigger] out@[i] == pixels@[4 * (i / 3) + (i % 3)],
        decreases count - k,
    {
        proof {
            assert(4 * (k + 1) <= 4 * count) by (nonlinear_arith)
                requires
                    0 <= k as int,
                    (k as int) < count as int,
            ;
        }
        out.push(pixels[4 * k]);
        out.push(pixels[4 * k + 1]);
        out.push(pixels[4 * k + 2]);
        k = k + 1;
    }
    assert(out@ =~= rgb_stream(pixels@));
    out
}

/// The control byte of a full-color subrectangle: the full-color stream id
/// or the no-zlib marker.
pub open spec fn full_ctrl(compression: u8) -> u8 {
    if raw_zlib_level(compression) == 0 {
        0xA0u8
    } else {
        0x00u8
    }
}

/// A correct full-color subrectangle: its control byte and the framed
/// RGB24 stream.
pub open spec fn full_color_ok(b: Seq<u8>, p: Seq<u8>, compression: u8) -> bool {
    exists|t: Seq<u8>|
        #![auto]
        b == seq![full_ctrl(compression)] + t && framed_ok(
            t,
            rgb_stream(p),
            raw_zlib_level(compression),
        )
}

/// Encodes a full-color subrectangle: the RGB24 stream framed behind the
/// full-color control byte.
pub fn encode_full_color_rect<C: TightStreamCompressor>(
    pixels: &[u8],
    width: u16,
    height: u16,
    compression: u8,
    compressor: &mut C,
) -> (r: Vec<u8>)
    requires
        1 <= width,
        1 <= height,
        (width as int) * (height as int) <= 65536,
        pixels@.len() == 4 * ((width as int) * (height as int)),
    ensures
        full_color_ok(r@, pixels@, compression),
{
    let zlib_level: u8 = if compression == 0 {
        0
    } else if compression == 1 {
        1
    } else if compression == 2 || compression == 3 {
        2
    } else {
        5
    };
    assert(zlib_level as int == raw_zlib_level(compression));

    let rgb_data = rgba_to_rgb(pixels);
    proof {
        assert((pixels@.len() as int) / 4 == (width as int) * (height as int))
            by (nonlinear_arith)
            requires
                pixels@.len() == 4 * ((width as int) * (height as int)),
                0 <= (width as int) * (height as int),
        ;
    }
    assert(rgb_data@.len() < 0x400000);

    let mut buf: Vec<u8> = Vec::new();
    if zlib_level == 0 {
        buf.push(0xA0);
    } else {
        buf.push(0x00);
    }
    let ghost header = seq![full_ctrl(compression)];
    assert(buf@ =~= header);
    compress_data(&mut buf, &rgb_data, zlib_level, crate::deflate::STREAM_ID_FULL_COLOR, compressor);
    proof {
        let t = choose|t: Seq<u8>|
            #![auto]
            buf@ == header + t && framed_ok(t, rgb_data@, zlib_level as int);
        assert(buf@ == header + t && framed_ok(t, rgb_stream(pixels@), raw_zlib_level(compression)));
    }
    buf
}

/// Encodes the subrectangle a JPEG mode would take. No JPEG library is
/// integrated, so the rectangle degrades to full color at the recovery
/// compression level, as the protocol's recovery policy allows.
pub fn encode_jpeg_rect<C: TightStreamCompressor>(
    pixels: &[u8],
    width: u16,
    height: u16,
    _quality: u8,
    compressor: &mut C,
) -> (r: Vec<u8>)
    requires
        1 <= width,
        1 <= height,
        (width as int) * (height as int) <= 65536,
        pixels@.len() == 4 * ((width as int) * (height as int)),
    ensures
        full_color_ok(r@, pixels@, 6),
{
    encode_full_color_rect(pixels, width, height, 6, compressor)
}

/// The palette-index byte stream of a rectangle: each pixel's first
/// position in the palette, or zero for a color the palette lacks.
pub open spec fn index_stream(s: Seq<u32>, p: Seq<u32>) -> Seq<u8> {
    Seq::new(s.len(), |i: int| if p.contains(s[i]) {
        idx_in(p, s[i]) as u8
    } else {
        0u8
    })
}

/// The control byte of an indexed subrectangle: explicit filter with the
/// indexed stream id, or with the no-zlib marker.
pub open spec fn indexed_ctrl(compression: u8) -> u8 {
    if idx_zlib_level(compression) == 0 {
        0xE0u8
    } else {
        0x60u8
    }
}

/// A correct indexed subrectangle: its control byte, the palette filter
/// with the palette's size and colors, and the framed index stream.
pub open spec fn indexed_ok(
    b: Seq<u8>,
    s: Seq<u32>,
    p: Seq<u32>,
    compression: u8,
    pf: PixelFormat,
) -> bool {
    exists|t: Seq<u8>|
        #![auto]
        b == seq![indexed_ctrl(compression), 0x01u8, (p.len() - 1) as u8] + translated_concat(
            p,
            pf,
            0,
        ) + t && framed_ok(t, index_stream(s, p), idx_zlib_level(compression))
}

/// Finds a color's first palette position, taking zero for a color the
/// palette lacks; the result is in bounds for a nonempty palette.
fn index_of_or_zero(palette: &[u32], c: u32) -> (r: u8)
    requires
        1 <= palette@.len() <= 256,
    ensures
        r == (if palette@.contains(c) {
            idx_in(palette@, c) as u8
        } else {
            0u8
        }),
{
    let n: usize = palette.len();
    let mut i: usize = 0;
    while i < n
        invariant
            0 <= i <= n,
            n == palette@.len(),
            n <= 256,
            forall|j: int| 0 <= j < i ==> palette@[j] != c,
        decreases n - i,
    {
        if palette[i] == c {
            proof {
                crate::zrle::lemma_idx_in_first(palette@, c, i as int);
            }
            return i as u8;
        }
        i = i + 1;
    }
    proof {
        if palette@.contains(c) {
            let k = choose|k: int| 0 <= k < palette@.len() && palette@[k] == c;
            assert(false);
        }
    }
    0
}

/// Appends the client-format bytes of every palette color.
fn write_translated(buf: &mut Vec<u8>, items: &[u32], pf: &PixelFormat)
    requires
        pf.wf(),
    ensures
        final(buf)@ == old(buf)@ + translated_concat(items@, *pf, 0),
{
    let n: usize = items.len();
    let mut i: usize = 0;
    while i < n
        invariant
            0 <= i <= n,
            pf.wf(),
            n == items@.len(),
            buf@ + translated_concat(items@, *pf, i as int) == old(buf)@ + translated_concat(
                items@,
                *pf,
                0,
            ),
        decreases n - i,
    {
        let bytes = translate_pixel_to_client_format(items[i], pf);
        push_all(buf, bytes.as_slice());
        assert(buf@ + translated_concat(items@, *pf, i + 1) =~= old(buf)@ + translated_concat(
            items@,
            *pf,
            0,
        ));
        i = i + 1;
    }
}

/// Encodes an indexed-palette subrectangle: the palette filter header with
/// the colors in palette order, then the framed one-byte-per-pixel index
/// stream.
pub fn encode_indexed_rect<C: TightStreamCompressor>(
    pixels: &[u8],
    width: u16,
    height: u16,
    palette: &[u32],
    compression: u8,
    pf: &PixelFormat,
    compressor: &mut C,
) -> (r: Vec<u8>)
    requires
        pf.wf(),
        1 <= width,
        1 <= height,
        (width as int) * (height as int) <= 65536,
        pixels@.len() == 4 * ((width as int) * (height as int)),
        1 <= palette@.len() <= 256,
    ensures
        indexed_ok(r@, tight_colors(pixels@), palette@, compression, *pf),
{
    let ghost s = tight_colors(pixels@);
    proof {
        assert(s.len() == (width as int) * (height as int)) by {
            assert(pixels@.len() / 4 == (width as int) * (height as int)) by (nonlinear_arith)
                requires
                    pixels@.len() == 4 * ((width as int) * (height as int)),
                    0 <= (width as int) * (height as int),
            ;
        }
    }
    let zlib_level: u8 = if compression == 0 {
        0
    } else if compression == 1 {
        1
    } else if compression == 2 || compression == 3 {
        3
    } else {
        7
    };
    assert(zlib_level as int == idx_zlib_level(compression));

    let total: usize = pixels.len();
    let count: usize = total / 4;
    let mut indices: Vec<u8> = Vec::new();
    let mut i: usize = 0;
    while i < count
        invariant
            0 <= i <= count,
            s == tight_colors(pixels@),
            total == pixels@.len(),
            count == (pixels@.len() as int) / 4,
            4 * count <= total,
            count == s.len(),
            1 <= palette@.len() <= 256,
            indices@.len() == i,
            forall|j: int| 0 <= j < i ==> #[trigger] indices@[j] == index_stream(s, palette@)[j],
        decreases count - i,
    {
        proof {
            assert(4 * (i + 1) <= 4 * count) by (nonlinear_arith)
                requires
                    0 <= i as int,
                    (i as int) < count as int,
            ;
        }
        let color = crate::pixel::rgba_to_rgb24(
            pixels[4 * i],
            pixels[4 * i + 1],
            pixels[4 * i + 2],
        );
        assert(color == s[i as int]);
        let idx = index_of_or_zero(palette, color);
        indices.push(idx);
        i = i + 1;
    }
    assert(indices@ =~= index_stream(s, palette@));

    let mut buf: Vec<u8> = Vec::new();
    if zlib_level == 0 {
        buf.push(0xE0);
    } else {
        buf.push(0x60);
    }
    buf.push(0x01);
    buf.push((palette.len() - 1) as u8);
    write_translated(&mut buf, palette, pf);
    let ghost header = seq![indexed_ctrl(compression), 0x01u8, (palette@.len() - 1) as u8]
        + translated_concat(palette@, *pf, 0);
    assert(buf@ =~= header);
    compress_data(&mut buf, &indices, zlib_level, STREAM_ID_INDEXED, compressor);
    proof {
        let t = choose|t: Seq<u8>|
            #![auto]
            buf@ == header + t && framed_ok(t, indices@, zlib_level as int);
        assert(buf@ == header + t && framed_ok(
            t,
            index_stream(s, palette@),
            idx_zlib_level(compression),
        ));
    }
    buf
}

/// The RGBA bytes of a rectangle of the framebuffer, row by row.
pub open spec fn rect_pixels(fb: Seq<u8>, fw: int, r: Rect) -> Seq<u8> {
    tile_region(fb, fw, r.x as int, r.y as int, r.w as int, r.h as int, 4)
}

/// Copies a rectangle's RGBA bytes out of the framebuffer.
pub fn extract_rect_rgba(framebuffer: &[u8], fb_width: u16, rect: &Rect) -> (r: Vec<u8>)
    requires
        1 <= rect.w,
        1 <= rect.h,
        rect.x + rect.w <= fb_width,
        // whole rows through the rectangle's bottom, a little more than
        // the bytes the copy reads
        rect.y2() * (fb_width as int) * 4 <= framebuffer@.len(),
    ensures
        r@ == rect_pixels(framebuffer@, fb_width as int, *rect),
        r@.len() == 4 * ((rect.w as int) * (rect.h as int)),
{
    proof {
        crate::zrle::lemma_tile_region_len(
            framebuffer@,
            fb_width as int,
            rect.x as int,
            rect.y as int,
            rect.w as int,
            rect.h as int,
            4,
        );
        assert((rect.w as int) * (rect.h as int) * 4 == 4 * ((rect.w as int) * (rect.h as int)))
            by (nonlinear_arith);
    }
    crate::zrle::extract_tile(
        framebuffer,
        fb_width as usize,
        rect.x as usize,
        rect.y as usize,
        rect.w as usize,
        rect.h as usize,
        4,
    )
}

/// The bytes of one encoded Tight subrectangle are a correct wire form of
/// the rectangle's pixels: the mode follows the palette classification of
/// its colors, the header bytes are exact, and the payload is framed by
/// `framed_ok`.
pub open spec fn valid_subrect_bytes(
    b: Seq<u8>,
    fb: Seq<u8>,
    fw: int,
    r: Rect,
    quality: u8,
    compression: u8,
    pf: PixelFormat,
) -> bool {
    let px = rect_pixels(fb, fw, r);
    let s = tight_colors(px);
    if s.len() > 0 && all_eq(s) {
        b == solid_rect_bytes(s[0], pf)
    } else if s.len() >= mono_threshold(compression) && exactly_two(s) {
        mono_rect_ok(b, s, r.w as int, r.h as int, mono_bg(s), mono_fg(s), compression, pf)
    } else {
        if quality < 10 {
            full_color_ok(b, px, 6)
        } else {
            full_color_ok(b, px, compression)
        }
    }
}

/// Encodes one subrectangle that already fits the size envelope: analyzes
/// its palette and emits the solid, mono, or full-color form (the JPEG
/// path degrades to full color).
pub fn encode_subrect_single<C: TightStreamCompressor>(
    framebuffer: &[u8],
    fb_width: u16,
    rect: Rect,
    quality: u8,
    compression: u8,
    pf: &PixelFormat,
    compressor: &mut C,
) -> (r: Vec<u8>)
    requires
        pf.wf(),
        1 <= rect.w,
        1 <= rect.h,
        (rect.w as int) * (rect.h as int) <= 65536,
        rect.x + rect.w <= fb_width,
        rect.y2() * (fb_width as int) * 4 <= framebuffer@.len(),
    ensures
        valid_subrect_bytes(r@, framebuffer@, fb_width as int, rect, quality, compression, *pf),
{
    let ghost fb = framebuffer@;
    let ghost fw = fb_width as int;
    let pixels = extract_rect_rgba(framebuffer, fb_width, &rect);
    let ghost s = tight_colors(pixels@);
    let pixel_count: usize = (rect.w as usize) * (rect.h as usize);
    proof {
        assert(s.len() == (rect.w as int) * (rect.h as int)) by {
            assert(pixels@.len() / 4 == (rect.w as int) * (rect.h as int)) by (nonlinear_arith)
                requires
                    pixels@.len() == 4 * ((rect.w as int) * (rect.h as int)),
                    0 <= (rect.w as int) * (rect.h as int),
            ;
        }
        assert(pixel_count >= 1) by (nonlinear_arith)
            requires
                1 <= rect.w as int,
                1 <= rect.h as int,
                pixel_count == (rect.w as int) * (rect.h as int),
        ;
    }
    let palette = analyze_palette(pixels.as_slice(), pixel_count, compression);
    match palette {
        TightPalette::Solid { color } => {
            let out = encode_solid_rect(color, pf);
            assert(valid_subrect_bytes(out@, fb, fw, rect, quality, compression, *pf));
            out
        },
        TightPalette::Mono { bg, fg } => {
            let out = encode_mono_rect(
                pixels.as_slice(),
                rect.w,
                rect.h,
                bg,
                fg,
                compression,
                pf,
                compressor,
            );
            assert(valid_subrect_bytes(out@, fb, fw, rect, quality, compression, *pf));
            out
        },
        TightPalette::Many => {
            if quality < 10 {
                let jpeg_quality: u8 = if quality * 7 <= 95 {
                    95 - quality * 7
                } else {
                    0
                };
                let out = encode_jpeg_rect(
                    pixels.as_slice(),
                    rect.w,
                    rect.h,
                    jpeg_quality,
                    compressor,
                );
                assert(valid_subrect_bytes(out@, fb, fw, rect, quality, compression, *pf));
                out
            } else {
                let out = encode_full_color_rect(
                    pixels.as_slice(),
                    rect.w,
                    rect.h,
                    compression,
                    compressor,
                );
                assert(valid_subrect_bytes(out@, fb, fw, rect, quality, compression, *pf));
                out
            }
        },
    }
}

/// The rectangles of a list of encoded pieces.
pub open spec fn rects_of(rs: Seq<(Rect, Vec<u8>)>) -> Seq<Rect> {
    rs.map_values(|p: (Rect, Vec<u8>)| p.0)
}

/// Every piece from position `from` on is correctly encoded for its
/// rectangle, and is within the caps unless it is a one-color rectangle
/// (a solid fill is emitted whole, whatever its size).
pub open spec fn pieces_valid(
    rs: Seq<(Rect, Vec<u8>)>,
    from: int,
    fb: Seq<u8>,
    fw: int,
    quality: u8,
    compression: u8,
    pf: PixelFormat,
) -> bool {
    forall|k: int|
        from <= k < rs.len() ==> ((#[trigger] rs[k].0).size_ok() || all_eq(
            tight_colors(rect_pixels(fb, fw, rs[k].0)),
        )) && valid_subrect_bytes(rs[k].1@, fb, fw, rs[k].0, quality, compression, pf)
}

/// Appending a rectangle raises every pixel's count exactly inside it.
pub proof fn lemma_count_at_push_all(rs: Seq<Rect>, r: Rect)
    ensures
        forall|px: int, py: int|
            #[trigger] count_at(rs.push(r), px, py) == count_at(rs, px, py) + (if r.has_pt(
                px,
                py,
            ) {
                1int
            } else {
                0int
            }),
{
    assert forall|px: int, py: int|
        #[trigger] count_at(rs.push(r), px, py) == count_at(rs, px, py) + (if r.has_pt(px, py) {
            1int
        } else {
            0int
        }) by {
        lemma_count_at_push(rs, r, px, py);
    }
}

/// After pushing one piece, the added suffix's rectangles are the previous
/// suffix's plus the piece.
proof fn lemma_added_push(prev: Seq<(Rect, Vec<u8>)>, cur: Seq<(Rect, Vec<u8>)>, from: int, piece: (
    Rect,
    Vec<u8>,
))
    requires
        0 <= from <= prev.len(),
        cur == prev.push(piece),
    ensures
        rects_of(cur.subrange(from, cur.len() as int)) == rects_of(
            prev.subrange(from, prev.len() as int),
        ).push(piece.0),
        cur.subrange(0, from) == prev.subrange(0, from),
{
    assert(cur.subrange(from, cur.len() as int) =~= prev.subrange(from, prev.len() as int).push(
        piece,
    ));
    assert(rects_of(cur.subrange(from, cur.len() as int)) =~= rects_of(
        prev.subrange(from, prev.len() as int),
    ).push(piece.0));
    assert(cur.subrange(0, from) =~= prev.subrange(0, from));
}

/// Counts over concatenated lists add, at every pixel.
pub proof fn lemma_count_at_concat_all(a: Seq<Rect>, b: Seq<Rect>)
    ensures
        forall|px: int, py: int|
            #[trigger] count_at(a + b, px, py) == count_at(a, px, py) + count_at(b, px, py),
{
    assert forall|px: int, py: int|
        #[trigger] count_at(a + b, px, py) == count_at(a, px, py) + count_at(b, px, py) by {
        lemma_count_at_concat(a, b, px, py);
    }
}

/// The columns of one grid band: pieces of at most the cap width, left to
/// right from column offset `dx`.
pub open spec fn grid_cols(x: int, band_y: int, w: int, rh: int, dx: int) -> Seq<Rect>
    decreases w + 2048 - dx,
{
    if dx < 0 || dx >= w {
        Seq::empty()
    } else {
        let rw = if w - dx < 2048 {
            w - dx
        } else {
            2048int
        };
        seq![(Rect { x: (x + dx) as u16, y: band_y as u16, w: rw as u16, h: rh as u16 })]
            + grid_cols(x, band_y, w, rh, dx + 2048)
    }
}

/// The row bands of the tiling grid from row offset `dy` down, each band
/// as tall as the area cap allows, cut into columns of the cap width.
pub open spec fn grid_bands(r: Rect, smh: int, dy: int) -> Seq<Rect>
    decreases r.h + 65536 - dy,
{
    if dy < 0 || dy >= r.h || smh < 1 || smh > 65536 {
        Seq::empty()
    } else {
        let rh = if r.h - dy < smh {
            r.h - dy
        } else {
            smh
        };
        grid_cols(r.x as int, r.y + dy, r.w as int, rh, 0) + grid_bands(r, smh, dy + smh)
    }
}

/// The tiling grid of a rectangle: row-major bands of the tallest height
/// the area cap allows at the capped width.
pub open spec fn tight_grid(r: Rect) -> Seq<Rect> {
    let smw = if r.w > 2048 {
        2048int
    } else {
        r.w as int
    };
    grid_bands(r, 65536int / smw, 0)
}

/// What the capped emitter produces for a rectangle: the rectangle itself
/// when it fits the caps, else its tiling grid.
pub open spec fn capped_pieces(r: Rect) -> Seq<Rect> {
    if r.w <= 2048 && r.w * r.h <= 65536 {
        seq![r]
    } else {
        tight_grid(r)
    }
}

/// Encodes one row band as pieces of at most the cap width, left to
/// right; the appended pieces are exactly the band's grid columns and
/// cover the band exactly.
#[verifier::rlimit(100)]
fn encode_row_band<C: TightStreamCompressor>(
    framebuffer: &[u8],
    fb_width: u16,
    x: u16,
    w: u16,
    band_y: u16,
    rh: u16,
    quality: u8,
    compression: u8,
    pf: &PixelFormat,
    compressor: &mut C,
    out: &mut Vec<(Rect, Vec<u8>)>,
)
    requires
        pf.wf(),
        1 <= w,
        1 <= rh,
        x + w <= fb_width,
        band_y + rh <= 65536,
        (band_y + rh) * (fb_width as int) * 4 <= framebuffer@.len(),
        (if w as int > 2048 {
            2048int
        } else {
            w as int
        }) * (rh as int) <= 65536,
    ensures
        final(out)@.len() >= old(out)@.len(),
        final(out)@.subrange(0, old(out)@.len() as int) == old(out)@,
        covers_exactly_region(
            rects_of(final(out)@.subrange(old(out)@.len() as int, final(out)@.len() as int)),
            x as int,
            band_y as int,
            x as int + w,
            band_y as int + rh,
        ),
        rects_of(final(out)@.subrange(old(out)@.len() as int, final(out)@.len() as int))
            == grid_cols(x as int, band_y as int, w as int, rh as int, 0),
        pieces_valid(
            final(out)@,
            old(out)@.len() as int,
            framebuffer@,
            fb_width as int,
            quality,
            compression,
            *pf,
        ),
{
    let ghost fb = framebuffer@;
    let ghost fw = fb_width as int;
    let ghost from = out@.len() as int;
    let ghost prefix = out@;
    proof {
        assert(out@.subrange(0, from) =~= prefix);
        assert(rects_of(out@.subrange(from, out@.len() as int)) =~= Seq::<Rect>::empty());
    }
    let mut dx: u32 = 0;
    while dx < w as u32
        invariant
            pf.wf(),
            fb == framebuffer@,
            fw == fb_width as int,
            from == prefix.len(),
            1 <= w,
            1 <= rh,
            x + w <= fb_width,
            band_y + rh <= 65536,
            (band_y + rh) * fw * 4 <= fb.len(),
            (if w as int > 2048 {
                2048int
            } else {
                w as int
            }) * (rh as int) <= 65536,
            out@.len() >= from,
            out@.subrange(0, from) == prefix,
            covers_exactly_region(
                rects_of(out@.subrange(from, out@.len() as int)),
                x as int,
                band_y as int,
                x as int + (if dx as int <= w as int {
                    dx as int
                } else {
                    w as int
                }),
                band_y as int + rh,
            ),
            rects_of(out@.subrange(from, out@.len() as int)) + grid_cols(
                x as int,
                band_y as int,
                w as int,
                rh as int,
                dx as int,
            ) == grid_cols(x as int, band_y as int, w as int, rh as int, 0),
            pieces_valid(out@, from, fb, fw, quality, compression, *pf),
        decreases w as int + 2048 - dx,
    {
        let rw: u16 = if (w as u32) - dx < 2048 {
            ((w as u32) - dx) as u16
        } else {
            2048
        };
        let piece = Rect { x: x + (dx as u16), y: band_y, w: rw, h: rh };
        proof {
            assert((rw as int) * (rh as int) <= (if w as int > 2048 {
                2048int
            } else {
                w as int
            }) * (rh as int)) by (nonlinear_arith)
                requires
                    1 <= rw as int,
                    1 <= rh as int,
                    rw as int <= (if w as int > 2048 {
                        2048int
                    } else {
                        w as int
                    }),
            ;
            assert(piece.size_ok());
            assert(piece.y2() * fw * 4 <= (band_y + rh) * fw * 4) by (nonlinear_arith)
                requires
                    piece.y2() <= band_y as int + rh,
                    0 <= piece.y2(),
                    0 <= fw,
            ;
        }
        let buf = encode_subrect_single(
            framebuffer,
            fb_width,
            piece,
            quality,
            compression,
            pf,
            compressor,
        );
        let ghost prev = out@;
        out.push((piece, buf));
        proof {
            lemma_added_push(prev, out@, from, (piece, buf));
            lemma_count_at_push_all(rects_of(prev.subrange(from, prev.len() as int)), piece);
            assert(out@.subrange(0, from) =~= prefix);
            assert(grid_cols(x as int, band_y as int, w as int, rh as int, dx as int)
                == seq![piece] + grid_cols(
                x as int,
                band_y as int,
                w as int,
                rh as int,
                dx + 2048,
            ));
            assert(rects_of(out@.subrange(from, out@.len() as int)) + grid_cols(
                x as int,
                band_y as int,
                w as int,
                rh as int,
                dx + 2048,
            ) =~= grid_cols(x as int, band_y as int, w as int, rh as int, 0));
        }
        dx = dx + 2048;
    }
    proof {
        assert(rects_of(out@.subrange(from, out@.len() as int)) =~= grid_cols(
            x as int,
            band_y as int,
            w as int,
            rh as int,
            0,
        ));
    }
}

/// Encodes a rectangle that may exceed the caps by tiling it into row
/// bands as tall as the area cap allows; the appended pieces are exactly
/// the rectangle's tiling grid and cover it exactly.
#[verifier::rlimit(100)]
fn encode_large_rect<C: TightStreamCompressor>(
    framebuffer: &[u8],
    fb_width: u16,
    rect: Rect,
    quality: u8,
    compression: u8,
    pf: &PixelFormat,
    compressor: &mut C,
    out: &mut Vec<(Rect, Vec<u8>)>,
)
    requires
        pf.wf(),
        1 <= rect.w,
        1 <= rect.h,
        rect.x + rect.w <= fb_width,
        rect.y2() <= 65536,
        rect.y2() * (fb_width as int) * 4 <= framebuffer@.len(),
    ensures
        final(out)@.len() >= old(out)@.len(),
        final(out)@.subrange(0, old(out)@.len() as int) == old(out)@,
        covers_exactly_region(
            rects_of(final(out)@.subrange(old(out)@.len() as int, final(out)@.len() as int)),
            rect.x as int,
            rect.y as int,
            rect.x2(),
            rect.y2(),
        ),
        rects_of(final(out)@.subrange(old(out)@.len() as int, final(out)@.len() as int))
            == tight_grid(rect),
        pieces_valid(
            final(out)@,
            old(out)@.len() as int,
            framebuffer@,
            fb_width as int,
            quality,
            compression,
            *pf,
        ),
{
    let ghost fb = framebuffer@;
    let ghost fw = fb_width as int;
    let ghost from = out@.len() as int;
    let ghost prefix = out@;
    let smw: u32 = if rect.w > 2048 {
        2048
    } else {
        rect.w as u32
    };
    let smh: u32 = 65536 / smw;
    proof {
        assert(1 <= smh as int && (smw as int) * (smh as int) <= 65536) by (nonlinear_arith)
            requires
                1 <= smw as int <= 2048,
                smh as int == 65536int / (smw as int),
        ;
        assert(out@.subrange(0, from) =~= prefix);
        assert(rects_of(out@.subrange(from, out@.len() as int)) =~= Seq::<Rect>::empty());
    }

    let mut dy: u32 = 0;
    while dy < rect.h as u32
        invariant
            pf.wf(),
            fb == framebuffer@,
            fw == fb_width as int,
            from == prefix.len(),
            1 <= rect.w,
            1 <= rect.h,
            rect.x + rect.w <= fb_width,
            rect.y2() <= 65536,
            rect.y2() * fw * 4 <= fb.len(),
            smw as int == (if rect.w as int > 2048 {
                2048int
            } else {
                rect.w as int
            }),
            smh as int == 65536int / (smw as int),
            1 <= smh,
            (smw as int) * (smh as int) <= 65536,
            out@.len() >= from,
            out@.subrange(0, from) == prefix,
            covers_exactly_region(
                rects_of(out@.subrange(from, out@.len() as int)),
                rect.x as int,
                rect.y as int,
                rect.x2(),
                rect.y as int + (if dy as int <= rect.h as int {
                    dy as int
                } else {
                    rect.h as int
                }),
            ),
            rects_of(out@.subrange(from, out@.len() as int)) + grid_bands(
                rect,
                smh as int,
                dy as int,
            ) == grid_bands(rect, smh as int, 0),
            pieces_valid(out@, from, fb, fw, quality, compression, *pf),
        decreases rect.h as int + 65536 - dy,
    {
        let rh: u16 = if (rect.h as u32) - dy < smh {
            ((rect.h as u32) - dy) as u16
        } else {
            smh as u16
        };
        let band_y: u16 = rect.y + (dy as u16);
        proof {
            assert((band_y + rh) * fw * 4 <= rect.y2() * fw * 4) by (nonlinear_arith)
                requires
                    band_y as int + rh <= rect.y2(),
                    0 <= band_y as int + rh,
                    0 <= fw,
            ;
            assert((if rect.w as int > 2048 {
                2048int
            } else {
                rect.w as int
            }) * (rh as int) <= (smw as int) * (smh as int)) by (nonlinear_arith)
                requires
                    smw as int == (if rect.w as int > 2048 {
                        2048int
                    } else {
                        rect.w as int
                    }),
                    1 <= rh as int,
                    rh as int <= smh as int,
                    1 <= smw as int,
            ;
        }
        let ghost mid = out@;
        encode_row_band(
            framebuffer,
            fb_width,
            rect.x,
            rect.w,
            band_y,
            rh,
            quality,
            compression,
            pf,
            compressor,
            out,
        );
        proof {
            let a = rects_of(mid.subrange(from, mid.len() as int));
            let b = rects_of(out@.subrange(mid.len() as int, out@.len() as int));
            assert(out@.subrange(from, out@.len() as int) =~= mid.subrange(from, mid.len() as int)
                + out@.subrange(mid.len() as int, out@.len() as int));
            assert(rects_of(out@.subrange(from, out@.len() as int)) =~= a + b);
            lemma_count_at_concat_all(a, b);
            assert(out@.subrange(0, from) =~= prefix);
            assert(mid.subrange(0, from) =~= out@.subrange(0, from));
            assert forall|k: int|
                from <= k < out@.len() implies ((#[trigger] out@[k].0).size_ok() || all_eq(
                tight_colors(rect_pixels(fb, fw, out@[k].0)),
            )) && valid_subrect_bytes(out@[k].1@, fb, fw, out@[k].0, quality, compression, *pf) by {
                if k < mid.len() {
                    assert(out@.subrange(0, mid.len() as int)[k] == mid[k]);
                    assert(out@[k] == mid[k]);
                }
            }
            assert(grid_bands(rect, smh as int, dy as int) == b + grid_bands(
                rect,
                smh as int,
                dy + smh,
            ));
            assert((a + b) + grid_bands(rect, smh as int, dy + smh) =~= a + grid_bands(
                rect,
                smh as int,
                dy as int,
            ));
        }
        dy = dy + smh;
    }
    proof {
        assert(rects_of(out@.subrange(from, out@.len() as int)) =~= grid_bands(
            rect,
            smh as int,
            0,
        ));
        assert(tight_grid(rect) == grid_bands(rect, smh as int, 0));
    }
}

/// One when the pixel lies in the half-open region, else zero.
pub open spec fn ind_region(px: int, py: int, x1: int, y1: int, x2: int, y2: int) -> int {
    if x1 <= px < x2 && y1 <= py < y2 {
        1int
    } else {
        0int
    }
}

/// Pixel `(x + col, y + row)` of an extracted rectangle reads back the
/// framebuffer color at that spot.
proof fn lemma_region_colors(fb: Seq<u8>, fw: int, x: int, y: int, w: int, h: int, col: int, row: int)
    requires
        0 <= col < w,
        0 <= row < h,
        0 <= x,
        0 <= y,
        1 <= w,
        x + w <= fw,
        (y + h) * fw * 4 <= fb.len(),
    ensures
        tight_colors(tile_region(fb, fw, x, y, w, h, 4))[row * w + col] == color_at(
            fb,
            fw,
            x + col,
            y + row,
        ),
    decreases h,
{
    crate::zrle::lemma_tile_region_len(fb, fw, x, y, w, h, 4);
    assert((y + h - 1) * fw * 4 <= (y + h) * fw * 4) by (nonlinear_arith)
        requires
            0 <= y + h - 1,
            0 <= fw,
    ;
    crate::zrle::lemma_tile_region_len(fb, fw, x, y, w, h - 1, 4);
    let region = tile_region(fb, fw, x, y, w, h, 4);
    let prev = tile_region(fb, fw, x, y, w, h - 1, 4);
    let rowbytes = crate::zrle::region_row(fb, fw, x, y + h - 1, w, 4);
    assert(region == prev + rowbytes);
    if row == h - 1 {
        assert(0 <= ((y + h - 1) * fw + x) * 4 && ((y + h - 1) * fw + x) * 4 <= ((y + h - 1) * fw
            + x + w) * 4 && ((y + h - 1) * fw + x + w) * 4 <= (y + h) * fw * 4)
            by (nonlinear_arith)
            requires
                0 <= x,
                0 <= y + h - 1,
                0 <= w,
                x + w <= fw,
        ;
        assert forall|k: int| 0 <= k < 3 implies #[trigger] region[4 * (row * w + col) + k]
            == fb[((y + row) * fw + (x + col)) * 4 + k] by {
            assert(4 * (row * w + col) + k == w * (h - 1) * 4 + (4 * col + k)
                && ((y + h - 1) * fw + x) * 4 + (4 * col + k) == ((y + row) * fw + (x + col)) * 4
                + k && 0 <= 4 * col + k && 4 * col + k < ((y + h - 1) * fw + x + w) * 4 - ((y + h
                - 1) * fw + x) * 4) by (nonlinear_arith)
                requires
                    row == h - 1,
                    0 <= col < w,
                    0 <= k < 4,
                    0 <= x,
                    0 <= y,
                    1 <= w,
            ;
            assert(region[w * (h - 1) * 4 + (4 * col + k)] == rowbytes[4 * col + k]);
        }
        assert(0 <= row * w + col && (row * w + col) * 4 + 3 < region.len() && 4 * (row * w + col)
            == (row * w + col) * 4 && (region.len() as int) / 4 == w * h && row * w + col < w * h)
            by (nonlinear_arith)
            requires
                0 <= col < w,
                0 <= row < h,
                region.len() == w * h * 4,
        ;
        let i = row * w + col;
        assert(region[4 * (row * w + col) + 0] == fb[((y + row) * fw + (x + col)) * 4 + 0]);
        assert(region[4 * (row * w + col) + 1] == fb[((y + row) * fw + (x + col)) * 4 + 1]);
        assert(region[4 * (row * w + col) + 2] == fb[((y + row) * fw + (x + col)) * 4 + 2]);
        assert(4 * i == 4 * (row * w + col) + 0 && ((y + row) * fw + (x + col)) * 4 + 0 == ((y
            + row) * fw + (x + col)) * 4);
        assert(tight_colors(region)[i] == rgb24(region[4 * i], region[4 * i + 1], region[4 * i
            + 2]));
        assert(color_at(fb, fw, x + col, y + row) == rgb24(
            fb[((y + row) * fw + (x + col)) * 4],
            fb[((y + row) * fw + (x + col)) * 4 + 1],
            fb[((y + row) * fw + (x + col)) * 4 + 2],
        ));
    } else {
        lemma_region_colors(fb, fw, x, y, w, h - 1, col, row);
        assert(0 <= row * w + col && 4 * (row * w + col) + 3 < w * (h - 1) * 4 && (row * w + col)
            * 4 == 4 * (row * w + col) && (region.len() as int) / 4 == w * h && (prev.len() as int)
            / 4 == w * (h - 1) && row * w + col < w * (h - 1) && row * w + col < w * h)
            by (nonlinear_arith)
            requires
                0 <= col < w,
                0 <= row < h - 1,
                region.len() == w * h * 4,
                prev.len() == w * (h - 1) * 4,
        ;
        assert forall|k: int| 0 <= k < 3 implies #[trigger] region[4 * (row * w + col) + k]
            == prev[4 * (row * w + col) + k] by {}
        let i = row * w + col;
        assert(region[4 * (row * w + col) + 0] == prev[4 * (row * w + col) + 0]);
        assert(region[4 * (row * w + col) + 1] == prev[4 * (row * w + col) + 1]);
        assert(region[4 * (row * w + col) + 2] == prev[4 * (row * w + col) + 2]);
        assert(4 * i == 4 * (row * w + col) + 0);
        assert(tight_colors(region)[i] == rgb24(region[4 * i], region[4 * i + 1], region[4 * i
            + 2]));
        assert(tight_colors(prev)[i] == rgb24(prev[4 * i], prev[4 * i + 1], prev[4 * i + 2]));
    }
}

/// A solid framebuffer region extracts to a one-color pixel buffer whose
/// first color is the region's color.
pub proof fn lemma_region_solid_all_eq(
    fb: Seq<u8>,
    fw: int,
    x: int,
    y: int,
    w: int,
    h: int,
    c: u32,
)
    requires
        0 <= x,
        0 <= y,
        1 <= w,
        1 <= h,
        x + w <= fw,
        (y + h) * fw * 4 <= fb.len(),
        region_solid(fb, fw, x, y, w, h, c),
    ensures
        ({
            let s = tight_colors(tile_region(fb, fw, x, y, w, h, 4));
            s.len() == w * h && all_eq(s) && s[0] == c
        }),
{
    crate::zrle::lemma_tile_region_len(fb, fw, x, y, w, h, 4);
    let s = tight_colors(tile_region(fb, fw, x, y, w, h, 4));
    assert(s.len() == w * h) by (nonlinear_arith)
        requires
            s.len() == (w * h * 4) / 4,
            0 <= w * h,
    ;
    lemma_region_colors(fb, fw, x, y, w, h, 0, 0);
    assert(s[0] == c);
    assert forall|i: int| 0 <= i < s.len() implies #[trigger] s[i] == s[0] by {
        let row = i / w;
        let col = i % w;
        assert(0 <= col < w && 0 <= row < h && row * w + col == i) by (nonlinear_arith)
            requires
                0 <= i,
                i < w * h,
                1 <= w,
                row == i / w,
                col == i % w,
        ;
        lemma_region_colors(fb, fw, x, y, w, h, col, row);
        assert(color_at(fb, fw, x + col, y + row) == c);
    }
}

/// Appends one rectangle's encoding, splitting it first when it exceeds
/// the caps; what is appended is exactly the rectangle's capped piece
/// list, and covers the rectangle exactly.
fn emit_rect_capped<C: TightStreamCompressor>(
    framebuffer: &[u8],
    fb_width: u16,
    rect: Rect,
    quality: u8,
    compression: u8,
    pf: &PixelFormat,
    compressor: &mut C,
    out: &mut Vec<(Rect, Vec<u8>)>,
)
    requires
        pf.wf(),
        1 <= rect.w,
        1 <= rect.h,
        rect.x + rect.w <= fb_width,
        rect.y2() <= 65536,
        rect.y2() * (fb_width as int) * 4 <= framebuffer@.len(),
    ensures
        final(out)@.len() >= old(out)@.len(),
        final(out)@.subrange(0, old(out)@.len() as int) == old(out)@,
        covers_exactly_region(
            rects_of(final(out)@.subrange(old(out)@.len() as int, final(out)@.len() as int)),
            rect.x as int,
            rect.y as int,
            rect.x2(),
            rect.y2(),
        ),
        rects_of(final(out)@.subrange(old(out)@.len() as int, final(out)@.len() as int))
            == capped_pieces(rect),
        pieces_valid(
            final(out)@,
            old(out)@.len() as int,
            framebuffer@,
            fb_width as int,
            quality,
            compression,
            *pf,
        ),
{
    let ghost fb = framebuffer@;
    let ghost fw = fb_width as int;
    let ghost from = out@.len() as int;
    let ghost prefix = out@;
    proof {
        assert((rect.w as int) * (rect.h as int) <= 0xFFFFFFFF) by (nonlinear_arith)
            requires
                1 <= rect.w as int <= 65535,
                1 <= rect.h as int <= 65535,
        ;
    }
    let area: u64 = (rect.w as u64) * (rect.h as u64);
    if rect.w > TIGHT_MAX_RECT_WIDTH || area > TIGHT_MAX_RECT_SIZE as u64 {
        encode_large_rect(framebuffer, fb_width, rect, quality, compression, pf, compressor, out);
        assert(capped_pieces(rect) == tight_grid(rect));
    } else {
        let buf = encode_subrect_single(
            framebuffer,
            fb_width,
            rect,
            quality,
            compression,
            pf,
            compressor,
        );
        let ghost prev = out@;
        out.push((rect, buf));
        proof {
            lemma_added_push(prev, out@, from, (rect, buf));
            lemma_count_at_push_all(rects_of(prev.subrange(from, prev.len() as int)), rect);
            assert(rects_of(prev.subrange(from, prev.len() as int)) =~= Seq::<Rect>::empty());
            assert(out@.subrange(0, from) =~= prefix);
            assert(rects_of(out@.subrange(from, out@.len() as int)) =~= seq![rect]);
            assert(capped_pieces(rect) == seq![rect]);
        }
    }
}

/// The pieces the solid partition emits, in order: the capped pieces of
/// the full-width band above the solid area, of the band to its left, the
/// solid rectangle itself as one piece, then the capped pieces of the band
/// to its right and of the full-width band below; empty bands contribute
/// nothing.
pub open spec fn solid_partition_pieces(
    r: Rect,
    band_y: int,
    band_h: int,
    xb: int,
    yb: int,
    wb: int,
    hb: int,
) -> Seq<Rect> {
    let top = if yb > band_y {
        capped_pieces((Rect { x: r.x, y: band_y as u16, w: r.w, h: (yb - band_y) as u16 }))
    } else {
        Seq::empty()
    };
    let left = if xb > r.x {
        capped_pieces(
            (Rect { x: r.x, y: yb as u16, w: (xb - r.x) as u16, h: hb as u16 }),
        )
    } else {
        Seq::empty()
    };
    let solid = seq![(Rect { x: xb as u16, y: yb as u16, w: wb as u16, h: hb as u16 })];
    let right = if xb + wb < r.x2() {
        capped_pieces(
            (Rect {
                x: (xb + wb) as u16,
                y: yb as u16,
                w: (r.x2() - (xb + wb)) as u16,
                h: hb as u16,
            }),
        )
    } else {
        Seq::empty()
    };
    let bottom = if yb + hb < band_y + band_h {
        capped_pieces(
            (Rect {
                x: r.x,
                y: (yb + hb) as u16,
                w: r.w,
                h: (band_y + band_h - (yb + hb)) as u16,
            }),
        )
    } else {
        Seq::empty()
    };
    top + left + solid + right + bottom
}

/// Emits the partition around a solid area: the full-width band above it,
/// the bands left and right of its rows, the solid rectangle itself as a
/// solid fill, and the full-width band below; the appended pieces are
/// exactly `solid_partition_pieces` and together they cover the strip
/// `[rect.x, rect.x + rect.w) x [band_y, band_y + band_h)` exactly.
#[verifier::rlimit(100)]
fn emit_solid_partition<C: TightStreamCompressor>(
    framebuffer: &[u8],
    fb_width: u16,
    rect: Rect,
    band_y: u16,
    band_h: u16,
    x_best: u16,
    y_best: u16,
    w_best: u16,
    h_best: u16,
    color_value: u32,
    quality: u8,
    compression: u8,
    pf: &PixelFormat,
    compressor: &mut C,
    out: &mut Vec<(Rect, Vec<u8>)>,
)
    requires
        pf.wf(),
        1 <= rect.w,
        rect.x + rect.w <= fb_width,
        rect.y <= band_y,
        1 <= band_h,
        band_y + band_h <= rect.y2(),
        rect.y2() <= 65536,
        rect.y2() * (fb_width as int) * 4 <= framebuffer@.len(),
        rect.x <= x_best,
        band_y <= y_best,
        1 <= w_best,
        1 <= h_best,
        x_best + w_best <= rect.x2(),
        y_best + h_best <= band_y + band_h,
        region_solid(
            framebuffer@,
            fb_width as int,
            x_best as int,
            y_best as int,
            w_best as int,
            h_best as int,
            color_value,
        ),
    ensures
        final(out)@.len() >= old(out)@.len(),
        final(out)@.subrange(0, old(out)@.len() as int) == old(out)@,
        covers_exactly_region(
            rects_of(final(out)@.subrange(old(out)@.len() as int, final(out)@.len() as int)),
            rect.x as int,
            band_y as int,
            rect.x2(),
            band_y as int + band_h,
        ),
        rects_of(final(out)@.subrange(old(out)@.len() as int, final(out)@.len() as int))
            == solid_partition_pieces(
            rect,
            band_y as int,
            band_h as int,
            x_best as int,
            y_best as int,
            w_best as int,
            h_best as int,
        ),
        pieces_valid(
            final(out)@,
            old(out)@.len() as int,
            framebuffer@,
            fb_width as int,
            quality,
            compression,
            *pf,
        ),
{
    let ghost fb = framebuffer@;
    let ghost fw = fb_width as int;
    let ghost from = out@.len() as int;
    let ghost prefix = out@;
    let ghost seg_top: Seq<Rect> = if y_best as int > band_y as int {
        capped_pieces(
            (Rect { x: rect.x, y: band_y, w: rect.w, h: (y_best - band_y) as u16 }),
        )
    } else {
        Seq::empty()
    };
    let ghost seg_left: Seq<Rect> = if x_best as int > rect.x as int {
        capped_pieces(
            (Rect { x: rect.x, y: y_best, w: (x_best - rect.x) as u16, h: h_best }),
        )
    } else {
        Seq::empty()
    };
    let ghost seg_solid: Seq<Rect> = seq![
        (Rect { x: x_best, y: y_best, w: w_best, h: h_best }),
    ];
    let ghost seg_right: Seq<Rect> = if (x_best as int) + w_best < rect.x2() {
        capped_pieces(
            (Rect {
                x: (x_best + w_best) as u16,
                y: y_best,
                w: (rect.x2() - (x_best as int + w_best)) as u16,
                h: h_best,
            }),
        )
    } else {
        Seq::empty()
    };
    let ghost seg_bottom: Seq<Rect> = if (y_best as int) + h_best < band_y as int + band_h {
        capped_pieces(
            (Rect {
                x: rect.x,
                y: (y_best + h_best) as u16,
                w: rect.w,
                h: (band_y as int + band_h - (y_best as int + h_best)) as u16,
            }),
        )
    } else {
        Seq::empty()
    };
    let ghost x1 = rect.x as int;
    let ghost x2 = rect.x2();
    let ghost yb = band_y as int;
    let ghost ye = band_y as int + band_h;
    let ghost xa = x_best as int;
    let ghost xb = x_best as int + w_best;
    let ghost y1 = y_best as int;
    let ghost y2 = y_best as int + h_best;
    proof {
        assert(out@.subrange(0, from) =~= prefix);
        assert(rects_of(out@.subrange(from, out@.len() as int)) =~= Seq::<Rect>::empty());
    }

    if y_best > band_y {
        let top = Rect { x: rect.x, y: band_y, w: rect.w, h: y_best - band_y };
        proof {
            assert(top.y2() * fw * 4 <= rect.y2() * fw * 4) by (nonlinear_arith)
                requires
                    top.y2() <= rect.y2(),
                    0 <= top.y2(),
                    0 <= fw,
            ;
        }
        emit_rect_capped(framebuffer, fb_width, top, quality, compression, pf, compressor, out);
    }
    proof {
        assert(out@.subrange(0, from) =~= prefix);
        assert forall|px: int, py: int|
            #[trigger] count_at(rects_of(out@.subrange(from, out@.len() as int)), px, py)
                == ind_region(px, py, x1, yb, x2, y1) by {
            if y_best > band_y {
            } else {
                assert(rects_of(out@.subrange(from, out@.len() as int)) =~= Seq::<
                    Rect,
                >::empty());
            }
        }
        if y_best > band_y {
            assert(rects_of(out@.subrange(from, out@.len() as int)) == seg_top);
        } else {
            assert(rects_of(out@.subrange(from, out@.len() as int)) =~= seg_top);
        }
    }
    let ghost m1 = out@;

    if x_best > rect.x {
        let left = Rect { x: rect.x, y: y_best, w: x_best - rect.x, h: h_best };
        proof {
            assert(left.y2() * fw * 4 <= rect.y2() * fw * 4) by (nonlinear_arith)
                requires
                    left.y2() <= rect.y2(),
                    0 <= left.y2(),
                    0 <= fw,
            ;
        }
        emit_rect_capped(framebuffer, fb_width, left, quality, compression, pf, compressor, out);
    }
    proof {
        let a = rects_of(m1.subrange(from, m1.len() as int));
        let b = rects_of(out@.subrange(m1.len() as int, out@.len() as int));
        assert(out@.subrange(from, out@.len() as int) =~= m1.subrange(from, m1.len() as int)
            + out@.subrange(m1.len() as int, out@.len() as int));
        assert(rects_of(out@.subrange(from, out@.len() as int)) =~= a + b);
        lemma_count_at_concat_all(a, b);
        assert(out@.subrange(0, from) =~= prefix);
        assert(m1.subrange(0, from) =~= out@.subrange(0, from));
        assert forall|k: int|
            from <= k < out@.len() implies ((#[trigger] out@[k].0).size_ok() || all_eq(
            tight_colors(rect_pixels(fb, fw, out@[k].0)),
        )) && valid_subrect_bytes(out@[k].1@, fb, fw, out@[k].0, quality, compression, *pf) by {
            if k < m1.len() {
                assert(out@.subrange(0, m1.len() as int)[k] == m1[k]);
                assert(out@[k] == m1[k]);
            }
        }
        assert forall|px: int, py: int|
            #[trigger] count_at(rects_of(out@.subrange(from, out@.len() as int)), px, py)
                == ind_region(px, py, x1, yb, x2, y1) + ind_region(px, py, x1, y1, xa, y2) by {
            if x_best > rect.x {
            } else {
                assert(b =~= Seq::<Rect>::empty());
            }
        }
        if x_best > rect.x {
            assert(b == seg_left);
        } else {
            assert(b =~= seg_left);
        }
        assert(rects_of(out@.subrange(from, out@.len() as int)) =~= seg_top + seg_left);
    }
    let ghost m2 = out@;

    let solid_rect = Rect { x: x_best, y: y_best, w: w_best, h: h_best };
    let buf = encode_solid_rect(color_value, pf);
    let ghost prev = out@;
    out.push((solid_rect, buf));
    proof {
        lemma_added_push(prev, out@, from, (solid_rect, buf));
        lemma_count_at_push_all(rects_of(prev.subrange(from, prev.len() as int)), solid_rect);
        assert(out@.subrange(0, from) =~= prefix);
        assert(solid_rect.y2() * fw * 4 <= rect.y2() * fw * 4) by (nonlinear_arith)
            requires
                solid_rect.y2() <= rect.y2(),
                0 <= solid_rect.y2(),
                0 <= fw,
        ;
        lemma_region_solid_all_eq(
            fb,
            fw,
            x_best as int,
            y_best as int,
            w_best as int,
            h_best as int,
            color_value,
        );
        assert((w_best as int) * (h_best as int) >= 1) by (nonlinear_arith)
            requires
                1 <= w_best as int,
                1 <= h_best as int,
        ;
        assert(valid_subrect_bytes(buf@, fb, fw, solid_rect, quality, compression, *pf));
        assert forall|k: int|
            from <= k < out@.len() implies (#[trigger] out@[k].0).size_ok() || all_eq(
            tight_colors(rect_pixels(fb, fw, out@[k].0)),
        ) by {
            if k < prev.len() {
                assert(out@[k] == prev[k]);
            }
        }
        assert forall|px: int, py: int|
            #[trigger] count_at(rects_of(out@.subrange(from, out@.len() as int)), px, py)
                == ind_region(px, py, x1, yb, x2, y1) + ind_region(px, py, x1, y1, xa, y2)
                + ind_region(px, py, xa, y1, xb, y2) by {}
        assert(rects_of(out@.subrange(from, out@.len() as int)) =~= seg_top + seg_left
            + seg_solid);
    }
    let ghost m3 = out@;

    if x_best + w_best < rect.x + rect.w {
        let right = Rect {
            x: x_best + w_best,
            y: y_best,
            w: (rect.x + rect.w) - (x_best + w_best),
            h: h_best,
        };
        proof {
            assert(right.y2() * fw * 4 <= rect.y2() * fw * 4) by (nonlinear_arith)
                requires
                    right.y2() <= rect.y2(),
                    0 <= right.y2(),
                    0 <= fw,
            ;
        }
        emit_rect_capped(framebuffer, fb_width, right, quality, compression, pf, compressor, out);
    }
    proof {
        let a = rects_of(m3.subrange(from, m3.len() as int));
        let b = rects_of(out@.subrange(m3.len() as int, out@.len() as int));
        assert(out@.subrange(from, out@.len() as int) =~= m3.subrange(from, m3.len() as int)
            + out@.subrange(m3.len() as int, out@.len() as int));
        assert(rects_of(out@.subrange(from, out@.len() as int)) =~= a + b);
        lemma_count_at_concat_all(a, b);
        assert(out@.subrange(0, from) =~= prefix);
        assert(m3.subrange(0, from) =~= out@.subrange(0, from));
        assert forall|k: int|
            from <= k < out@.len() implies ((#[trigger] out@[k].0).size_ok() || all_eq(
            tight_colors(rect_pixels(fb, fw, out@[k].0)),
        )) && valid_subrect_bytes(out@[k].1@, fb, fw, out@[k].0, quality, compression, *pf) by {
            if k < m3.len() {
                assert(out@.subrange(0, m3.len() as int)[k] == m3[k]);
                assert(out@[k] == m3[k]);
            }
        }
        assert forall|px: int, py: int|
            #[trigger] count_at(rects_of(out@.subrange(from, out@.len() as int)), px, py)
                == ind_region(px, py, x1, yb, x2, y1) + ind_region(px, py, x1, y1, xa, y2)
                + ind_region(px, py, xa, y1, xb, y2) + ind_region(px, py, xb, y1, x2, y2) by {
            if !(x_best + w_best < rect.x + rect.w) {
                assert(b =~= Seq::<Rect>::empty());
            }
        }
        if x_best + w_best < rect.x + rect.w {
            assert(b == seg_right);
        } else {
            assert(b =~= seg_right);
        }
        assert(rects_of(out@.subrange(from, out@.len() as int)) =~= seg_top + seg_left + seg_solid
            + seg_right);
    }
    let ghost m4 = out@;

    if (y_best as u32) + (h_best as u32) < (band_y as u32) + (band_h as u32) {
        let bottom = Rect {
            x: rect.x,
            y: y_best + h_best,
            w: rect.w,
            h: (((band_y as u32) + (band_h as u32)) - ((y_best as u32) + (h_best as u32))) as u16,
        };
        proof {
            assert(bottom.y2() * fw * 4 <= rect.y2() * fw * 4) by (nonlinear_arith)
                requires
                    bottom.y2() <= rect.y2(),
                    0 <= bottom.y2(),
                    0 <= fw,
            ;
        }
        emit_rect_capped(framebuffer, fb_width, bottom, quality, compression, pf, compressor, out);
    }
    proof {
        let a = rects_of(m4.subrange(from, m4.len() as int));
        let b = rects_of(out@.subrange(m4.len() as int, out@.len() as int));
        assert(out@.subrange(from, out@.len() as int) =~= m4.subrange(from, m4.len() as int)
            + out@.subrange(m4.len() as int, out@.len() as int));
        assert(rects_of(out@.subrange(from, out@.len() as int)) =~= a + b);
        lemma_count_at_concat_all(a, b);
        assert(out@.subrange(0, from) =~= prefix);
        assert(m4.subrange(0, from) =~= out@.subrange(0, from));
        assert forall|k: int|
            from <= k < out@.len() implies ((#[trigger] out@[k].0).size_ok() || all_eq(
            tight_colors(rect_pixels(fb, fw, out@[k].0)),
        )) && valid_subrect_bytes(out@[k].1@, fb, fw, out@[k].0, quality, compression, *pf) by {
            if k < m4.len() {
                assert(out@.subrange(0, m4.len() as int)[k] == m4[k]);
                assert(out@[k] == m4[k]);
            }
        }
        assert forall|px: int, py: int|
            #[trigger] count_at(rects_of(out@.subrange(from, out@.len() as int)), px, py)
                == ind_region(px, py, x1, yb, x2, ye) by {
            if !((y_best as u32) + (h_best as u32) < (band_y as u32) + (band_h as u32)) {
                assert(b =~= Seq::<Rect>::empty());
            }
        }
        if (y_best as u32) + (h_best as u32) < (band_y as u32) + (band_h as u32) {
            assert(b == seg_bottom);
        } else {
            assert(b =~= seg_bottom);
        }
        assert(rects_of(out@.subrange(from, out@.len() as int)) =~= seg_top + seg_left + seg_solid
            + seg_right + seg_bottom);
        assert(rects_of(out@.subrange(from, out@.len() as int)) =~= solid_partition_pieces(
            rect,
            band_y as int,
            band_h as int,
            x_best as int,
            y_best as int,
            w_best as int,
            h_best as int,
        ));
    }
}

/// Pieces valid from the old prefix and from the new suffix are valid over
/// the whole list.
proof fn lemma_pieces_valid_extend(
    mid: Seq<(Rect, Vec<u8>)>,
    cur: Seq<(Rect, Vec<u8>)>,
    fb: Seq<u8>,
    fw: int,
    quality: u8,
    compression: u8,
    pf: PixelFormat,
)
    requires
        cur.len() >= mid.len(),
        cur.subrange(0, mid.len() as int) == mid,
        pieces_valid(mid, 0, fb, fw, quality, compression, pf),
        pieces_valid(cur, mid.len() as int, fb, fw, quality, compression, pf),
    ensures
        pieces_valid(cur, 0, fb, fw, quality, compression, pf),
{
    assert forall|k: int|
        0 <= k < cur.len() implies ((#[trigger] cur[k].0).size_ok() || all_eq(
        tight_colors(rect_pixels(fb, fw, cur[k].0)),
    )) && valid_subrect_bytes(cur[k].1@, fb, fw, cur[k].0, quality, compression, pf) by {
        if k < mid.len() {
            assert(cur.subrange(0, mid.len() as int)[k] == mid[k]);
            assert(cur[k] == mid[k]);
        }
    }
}

/// A region covered down to `ym` and a band from `ym` to `y2` stack into
/// one exactly covered region.
proof fn lemma_cover_stack(a: Seq<Rect>, b: Seq<Rect>, x1: int, y1: int, x2: int, ym: int, y2: int)
    requires
        y1 <= ym <= y2,
        covers_exactly_region(a, x1, y1, x2, ym),
        covers_exactly_region(b, x1, ym, x2, y2),
    ensures
        covers_exactly_region(a + b, x1, y1, x2, y2),
{
    lemma_count_at_concat_all(a, b);
}

/// The scan-strip height of a rectangle: the tallest full-width strip the
/// area cap allows at the capped width.
pub open spec fn scan_strip_rows(r: Rect) -> int {
    65536int / (if r.w > 2048 {
        2048int
    } else {
        r.w as int
    })
}

/// Strip `i` of the scan: full width, `scan_strip_rows` tall, the `i`-th
/// from the rectangle's top.
pub open spec fn scan_strip(r: Rect, i: int) -> Rect {
    Rect {
        x: r.x,
        y: (r.y + i * scan_strip_rows(r)) as u16,
        w: r.w,
        h: scan_strip_rows(r) as u16,
    }
}

/// The pieces of the first `k` flushed scan strips, in order.
pub open spec fn flushed_strips(r: Rect, k: int) -> Seq<Rect>
    decreases k,
{
    if k <= 0 {
        Seq::empty()
    } else {
        flushed_strips(r, k - 1) + capped_pieces(scan_strip(r, k - 1))
    }
}

/// The strip left after `k` flushes: from below the flushed strips down to
/// the rectangle's bottom edge.
pub open spec fn remaining_strip(r: Rect, k: int) -> Rect {
    Rect {
        x: r.x,
        y: (r.y + k * scan_strip_rows(r)) as u16,
        w: r.w,
        h: (r.y2() - (r.y + k * scan_strip_rows(r))) as u16,
    }
}

/// A scan that ends on a solid area: the flushed strips followed by the
/// solid partition of the remaining strip, around an area that really is
/// one color.
pub open spec fn solid_scan_tail(rs: Seq<Rect>, r: Rect, k: int, fb: Seq<u8>, fw: int) -> bool {
    exists|xb: int, yb: int, wb: int, hb: int, c: u32|
        #![auto]
        r.x <= xb && r.y + k * scan_strip_rows(r) <= yb && 1 <= wb && 1 <= hb && xb + wb
            <= r.x2() && yb + hb <= r.y2() && r.y + k * scan_strip_rows(r) < r.y2()
            && region_solid(fb, fw, xb, yb, wb, hb, c) && rs == flushed_strips(r, k)
            + solid_partition_pieces(
            r,
            r.y + k * scan_strip_rows(r),
            r.y2() - (r.y + k * scan_strip_rows(r)),
            xb,
            yb,
            wb,
            hb,
        )
}

/// A scan that ends without a qualifying solid area: the flushed strips
/// followed by the capped pieces of the remaining strip, or by nothing
/// when no strip remains.
pub open spec fn plain_scan_tail(rs: Seq<Rect>, r: Rect, k: int) -> bool {
    rs == flushed_strips(r, k) + (if r.y + k * scan_strip_rows(r) < r.y2() {
        capped_pieces(remaining_strip(r, k))
    } else {
        Seq::<Rect>::empty()
    })
}

/// The output shape of the geometric optimizer: some number of flushed
/// full-width scan strips, followed either by the capped pieces of the
/// remaining strip (nothing when no strip remains), or by one solid
/// partition of it.
pub open spec fn optimizer_pieces(rs: Seq<Rect>, r: Rect, fb: Seq<u8>, fw: int) -> bool {
    exists|k: int|
        #![trigger plain_scan_tail(rs, r, k)]
        #![trigger solid_scan_tail(rs, r, k, fb, fw)]
        0 <= k && r.y + k * scan_strip_rows(r) <= r.y2() && (plain_scan_tail(rs, r, k)
            || solid_scan_tail(rs, r, k, fb, fw))
}

/// Encodes a rectangle with Tight's optimizer. A rectangle below the
/// optimization threshold goes straight to the capped encoder. Otherwise
/// the rectangle is scanned top-down in 16-pixel tiles: a full-width strip
/// is flushed whenever the scan is a whole strip height ahead, and the
/// first solid tile that grows into a large enough area has its strip
/// partitioned around it and emitted, ending the pass. The emitted pieces
/// cover the rectangle exactly once.
#[verifier::rlimit(100)]
pub fn encode_rect_optimized<C: TightStreamCompressor>(
    framebuffer: &[u8],
    fb_width: u16,
    rect: Rect,
    quality: u8,
    compression: u8,
    pf: &PixelFormat,
    compressor: &mut C,
) -> (r: Vec<(Rect, Vec<u8>)>)
    requires
        pf.wf(),
        1 <= rect.w,
        1 <= rect.h,
        rect.x + rect.w <= fb_width,
        rect.y2() <= 65536,
        rect.y2() * (fb_width as int) * 4 <= framebuffer@.len(),
    ensures
        covers_exactly_region(rects_of(r@), rect.x as int, rect.y as int, rect.x2(), rect.y2()),
        pieces_valid(
            r@,
            0,
            framebuffer@,
            fb_width as int,
            quality,
            normalized_compression(compression, quality),
            *pf,
        ),
        (rect.w as int) * (rect.h as int) < 4096 ==> rects_of(r@) == capped_pieces(rect),
        optimizer_pieces(rects_of(r@), rect, framebuffer@, fb_width as int),
{
    let ghost fb = framebuffer@;
    let ghost fw = fb_width as int;
    let comp = normalize_compression_level(compression, quality);
    let mut rects: Vec<(Rect, Vec<u8>)> = Vec::new();
    proof {
        assert((rect.w as int) * (rect.h as int) <= 0xFFFFFFFF) by (nonlinear_arith)
            requires
                1 <= rect.w as int <= 65535,
                1 <= rect.h as int <= 65535,
        ;
    }
    let rect_size: u64 = (rect.w as u64) * (rect.h as u64);
    if rect_size < 4096 {
        emit_rect_capped(framebuffer, fb_width, rect, quality, comp, pf, compressor, &mut rects);
        proof {
            assert(rects@.subrange(0, rects@.len() as int) =~= rects@);
            assert(rects_of(rects@) =~= rects_of(rects@.subrange(0, rects@.len() as int)));
            assert(rects_of(rects@) == capped_pieces(rect));
            assert(remaining_strip(rect, 0) == rect);
            assert(rects_of(rects@) =~= flushed_strips(rect, 0) + capped_pieces(
                remaining_strip(rect, 0),
            ));
            assert(optimizer_pieces(rects_of(rects@), rect, fb, fw)) by {
                assert(0 <= 0int && rect.y + 0int * scan_strip_rows(rect) <= rect.y2()
                    && plain_scan_tail(rects_of(rects@), rect, 0));
            }
        }
        return rects;
    }

    let n_max_width: u32 = if rect.w > 2048 {
        2048
    } else {
        rect.w as u32
    };
    let n_max_rows: u32 = 65536 / n_max_width;
    proof {
        assert(1 <= n_max_rows as int) by (nonlinear_arith)
            requires
                1 <= n_max_width as int <= 2048,
                n_max_rows as int == 65536int / (n_max_width as int),
        ;
        assert(n_max_rows as int == scan_strip_rows(rect));
    }
    let ghost mut kg: int = 0;

    let mut current_y: u32 = rect.y as u32;
    let mut base_y: u16 = rect.y;
    let mut remaining_h: u16 = rect.h;
    proof {
        assert(rects_of(rects@) =~= Seq::<Rect>::empty());
        assert(rects_of(rects@) =~= flushed_strips(rect, 0));
    }

    while current_y < (base_y as u32) + (remaining_h as u32)
        invariant
            pf.wf(),
            fb == framebuffer@,
            fw == fb_width as int,
            1 <= rect.w,
            1 <= rect.h,
            rect.x + rect.w <= fb_width,
            rect.y2() <= 65536,
            rect.y2() * fw * 4 <= fb.len(),
            1 <= n_max_rows,
            comp == normalized_compression(compression, quality),
            4096 <= (rect.w as int) * (rect.h as int),
            base_y as int + remaining_h == rect.y2(),
            rect.y <= base_y,
            base_y as int <= current_y as int,
            current_y as int <= rect.y2(),
            0 <= kg,
            n_max_rows as int == scan_strip_rows(rect),
            base_y as int == rect.y + kg * scan_strip_rows(rect),
            rects_of(rects@) == flushed_strips(rect, kg),
            covers_exactly_region(rects_of(rects@), rect.x as int, rect.y as int, rect.x2(), base_y as int),
            pieces_valid(rects@, 0, fb, fw, quality, comp, *pf),
        ensures
            comp == normalized_compression(compression, quality),
            base_y as int + remaining_h == rect.y2(),
            rect.y <= base_y,
            0 <= kg,
            base_y as int == rect.y + kg * scan_strip_rows(rect),
            rects_of(rects@) == flushed_strips(rect, kg),
            covers_exactly_region(rects_of(rects@), rect.x as int, rect.y as int, rect.x2(), base_y as int),
            pieces_valid(rects@, 0, fb, fw, quality, comp, *pf),
        decreases rect.y2() - current_y,
    {
        if current_y - (base_y as u32) >= n_max_rows {
            let chunk_h: u16 = n_max_rows as u16;
            let chunk = Rect { x: rect.x, y: base_y, w: rect.w, h: chunk_h };
            proof {
                assert(chunk.y2() * fw * 4 <= rect.y2() * fw * 4) by (nonlinear_arith)
                    requires
                        chunk.y2() <= rect.y2(),
                        0 <= chunk.y2(),
                        0 <= fw,
                ;
            }
            let ghost mid = rects@;
            emit_rect_capped(
                framebuffer,
                fb_width,
                chunk,
                quality,
                comp,
                pf,
                compressor,
                &mut rects,
            );
            proof {
                assert(rects@ =~= mid + rects@.subrange(mid.len() as int, rects@.len() as int));
                assert(rects_of(rects@) =~= rects_of(mid) + rects_of(
                    rects@.subrange(mid.len() as int, rects@.len() as int),
                ));
                lemma_cover_stack(
                    rects_of(mid),
                    rects_of(rects@.subrange(mid.len() as int, rects@.len() as int)),
                    rect.x as int,
                    rect.y as int,
                    rect.x2(),
                    base_y as int,
                    base_y as int + chunk_h,
                );
                lemma_pieces_valid_extend(mid, rects@, fb, fw, quality, comp, *pf);
                assert(chunk == scan_strip(rect, kg));
                assert(flushed_strips(rect, kg + 1) == flushed_strips(rect, kg) + capped_pieces(
                    scan_strip(rect, kg),
                ));
                assert(rects_of(rects@) =~= flushed_strips(rect, kg + 1));
                assert((kg + 1) * scan_strip_rows(rect) == kg * scan_strip_rows(rect)
                    + scan_strip_rows(rect)) by (nonlinear_arith);
                kg = kg + 1;
            }
            base_y = base_y + chunk_h;
            remaining_h = remaining_h - chunk_h;
        }

        let scan_lim: u32 = (base_y as u32) + (remaining_h as u32);
        let c16: u32 = current_y + 16;
        let dy_end: u32 = if c16 < scan_lim {
            c16
        } else {
            scan_lim
        };
        let dh: u16 = (dy_end - current_y) as u16;
        if dh == 0 {
            break ;
        }

        let mut current_x: u16 = rect.x;
        while current_x < rect.x + rect.w
            invariant
                pf.wf(),
                fb == framebuffer@,
                fw == fb_width as int,
                1 <= rect.w,
                1 <= rect.h,
                rect.x + rect.w <= fb_width,
                rect.y2() <= 65536,
                rect.y2() * fw * 4 <= fb.len(),
                1 <= n_max_rows,
                comp == normalized_compression(compression, quality),
                4096 <= (rect.w as int) * (rect.h as int),
                base_y as int + remaining_h == rect.y2(),
                rect.y <= base_y,
                base_y as int <= current_y as int,
                (current_y as int) < rect.y2(),
                1 <= remaining_h,
                1 <= dh,
                current_y as int + dh <= rect.y2(),
                rect.x <= current_x,
                current_x as int <= rect.x2(),
                0 <= kg,
                n_max_rows as int == scan_strip_rows(rect),
                base_y as int == rect.y + kg * scan_strip_rows(rect),
                rects_of(rects@) == flushed_strips(rect, kg),
                covers_exactly_region(
                    rects_of(rects@),
                    rect.x as int,
                    rect.y as int,
                    rect.x2(),
                    base_y as int,
                ),
                pieces_valid(rects@, 0, fb, fw, quality, comp, *pf),
            ensures
                comp == normalized_compression(compression, quality),
                base_y as int + remaining_h == rect.y2(),
                rect.y <= base_y,
                0 <= kg,
                n_max_rows as int == scan_strip_rows(rect),
                base_y as int == rect.y + kg * scan_strip_rows(rect),
                rects_of(rects@) == flushed_strips(rect, kg),
                covers_exactly_region(
                    rects_of(rects@),
                    rect.x as int,
                    rect.y as int,
                    rect.x2(),
                    base_y as int,
                ),
                pieces_valid(rects@, 0, fb, fw, quality, comp, *pf),
            decreases rect.x2() - current_x,
        {
            let dxlim: u32 = (rect.x as u32) + (rect.w as u32);
            let cx16: u32 = (current_x as u32) + 16;
            let dx_end: u32 = if cx16 < dxlim {
                cx16
            } else {
                dxlim
            };
            let dw: u16 = (dx_end - (current_x as u32)) as u16;
            if dw == 0 {
                break ;
            }
            proof {
                lemma_strip_in_bounds(
                    fb.len() as int,
                    fw,
                    rect.x as int,
                    rect.y as int,
                    rect.w as int,
                    rect.h as int,
                );
            }
            let cy: u16 = current_y as u16;
            let solid = check_solid_tile(framebuffer, fb_width, current_x, cy, dw, dh, None);
            if let Some(color_value) = solid {
                let avail_w: u16 = (rect.x + rect.w) - current_x;
                let avail_h: u16 = (((base_y as u32) + (remaining_h as u32)) - current_y) as u16;
                let best = find_best_solid_area(
                    framebuffer,
                    fb_width,
                    current_x,
                    cy,
                    avail_w,
                    avail_h,
                    color_value,
                );
                let w_best = best.0;
                let h_best = best.1;
                proof {
                    assert((w_best as int) * (h_best as int) <= 0xFFFFFFFF && (rect.w as int) * (
                    remaining_h as int) <= 0xFFFFFFFF) by (nonlinear_arith)
                        requires
                            w_best as int <= 65535,
                            h_best as int <= 65535,
                            rect.w as int <= 65535,
                            remaining_h as int <= 65535,
                            0 <= w_best as int,
                            0 <= h_best as int,
                            1 <= rect.w as int,
                            1 <= remaining_h as int,
                    ;
                }
                let area: u64 = (w_best as u64) * (h_best as u64);
                let strip_area: u64 = (rect.w as u64) * (remaining_h as u64);
                if area == strip_area || area >= 2048 {
                    proof {
                        assert(1 <= (rect.w as int) * (remaining_h as int)) by (nonlinear_arith)
                            requires
                                1 <= rect.w as int,
                                1 <= remaining_h as int,
                        ;
                        assert(1 <= w_best as int && 1 <= h_best as int) by (nonlinear_arith)
                            requires
                                1 <= (w_best as int) * (h_best as int),
                                0 <= w_best as int,
                                0 <= h_best as int,
                        ;
                    }
                    let ext = extend_solid_area(
                        framebuffer,
                        fb_width,
                        rect.x,
                        base_y,
                        rect.w,
                        remaining_h,
                        color_value,
                        current_x,
                        cy,
                        w_best,
                        h_best,
                    );
                    let ghost mid = rects@;
                    emit_solid_partition(
                        framebuffer,
                        fb_width,
                        rect,
                        base_y,
                        remaining_h,
                        ext.0,
                        ext.1,
                        ext.2,
                        ext.3,
                        color_value,
                        quality,
                        comp,
                        pf,
                        compressor,
                        &mut rects,
                    );
                    proof {
                        assert(rects@ =~= mid + rects@.subrange(
                            mid.len() as int,
                            rects@.len() as int,
                        ));
                        assert(rects_of(rects@) =~= rects_of(mid) + rects_of(
                            rects@.subrange(mid.len() as int, rects@.len() as int),
                        ));
                        lemma_cover_stack(
                            rects_of(mid),
                            rects_of(rects@.subrange(mid.len() as int, rects@.len() as int)),
                            rect.x as int,
                            rect.y as int,
                            rect.x2(),
                            base_y as int,
                            rect.y2(),
                        );
                        lemma_pieces_valid_extend(mid, rects@, fb, fw, quality, comp, *pf);
                        assert(rects_of(rects@) =~= flushed_strips(rect, kg)
                            + solid_partition_pieces(
                            rect,
                            base_y as int,
                            remaining_h as int,
                            ext.0 as int,
                            ext.1 as int,
                            ext.2 as int,
                            ext.3 as int,
                        ));
                        assert(solid_scan_tail(rects_of(rects@), rect, kg, fb, fw)) by {
                            assert(rect.x <= ext.0 as int && rect.y + kg * scan_strip_rows(rect)
                                <= ext.1 as int && 1 <= ext.2 as int && 1 <= ext.3 as int
                                && ext.0 as int + ext.2 <= rect.x2() && ext.1 as int + ext.3
                                <= rect.y2() && rect.y + kg * scan_strip_rows(rect) < rect.y2()
                                && region_solid(
                                fb,
                                fw,
                                ext.0 as int,
                                ext.1 as int,
                                ext.2 as int,
                                ext.3 as int,
                                color_value,
                            ) && rects_of(rects@) == flushed_strips(rect, kg)
                                + solid_partition_pieces(
                                rect,
                                rect.y + kg * scan_strip_rows(rect),
                                rect.y2() - (rect.y + kg * scan_strip_rows(rect)),
                                ext.0 as int,
                                ext.1 as int,
                                ext.2 as int,
                                ext.3 as int,
                            ));
                        }
                        assert(optimizer_pieces(rects_of(rects@), rect, fb, fw)) by {
                            assert(0 <= kg && rect.y + kg * scan_strip_rows(rect) <= rect.y2()
                                && solid_scan_tail(rects_of(rects@), rect, kg, fb, fw));
                        }
                    }
                    return rects;
                }
            }
            current_x = current_x + dw;
        }
        current_y = current_y + (dh as u32);
    }

    if remaining_h > 0 {
        let strip = Rect { x: rect.x, y: base_y, w: rect.w, h: remaining_h };
        let ghost mid = rects@;
        emit_rect_capped(
            framebuffer,
            fb_width,
            strip,
            quality,
            comp,
            pf,
            compressor,
            &mut rects,
        );
        proof {
            assert(rects@ =~= mid + rects@.subrange(mid.len() as int, rects@.len() as int));
            assert(rects_of(rects@) =~= rects_of(mid) + rects_of(
                rects@.subrange(mid.len() as int, rects@.len() as int),
            ));
            lemma_cover_stack(
                rects_of(mid),
                rects_of(rects@.subrange(mid.len() as int, rects@.len() as int)),
                rect.x as int,
                rect.y as int,
                rect.x2(),
                base_y as int,
                rect.y2(),
            );
            lemma_pieces_valid_extend(mid, rects@, fb, fw, quality, comp, *pf);
            assert(strip == remaining_strip(rect, kg));
            assert(rects_of(rects@) =~= flushed_strips(rect, kg) + capped_pieces(
                remaining_strip(rect, kg),
            ));
            assert(optimizer_pieces(rects_of(rects@), rect, fb, fw)) by {
                assert(0 <= kg && rect.y + kg * scan_strip_rows(rect) <= rect.y2()
                    && plain_scan_tail(rects_of(rects@), rect, kg));
            }
        }
    } else {
        proof {
            assert(rects_of(rects@) =~= flushed_strips(rect, kg) + Seq::<Rect>::empty());
            assert(optimizer_pieces(rects_of(rects@), rect, fb, fw)) by {
                assert(0 <= kg && rect.y + kg * scan_strip_rows(rect) <= rect.y2()
                    && plain_scan_tail(rects_of(rects@), rect, kg));
            }
        }
    }
    rects
}

/// The rectangle carried by one public result tuple.
pub open spec fn tuple_rect(t: (u16, u16, u16, u16, bytes::BytesMut)) -> Rect {
    Rect { x: t.0, y: t.1, w: t.2, h: t.3 }
}

/// The rectangles of the public result tuples.
pub open spec fn tuple_rects(rs: Seq<(u16, u16, u16, u16, bytes::BytesMut)>) -> Seq<Rect> {
    rs.map_values(|t: (u16, u16, u16, u16, bytes::BytesMut)| tuple_rect(t))
}

/// Every public result tuple carries a correct encoding of its rectangle,
/// within the caps unless it is a one-color rectangle.
pub open spec fn tuples_valid(
    rs: Seq<(u16, u16, u16, u16, bytes::BytesMut)>,
    fb: Seq<u8>,
    fw: int,
    quality: u8,
    compression: u8,
    pf: PixelFormat,
) -> bool {
    forall|k: int|
        0 <= k < rs.len() ==> ((#[trigger] tuple_rect(rs[k])).size_ok() || all_eq(
            tight_colors(rect_pixels(fb, fw, tuple_rect(rs[k]))),
        )) && valid_subrect_bytes(
            crate::bytebuf::bytes_mut_view(rs[k].4),
            fb,
            fw,
            tuple_rect(rs[k]),
            quality,
            compression,
            pf,
        )
}

/// Encodes a rectangle with Tight on persistent zlib streams, returning
/// each emitted subrectangle's geometry with its wire bytes. The returned
/// subrectangles cover the input exactly once, each with a correct
/// encoding of its pixels, and each within the width and area caps except
/// a one-color rectangle: a solid area is emitted as exactly one fill
/// rectangle however large, the reading under which the solid-extraction
/// rule and the caps rule agree.
pub fn encode_tight_rects<C: TightStreamCompressor>(
    data: &[u8],
    width: u16,
    height: u16,
    quality: u8,
    compression: u8,
    client_format: &PixelFormat,
    compressor: &mut C,
) -> (r: Vec<(u16, u16, u16, u16, bytes::BytesMut)>)
    requires
        client_format.wf(),
        1 <= width,
        1 <= height,
        (height as int) * (width as int) * 4 <= data@.len(),
    ensures
        covers_exactly_region(tuple_rects(r@), 0, 0, width as int, height as int),
        tuples_valid(
            r@,
            data@,
            width as int,
            quality,
            normalized_compression(compression, quality),
            *client_format,
        ),
        (width as int) * (height as int) < 4096 ==> tuple_rects(r@) == capped_pieces(
            (Rect { x: 0, y: 0, w: width, h: height }),
        ),
        optimizer_pieces(
            tuple_rects(r@),
            (Rect { x: 0, y: 0, w: width, h: height }),
            data@,
            width as int,
        ),
{
    let rect = Rect { x: 0, y: 0, w: width, h: height };
    let result = encode_rect_optimized(
        data,
        width,
        rect,
        quality,
        compression,
        client_format,
        compressor,
    );
    let mut out: Vec<(u16, u16, u16, u16, bytes::BytesMut)> = Vec::new();
    let n: usize = result.len();
    let mut i: usize = 0;
    while i < n
        invariant
            0 <= i <= n,
            n == result@.len(),
            out@.len() == i,
            forall|j: int|
                0 <= j < i ==> #[trigger] tuple_rect(out@[j]) == result@[j].0
                    && crate::bytebuf::bytes_mut_view(out@[j].4) == result@[j].1@,
        decreases n - i,
    {
        let piece = &result[i];
        let bm = crate::bytebuf::bytes_mut_from_vec(&piece.1);
        out.push((piece.0.x, piece.0.y, piece.0.w, piece.0.h, bm));
        i = i + 1;
    }
    proof {
        assert(tuple_rects(out@) =~= rects_of(result@));
        assert forall|k: int|
            0 <= k < out@.len() implies ((#[trigger] tuple_rect(out@[k])).size_ok() || all_eq(
            tight_colors(rect_pixels(data@, width as int, tuple_rect(out@[k]))),
        )) && valid_subrect_bytes(
            crate::bytebuf::bytes_mut_view(out@[k].4),
            data@,
            width as int,
            tuple_rect(out@[k]),
            quality,
            normalized_compression(compression, quality),
            *client_format,
        ) by {
            assert(tuple_rect(out@[k]) == result@[k].0);
        }
    }
    out
}

/// The concatenated bytes of a list of encoded pieces, from position `i`.
pub open spec fn concat_pieces(rs: Seq<(Rect, Vec<u8>)>, i: int) -> Seq<u8>
    decreases rs.len() - i,
{
    if i < 0 || i >= rs.len() {
        Seq::empty()
    } else {
        rs[i].1@ + concat_pieces(rs, i + 1)
    }
}

/// Encodes a rectangle with Tight on persistent zlib streams and returns
/// the concatenated wire bytes of the emitted subrectangles, in emission
/// order: the bytes decompose into pieces that cover the input exactly
/// once, each a correct encoding of its rectangle.
pub fn encode_tight_with_streams<C: TightStreamCompressor>(
    data: &[u8],
    width: u16,
    height: u16,
    quality: u8,
    compression: u8,
    client_format: &PixelFormat,
    compressor: &mut C,
) -> (r: bytes::BytesMut)
    requires
        client_format.wf(),
        1 <= width,
        1 <= height,
        (height as int) * (width as int) * 4 <= data@.len(),
    ensures
        exists|pieces: Seq<(Rect, Vec<u8>)>|
            #![auto]
            covers_exactly_region(rects_of(pieces), 0, 0, width as int, height as int)
                && pieces_valid(
                pieces,
                0,
                data@,
                width as int,
                quality,
                normalized_compression(compression, quality),
                *client_format,
            ) && ((width as int) * (height as int) < 4096 ==> rects_of(pieces) == capped_pieces(
                (Rect { x: 0, y: 0, w: width, h: height }),
            )) && optimizer_pieces(
                rects_of(pieces),
                (Rect { x: 0, y: 0, w: width, h: height }),
                data@,
                width as int,
            ) && crate::bytebuf::bytes_mut_view(r) == concat_pieces(pieces, 0),
{
    let rect = Rect { x: 0, y: 0, w: width, h: height };
    let result = encode_rect_optimized(
        data,
        width,
        rect,
        quality,
        compression,
        client_format,
        compressor,
    );
    let mut all: Vec<u8> = Vec::new();
    let n: usize = result.len();
    let mut i: usize = 0;
    while i < n
        invariant
            0 <= i <= n,
            n == result@.len(),
            all@ + concat_pieces(result@, i as int) == concat_pieces(result@, 0),
        decreases n - i,
    {
        let piece = &result[i];
        crate::zrle::push_all(&mut all, piece.1.as_slice());
        assert(all@ + concat_pieces(result@, i + 1) =~= concat_pieces(result@, 0));
        i = i + 1;
    }
    assert(all@ =~= concat_pieces(result@, 0));
    crate::bytebuf::bytes_mut_from_vec(&all)
}

/// The Tight rectangle encoding over RGBA32 input, with its own transient
/// set of persistent streams per call.
pub struct TightEncoding;

impl crate::Encoding for TightEncoding {
    /// Encodes with Tight at the given quality and compression, returning
    /// the concatenated subrectangle bytes.
    fn encode(&self, data: &[u8], width: u16, height: u16, quality: u8, compression: u8) -> (r:
        bytes::BytesMut)
        ensures
            exists|pieces: Seq<(Rect, Vec<u8>)>|
                #![auto]
                covers_exactly_region(rects_of(pieces), 0, 0, width as int, height as int)
                    && pieces_valid(
                    pieces,
                    0,
                    data@,
                    width as int,
                    quality,
                    normalized_compression(compression, quality),
                    crate::pixel::rgba32_format(),
                ) && ((width as int) * (height as int) < 4096 ==> rects_of(pieces)
                    == capped_pieces((Rect { x: 0, y: 0, w: width, h: height })))
                    && optimizer_pieces(
                    rects_of(pieces),
                    (Rect { x: 0, y: 0, w: width, h: height }),
                    data@,
                    width as int,
                ) && crate::bytebuf::bytes_mut_view(r) == concat_pieces(pieces, 0),
    {
        let mut compressor = crate::deflate::SimpleTightCompressor::new(compression);
        let default_format = crate::pixel::PixelFormat::rgba32();
        proof {
            assert((height as int) * (width as int) * 4 <= data@.len()) by (nonlinear_arith)
                requires
                    data@.len() >= 4 * (width as int) * (height as int),
            ;
        }
        encode_tight_with_streams(
            data,
            width,
            height,
            quality,
            compression,
            &default_format,
            &mut compressor,
        )
    }
}

/// Determinism of structure: two correct encodings of the same
/// subrectangle open with the same control byte, because the mode
/// selection is a function of the rectangle's pixels alone.
pub proof fn lemma_tight_mode_deterministic(
    b1: Seq<u8>,
    b2: Seq<u8>,
    fb: Seq<u8>,
    fw: int,
    r: Rect,
    quality: u8,
    compression: u8,
    pf: PixelFormat,
)
    requires
        valid_subrect_bytes(b1, fb, fw, r, quality, compression, pf),
        valid_subrect_bytes(b2, fb, fw, r, quality, compression, pf),
    ensures
        b1.len() >= 1,
        b2.len() >= 1,
        b1[0] == b2[0],
{
    let px = rect_pixels(fb, fw, r);
    let s = tight_colors(px);
    if s.len() > 0 && all_eq(s) {
        assert(b1[0] == 0x80 && b2[0] == 0x80);
    } else if s.len() >= mono_threshold(compression) && exactly_two(s) {
        let t1 = choose|t: Seq<u8>|
            #![auto]
            b1 == seq![mono_ctrl(compression), 0x01u8, 0x01u8] + translated_bytes(mono_bg(s), pf)
                + translated_bytes(mono_fg(s), pf) + t && framed_ok(
                t,
                mono_rows(s, r.w as int, r.h as int, mono_bg(s), 0),
                mono_zlib_level(compression),
            );
        let t2 = choose|t: Seq<u8>|
            #![auto]
            b2 == seq![mono_ctrl(compression), 0x01u8, 0x01u8] + translated_bytes(mono_bg(s), pf)
                + translated_bytes(mono_fg(s), pf) + t && framed_ok(
                t,
                mono_rows(s, r.w as int, r.h as int, mono_bg(s), 0),
                mono_zlib_level(compression),
            );
        assert(b1[0] == mono_ctrl(compression) && b2[0] == mono_ctrl(compression));
    } else {
        let c: u8 = if quality < 10 {
            6
        } else {
            compression
        };
        let t1 = choose|t: Seq<u8>|
            #![auto]
            b1 == seq![full_ctrl(c)] + t && framed_ok(t, rgb_stream(px), raw_zlib_level(c));
        let t2 = choose|t: Seq<u8>|
            #![auto]
            b2 == seq![full_ctrl(c)] + t && framed_ok(t, rgb_stream(px), raw_zlib_level(c));
        assert(b1[0] == full_ctrl(c) && b2[0] == full_ctrl(c));
    }
}

} // verus!
