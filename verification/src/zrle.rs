//! The ZRLE (zlib run-length) encoding: the input rectangle is cut into
//! 64x64 tiles, each tile picks the cheapest of five subencodings (raw,
//! solid, packed palette, plain RLE, palette RLE), and the concatenated
//! tile stream is deflated and framed behind a 4-byte big-endian length.

use vstd::prelude::*;

use crate::deflate::compress_sync;
use crate::deflate::DeflateStream;
use crate::deflate::deflate_finish;
use crate::deflate::deflate_of;
use crate::palette::all_eq;
use crate::palette::analyze_runs_and_palette;
use crate::palette::count_runs_upto;
use crate::palette::count_singles_upto;
use crate::palette::first_seen_upto;
use crate::palette::lemma_first_seen_complete;
use crate::bytebuf::bytes_mut_from_vec;
use crate::bytebuf::bytes_mut_view;
use crate::pixel::bytes_per_cpixel;
use crate::pixel::bytes_per_pixel;
use crate::pixel::format_supported;
use crate::pixel::cpixel_bytes;
use crate::pixel::pix_val;
use crate::pixel::read_pixel;
use crate::pixel::write_cpixel;
use crate::pixel::PixelFormat;
use crate::EncodeError;
use crate::Encoding;

verus! {

/// Pixel `i` of a buffer of packed client-format pixels.
pub open spec fn pix_at(d: Seq<u8>, pf: PixelFormat, i: int) -> u32 {
    pix_val(d.subrange(i * pf.bpp(), (i + 1) * pf.bpp()), pf) as u32
}

/// All the pixel values of a buffer of packed client-format pixels.
pub open spec fn pixel_seq(d: Seq<u8>, pf: PixelFormat) -> Seq<u32> {
    Seq::new(((d.len() as int) / pf.bpp()) as nat, |i: int| pix_at(d, pf, i))
}

/// The length of the maximal span of equal values starting at `i`.
pub open spec fn run_len_at(s: Seq<u32>, i: int) -> int
    decreases s.len() - i,
{
    if i < 0 || i >= s.len() {
        1
    } else if i + 1 < s.len() && s[i + 1] == s[i] {
        1 + run_len_at(s, i + 1)
    } else {
        1
    }
}

/// A run starting inside the buffer stays inside it, repeats its first
/// value throughout, and stops right before a different value.
pub proof fn lemma_run_len_at(s: Seq<u32>, i: int)
    requires
        0 <= i < s.len(),
    ensures
        1 <= run_len_at(s, i) <= s.len() - i,
        forall|k: int| i <= k < i + run_len_at(s, i) ==> s[k] == s[i],
        i + run_len_at(s, i) < s.len() ==> s[i + run_len_at(s, i)] != s[i],
    decreases s.len() - i,
{
    if i + 1 < s.len() && s[i + 1] == s[i] {
        lemma_run_len_at(s, i + 1);
    }
}

/// A span with the run properties is the run: it has the run's length.
pub proof fn lemma_run_len_char(s: Seq<u32>, i: int, l: int)
    requires
        0 <= i < s.len(),
        1 <= l,
        i + l <= s.len(),
        forall|k: int| i <= k < i + l ==> s[k] == s[i],
        i + l < s.len() ==> s[i + l] != s[i],
    ensures
        run_len_at(s, i) == l,
    decreases l,
{
    if l == 1 {
    } else {
        assert(s[i + 1] == s[i]);
        lemma_run_len_char(s, i + 1, l - 1);
    }
}

/// The byte chunks that encode a residual run length: a 255 byte for every
/// full 255 it holds, then the remainder as one byte below 255.
pub open spec fn len_chunks(n: int) -> Seq<u8>
    decreases n,
{
    if n >= 255 {
        seq![255u8] + len_chunks(n - 255)
    } else if n >= 0 {
        seq![n as u8]
    } else {
        seq![0u8]
    }
}

/// The first position of `c` in `p`.
pub open spec fn idx_in(p: Seq<u32>, c: u32) -> int
    decreases p.len(),
{
    if p.len() == 0 {
        0
    } else if p[0] == c {
        0
    } else {
        1 + idx_in(p.subrange(1, p.len() as int), c)
    }
}

/// The first position of a contained value is a valid index holding it.
pub proof fn lemma_idx_in(p: Seq<u32>, c: u32)
    requires
        p.contains(c),
    ensures
        0 <= idx_in(p, c) < p.len(),
        p[idx_in(p, c)] == c,
    decreases p.len(),
{
    if p.len() > 0 && p[0] != c {
        let q = p.subrange(1, p.len() as int);
        assert(q.contains(c)) by {
            let k = choose|k: int| 0 <= k < p.len() && p[k] == c;
            assert(q[k - 1] == c);
        }
        lemma_idx_in(q, c);
    }
}

/// The CPIXEL bytes of entries `i` onward.
pub open spec fn cpixels_from(s: Seq<u32>, pf: PixelFormat, i: int) -> Seq<u8>
    decreases s.len() - i,
{
    if i < 0 || i >= s.len() {
        Seq::empty()
    } else {
        cpixel_bytes(s[i], pf) + cpixels_from(s, pf, i + 1)
    }
}

/// The plain-RLE payload from position `i` onward: each maximal run as one
/// CPIXEL followed by the chunks of its residual length.
pub open spec fn plain_rle_bytes(s: Seq<u32>, pf: PixelFormat, i: int) -> Seq<u8>
    decreases s.len() - i,
    via plain_rle_bytes_dec
{
    if i < 0 || i >= s.len() {
        Seq::empty()
    } else {
        cpixel_bytes(s[i], pf) + len_chunks(run_len_at(s, i) - 1) + plain_rle_bytes(
            s,
            pf,
            i + run_len_at(s, i),
        )
    }
}

#[via_fn]
proof fn plain_rle_bytes_dec(s: Seq<u32>, pf: PixelFormat, i: int) {
    if 0 <= i < s.len() {
        lemma_run_len_at(s, i);
    }
}

/// The palette-RLE payload from position `i` onward: a bare index byte for
/// a run of one, or the index with its high bit set and the chunks of the
/// residual length for a longer run.
pub open spec fn palette_rle_bytes(s: Seq<u32>, p: Seq<u32>, i: int) -> Seq<u8>
    decreases s.len() - i,
    via palette_rle_bytes_dec
{
    if i < 0 || i >= s.len() {
        Seq::empty()
    } else {
        let idx = idx_in(p, s[i]);
        let run = run_len_at(s, i);
        (if run == 1 {
            seq![idx as u8]
        } else {
            seq![(idx + 128) as u8] + len_chunks(run - 1)
        }) + palette_rle_bytes(s, p, i + run)
    }
}

#[via_fn]
proof fn palette_rle_bytes_dec(s: Seq<u32>, p: Seq<u32>, i: int) {
    if 0 <= i < s.len() {
        lemma_run_len_at(s, i);
    }
}

/// Two to the power `k`, for the bit positions inside one byte.
pub open spec fn p2(k: int) -> int {
    if k <= 0 {
        1
    } else if k == 1 {
        2
    } else if k == 2 {
        4
    } else if k == 3 {
        8
    } else if k == 4 {
        16
    } else if k == 5 {
        32
    } else if k == 6 {
        64
    } else if k == 7 {
        128
    } else {
        256
    }
}

/// Bits per packed palette index: 1 for two colors, 2 for up to four, 4 for
/// up to sixteen.
pub open spec fn zrle_bpi(psize: int) -> int {
    if psize == 2 {
        1
    } else if 3 <= psize && psize <= 4 {
        2
    } else {
        4
    }
}

/// One packed row, continued: indices from position `i` fill the partial
/// byte `acc` holding `nbits` bits, whole bytes are emitted MSB-first, and
/// a trailing partial byte is left-shifted flush at the row's end.
pub open spec fn pack_row_acc(row: Seq<u32>, p: Seq<u32>, bpi: int, i: int, acc: int, nbits: int) -> Seq<
    u8,
>
    decreases row.len() - i,
{
    if i < 0 || i >= row.len() {
        if nbits > 0 {
            seq![((acc * p2(8 - nbits)) % 256) as u8]
        } else {
            Seq::empty()
        }
    } else {
        let acc2 = (acc * p2(bpi) + idx_in(p, row[i])) % 256;
        let nbits2 = nbits + bpi;
        if nbits2 >= 8 {
            seq![acc2 as u8] + pack_row_acc(row, p, bpi, i + 1, 0, 0)
        } else {
            pack_row_acc(row, p, bpi, i + 1, acc2, nbits2)
        }
    }
}

/// The packed bytes of one row of palette indices.
pub open spec fn pack_row(row: Seq<u32>, p: Seq<u32>, bpi: int) -> Seq<u8> {
    pack_row_acc(row, p, bpi, 0, 0, 0)
}

/// The packed rows of a whole tile, from row `r` down, each row starting on
/// a byte boundary.
pub open spec fn packed_rows(s: Seq<u32>, p: Seq<u32>, w: int, h: int, bpi: int, r: int) -> Seq<u8>
    decreases h - r,
{
    if r < 0 || r >= h {
        Seq::empty()
    } else {
        pack_row(s.subrange(r * w, r * w + w), p, bpi) + packed_rows(s, p, w, h, bpi, r + 1)
    }
}

/// The subencoding pair (use RLE, use palette) a tile picks: the cheapest
/// estimate wins, earlier options win ties, raw wins when nothing is
/// cheaper.
pub open spec fn zrle_choice_nums(cp: int, runs: int, singles: int, psize: int, w: int, h: int) -> (
    bool,
    bool,
) {
    let raw_cost = w * h * cp;
    let plain_cost = (cp + 1) * (runs + singles);
    let use_rle0 = plain_cost < raw_cost;
    let est0 = if use_rle0 {
        plain_cost
    } else {
        raw_cost
    };
    if psize < 128 {
        let prle_cost = cp * psize + 2 * runs + singles;
        let use_rle1 = if prle_cost < est0 {
            true
        } else {
            use_rle0
        };
        let use_pal1 = prle_cost < est0;
        let est1 = if prle_cost < est0 {
            prle_cost
        } else {
            est0
        };
        if psize < 17 {
            let packed_cost = cp * psize + ((w * zrle_bpi(psize) + 7) / 8) * h;
            if packed_cost < est1 {
                (false, true)
            } else {
                (use_rle1, use_pal1)
            }
        } else {
            (use_rle1, use_pal1)
        }
    } else {
        (use_rle0, false)
    }
}

/// The subencoding pair a tile's pixels pick.
pub open spec fn zrle_choice(s: Seq<u32>, w: int, h: int, pf: PixelFormat) -> (bool, bool) {
    zrle_choice_nums(
        pf.cpixel(),
        count_runs_upto(s, s.len() as int),
        count_singles_upto(s, s.len() as int),
        first_seen_upto(s, s.len() as int).len() as int,
        w,
        h,
    )
}

/// The byte stream of one tile: the subencoding byte, then the palette (for
/// palette modes) and the payload of the chosen subencoding.
pub open spec fn tile_bytes(s: Seq<u32>, w: int, h: int, pf: PixelFormat) -> Seq<u8> {
    if s.len() > 0 && all_eq(s) {
        seq![1u8] + cpixel_bytes(s[0], pf)
    } else {
        let p = first_seen_upto(s, s.len() as int);
        let psize = p.len() as int;
        let choice = zrle_choice(s, w, h, pf);
        if choice.1 {
            if choice.0 {
                seq![(128 + psize) as u8] + cpixels_from(p, pf, 0) + palette_rle_bytes(s, p, 0)
            } else {
                seq![psize as u8] + cpixels_from(p, pf, 0) + packed_rows(
                    s,
                    p,
                    w,
                    h,
                    zrle_bpi(psize),
                    0,
                )
            }
        } else {
            if choice.0 {
                seq![128u8] + plain_rle_bytes(s, pf, 0)
            } else {
                seq![0u8] + cpixels_from(s, pf, 0)
            }
        }
    }
}

/// Appends every byte of `src` to `buf`.
pub fn push_all(buf: &mut Vec<u8>, src: &[u8])
    ensures
        final(buf)@ == old(buf)@ + src@,
{
    let n: usize = src.len();
    let mut i: usize = 0;
    while i < n
        invariant
            0 <= i <= n,
            n == src@.len(),
            buf@ == old(buf)@ + src@.subrange(0, i as int),
        decreases n - i,
    {
        buf.push(src[i]);
        assert(buf@ =~= old(buf)@ + src@.subrange(0, i + 1));
        i = i + 1;
    }
    assert(buf@ =~= old(buf)@ + src@);
}

/// Converts a buffer of packed client-format pixels to their values; a
/// trailing partial pixel is ignored.
pub fn pixels_to_u32(data: &[u8], pf: &PixelFormat) -> (r: Vec<u32>)
    requires
        pf.wf_raw(),
    ensures
        r@ == pixel_seq(data@, *pf),
{
    let bpp = bytes_per_pixel(pf);
    let len: usize = data.len();
    let n: usize = len / bpp;
    let mut out: Vec<u32> = Vec::new();
    let mut i: usize = 0;
    while i < n
        invariant
            0 <= i <= n,
            pf.wf_raw(),
            bpp == pf.bpp(),
            len == data@.len(),
            n as int == (data@.len() as int) / pf.bpp(),
            out@.len() == i,
            forall|j: int| 0 <= j < i ==> out@[j] == pixel_seq(data@, *pf)[j],
        decreases n - i,
    {
        proof {
            assert((i + 1) * bpp <= n * bpp && n * bpp <= len) by (nonlinear_arith)
                requires
                    (i as int) < n as int,
                    bpp as int >= 1,
                    n as int == (len as int) / (bpp as int),
                    len as int >= 0,
            ;
            assert((i + 1) * bpp == i * bpp + bpp) by (nonlinear_arith);
        }
        let sub = vstd::slice::slice_subrange(data, i * bpp, i * bpp + bpp);
        let v = read_pixel(sub, pf);
        proof {
            assert(sub@ == data@.subrange(i as int * pf.bpp(), (i + 1) * pf.bpp()));
            assert(v == pix_at(data@, *pf, i as int));
        }
        out.push(v);
        i = i + 1;
    }
    assert(out@ =~= pixel_seq(data@, *pf));
    out
}

/// Appends the chunked encoding of residual run length `n`.
pub fn write_len_chunks(buf: &mut Vec<u8>, n: usize)
    ensures
        final(buf)@ == old(buf)@ + len_chunks(n as int),
{
    let mut rem: usize = n;
    while rem >= 255
        invariant
            buf@ + len_chunks(rem as int) == old(buf)@ + len_chunks(n as int),
        decreases rem,
    {
        buf.push(255);
        rem = rem - 255;
        assert(buf@ + len_chunks(rem as int) =~= old(buf)@ + len_chunks(n as int));
    }
    buf.push(rem as u8);
    assert(buf@ =~= old(buf)@ + len_chunks(n as int));
}

pub proof fn lemma_idx_in_first(p: Seq<u32>, c: u32, i: int)
    requires
        0 <= i < p.len(),
        p[i] == c,
        forall|j: int| 0 <= j < i ==> p[j] != c,
    ensures
        idx_in(p, c) == i,
    decreases i,
{
    if i > 0 {
        let q = p.subrange(1, p.len() as int);
        lemma_idx_in_first(q, c, i - 1);
    }
}

/// Finds a color's position in the palette; the returned palette index is
/// always in bounds.
pub fn palette_index(palette: &[u32], c: u32) -> (r: usize)
    requires
        palette@.contains(c),
    ensures
        r as int == idx_in(palette@, c),
        r < palette@.len(),
{
    let n: usize = palette.len();
    let mut i: usize = 0;
    loop
        invariant
            0 <= i <= n,
            n == palette@.len(),
            palette@.contains(c),
            forall|j: int| 0 <= j < i ==> palette@[j] != c,
        ensures
            0 <= i < n,
            palette@[i as int] == c,
            forall|j: int| 0 <= j < i ==> palette@[j] != c,
        decreases n - i,
    {
        proof {
            if i >= n {
                let k = choose|k: int| 0 <= k < palette@.len() && palette@[k] == c;
                assert(false);
            }
        }
        if palette[i] == c {
            break;
        }
        i = i + 1;
    }
    proof {
        lemma_idx_in_first(palette@, c, i as int);
    }
    i
}

/// Emits the solid-color subencoding: tag byte 1 and one CPIXEL.
pub fn encode_solid_color_tile(buf: &mut Vec<u8>, color: u32, pf: &PixelFormat)
    requires
        pf.wf_raw(),
    ensures
        final(buf)@ == old(buf)@ + tile_solid_bytes(color, *pf),
{
    buf.push(1);
    write_cpixel(buf, color, pf);
    assert(buf@ =~= old(buf)@ + tile_solid_bytes(color, *pf));
}

/// The solid subencoding's bytes.
pub open spec fn tile_solid_bytes(color: u32, pf: PixelFormat) -> Seq<u8> {
    seq![1u8] + cpixel_bytes(color, pf)
}

/// Appends the CPIXELs of every entry of `items`.
fn write_cpixels(buf: &mut Vec<u8>, items: &[u32], pf: &PixelFormat)
    requires
        pf.wf_raw(),
    ensures
        final(buf)@ == old(buf)@ + cpixels_from(items@, *pf, 0),
{
    let n: usize = items.len();
    let mut i: usize = 0;
    while i < n
        invariant
            0 <= i <= n,
            pf.wf_raw(),
            n == items@.len(),
            buf@ + cpixels_from(items@, *pf, i as int) == old(buf)@ + cpixels_from(
                items@,
                *pf,
                0,
            ),
        decreases n - i,
    {
        write_cpixel(buf, items[i], pf);
        assert(buf@ + cpixels_from(items@, *pf, i + 1) =~= old(buf)@ + cpixels_from(
            items@,
            *pf,
            0,
        ));
        i = i + 1;
    }
}

/// Emits the raw subencoding: tag byte 0 and every pixel as a CPIXEL.
pub fn encode_raw_tile(buf: &mut Vec<u8>, pixels: &[u32], pf: &PixelFormat)
    requires
        pf.wf_raw(),
    ensures
        final(buf)@ == old(buf)@ + seq![0u8] + cpixels_from(pixels@, *pf, 0),
{
    buf.push(0);
    write_cpixels(buf, pixels, pf);
    assert(buf@ =~= old(buf)@ + seq![0u8] + cpixels_from(pixels@, *pf, 0));
}

/// Emits the plain-RLE payload: each maximal run as a CPIXEL and length
/// chunks.
pub fn encode_rle_to_buf(buf: &mut Vec<u8>, pixels: &[u32], pf: &PixelFormat)
    requires
        pf.wf_raw(),
    ensures
        final(buf)@ == old(buf)@ + plain_rle_bytes(pixels@, *pf, 0),
{
    let ghost s = pixels@;
    let n: usize = pixels.len();
    let mut i: usize = 0;
    while i < n
        invariant
            0 <= i <= n,
            pf.wf_raw(),
            s == pixels@,
            n == s.len(),
            buf@ + plain_rle_bytes(s, *pf, i as int) == old(buf)@ + plain_rle_bytes(s, *pf, 0),
        decreases n - i,
    {
        let color = pixels[i];
        let mut run_len: usize = 1;
        while i + run_len < n && pixels[i + run_len] == color
            invariant
                i < n,
                1 <= run_len,
                i + run_len <= n,
                s == pixels@,
                n == s.len(),
                color == s[i as int],
                forall|k: int| i <= k < i + run_len ==> s[k] == color,
            decreases n - i - run_len,
        {
            run_len = run_len + 1;
        }
        proof {
            lemma_run_len_char(s, i as int, run_len as int);
        }
        write_cpixel(buf, color, pf);
        write_len_chunks(buf, run_len - 1);
        assert(buf@ + plain_rle_bytes(s, *pf, i + run_len) =~= old(buf)@ + plain_rle_bytes(
            s,
            *pf,
            0,
        ));
        i = i + run_len;
    }
}

/// Emits the palette-RLE subencoding: its tag byte, the palette CPIXELs,
/// then each run as an index byte with optional length chunks. Every
/// emitted index is below the palette's size.
pub fn encode_packed_palette_rle_tile(
    buf: &mut Vec<u8>,
    pixels: &[u32],
    palette: &[u32],
    pf: &PixelFormat,
)
    requires
        pf.wf_raw(),
        1 <= palette@.len() < 128,
        forall|j: int| 0 <= j < pixels@.len() ==> palette@.contains(#[trigger] pixels@[j]),
    ensures
        final(buf)@ == old(buf)@ + seq![(128 + palette@.len()) as u8] + cpixels_from(
            palette@,
            *pf,
            0,
        ) + palette_rle_bytes(pixels@, palette@, 0),
{
    let ghost s = pixels@;
    let ghost p = palette@;
    let psize: usize = palette.len();
    buf.push((128 + psize) as u8);
    write_cpixels(buf, palette, pf);
    let ghost header = old(buf)@ + seq![(128 + p.len()) as u8] + cpixels_from(p, *pf, 0);
    assert(buf@ =~= header);

    let n: usize = pixels.len();
    let mut i: usize = 0;
    while i < n
        invariant
            0 <= i <= n,
            pf.wf_raw(),
            s == pixels@,
            p == palette@,
            n == s.len(),
            1 <= p.len() < 128,
            forall|j: int| 0 <= j < s.len() ==> p.contains(#[trigger] s[j]),
            buf@ + palette_rle_bytes(s, p, i as int) == header + palette_rle_bytes(s, p, 0),
        decreases n - i,
    {
        let color = pixels[i];
        let idx = palette_index(palette, color);
        let mut run_len: usize = 1;
        while i + run_len < n && pixels[i + run_len] == color
            invariant
                i < n,
                1 <= run_len,
                i + run_len <= n,
                s == pixels@,
                n == s.len(),
                color == s[i as int],
                forall|k: int| i <= k < i + run_len ==> s[k] == color,
            decreases n - i - run_len,
        {
            run_len = run_len + 1;
        }
        proof {
            lemma_run_len_char(s, i as int, run_len as int);
        }
        if run_len == 1 {
            buf.push(idx as u8);
        } else {
            buf.push((idx + 128) as u8);
            write_len_chunks(buf, run_len - 1);
        }
        assert(buf@ + palette_rle_bytes(s, p, i + run_len) =~= header + palette_rle_bytes(
            s,
            p,
            0,
        ));
        i = i + run_len;
    }
}

/// Multiplying powers of two adds the exponents, within one byte.
pub proof fn lemma_p2_mul(a: int, b: int)
    requires
        0 <= a <= 8,
        0 <= b <= 8,
        a + b <= 8,
    ensures
        p2(a) * p2(b) == p2(a + b),
{
    if b == 0 {
    } else if b == 1 {
        assert(p2(a) * 2 == p2(a + 1));
    } else if b == 2 {
        assert(p2(a) * 4 == p2(a + 2));
    } else if b == 3 {
        assert(p2(a) * 8 == p2(a + 3));
    } else if b == 4 {
        assert(p2(a) * 16 == p2(a + 4));
    } else if b == 5 {
        assert(p2(a) * 32 == p2(a + 5));
    } else if b == 6 {
        assert(p2(a) * 64 == p2(a + 6));
    } else if b == 7 {
        assert(p2(a) * 128 == p2(a + 7));
    } else {
        assert(p2(a) * 256 == p2(a + 8));
    }
}

/// Emits the packed-palette subencoding: its tag byte, the palette
/// CPIXELs, then each row's indices packed MSB-first with the row's last
/// byte padded out with zero bits.
pub fn encode_packed_palette_tile(
    buf: &mut Vec<u8>,
    pixels: &[u32],
    width: usize,
    height: usize,
    palette: &[u32],
    pf: &PixelFormat,
)
    requires
        pf.wf_raw(),
        2 <= palette@.len() <= 16,
        pixels@.len() == width * height,
        forall|j: int| 0 <= j < pixels@.len() ==> palette@.contains(#[trigger] pixels@[j]),
    ensures
        final(buf)@ == old(buf)@ + seq![palette@.len() as u8] + cpixels_from(palette@, *pf, 0)
            + packed_rows(
            pixels@,
            palette@,
            width as int,
            height as int,
            zrle_bpi(palette@.len() as int),
            0,
        ),
{
    let ghost s = pixels@;
    let ghost p = palette@;
    let ghost w = width as int;
    let ghost h = height as int;
    let psize: usize = palette.len();
    let bpi: usize = if psize == 2 {
        1
    } else if psize <= 4 {
        2
    } else {
        4
    };
    let mult: usize = if psize == 2 {
        2
    } else if psize <= 4 {
        4
    } else {
        16
    };
    assert(bpi as int == zrle_bpi(p.len() as int));
    assert(mult as int == p2(bpi as int));
    let ghost bpig = bpi as int;

    buf.push(psize as u8);
    write_cpixels(buf, palette, pf);
    let ghost header = old(buf)@ + seq![p.len() as u8] + cpixels_from(p, *pf, 0);
    assert(buf@ =~= header);
    assert(packed_rows(s, p, w, h, bpig, 0) == packed_rows(s, p, w, h, bpig, 0));

    let mut r: usize = 0;
    while r < height
        invariant
            0 <= r <= height,
            pf.wf_raw(),
            s == pixels@,
            p == palette@,
            w == width as int,
            h == height as int,
            s.len() == width * height,
            2 <= p.len() <= 16,
            forall|j: int| 0 <= j < s.len() ==> p.contains(#[trigger] s[j]),
            bpig == zrle_bpi(p.len() as int),
            bpi as int == bpig,
            mult as int == p2(bpig),
            (bpi == 1 || bpi == 2 || bpi == 4),
            buf@ + packed_rows(s, p, w, h, bpig, r as int) == header + packed_rows(
                s,
                p,
                w,
                h,
                bpig,
                0,
            ),
        decreases height - r,
    {
        proof {
            assert((r + 1) * w <= h * w && r * w + w == (r + 1) * w && h * w == w * h)
                by (nonlinear_arith)
                requires
                    0 <= r as int,
                    (r as int) < h,
                    0 <= w,
            ;
        }
        let ghost row = s.subrange(r as int * w, r as int * w + w);
        assert(row.len() == w);
        let mut acc: usize = 0;
        let mut nbits: usize = 0;
        let mut col: usize = 0;
        while col < width
            invariant
                0 <= col <= width,
                r < height,
                pf.wf_raw(),
                s == pixels@,
                p == palette@,
                w == width as int,
                h == height as int,
                s.len() == width * height,
                2 <= p.len() <= 16,
                forall|j: int| 0 <= j < s.len() ==> p.contains(#[trigger] s[j]),
                bpig == zrle_bpi(p.len() as int),
                bpi as int == bpig,
                mult as int == p2(bpig),
                (bpi == 1 || bpi == 2 || bpi == 4),
                row == s.subrange(r as int * w, r as int * w + w),
                row.len() == w,
                nbits + bpi <= 8,
                nbits % bpi == 0,
                r as int * w + w <= s.len(),
                (acc as int) < p2(nbits as int),
                buf@ + pack_row_acc(row, p, bpig, col as int, acc as int, nbits as int)
                    + packed_rows(s, p, w, h, bpig, r as int + 1) == header + packed_rows(
                    s,
                    p,
                    w,
                    h,
                    bpig,
                    0,
                ),
            decreases width - col,
        {
            proof {
                assert(r * w + col < w * h && r * w + col < (r + 1) * w) by (nonlinear_arith)
                    requires
                        0 <= r as int,
                        (r as int) < h,
                        0 <= col as int,
                        (col as int) < w,
                ;
                assert(h * w == w * h) by (nonlinear_arith);
            }
            let total: usize = pixels.len();
            assert(r * width + col < total);
            let px = pixels[r * width + col];
            assert(row[col as int] == s[r as int * w + col]);
            assert(px == row[col as int]);
            let idx = palette_index(palette, px);
            proof {
                lemma_p2_mul(nbits as int, bpig);
                assert(idx < mult);
            }
            let acc2: usize = acc * mult + idx;
            assert(acc2 < 256);
            assert(acc2 as int == (acc as int * p2(bpig) + idx_in(p, row[col as int])) % 256);
            if nbits + bpi == 8 {
                buf.push(acc2 as u8);
                acc = 0;
                nbits = 0;
            } else {
                acc = acc2;
                nbits = nbits + bpi;
            }
            assert(buf@ + pack_row_acc(row, p, bpig, col + 1, acc as int, nbits as int)
                + packed_rows(s, p, w, h, bpig, r as int + 1) =~= header + packed_rows(
                s,
                p,
                w,
                h,
                bpig,
                0,
            ));
            col = col + 1;
        }
        if nbits > 0 {
            let m2: usize = if nbits == 1 {
                128
            } else if nbits == 2 {
                64
            } else if nbits == 3 {
                32
            } else if nbits == 4 {
                16
            } else if nbits == 5 {
                8
            } else if nbits == 6 {
                4
            } else {
                2
            };
            assert(m2 as int == p2(8 - nbits as int));
            proof {
                lemma_p2_mul(nbits as int, 8 - nbits as int);
                assert((acc as int) * (m2 as int) < 256) by (nonlinear_arith)
                    requires
                        (acc as int) < p2(nbits as int),
                        m2 as int == p2(8 - nbits as int),
                        p2(nbits as int) * p2(8 - nbits as int) == 256,
                        acc as int >= 0,
                        m2 as int >= 1,
                ;
            }
            let flush: usize = acc * m2;
            assert(flush < 256);
            buf.push(flush as u8);
        }
        proof {
            assert(pack_row_acc(row, p, bpig, w, acc as int, nbits as int) == if nbits > 0 {
                seq![((acc as int * p2(8 - nbits as int)) % 256) as u8]
            } else {
                Seq::<u8>::empty()
            });
            assert(buf@ + packed_rows(s, p, w, h, bpig, r as int + 1) =~= header + packed_rows(
                s,
                p,
                w,
                h,
                bpig,
                0,
            ));
        }
        r = r + 1;
    }
    assert(buf@ =~= old(buf)@ + seq![p.len() as u8] + cpixels_from(p, *pf, 0) + packed_rows(
        s,
        p,
        w,
        h,
        bpig,
        0,
    ));
}

/// One pixel row of a rectangular region of the framebuffer.
pub open spec fn region_row(d: Seq<u8>, fw: int, x: int, yy: int, w: int, bpp: int) -> Seq<u8> {
    d.subrange((yy * fw + x) * bpp, (yy * fw + x + w) * bpp)
}

/// The bytes of a `w` by `h` region at `(x, y)` of a framebuffer `fw`
/// pixels wide, row by row.
pub open spec fn tile_region(d: Seq<u8>, fw: int, x: int, y: int, w: int, h: int, bpp: int) -> Seq<
    u8,
>
    decreases h,
{
    if h <= 0 {
        Seq::empty()
    } else {
        tile_region(d, fw, x, y, w, h - 1, bpp) + region_row(d, fw, x, y + h - 1, w, bpp)
    }
}

/// A region's byte count is its pixel count times the pixel width.
pub proof fn lemma_tile_region_len(d: Seq<u8>, fw: int, x: int, y: int, w: int, h: int, bpp: int)
    requires
        0 <= x,
        0 <= y,
        0 <= w,
        0 <= h,
        1 <= bpp,
        x + w <= fw,
        (y + h) * fw * bpp <= d.len(),
    ensures
        tile_region(d, fw, x, y, w, h, bpp).len() == w * h * bpp,
    decreases h,
{
    if h > 0 {
        assert((y + h - 1) * fw * bpp <= (y + h) * fw * bpp) by (nonlinear_arith)
            requires
                0 <= y + h - 1,
                0 <= fw,
                1 <= bpp,
        ;
        lemma_tile_region_len(d, fw, x, y, w, h - 1, bpp);
        assert(0 <= ((y + h - 1) * fw + x) * bpp && ((y + h - 1) * fw + x) * bpp <= ((y + h - 1)
            * fw + x + w) * bpp && ((y + h - 1) * fw + x + w) * bpp <= (y + h) * fw * bpp && ((y
            + h - 1) * fw + x + w) * bpp - ((y + h - 1) * fw + x) * bpp == w * bpp)
            by (nonlinear_arith)
            requires
                0 <= x,
                0 <= y + h - 1,
                0 <= w,
                1 <= bpp,
                x + w <= fw,
        ;
        assert(region_row(d, fw, x, y + h - 1, w, bpp).len() == w * bpp);
        assert(w * (h - 1) * bpp + w * bpp == w * h * bpp) by (nonlinear_arith);
        assert(tile_region(d, fw, x, y, w, h, bpp).len() == w * (h - 1) * bpp + w * bpp);
    } else {
        assert(w * h * bpp == 0) by (nonlinear_arith)
            requires
                h == 0,
        ;
    }
}

/// Copies a `width` by `height` region at `(x, y)` out of the framebuffer,
/// row by row.
pub fn extract_tile(
    full_frame: &[u8],
    frame_width: usize,
    x: usize,
    y: usize,
    width: usize,
    height: usize,
    bpp: usize,
) -> (r: Vec<u8>)
    requires
        1 <= bpp,
        1 <= frame_width,
        x + width <= frame_width,
        // whole rows through the tile's bottom, a little more than the
        // bytes the copy reads
        (y + height) * frame_width * bpp <= full_frame@.len(),
    ensures
        r@ == tile_region(
            full_frame@,
            frame_width as int,
            x as int,
            y as int,
            width as int,
            height as int,
            bpp as int,
        ),
{
    let ghost d = full_frame@;
    let ghost fw = frame_width as int;
    let total: usize = full_frame.len();
    let mut out: Vec<u8> = Vec::new();
    let mut r: usize = 0;
    while r < height
        invariant
            0 <= r <= height,
            d == full_frame@,
            fw == frame_width as int,
            total == d.len(),
            1 <= bpp,
            1 <= frame_width,
            x + width <= frame_width,
            (y + height) * fw * (bpp as int) <= d.len(),
            out@ == tile_region(d, fw, x as int, y as int, width as int, r as int, bpp as int),
        decreases height - r,
    {
        proof {
            assert(y as int + r <= (y + height) as int * fw * (bpp as int) && ((y + r) as int
                * fw) <= (y + height) as int * fw * (bpp as int) && ((y + r) as int * fw + x)
                * (bpp as int) <= (y + height) as int * fw * (bpp as int) && ((y + r) as int * fw
                + x + width) * (bpp as int) <= (y + height) as int * fw * (bpp as int) && ((y
                + r) as int * fw + x) <= (y + height) as int * fw * (bpp as int) && ((y
                + r) as int * fw + x + width) <= (y + height) as int * fw * (bpp as int) && ((y
                + r) as int * fw + x) * (bpp as int) <= ((y + r) as int * fw + x + width) * (
            bpp as int))
                by (nonlinear_arith)
                requires
                    0 <= x,
                    0 <= y,
                    0 <= r as int,
                    (r as int) < height as int,
                    0 <= width,
                    1 <= bpp,
                    1 <= fw,
                    x + width <= fw,
            ;
        }
        let src_start: usize = ((y + r) * frame_width + x) * bpp;
        let src_end: usize = ((y + r) * frame_width + x + width) * bpp;
        let row = vstd::slice::slice_subrange(full_frame, src_start, src_end);
        push_all(&mut out, row);
        assert(out@ =~= tile_region(d, fw, x as int, y as int, width as int, r + 1, bpp as int));
        r = r + 1;
    }
    out
}

/// Picks a tile's subencoding (use RLE, use palette) from the scan counts,
/// by the cost estimates.
fn choose_subencoding(
    width: usize,
    height: usize,
    cpixel_size: usize,
    runs: usize,
    singles: usize,
    psize: usize,
) -> (r: (bool, bool))
    requires
        1 <= width <= 64,
        1 <= height <= 64,
        1 <= cpixel_size <= 4,
        runs <= 4096,
        singles <= 4096,
        psize <= 256,
    ensures
        r == zrle_choice_nums(
            cpixel_size as int,
            runs as int,
            singles as int,
            psize as int,
            width as int,
            height as int,
        ),
        r.1 ==> psize < 128,
        r.1 && !r.0 ==> psize < 17,
{
    proof {
        assert(width * height <= 4096 && width * height * (cpixel_size as int) <= 16384 && (
        cpixel_size as int + 1) * (runs as int + singles as int) <= 40960 && (cpixel_size as int)
            * (psize as int) <= 1024) by (nonlinear_arith)
            requires
                1 <= width as int <= 64,
                1 <= height as int <= 64,
                0 <= cpixel_size as int <= 4,
                0 <= runs as int <= 4096,
                0 <= singles as int <= 4096,
                0 <= psize as int <= 256,
        ;
    }
    let raw_cost: usize = width * height * cpixel_size;
    let plain_cost: usize = (cpixel_size + 1) * (runs + singles);
    let use_rle0: bool = plain_cost < raw_cost;
    let est0: usize = if use_rle0 {
        plain_cost
    } else {
        raw_cost
    };
    if psize < 128 {
        let prle_cost: usize = cpixel_size * psize + 2 * runs + singles;
        let use_rle1: bool = if prle_cost < est0 {
            true
        } else {
            use_rle0
        };
        let use_pal1: bool = prle_cost < est0;
        let est1: usize = if prle_cost < est0 {
            prle_cost
        } else {
            est0
        };
        if psize < 17 {
            let bpi: usize = if psize == 2 {
                1
            } else if 3 <= psize && psize <= 4 {
                2
            } else {
                4
            };
            proof {
                assert(width * (bpi as int) <= 256 && ((width * (bpi as int) + 7) / 8) * height
                    <= 2112) by (nonlinear_arith)
                    requires
                        1 <= width as int <= 64,
                        1 <= height as int <= 64,
                        1 <= bpi as int <= 4,
                ;
            }
            let bytes_per_row: usize = (width * bpi + 7) / 8;
            let packed_cost: usize = cpixel_size * psize + bytes_per_row * height;
            if packed_cost < est1 {
                (false, true)
            } else {
                (use_rle1, use_pal1)
            }
        } else {
            (use_rle1, use_pal1)
        }
    } else {
        (use_rle0, false)
    }
}

/// Encodes one tile: picks the cheapest subencoding for its pixels and
/// appends that subencoding's bytes.
#[verifier::rlimit(100)]
pub fn encode_tile(
    buf: &mut Vec<u8>,
    tile_data: &[u8],
    width: usize,
    height: usize,
    pf: &PixelFormat,
)
    requires
        pf.wf(),
        tile_data@.len() == width * height * pf.bpp(),
        1 <= width <= 64,
        1 <= height <= 64,
    ensures
        final(buf)@ == old(buf)@ + tile_bytes(
            pixel_seq(tile_data@, *pf),
            width as int,
            height as int,
            *pf,
        ),
{
    let ghost s = pixel_seq(tile_data@, *pf);
    proof {
        assert((width * height * pf.bpp()) % pf.bpp() == 0 && (width * height * pf.bpp())
            / pf.bpp() == width * height && width * height >= 1) by (nonlinear_arith)
            requires
                1 <= width as int,
                1 <= height as int,
                1 <= pf.bpp(),
        ;
        assert(s.len() == width * height);
    }
    let pixels_vec = pixels_to_u32(tile_data, pf);
    let pixels = pixels_vec.as_slice();
    let n: usize = pixels.len();
    assert(n >= 1);

    let first = pixels[0];
    let mut is_solid = true;
    let mut i: usize = 1;
    while i < n && is_solid
        invariant
            1 <= i <= n,
            s == pixels@,
            n == s.len(),
            first == s[0],
            is_solid ==> forall|j: int| 0 <= j < i ==> #[trigger] s[j] == s[0],
            !is_solid ==> !all_eq(s),
        decreases n - i + (if is_solid { 1int } else { 0int }),
    {
        if pixels[i] != first {
            is_solid = false;
        } else {
            i = i + 1;
        }
    }
    if is_solid {
        assert(all_eq(s));
        encode_solid_color_tile(buf, first, pf);
        assert(buf@ =~= old(buf)@ + tile_bytes(s, width as int, height as int, *pf));
        return ;
    }
    assert(!all_eq(s));

    let cpixel_size = bytes_per_cpixel(pf);
    let analysis = analyze_runs_and_palette(pixels);
    let runs: usize = analysis.0;
    let singles: usize = analysis.1;
    let palette_vec = analysis.2;
    let palette = palette_vec.as_slice();
    let psize: usize = palette.len();
    proof {
        crate::palette::lemma_first_seen_len(s, s.len() as int);
    }

    proof {
        assert(runs <= s.len() && singles <= s.len());
        assert(1 <= pf.cpixel() <= 4);
        assert(width * height <= 4096) by (nonlinear_arith)
            requires
                1 <= width as int <= 64,
                1 <= height as int <= 64,
        ;
        crate::palette::lemma_first_seen_len(s, s.len() as int);
    }
    let choice = choose_subencoding(width, height, cpixel_size, runs, singles, psize);
    let use_rle = choice.0;
    let use_palette = choice.1;
    proof {
        assert((use_rle, use_palette) == zrle_choice(s, width as int, height as int, *pf));
    }

    if use_palette {
        assert(psize < 128);
        assert forall|j: int| 0 <= j < s.len() implies palette@.contains(#[trigger] s[j]) by {
            lemma_first_seen_complete(s, s.len() as int, j);
        }
        proof {
            // Two distinct colors exist, so the palette has at least two
            // entries.
            let k = choose|k: int| 0 <= k < s.len() && #[trigger] s[k] != s[0];
            assert(s[k] != s[0]);
            lemma_idx_in(palette@, s[0]);
            lemma_idx_in(palette@, s[k]);
            if palette@.len() < 2 {
                assert(idx_in(palette@, s[0]) == 0 && idx_in(palette@, s[k]) == 0);
            }
        }
        if use_rle {
            encode_packed_palette_rle_tile(buf, pixels, palette, pf);
        } else {
            encode_packed_palette_tile(buf, pixels, width, height, palette, pf);
        }
    } else {
        if use_rle {
            buf.push(128);
            encode_rle_to_buf(buf, pixels, pf);
        } else {
            encode_raw_tile(buf, pixels, pf);
        }
    }
    assert(buf@ =~= old(buf)@ + tile_bytes(s, width as int, height as int, *pf));
}

/// The tile stream of one row of tiles, from the tile at column `x`
/// rightward.
pub open spec fn zrle_tile_row(d: Seq<u8>, w: int, h: int, pf: PixelFormat, y: int, x: int) -> Seq<
    u8,
>
    decreases w + 64 - x,
{
    if x < 0 || x >= w || y < 0 || y >= h {
        Seq::empty()
    } else {
        let tw = if w - x < 64 {
            w - x
        } else {
            64
        };
        let th = if h - y < 64 {
            h - y
        } else {
            64
        };
        tile_bytes(pixel_seq(tile_region(d, w, x, y, tw, th, pf.bpp()), pf), tw, th, pf)
            + zrle_tile_row(d, w, h, pf, y, x + 64)
    }
}

/// The tile streams of all tile rows from `y` downward.
pub open spec fn zrle_tile_rows(d: Seq<u8>, w: int, h: int, pf: PixelFormat, y: int) -> Seq<u8>
    decreases h + 64 - y,
{
    if y < 0 || y >= h {
        Seq::empty()
    } else {
        zrle_tile_row(d, w, h, pf, y, 0) + zrle_tile_rows(d, w, h, pf, y + 64)
    }
}

/// The whole uncompressed ZRLE tile stream: every tile's bytes in row-major
/// tile order.
pub open spec fn zrle_tile_stream(d: Seq<u8>, w: int, h: int, pf: PixelFormat) -> Seq<u8> {
    zrle_tile_rows(d, w, h, pf, 0)
}

/// Builds the uncompressed ZRLE tile stream of a rectangle: 64x64 tiles in
/// row-major order, the rightmost column and bottom row of tiles clipped to
/// the rectangle.
#[verifier::rlimit(100)]
pub fn build_tile_stream(data: &[u8], width: usize, height: usize, pf: &PixelFormat) -> (r: Vec<
    u8,
>)
    requires
        pf.wf(),
        1 <= width <= 65535,
        1 <= height <= 65535,
        data@.len() >= width * height * pf.bpp(),
    ensures
        r@ == zrle_tile_stream(data@, width as int, height as int, *pf),
{
    let ghost d = data@;
    let ghost w = width as int;
    let ghost h = height as int;
    let bpp = bytes_per_pixel(pf);
    let mut out: Vec<u8> = Vec::new();
    let mut y: usize = 0;
    while y < height
        invariant
            0 <= y,
            pf.wf(),
            d == data@,
            w == width as int,
            h == height as int,
            1 <= width <= 65535,
            1 <= height <= 65535,
            bpp == pf.bpp(),
            d.len() >= width * height * pf.bpp(),
            out@ + zrle_tile_rows(d, w, h, *pf, y as int) == zrle_tile_stream(d, w, h, *pf),
        decreases height + 64 - y,
    {
        let th: usize = if height - y < 64 {
            height - y
        } else {
            64
        };
        let mut x: usize = 0;
        while x < width
            invariant
                0 <= x,
                y < height,
                pf.wf(),
                d == data@,
                w == width as int,
                h == height as int,
                1 <= width <= 65535,
                1 <= height <= 65535,
                bpp == pf.bpp(),
                d.len() >= width * height * pf.bpp(),
                th as int == (if h - y < 64 {
                    h - y as int
                } else {
                    64int
                }),
                1 <= th <= 64,
                out@ + zrle_tile_row(d, w, h, *pf, y as int, x as int) + zrle_tile_rows(
                    d,
                    w,
                    h,
                    *pf,
                    y as int + 64,
                ) == zrle_tile_stream(d, w, h, *pf),
            decreases width + 64 - x,
        {
            let tw: usize = if width - x < 64 {
                width - x
            } else {
                64
            };
            proof {
                assert((y + th) * (width as int) * pf.bpp() <= (height as int) * (width as int)
                    * pf.bpp() && (height as int) * (width as int) * pf.bpp() == (width as int)
                    * (height as int) * pf.bpp()) by (nonlinear_arith)
                    requires
                        0 <= y as int,
                        0 <= th as int,
                        y + th <= height as int,
                        1 <= width as int,
                        1 <= pf.bpp(),
                ;
            }
            let tile = extract_tile(data, width, x, y, tw, th, bpp);
            proof {
                lemma_tile_region_len(
                    d,
                    w,
                    x as int,
                    y as int,
                    tw as int,
                    th as int,
                    pf.bpp(),
                );
            }
            encode_tile(&mut out, tile.as_slice(), tw, th, pf);
            assert(out@ + zrle_tile_row(d, w, h, *pf, y as int, x + 64) + zrle_tile_rows(
                d,
                w,
                h,
                *pf,
                y as int + 64,
            ) =~= zrle_tile_stream(d, w, h, *pf));
            x = x + 64;
        }
        assert(out@ + zrle_tile_rows(d, w, h, *pf, y + 64) =~= zrle_tile_stream(d, w, h, *pf));
        y = y + 64;
    }
    assert(out@ =~= zrle_tile_stream(d, w, h, *pf));
    out
}

/// The 4-byte big-endian form of a length.
pub open spec fn be32_bytes(n: int) -> Seq<u8> {
    seq![
        ((n / 0x1000000) % 256) as u8,
        ((n / 0x10000) % 256) as u8,
        ((n / 256) % 256) as u8,
        (n % 256) as u8,
    ]
}

/// A ZRLE wire buffer: a 4-byte big-endian length followed by exactly that
/// many payload bytes.
pub open spec fn zrle_framed(b: Seq<u8>) -> bool {
    exists|z: Seq<u8>| #![auto] z.len() < 0x100000000 && b == be32_bytes(z.len() as int) + z
}

/// Frames a payload behind its own 4-byte big-endian length: whatever
/// bytes a deflate stream hands back, the prefix equals their exact count.
pub fn frame_with_length(payload: &Vec<u8>) -> (r: Vec<u8>)
    requires
        payload@.len() < 0x100000000,
    ensures
        r@ == be32_bytes(payload@.len() as int) + payload@,
        zrle_framed(r@),
{
    let n: usize = payload.len();
    let mut out: Vec<u8> = Vec::new();
    out.push(((n / 0x1000000) % 256) as u8);
    out.push(((n / 0x10000) % 256) as u8);
    out.push(((n / 256) % 256) as u8);
    out.push((n % 256) as u8);
    push_all(&mut out, payload.as_slice());
    assert(out@ =~= be32_bytes(payload@.len() as int) + payload@);
    assert(zrle_framed(out@)) by {
        assert(payload@.len() < 0x100000000 && out@ == be32_bytes(payload@.len() as int)
            + payload@);
    }
    out
}

/// The deflate level the public compression knob selects: 0 is fastest, 1
/// to 3 are taken as given, 4 to 6 are the default level, 7 to 9 the best.
pub open spec fn zrle_level(compression: u8) -> int {
    if compression == 0 {
        1
    } else if compression <= 3 {
        compression as int
    } else if compression <= 6 {
        6
    } else {
        9
    }
}

/// Maps the public compression knob to its deflate level.
fn zrle_deflate_level(compression: u8) -> (r: u32)
    ensures
        1 <= r <= 9,
        r as int == zrle_level(compression),
{
    if compression == 0 {
        1
    } else if compression <= 3 {
        compression as u32
    } else if compression <= 6 {
        6
    } else {
        9
    }
}

/// Encodes a rectangle with ZRLE using a fresh one-shot deflate stream at
/// the level the compression knob selects. On a well-formed input the call
/// succeeds (unless the deflate output cannot fit its 32-bit length
/// prefix, which no real input reaches) and returns exactly the one-shot
/// deflate of the tile stream, framed behind a 4-byte big-endian length
/// that equals its size.
pub fn encode_zrle(
    data: &[u8],
    width: u16,
    height: u16,
    pixel_format: &PixelFormat,
    compression: u8,
) -> (r: Result<Vec<u8>, EncodeError>)
    ensures
        ({
            let w = width as int;
            let h = height as int;
            let pf = *pixel_format;
            let valid = w >= 1 && h >= 1 && pf.wf() && data@.len() >= w * h * pf.bpp();
            let z = deflate_of(zrle_tile_stream(data@, w, h, pf), zrle_level(compression));
            &&& ((r == Err::<Vec<u8>, EncodeError>(EncodeError::InvalidInput)) <==> !valid)
            &&& (valid ==> ((r is Ok) <==> z.len() < 0x100000000))
            &&& (valid && 2 * zrle_tile_stream(data@, w, h, pf).len() + 1024 < 0x100000000
                ==> r is Ok)
            &&& (r is Ok ==> r.unwrap()@ == be32_bytes(z.len() as int) + z)
            &&& (r is Ok ==> zrle_framed(r.unwrap()@))
        }),
{
    if width == 0 || height == 0 || !format_supported(pixel_format) {
        return Err(EncodeError::InvalidInput);
    }
    let bpp = bytes_per_pixel(pixel_format);
    proof {
        assert((width as int) * (height as int) <= 0xFFFFFFFF && (width as int) * (height as int)
            * ((*pixel_format).bpp()) <= 0xFFFFFFFFFF) by (nonlinear_arith)
            requires
                1 <= width as int <= 65535,
                1 <= height as int <= 65535,
                1 <= (*pixel_format).bpp() <= 4,
        ;
    }
    let expected: u64 = (width as u64) * (height as u64) * (bpp as u64);
    if (data.len() as u64) < expected {
        return Err(EncodeError::InvalidInput);
    }
    let tiles = build_tile_stream(data, width as usize, height as usize, pixel_format);
    let level = zrle_deflate_level(compression);
    match deflate_finish(tiles.as_slice(), level) {
        Ok(compressed) => {
            if (compressed.len() as u64) >= 0x100000000u64 {
                return Err(EncodeError::Compression);
            }
            Ok(frame_with_length(&compressed))
        },
        Err(_) => Err(EncodeError::Compression),
    }
}

/// Encodes a rectangle with ZRLE on a caller-held persistent stream made
/// by `DeflateStream::new`, keeping its dictionary for the next rectangle.
/// On a well-formed input whose tile stream's deflate bound fits the
/// 32-bit length prefix the call succeeds; the result is the bytes this
/// sync-flush produced, framed behind a 4-byte big-endian length that
/// equals their exact size.
pub fn encode_zrle_persistent(
    data: &[u8],
    width: u16,
    height: u16,
    pixel_format: &PixelFormat,
    compressor: &mut DeflateStream,
) -> (r: Result<Vec<u8>, EncodeError>)
    ensures
        ({
            let w = width as int;
            let h = height as int;
            let pf = *pixel_format;
            let valid = w >= 1 && h >= 1 && pf.wf() && data@.len() >= w * h * pf.bpp();
            &&& ((r == Err::<Vec<u8>, EncodeError>(EncodeError::InvalidInput)) <==> !valid)
            &&& (valid && 2 * zrle_tile_stream(data@, w, h, pf).len() + 1024 <= 0xFFFFFFFF
                ==> r is Ok)
            &&& (r is Ok ==> zrle_framed(r.unwrap()@))
        }),
{
    if width == 0 || height == 0 || !format_supported(pixel_format) {
        return Err(EncodeError::InvalidInput);
    }
    let bpp = bytes_per_pixel(pixel_format);
    proof {
        assert((width as int) * (height as int) <= 0xFFFFFFFF && (width as int) * (height as int)
            * ((*pixel_format).bpp()) <= 0xFFFFFFFFFF) by (nonlinear_arith)
            requires
                1 <= width as int <= 65535,
                1 <= height as int <= 65535,
                1 <= (*pixel_format).bpp() <= 4,
        ;
    }
    let expected: u64 = (width as u64) * (height as u64) * (bpp as u64);
    if (data.len() as u64) < expected {
        return Err(EncodeError::InvalidInput);
    }
    let tiles = build_tile_stream(data, width as usize, height as usize, pixel_format);
    let n: usize = tiles.len();
    if n > (usize::MAX - 1024) / 2 {
        return Err(EncodeError::Compression);
    }
    match compress_sync(compressor, tiles.as_slice(), 2 * n + 1024) {
        Ok(compressed) => {
            if (compressed.len() as u64) >= 0x100000000u64 {
                return Err(EncodeError::Compression);
            }
            Ok(frame_with_length(&compressed))
        },
        Err(_) => Err(EncodeError::Compression),
    }
}

/// The raw RGBX downgrade of an RGBA buffer: each whole 4-byte pixel kept
/// as its RGB bytes and a zero padding byte.
pub open spec fn rgbx_bytes(d: Seq<u8>) -> Seq<u8> {
    Seq::new((((d.len() as int) / 4) * 4) as nat, |i: int| if i % 4 == 3 {
        0u8
    } else {
        d[i]
    })
}

/// The ZRLE rectangle encoding over RGBA32 input.
pub struct ZrleEncoding;

impl Encoding for ZrleEncoding {
    /// Encodes with ZRLE at the given compression; quality is not used.
    /// The result is exactly the length-framed one-shot deflate of the
    /// RGBA32 tile stream; only when that output cannot fit its 32-bit
    /// length prefix does the call degrade to raw RGBX bytes.
    fn encode(&self, data: &[u8], width: u16, height: u16, _quality: u8, compression: u8) -> (r:
        bytes::BytesMut)
        ensures
            ({
                let z = deflate_of(
                    zrle_tile_stream(
                        data@,
                        width as int,
                        height as int,
                        crate::pixel::rgba32_format(),
                    ),
                    zrle_level(compression),
                );
                &&& (z.len() < 0x100000000 ==> bytes_mut_view(r) == be32_bytes(z.len() as int)
                    + z)
                &&& (z.len() >= 0x100000000 ==> bytes_mut_view(r) == rgbx_bytes(data@))
            }),
    {
        proof {
            assert((width as int) * (height as int) * 4 <= data@.len()
                && (width as int) * (height as int) * crate::pixel::rgba32_format().bpp()
                <= data@.len()) by (nonlinear_arith)
                requires
                    data@.len() >= 4 * (width as int) * (height as int),
                    crate::pixel::rgba32_format().bpp() == 4,
            ;
        }
        let pixel_format = crate::pixel::PixelFormat::rgba32();
        match encode_zrle(data, width, height, &pixel_format, compression) {
            Ok(encoded) => bytes_mut_from_vec(&encoded),
            Err(_) => {
                let mut buf: Vec<u8> = Vec::new();
                let len: usize = data.len();
                let count: usize = len / 4;
                proof {
                    assert(4 * ((len as int) / 4) <= len as int) by (nonlinear_arith)
                        requires
                            len as int >= 0,
                    ;
                }
                let mut k: usize = 0;
                while k < count
                    invariant
                        0 <= k <= count,
                        len == data@.len(),
                        count == (data@.len() as int) / 4,
                        4 * count <= len,
                        buf@.len() == 4 * k,
                        forall|i: int|
                            0 <= i < 4 * k ==> #[trigger] buf@[i] == (if i % 4 == 3 {
                                0u8
                            } else {
                                data@[i]
                            }),
                    decreases count - k,
                {
                    proof {
                        assert(4 * (k + 1) <= 4 * count && 4 * count <= data@.len())
                            by (nonlinear_arith)
                            requires
                                0 <= k as int,
                                (k as int) < count as int,
                                count as int == (data@.len() as int) / 4,
                                data@.len() >= 0,
                        ;
                    }
                    buf.push(data[4 * k]);
                    buf.push(data[4 * k + 1]);
                    buf.push(data[4 * k + 2]);
                    buf.push(0);
                    k = k + 1;
                }
                assert(buf@ =~= rgbx_bytes(data@));
                bytes_mut_from_vec(&buf)
            },
        }
    }
}

/// A packed-palette row fills exactly `ceil(w * bpi / 8)` bytes, continued
/// from a partial byte of `nbits` bits.
proof fn lemma_pack_row_acc_len(row: Seq<u32>, p: Seq<u32>, bpi: int, i: int, acc: int, nbits: int)
    requires
        bpi == 1 || bpi == 2 || bpi == 4,
        0 <= i <= row.len(),
        0 <= nbits,
        nbits % bpi == 0,
        nbits + bpi <= 8,
    ensures
        pack_row_acc(row, p, bpi, i, acc, nbits).len() == ((row.len() - i) * bpi + nbits + 7) / 8,
    decreases row.len() - i,
{
    if i < row.len() {
        let acc2 = (acc * p2(bpi) + idx_in(p, row[i])) % 256;
        if nbits + bpi >= 8 {
            lemma_pack_row_acc_len(row, p, bpi, i + 1, 0, 0);
            assert((row.len() - i) * bpi + nbits + 7 == (row.len() - i - 1) * bpi + 8 + 7
                && ((row.len() - i - 1) * bpi + 8 + 7) / 8 == ((row.len() - i - 1) * bpi + 7) / 8
                + 1) by (nonlinear_arith)
                requires
                    nbits + bpi == 8,
                    0 <= row.len() - i - 1,
                    1 <= bpi,
            ;
        } else {
            assert((nbits + bpi) % bpi == 0 && nbits + bpi + bpi <= 8) by (nonlinear_arith)
                requires
                    nbits % bpi == 0,
                    nbits + bpi < 8,
                    0 <= nbits,
                    bpi == 1 || bpi == 2 || bpi == 4,
            ;
            lemma_pack_row_acc_len(row, p, bpi, i + 1, acc2, nbits + bpi);
            assert((row.len() - i) * bpi + nbits + 7 == (row.len() - i - 1) * bpi + (nbits + bpi)
                + 7) by (nonlinear_arith);
        }
    } else {
        if nbits > 0 {
            assert((nbits + 7) / 8 == 1);
        }
    }
}

/// Row alignment: each packed-palette row of `w` indices at `bpi` bits per
/// index fills exactly `ceil(w * bpi / 8)` bytes, so every row starts on a
/// byte boundary.
pub proof fn lemma_pack_row_len(row: Seq<u32>, p: Seq<u32>, bpi: int)
    requires
        bpi == 1 || bpi == 2 || bpi == 4,
    ensures
        pack_row(row, p, bpi).len() == (row.len() * bpi + 7) / 8,
{
    lemma_pack_row_acc_len(row, p, bpi, 0, 0, 0);
}

/// Palette index bounds: when every pixel's color is in the palette, each
/// pixel's first palette position is a valid index, strictly below the
/// palette's size.
pub proof fn lemma_palette_indices_bounded(s: Seq<u32>, p: Seq<u32>)
    requires
        forall|j: int| 0 <= j < s.len() ==> p.contains(#[trigger] s[j]),
    ensures
        forall|j: int| 0 <= j < s.len() ==> 0 <= idx_in(p, #[trigger] s[j]) < p.len(),
{
    assert forall|j: int| 0 <= j < s.len() implies 0 <= idx_in(p, #[trigger] s[j]) < p.len() by {
        lemma_idx_in(p, s[j]);
    }
}

/// Palette index bounds for a tile: as long as the first-seen palette
/// stays below its cap it holds every color of the tile, so every emitted
/// index is strictly below the palette's size.
pub proof fn lemma_tile_palette_indices(s: Seq<u32>)
    requires
        first_seen_upto(s, s.len() as int).len() < 256,
    ensures
        forall|j: int|
            0 <= j < s.len() ==> 0 <= idx_in(first_seen_upto(s, s.len() as int), #[trigger] s[j])
                < first_seen_upto(s, s.len() as int).len(),
{
    let p = first_seen_upto(s, s.len() as int);
    assert forall|j: int| 0 <= j < s.len() implies p.contains(#[trigger] s[j]) by {
        lemma_first_seen_complete(s, s.len() as int, j);
    }
    lemma_palette_indices_bounded(s, p);
}

/// Determinism of structure: the uncompressed ZRLE tile stream, with every
/// subencoding choice and header in it, is a function of the pixels, the
/// dimensions and the format alone; two encodings of the same input agree
/// on it byte for byte.
pub proof fn lemma_zrle_structure_deterministic(
    t1: Seq<u8>,
    t2: Seq<u8>,
    d: Seq<u8>,
    w: int,
    h: int,
    pf: PixelFormat,
)
    requires
        t1 == zrle_tile_stream(d, w, h, pf),
        t2 == zrle_tile_stream(d, w, h, pf),
    ensures
        t1 == t2,
{
}

} // verus!
