//! Tight encoder tests: wire bytes of the solid and mono modes, the
//! palette analyzer, rectangle tiling under the caps, the solid-area
//! partition, and a lossless full-color round trip.

use rfb_encodings::deflate::SimpleTightCompressor;
use rfb_encodings::deflate::TightStreamCompressor;
use rfb_encodings::palette::analyze_palette;
use rfb_encodings::palette::TightPalette;
use rfb_encodings::pixel::PixelFormat;
use rfb_encodings::tight::encode_tight_rects;
use rfb_encodings::tight::normalize_compression_level;
use rfb_encodings::tight::TightEncoding;
use rfb_encodings::Encoding;

fn solid_frame(w: usize, h: usize, rgb: [u8; 3]) -> Vec<u8> {
    let mut data = Vec::with_capacity(w * h * 4);
    for _ in 0..(w * h) {
        data.extend_from_slice(&[rgb[0], rgb[1], rgb[2], 255]);
    }
    data
}

fn checkerboard(w: usize, h: usize) -> Vec<u8> {
    let mut data = Vec::with_capacity(w * h * 4);
    for y in 0..h {
        for x in 0..w {
            if (x + y) % 2 == 0 {
                data.extend_from_slice(&[255, 255, 255, 255]);
            } else {
                data.extend_from_slice(&[0, 0, 0, 255]);
            }
        }
    }
    data
}

fn gradient_frame(w: usize, h: usize) -> Vec<u8> {
    let mut data = Vec::with_capacity(w * h * 4);
    for y in 0..h {
        for x in 0..w {
            data.extend_from_slice(&[(x % 251) as u8, (y % 241) as u8, ((x + y) % 239) as u8, 255]);
        }
    }
    data
}

/// Reads a compact length at `pos`, returning the value and the bytes
/// consumed.
fn read_compact(data: &[u8], pos: usize) -> (usize, usize) {
    let b0 = data[pos] as usize;
    if b0 < 128 {
        return (b0, 1);
    }
    let b1 = data[pos + 1] as usize;
    if b1 < 128 {
        return ((b0 & 0x7F) | (b1 << 7), 2);
    }
    let b2 = data[pos + 2] as usize;
    ((b0 & 0x7F) | ((b1 & 0x7F) << 7) | (b2 << 14), 3)
}

/// Inflates a sync-flushed (unfinished) zlib stream.
fn inflate_sync(data: &[u8], max_len: usize) -> Vec<u8> {
    let mut d = flate2::Decompress::new(true);
    let mut out = vec![0u8; max_len + 64];
    d.decompress(data, &mut out, flate2::FlushDecompress::Sync)
        .expect("inflate failed");
    let n = d.total_out() as usize;
    out.truncate(n);
    out
}

#[test]
fn tight_solid_16x16_wire_bytes() {
    let data = solid_frame(16, 16, [0, 0, 200]);
    let enc = TightEncoding;
    let buf = enc.encode(&data, 16, 16, 85, 6);
    assert_eq!(&buf[..], &[0x80, 0x00, 0x00, 0xC8]);
}

#[test]
fn tight_mono_32x32_wire_bytes() {
    let data = checkerboard(32, 32);
    let pf = PixelFormat::rgba32();
    let mut compressor = SimpleTightCompressor::new(6);
    let rects = encode_tight_rects(&data, 32, 32, 85, 6, &pf, &mut compressor);
    assert_eq!(rects.len(), 1);
    let buf = &rects[0].4;
    // Control byte for the mono stream with explicit filter, the palette
    // filter, two colors, majority (white) first.
    assert_eq!(&buf[0..9], &[0x50, 0x01, 0x01, 255, 255, 255, 0, 0, 0]);
    let (len, consumed) = read_compact(buf, 9);
    assert_eq!(9 + consumed + len, buf.len());
    let bitmap = inflate_sync(&buf[9 + consumed..], 4 * 32);
    assert_eq!(bitmap.len(), 128);
    for row in 0..32 {
        let expected = if row % 2 == 0 { 0x55u8 } else { 0xAAu8 };
        for byte in 0..4 {
            assert_eq!(bitmap[row * 4 + byte], expected, "row {}", row);
        }
    }
}

#[test]
fn tight_full_color_roundtrip_64x64() {
    let data = gradient_frame(64, 64);
    let pf = PixelFormat::rgba32();
    let mut compressor = SimpleTightCompressor::new(6);
    let rects = encode_tight_rects(&data, 64, 64, 85, 6, &pf, &mut compressor);
    assert_eq!(rects.len(), 1);
    let buf = &rects[0].4;
    assert_eq!(buf[0], 0x00, "full-color control byte");
    let (len, consumed) = read_compact(buf, 1);
    assert_eq!(1 + consumed + len, buf.len());
    let rgb = inflate_sync(&buf[1 + consumed..], 64 * 64 * 3);
    assert_eq!(rgb.len(), 64 * 64 * 3);
    for i in 0..(64 * 64) {
        assert_eq!(rgb[3 * i], data[4 * i]);
        assert_eq!(rgb[3 * i + 1], data[4 * i + 1]);
        assert_eq!(rgb[3 * i + 2], data[4 * i + 2]);
    }
}

#[test]
fn tight_huge_rect_tiling_covers_exactly() {
    // A large gradient has no solid area: the output must tile it into
    // subrectangles within the caps, covering every pixel exactly once.
    let w: usize = 2500;
    let h: usize = 2500;
    let data = gradient_frame(w, h);
    let pf = PixelFormat::rgba32();
    let mut compressor = SimpleTightCompressor::new(6);
    let rects = encode_tight_rects(&data, w as u16, h as u16, 85, 6, &pf, &mut compressor);
    assert!(!rects.is_empty());

    let mut covered = vec![0u8; w * h];
    for r in &rects {
        let (x, y, rw, rh) = (r.0 as usize, r.1 as usize, r.2 as usize, r.3 as usize);
        assert!(rw >= 1 && rh >= 1);
        assert!(rw <= 2048, "width over cap: {}", rw);
        assert!(rw * rh <= 65536, "area over cap: {}", rw * rh);
        assert!(x + rw <= w && y + rh <= h);
        for yy in y..(y + rh) {
            for xx in x..(x + rw) {
                covered[yy * w + xx] += 1;
            }
        }
    }
    assert!(covered.iter().all(|&c| c == 1), "coverage not exact");
}

#[test]
fn tight_centered_solid_partition() {
    // A centered solid block of at least 2048 pixels is extracted as one
    // solid-fill subrectangle plus up to four surrounding pieces whose
    // union is the input minus the block.
    let w: usize = 96;
    let h: usize = 96;
    let mut data = gradient_frame(w, h);
    for y in 16..80 {
        for x in 16..80 {
            let i = (y * w + x) * 4;
            data[i] = 10;
            data[i + 1] = 20;
            data[i + 2] = 30;
        }
    }
    let pf = PixelFormat::rgba32();
    let mut compressor = SimpleTightCompressor::new(6);
    let rects = encode_tight_rects(&data, w as u16, h as u16, 85, 6, &pf, &mut compressor);

    let solid: Vec<_> = rects.iter().filter(|r| r.4[0] == 0x80).collect();
    assert_eq!(solid.len(), 1, "exactly one solid-fill subrectangle");
    let s = solid[0];
    assert_eq!((s.0, s.1, s.2, s.3), (16, 16, 64, 64));
    assert_eq!(&s.4[..], &[0x80, 10, 20, 30]);
    assert!(rects.len() <= 5, "at most four surrounding pieces");

    let mut covered = vec![0u8; w * h];
    for r in &rects {
        let (x, y, rw, rh) = (r.0 as usize, r.1 as usize, r.2 as usize, r.3 as usize);
        for yy in y..(y + rh) {
            for xx in x..(x + rw) {
                covered[yy * w + xx] += 1;
            }
        }
    }
    assert!(covered.iter().all(|&c| c == 1), "coverage not exact");
}

#[test]
fn analyze_palette_classifies() {
    let solid = solid_frame(8, 8, [1, 2, 3]);
    assert_eq!(
        analyze_palette(&solid, 64, 6),
        TightPalette::Solid {
            color: 1 | (2 << 8) | (3 << 16)
        }
    );

    let mono = checkerboard(8, 8);
    let white = 255 | (255 << 8) | (255 << 16);
    assert_eq!(
        analyze_palette(&mono, 64, 6),
        TightPalette::Mono { bg: white, fg: 0 }
    );

    let many = gradient_frame(8, 8);
    assert_eq!(analyze_palette(&many, 64, 6), TightPalette::Many);
}

#[test]
fn analyze_palette_majority_background() {
    // Three white pixels, one black: white is the majority background.
    let mut data = Vec::new();
    data.extend_from_slice(&[255, 255, 255, 255]);
    data.extend_from_slice(&[0, 0, 0, 255]);
    data.extend_from_slice(&[255, 255, 255, 255]);
    data.extend_from_slice(&[255, 255, 255, 255]);
    // Pad up to the mono threshold with alternating pixels.
    for i in 0..28 {
        if i % 2 == 0 {
            data.extend_from_slice(&[255, 255, 255, 255]);
        } else {
            data.extend_from_slice(&[0, 0, 0, 255]);
        }
    }
    let white = 255 | (255 << 8) | (255 << 16);
    assert_eq!(
        analyze_palette(&data, 32, 6),
        TightPalette::Mono { bg: white, fg: 0 }
    );
}

#[test]
fn analyze_palette_threshold() {
    // Two colors over five pixels: below the threshold of six at
    // compression level 0 plus one more pixel flips the result.
    let mut five = Vec::new();
    for i in 0..5 {
        if i == 0 {
            five.extend_from_slice(&[1, 0, 0, 255]);
        } else {
            five.extend_from_slice(&[2, 0, 0, 255]);
        }
    }
    assert_eq!(analyze_palette(&five, 5, 0), TightPalette::Many);

    let mut six = five.clone();
    six.extend_from_slice(&[2, 0, 0, 255]);
    assert_eq!(
        analyze_palette(&six, 6, 0),
        TightPalette::Mono { bg: 2, fg: 1 }
    );
}

#[test]
fn normalize_compression_levels() {
    // JPEG enabled clamps into 1..2; disabled caps at 1.
    assert_eq!(normalize_compression_level(0, 5), 1);
    assert_eq!(normalize_compression_level(6, 5), 2);
    assert_eq!(normalize_compression_level(2, 5), 2);
    assert_eq!(normalize_compression_level(0, 85), 0);
    assert_eq!(normalize_compression_level(1, 85), 1);
    assert_eq!(normalize_compression_level(9, 85), 1);
}

#[test]
fn tight_small_mono_sent_raw_without_length() {
    // A tiny two-color rectangle has a bitmap under 12 bytes: it follows
    // the palette with no length prefix at all.
    let data = checkerboard(8, 8);
    let pf = PixelFormat::rgba32();
    let mut compressor = SimpleTightCompressor::new(6);
    let rects = encode_tight_rects(&data, 8, 8, 85, 6, &pf, &mut compressor);
    assert_eq!(rects.len(), 1);
    let buf = &rects[0].4;
    assert_eq!(&buf[0..9], &[0x50, 0x01, 0x01, 255, 255, 255, 0, 0, 0]);
    // 8 rows of one byte each, alternating 0x55 / 0xAA, sent raw.
    assert_eq!(buf.len(), 9 + 8);
    for row in 0..8 {
        let expected = if row % 2 == 0 { 0x55u8 } else { 0xAAu8 };
        assert_eq!(buf[9 + row], expected);
    }
}

#[test]
fn zrle_encoding_trait_entry() {
    let data = solid_frame(16, 16, [5, 6, 7]);
    let enc = rfb_encodings::zrle::ZrleEncoding;
    let buf = enc.encode(&data, 16, 16, 85, 6);
    let len = u32::from_be_bytes([buf[0], buf[1], buf[2], buf[3]]) as usize;
    assert_eq!(len, buf.len() - 4);
}

#[test]
fn tight_indexed_rect_wire_bytes() {
    // The indexed mode, driven directly: a four-color 8x8 image against
    // its palette gives the indexed control byte, the palette filter with
    // the colors in order, and the deflated one-byte-per-pixel indices.
    let colors: [[u8; 3]; 4] = [[1, 0, 0], [0, 2, 0], [0, 0, 3], [4, 4, 4]];
    let mut data = Vec::new();
    for i in 0..64 {
        let c = colors[i % 4];
        data.extend_from_slice(&[c[0], c[1], c[2], 255]);
    }
    let palette: Vec<u32> = colors
        .iter()
        .map(|c| u32::from(c[0]) | (u32::from(c[1]) << 8) | (u32::from(c[2]) << 16))
        .collect();
    let pf = PixelFormat::rgba32();
    let mut compressor = SimpleTightCompressor::new(6);
    let buf = rfb_encodings::tight::encode_indexed_rect(
        &data,
        8,
        8,
        &palette,
        6,
        &pf,
        &mut compressor,
    );
    assert_eq!(buf[0], 0x60, "indexed control byte");
    assert_eq!(buf[1], 0x01, "palette filter");
    assert_eq!(buf[2], 3, "palette size minus one");
    assert_eq!(&buf[3..6], &[1, 0, 0]);
    assert_eq!(&buf[6..9], &[0, 2, 0]);
    assert_eq!(&buf[9..12], &[0, 0, 3]);
    assert_eq!(&buf[12..15], &[4, 4, 4]);
    let (len, consumed) = read_compact(&buf, 15);
    assert_eq!(15 + consumed + len, buf.len());
    let indices = inflate_sync(&buf[15 + consumed..], 64);
    assert_eq!(indices.len(), 64);
    for (i, &idx) in indices.iter().enumerate() {
        assert_eq!(idx as usize, i % 4);
        assert!((idx as usize) < palette.len(), "palette index out of bounds");
    }
}

#[test]
fn solid_area_detection_and_growth() {
    // check_solid_tile sees through a uniform block and stops at a
    // differing pixel; find/extend grow a seed to the block's bounds.
    let w: usize = 64;
    let h: usize = 64;
    let mut data = gradient_frame(w, h);
    for y in 8..56 {
        for x in 8..56 {
            let i = (y * w + x) * 4;
            data[i] = 7;
            data[i + 1] = 8;
            data[i + 2] = 9;
        }
    }
    let color = 7 | (8 << 8) | (9 << 16);
    let got = rfb_encodings::tight::check_solid_tile(&data, 64, 8, 8, 16, 16, None);
    assert_eq!(got, Some(color));
    assert_eq!(
        rfb_encodings::tight::check_solid_tile(&data, 64, 0, 0, 16, 16, None),
        None
    );

    let best = rfb_encodings::tight::find_best_solid_area(&data, 64, 8, 8, 56, 56, color);
    assert!(best.0 >= 40 && best.1 >= 40);

    let grown = rfb_encodings::tight::extend_solid_area(
        &data, 64, 0, 0, 64, 64, color, 8, 8, best.0, best.1,
    );
    assert_eq!(grown, (8, 8, 48, 48));
}

#[test]
fn mono_bitmap_rows_byte_aligned() {
    // A 12-pixel-wide row packs into two bytes: the second byte pads its
    // low bits with zeros.
    let mut data = Vec::new();
    for _row in 0..2 {
        for x in 0..12 {
            if x % 3 == 0 {
                data.extend_from_slice(&[9, 9, 9, 255]);
            } else {
                data.extend_from_slice(&[0, 0, 0, 255]);
            }
        }
    }
    let bg = 9 | (9 << 8) | (9 << 16);
    let bitmap = rfb_encodings::tight::encode_mono_bitmap(&data, 12, 2, bg);
    // Bits: 0,1,1,0,1,1,0,1 then 1,0,1,1 padded with zeros.
    assert_eq!(bitmap.len(), 4);
    assert_eq!(bitmap[0], 0b0110_1101);
    assert_eq!(bitmap[1], 0b1011_0000);
    assert_eq!(bitmap[2], bitmap[0]);
    assert_eq!(bitmap[3], bitmap[1]);
}

#[test]
fn stream_compressor_ids_and_success() {
    let mut compressor = SimpleTightCompressor::new(6);
    let data = vec![7u8; 4096];
    assert!(compressor.compress_tight_stream(4, 6, &data).is_err());
    let out = compressor.compress_tight_stream(0, 6, &data).unwrap();
    assert!(!out.is_empty());
    assert!(out.len() <= 2 * data.len() + 1024);
    // A sync-flushed stream is decodable as far as it goes.
    let round = inflate_sync(&out, data.len());
    assert_eq!(round, data);
}
