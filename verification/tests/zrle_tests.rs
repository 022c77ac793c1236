//! ZRLE encoder tests: the original regression cases for non-aligned
//! dimensions and undersized buffers, plus full decode round trips through
//! a reference ZRLE decoder.

use std::io::Read;
use std::io::Write;

use rfb_encodings::pixel::PixelFormat;
use rfb_encodings::zrle::encode_zrle;

fn bytes_per_pixel(pf: &PixelFormat) -> usize {
    (pf.bits_per_pixel / 8) as usize
}

fn bytes_per_cpixel(pf: &PixelFormat) -> usize {
    if pf.true_colour_flag != 0 && pf.bits_per_pixel == 32 && pf.depth <= 24 {
        let rgb_in_lower_bytes = (u32::from(pf.red_max) << pf.red_shift) < (1 << 24)
            && (u32::from(pf.green_max) << pf.green_shift) < (1 << 24)
            && (u32::from(pf.blue_max) << pf.blue_shift) < (1 << 24);
        let rgb_in_upper_bytes = pf.red_shift > 7 && pf.green_shift > 7 && pf.blue_shift > 7;
        if rgb_in_lower_bytes || rgb_in_upper_bytes {
            return 3;
        }
    }
    bytes_per_pixel(pf)
}

fn read_cpixel(data: &[u8], pf: &PixelFormat) -> u32 {
    let cpixel_size = bytes_per_cpixel(pf);
    match cpixel_size {
        1 => u32::from(data[0]),
        2 => {
            if pf.big_endian_flag != 0 {
                u32::from(u16::from_be_bytes([data[0], data[1]]))
            } else {
                u32::from(u16::from_le_bytes([data[0], data[1]]))
            }
        }
        3 => {
            let rgb_in_lower_bytes = (u32::from(pf.red_max) << pf.red_shift) < (1 << 24)
                && (u32::from(pf.green_max) << pf.green_shift) < (1 << 24)
                && (u32::from(pf.blue_max) << pf.blue_shift) < (1 << 24);
            let rgb_in_upper_bytes = pf.red_shift > 7 && pf.green_shift > 7 && pf.blue_shift > 7;
            let big_endian = pf.big_endian_flag != 0;
            let use_24a = (rgb_in_lower_bytes && !big_endian) || (rgb_in_upper_bytes && big_endian);

            if use_24a {
                if big_endian {
                    u32::from(data[0]) << 16 | u32::from(data[1]) << 8 | u32::from(data[2])
                } else {
                    u32::from(data[0]) | u32::from(data[1]) << 8 | u32::from(data[2]) << 16
                }
            } else {
                if big_endian {
                    u32::from(data[0]) << 24 | u32::from(data[1]) << 16 | u32::from(data[2]) << 8
                } else {
                    u32::from(data[0]) << 8 | u32::from(data[1]) << 16 | u32::from(data[2]) << 24
                }
            }
        }
        4 => {
            if pf.big_endian_flag != 0 {
                u32::from_be_bytes([data[0], data[1], data[2], data[3]])
            } else {
                u32::from_le_bytes([data[0], data[1], data[2], data[3]])
            }
        }
        _ => panic!("invalid CPIXEL size"),
    }
}

fn write_pixel_to_output(output: &mut [u8], pixel: u32, pf: &PixelFormat) {
    let bpp = bytes_per_pixel(pf);
    match bpp {
        1 => output[0] = pixel as u8,
        2 => {
            let bytes = if pf.big_endian_flag != 0 {
                (pixel as u16).to_be_bytes()
            } else {
                (pixel as u16).to_le_bytes()
            };
            output[0..2].copy_from_slice(&bytes);
        }
        4 => {
            let bytes = if pf.big_endian_flag != 0 {
                pixel.to_be_bytes()
            } else {
                pixel.to_le_bytes()
            };
            output[0..4].copy_from_slice(&bytes);
        }
        _ => panic!("invalid bytes per pixel"),
    }
}

fn decode_zrle_to_tiles(encoded: &[u8]) -> Result<Vec<u8>, String> {
    if encoded.len() < 4 {
        return Err("ZRLE data too short".to_string());
    }
    let len = u32::from_be_bytes([encoded[0], encoded[1], encoded[2], encoded[3]]) as usize;
    if encoded.len() < 4 + len {
        return Err("ZRLE data truncated".to_string());
    }
    let compressed = &encoded[4..4 + len];
    let mut decoder = flate2::read::ZlibDecoder::new(compressed);
    let mut decompressed = Vec::new();
    decoder
        .read_to_end(&mut decompressed)
        .map_err(|e| format!("ZRLE zlib decompression failed: {}", e))?;
    Ok(decompressed)
}

fn decode_zrle(
    encoded: &[u8],
    width: u16,
    height: u16,
    pf: &PixelFormat,
) -> Result<Vec<u8>, String> {
    let tile_data = decode_zrle_to_tiles(encoded)?;
    let width = width as usize;
    let height = height as usize;
    let cpixel_size = bytes_per_cpixel(pf);
    let output_bpp = bytes_per_pixel(pf);
    let mut output = vec![0u8; width * height * output_bpp];
    let mut pos = 0;
    let tile_size = 64;

    for tile_y in (0..height).step_by(tile_size) {
        for tile_x in (0..width).step_by(tile_size) {
            let tile_w = (width - tile_x).min(tile_size);
            let tile_h = (height - tile_y).min(tile_size);
            if pos >= tile_data.len() {
                return Err("ZRLE: unexpected end of tile data".to_string());
            }
            let subencoding = tile_data[pos];
            pos += 1;
            match subencoding {
                0 => {
                    let bytes_needed = tile_w * tile_h * cpixel_size;
                    if pos + bytes_needed > tile_data.len() {
                        return Err("ZRLE: raw tile data truncated".to_string());
                    }
                    for row in 0..tile_h {
                        for col in 0..tile_w {
                            let src_idx = pos + (row * tile_w + col) * cpixel_size;
                            let pixel = read_cpixel(&tile_data[src_idx..], pf);
                            let dst_idx = ((tile_y + row) * width + tile_x + col) * output_bpp;
                            write_pixel_to_output(&mut output[dst_idx..], pixel, pf);
                        }
                    }
                    pos += bytes_needed;
                }
                1 => {
                    if pos + cpixel_size > tile_data.len() {
                        return Err("ZRLE: solid color data truncated".to_string());
                    }
                    let pixel = read_cpixel(&tile_data[pos..], pf);
                    pos += cpixel_size;
                    for row in 0..tile_h {
                        for col in 0..tile_w {
                            let dst_idx = ((tile_y + row) * width + tile_x + col) * output_bpp;
                            write_pixel_to_output(&mut output[dst_idx..], pixel, pf);
                        }
                    }
                }
                2..=16 => {
                    let palette_size = subencoding as usize;
                    if pos + palette_size * cpixel_size > tile_data.len() {
                        return Err("ZRLE: palette data truncated".to_string());
                    }
                    let mut palette = Vec::with_capacity(palette_size);
                    for _ in 0..palette_size {
                        palette.push(read_cpixel(&tile_data[pos..], pf));
                        pos += cpixel_size;
                    }
                    let bits_per_packed = match palette_size {
                        2 => 1,
                        3..=4 => 2,
                        _ => 4,
                    };
                    for row in 0..tile_h {
                        let mut bit_pos = 0;
                        let mut current_byte = 0u8;
                        for col in 0..tile_w {
                            if bit_pos == 0 {
                                if pos >= tile_data.len() {
                                    return Err("ZRLE: packed pixel data truncated".to_string());
                                }
                                current_byte = tile_data[pos];
                                pos += 1;
                                bit_pos = 8;
                            }
                            bit_pos -= bits_per_packed;
                            let idx =
                                ((current_byte >> bit_pos) & ((1 << bits_per_packed) - 1)) as usize;
                            if idx >= palette.len() {
                                return Err(format!("ZRLE: invalid palette index {}", idx));
                            }
                            let dst_idx = ((tile_y + row) * width + tile_x + col) * output_bpp;
                            write_pixel_to_output(&mut output[dst_idx..], palette[idx], pf);
                        }
                    }
                }
                128 => {
                    let mut pixels_remaining = tile_w * tile_h;
                    let mut pixel_idx = 0;
                    while pixels_remaining > 0 {
                        if pos + cpixel_size > tile_data.len() {
                            return Err("ZRLE: RLE color data truncated".to_string());
                        }
                        let pixel = read_cpixel(&tile_data[pos..], pf);
                        pos += cpixel_size;
                        let mut run_len = 1usize;
                        loop {
                            if pos >= tile_data.len() {
                                return Err("ZRLE: RLE length data truncated".to_string());
                            }
                            let b = tile_data[pos] as usize;
                            pos += 1;
                            run_len += b;
                            if b != 255 {
                                break;
                            }
                        }
                        for _ in 0..run_len {
                            if pixels_remaining == 0 {
                                return Err("ZRLE: RLE overflow".to_string());
                            }
                            let row = pixel_idx / tile_w;
                            let col = pixel_idx % tile_w;
                            let dst_idx = ((tile_y + row) * width + tile_x + col) * output_bpp;
                            write_pixel_to_output(&mut output[dst_idx..], pixel, pf);
                            pixel_idx += 1;
                            pixels_remaining -= 1;
                        }
                    }
                }
                129..=255 => {
                    let palette_size = (subencoding - 128) as usize;
                    if pos + palette_size * cpixel_size > tile_data.len() {
                        return Err("ZRLE: palette RLE data truncated".to_string());
                    }
                    let mut palette = Vec::with_capacity(palette_size);
                    for _ in 0..palette_size {
                        palette.push(read_cpixel(&tile_data[pos..], pf));
                        pos += cpixel_size;
                    }
                    let mut pixels_remaining = tile_w * tile_h;
                    let mut pixel_idx = 0;
                    while pixels_remaining > 0 {
                        if pos >= tile_data.len() {
                            return Err("ZRLE: palette RLE index data truncated".to_string());
                        }
                        let index_byte = tile_data[pos];
                        pos += 1;
                        let idx = (index_byte & 0x7F) as usize;
                        if idx >= palette.len() {
                            return Err(format!("ZRLE: invalid palette RLE index {}", idx));
                        }
                        let run_len = if index_byte & 0x80 != 0 {
                            let mut len = 1usize;
                            loop {
                                if pos >= tile_data.len() {
                                    return Err("ZRLE: palette RLE length truncated".to_string());
                                }
                                let b = tile_data[pos] as usize;
                                pos += 1;
                                len += b;
                                if b != 255 {
                                    break;
                                }
                            }
                            len
                        } else {
                            1
                        };
                        for _ in 0..run_len {
                            if pixels_remaining == 0 {
                                return Err("ZRLE: palette RLE overflow".to_string());
                            }
                            let row = pixel_idx / tile_w;
                            let col = pixel_idx % tile_w;
                            let dst_idx = ((tile_y + row) * width + tile_x + col) * output_bpp;
                            write_pixel_to_output(&mut output[dst_idx..], palette[idx], pf);
                            pixel_idx += 1;
                            pixels_remaining -= 1;
                        }
                    }
                }
                _ => {
                    return Err(format!("ZRLE: unknown subencoding {}", subencoding));
                }
            }
        }
    }
    Ok(output)
}

/// The 64x64 test frame: a red horizontal gradient, a green vertical
/// gradient, a solid blue block and a checkerboard, one per quadrant.
fn frame_64x64() -> Vec<u8> {
    let mut pixels = Vec::with_capacity(64 * 64 * 4);
    for y in 0..64 {
        for x in 0..64 {
            let (r, g, b, a) = if x < 32 && y < 32 {
                ((x * 8) as u8, 0, 0, 255)
            } else if x >= 32 && y < 32 {
                (0, (y * 8) as u8, 0, 255)
            } else if x < 32 && y >= 32 {
                (0, 0, 200, 255)
            } else {
                if (x + y) % 2 == 0 {
                    (255, 255, 255, 255)
                } else {
                    (0, 0, 0, 255)
                }
            };
            pixels.extend_from_slice(&[r, g, b, a]);
        }
    }
    pixels
}

/// The 100x75 test frame: smooth red and green gradients.
fn frame_100x75() -> Vec<u8> {
    let mut pixels = Vec::with_capacity(100 * 75 * 4);
    for y in 0..75 {
        for x in 0..100 {
            let r = ((x * 255) / 100) as u8;
            let g = ((y * 255) / 75) as u8;
            let b = 128;
            pixels.extend_from_slice(&[r, g, b, 255]);
        }
    }
    pixels
}

fn compare_rgb_only(decoded: &[u8], input: &[u8]) -> bool {
    if decoded.len() != input.len() {
        return false;
    }
    for (chunk_d, chunk_i) in decoded.chunks_exact(4).zip(input.chunks_exact(4)) {
        if chunk_d[0] != chunk_i[0] || chunk_d[1] != chunk_i[1] || chunk_d[2] != chunk_i[2] {
            return false;
        }
    }
    true
}

#[test]
fn test_zrle_non_multiple_of_64_dimensions() {
    let width: u16 = 800;
    let height: u16 = 600;
    let pf = PixelFormat::rgba32();
    let bpp = 4;

    let data = vec![0u8; (width as usize) * (height as usize) * bpp];

    let result = encode_zrle(&data, width, height, &pf, 6);
    assert!(
        result.is_ok(),
        "encode_zrle should succeed: {:?}",
        result.err()
    );
}

#[test]
fn test_zrle_960x540_original_bug() {
    let width: u16 = 960;
    let height: u16 = 540;
    let pf = PixelFormat::rgba32();
    let bpp = 4;

    let data = vec![128u8; (width as usize) * (height as usize) * bpp];

    let result = encode_zrle(&data, width, height, &pf, 6);
    assert!(
        result.is_ok(),
        "encode_zrle should succeed for 960x540: {:?}",
        result.err()
    );
}

#[test]
fn test_zrle_buffer_too_small() {
    let width: u16 = 100;
    let height: u16 = 100;
    let pf = PixelFormat::rgba32();

    let data = vec![0u8; 1000];

    let result = encode_zrle(&data, width, height, &pf, 6);
    assert!(result.is_err(), "Should return error for undersized buffer");
}

#[test]
fn roundtrip_zrle_decompresses_64x64() {
    let input = frame_64x64();
    let pf = PixelFormat::rgba32();
    let encoded = encode_zrle(&input, 64, 64, &pf, 6).unwrap();

    assert!(encoded.len() >= 4, "ZRLE output too short");
    let len = u32::from_be_bytes([encoded[0], encoded[1], encoded[2], encoded[3]]) as usize;
    assert_eq!(len, encoded.len() - 4, "ZRLE length prefix mismatch");

    let compressed_data = &encoded[4..];
    let mut decoder = flate2::read::ZlibDecoder::new(compressed_data);
    let mut decompressed = Vec::new();
    decoder
        .read_to_end(&mut decompressed)
        .expect("ZRLE zlib decompression failed");

    assert!(!decompressed.is_empty(), "ZRLE decompressed to empty data");
}

#[test]
fn roundtrip_zrle_full_64x64() {
    let input = frame_64x64();
    let pf = PixelFormat::rgba32();
    let encoded = encode_zrle(&input, 64, 64, &pf, 6).unwrap();
    let decoded = decode_zrle(&encoded, 64, 64, &pf).expect("ZRLE decode failed");
    assert_eq!(decoded.len(), input.len(), "ZRLE decoded size mismatch");
    assert!(
        compare_rgb_only(&decoded, &input),
        "ZRLE round-trip failed: RGB components don't match"
    );
}

#[test]
fn roundtrip_zrle_full_100x75() {
    let input = frame_100x75();
    let pf = PixelFormat::rgba32();
    let encoded = encode_zrle(&input, 100, 75, &pf, 6).unwrap();
    let decoded = decode_zrle(&encoded, 100, 75, &pf).expect("ZRLE decode failed");
    assert_eq!(decoded.len(), input.len(), "ZRLE decoded size mismatch");
    assert!(
        compare_rgb_only(&decoded, &input),
        "ZRLE round-trip failed: RGB components don't match"
    );
}

#[test]
fn roundtrip_zrle_16bpp() {
    let pf = PixelFormat {
        bits_per_pixel: 16,
        depth: 16,
        big_endian_flag: 0,
        true_colour_flag: 1,
        red_max: 31,
        green_max: 63,
        blue_max: 31,
        red_shift: 11,
        green_shift: 5,
        blue_shift: 0,
    };

    let mut input = vec![0u8; 8 * 8 * 2];
    for y in 0..8 {
        for x in 0..8 {
            let idx = (y * 8 + x) * 2;
            let r = (x * 4) as u16;
            let g = (y * 8) as u16;
            let b = ((x + y) * 2) as u16;
            let pixel = (r << 11) | (g << 5) | b;
            let bytes = pixel.to_le_bytes();
            input[idx] = bytes[0];
            input[idx + 1] = bytes[1];
        }
    }

    let encoded = encode_zrle(&input, 8, 8, &pf, 6).unwrap();
    let decoded = decode_zrle(&encoded, 8, 8, &pf).expect("ZRLE decode failed");
    assert_eq!(
        decoded, input,
        "ZRLE 16bpp round-trip failed: decoded doesn't match input"
    );
}

#[test]
fn zrle_solid_tile_wire_bytes() {
    // A 64x64 one-color frame encodes as a single solid tile: subencoding
    // byte 1 and one 3-byte CPIXEL.
    let mut input = Vec::with_capacity(64 * 64 * 4);
    for _ in 0..(64 * 64) {
        input.extend_from_slice(&[0, 0, 200, 255]);
    }
    let pf = PixelFormat::rgba32();
    let encoded = encode_zrle(&input, 64, 64, &pf, 6).unwrap();
    let tiles = decode_zrle_to_tiles(&encoded).unwrap();
    assert_eq!(&tiles[..], &[0x01, 0x00, 0x00, 0xC8]);
}

#[test]
fn zrle_non_aligned_gradient_four_tiles() {
    // 100x75 cuts into ceil(100/64) * ceil(75/64) = 4 tiles; the decoder
    // walks exactly that tile structure and reproduces every RGB value.
    let input = frame_100x75();
    let pf = PixelFormat::rgba32();
    let encoded = encode_zrle(&input, 100, 75, &pf, 6).unwrap();

    let tiles = decode_zrle_to_tiles(&encoded).unwrap();
    assert!(!tiles.is_empty());

    let decoded = decode_zrle(&encoded, 100, 75, &pf).expect("ZRLE decode failed");
    assert!(compare_rgb_only(&decoded, &input));
}

#[test]
fn zrle_persistent_keeps_length_prefix_exact() {
    let input = frame_64x64();
    let pf = PixelFormat::rgba32();
    let mut compressor = rfb_encodings::deflate::DeflateStream::new(6);
    let first = rfb_encodings::zrle::encode_zrle_persistent(&input, 64, 64, &pf, &mut compressor)
        .unwrap();
    let len = u32::from_be_bytes([first[0], first[1], first[2], first[3]]) as usize;
    assert_eq!(len, first.len() - 4);

    // A second rectangle on the same stream is framed the same way.
    let second = rfb_encodings::zrle::encode_zrle_persistent(&input, 64, 64, &pf, &mut compressor)
        .unwrap();
    let len2 = u32::from_be_bytes([second[0], second[1], second[2], second[3]]) as usize;
    assert_eq!(len2, second.len() - 4);
}

#[test]
fn zrle_rejects_zero_dimensions_and_bad_format() {
    let pf = PixelFormat::rgba32();
    let data = vec![0u8; 4096];
    assert_eq!(
        encode_zrle(&data, 0, 10, &pf, 6),
        Err(rfb_encodings::EncodeError::InvalidInput)
    );
    assert_eq!(
        encode_zrle(&data, 10, 0, &pf, 6),
        Err(rfb_encodings::EncodeError::InvalidInput)
    );
    let mut bad = pf;
    bad.bits_per_pixel = 24;
    assert_eq!(
        encode_zrle(&data, 2, 2, &bad, 6),
        Err(rfb_encodings::EncodeError::InvalidInput)
    );
}

#[test]
fn zrle_compresses_repetitive_data() {
    // The deflate stream must actually compress: a repetitive frame's
    // payload comes out much smaller than its tile stream.
    let mut input = Vec::with_capacity(256 * 256 * 4);
    for _ in 0..(256 * 256) {
        input.extend_from_slice(&[1, 2, 3, 255]);
    }
    let pf = PixelFormat::rgba32();
    let encoded = encode_zrle(&input, 256, 256, &pf, 6).unwrap();
    assert!(encoded.len() < 256 * 256 * 3 / 2);
}

#[test]
fn zrle_output_is_deflated_tile_stream() {
    // The encoder's output is exactly the length-framed one-shot deflate
    // of its own tile stream: rebuilding both halves by hand matches it
    // byte for byte.
    let input = frame_100x75();
    let pf = PixelFormat::rgba32();
    let tiles = rfb_encodings::zrle::build_tile_stream(&input, 100, 75, &pf);

    let mut enc = flate2::write::ZlibEncoder::new(Vec::new(), flate2::Compression::new(6));
    enc.write_all(&tiles).unwrap();
    let compressed = enc.finish().unwrap();

    let mut expected = (compressed.len() as u32).to_be_bytes().to_vec();
    expected.extend_from_slice(&compressed);

    let encoded = encode_zrle(&input, 100, 75, &pf, 6).unwrap();
    assert_eq!(encoded, expected);
}
