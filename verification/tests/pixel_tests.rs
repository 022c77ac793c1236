//! Pixel-format primitives and the compact length codec, on concrete
//! values.

use rfb_encodings::compact::decode_compact;
use rfb_encodings::compact::encode_compact;
use rfb_encodings::pixel::bytes_per_cpixel;
use rfb_encodings::pixel::bytes_per_pixel;
use rfb_encodings::pixel::read_pixel;
use rfb_encodings::pixel::translate_pixel_to_client_format;
use rfb_encodings::pixel::use_cpixel_24a;
use rfb_encodings::pixel::PixelFormat;

#[test]
fn test_bytes_per_cpixel_rgba32() {
    let pf = PixelFormat::rgba32();
    assert_eq!(bytes_per_cpixel(&pf), 3);
}

#[test]
fn test_bytes_per_pixel_rgba32() {
    let pf = PixelFormat::rgba32();
    assert_eq!(bytes_per_pixel(&pf), 4);
}

#[test]
fn cpixel_24a_for_rgba32() {
    let pf = PixelFormat::rgba32();
    assert!(use_cpixel_24a(&pf));
}

#[test]
fn read_pixel_little_and_big_endian() {
    let pf_le = PixelFormat::rgba32();
    let mut pf_be = pf_le;
    pf_be.big_endian_flag = 1;
    let data = [0x01u8, 0x02, 0x03, 0x04];
    assert_eq!(read_pixel(&data, &pf_le), 0x04030201);
    assert_eq!(read_pixel(&data, &pf_be), 0x01020304);

    let pf16 = PixelFormat {
        bits_per_pixel: 16,
        depth: 16,
        big_endian_flag: 0,
        true_colour_flag: 1,
        red_max: 31,
        green_max: 63,
        blue_max: 31,
        red_shift: 11,
        green_shift: 5,
        blue_shift: 0,
    };
    assert_eq!(read_pixel(&data, &pf16), 0x0201);
}

#[test]
fn translate_rgb888_gives_three_raw_bytes() {
    let pf = PixelFormat::rgba32();
    // Internal color: R in the low byte, G next, B third.
    let color = 0x00C80000u32 | 0x10u32 | (0x20u32 << 8);
    let bytes = translate_pixel_to_client_format(color, &pf);
    assert_eq!(&bytes[..], &[0x10, 0x20, 0xC8]);
}

#[test]
fn translate_scales_to_16bpp() {
    let pf16 = PixelFormat {
        bits_per_pixel: 16,
        depth: 16,
        big_endian_flag: 0,
        true_colour_flag: 1,
        red_max: 31,
        green_max: 63,
        blue_max: 31,
        red_shift: 11,
        green_shift: 5,
        blue_shift: 0,
    };
    // Pure white scales to all channel maxima.
    let bytes = translate_pixel_to_client_format(0x00FFFFFF, &pf16);
    let v = u16::from_le_bytes([bytes[0], bytes[1]]);
    assert_eq!(v, 0xFFFF);
}

#[test]
fn test_compact_length_boundaries() {
    assert_eq!(&encode_compact(127)[..], &[0x7F]);
    assert_eq!(&encode_compact(128)[..], &[0x80, 0x01]);
    assert_eq!(&encode_compact(16383)[..], &[0xFF, 0x7F]);
    assert_eq!(&encode_compact(16384)[..], &[0x80, 0x80, 0x01]);
}

#[test]
fn test_compact_round_trip_samples() {
    let samples: [u32; 12] = [
        0,
        1,
        5,
        127,
        128,
        129,
        1000,
        16383,
        16384,
        65536,
        1000000,
        (1 << 22) - 1,
    ];
    for &n in samples.iter() {
        let bytes = encode_compact(n);
        assert_eq!(decode_compact(&bytes), Some(n), "round trip failed for {}", n);
    }
}

#[test]
fn test_compact_decode_rejects_malformed() {
    assert_eq!(decode_compact(&[]), None);
    assert_eq!(decode_compact(&[0x80]), None);
    assert_eq!(decode_compact(&[0x80, 0x80]), None);
    assert_eq!(decode_compact(&[0x01, 0x01]), None);
}
