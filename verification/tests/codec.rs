use imgcpr::DecodeError;
use imgcpr::PaletteMethod;
use imgcpr::RgbU8;
use imgcpr::compress;
use imgcpr::compress_freq;
use imgcpr::decompress;
use imgcpr::encode_payload;
use imgcpr::read;

fn rgb(r: u8, g: u8, b: u8) -> RgbU8 {
    RgbU8 { r, g, b }
}

#[test]
fn read_is_little_endian() {
    let bytes = vec![0x78, 0x56, 0x34, 0x12, 0xff];
    assert_eq!(read(&bytes, 0), 0x12345678);
    assert_eq!(read(&bytes, 1), 0xff123456);
}

#[test]
fn encode_layout_is_exact() {
    let palette = vec![rgb(10, 20, 30), rgb(40, 50, 60)];
    let indices = vec![0u8, 1u8];
    let bytes = encode_payload(2, 1, &palette, &indices);
    assert_eq!(
        bytes,
        vec![
            2, 0, 0, 0, // width
            1, 0, 0, 0, // height
            2, 0, 0, 0, // palette length
            10, 20, 30, 40, 50, 60, // palette
            0x10, // pixel 0 in the low nibble, pixel 1 in the high nibble
        ]
    );
}

#[test]
fn encode_odd_pixel_count_leaves_high_nibble_zero() {
    let palette = vec![rgb(1, 1, 1), rgb(2, 2, 2)];
    let indices = vec![1u8, 0u8, 1u8];
    let bytes = encode_payload(3, 1, &palette, &indices);
    assert_eq!(&bytes[12..18], &[1, 1, 1, 2, 2, 2]);
    assert_eq!(&bytes[18..], &[0x01, 0x01]);
}

#[test]
fn decode_reverses_encode() {
    let palette = vec![rgb(9, 8, 7), rgb(1, 2, 3), rgb(200, 100, 50)];
    let indices = vec![2u8, 0, 0, 1, 2];
    let bytes = encode_payload(5, 1, &palette, &indices);
    let img = decompress(&bytes).unwrap();
    assert_eq!(img.width, 5);
    assert_eq!(img.height, 1);
    let expected: Vec<RgbU8> = indices.iter().map(|&i| palette[i as usize]).collect();
    assert_eq!(img.pixels, expected);
}

#[test]
fn decode_empty_image() {
    let bytes = encode_payload(0, 0, &Vec::new(), &Vec::new());
    assert_eq!(bytes.len(), 12);
    let img = decompress(&bytes).unwrap();
    assert_eq!(img.width, 0);
    assert_eq!(img.height, 0);
    assert_eq!(img.pixels.len(), 0);
}

#[test]
fn decode_short_header_is_truncated() {
    let bytes = vec![1, 2, 3];
    assert_eq!(decompress(&bytes).unwrap_err(), DecodeError::Truncated);
}

#[test]
fn decode_missing_palette_bytes_is_truncated() {
    // header says one palette entry and one pixel, but nothing follows
    let bytes = vec![1, 0, 0, 0, 1, 0, 0, 0, 1, 0, 0, 0];
    assert_eq!(decompress(&bytes).unwrap_err(), DecodeError::Truncated);
}

#[test]
fn decode_index_beyond_palette_is_invalid() {
    let palette = vec![rgb(1, 2, 3)];
    let mut bytes = encode_payload(1, 1, &palette, &vec![0u8]);
    let last = bytes.len() - 1;
    bytes[last] = 0x05;
    assert_eq!(decompress(&bytes).unwrap_err(), DecodeError::InvalidIndex);
}

#[test]
fn decode_with_empty_palette_and_pixels_is_invalid() {
    // one pixel but a zero-length palette: its index 0 cannot be valid
    let bytes = vec![1, 0, 0, 0, 1, 0, 0, 0, 0, 0, 0, 0, 0x00];
    assert_eq!(decompress(&bytes).unwrap_err(), DecodeError::InvalidIndex);
}

#[test]
fn decode_ignores_trailing_bytes() {
    let palette = vec![rgb(3, 4, 5)];
    let mut bytes = encode_payload(1, 1, &palette, &vec![0u8]);
    bytes.push(0xab);
    let img = decompress(&bytes).unwrap();
    assert_eq!(img.pixels, vec![rgb(3, 4, 5)]);
}

#[test]
fn freq_scenario_two_far_pixels() {
    // a 2x1 image: red and green fall in far-apart buckets, both kept,
    // and the packed byte maps pixel 0 to index 0 and pixel 1 to index 1
    let pixels = vec![rgb(255, 0, 0), rgb(0, 255, 0)];
    let bytes = compress_freq(2, 1, &pixels);
    assert_eq!(
        bytes,
        vec![
            2, 0, 0, 0, // width
            1, 0, 0, 0, // height
            2, 0, 0, 0, // palette length
            240, 0, 0, // the red pixel's bucket
            0, 240, 0, // the green pixel's bucket
            0x10,
        ]
    );
    let img = decompress(&bytes).unwrap();
    assert_eq!(img.pixels, vec![rgb(240, 0, 0), rgb(0, 240, 0)]);
}

#[test]
fn compress_freq_round_trip_keeps_dimensions_and_palette_colors() {
    let mut pixels = Vec::new();
    for y in 0..2u8 {
        for x in 0..3u8 {
            pixels.push(rgb(x * 80, y * 120, 200));
        }
    }
    let bytes = compress(3, 2, &pixels, PaletteMethod::Freq);
    let img = decompress(&bytes).unwrap();
    assert_eq!(img.width, 3);
    assert_eq!(img.height, 2);
    assert_eq!(img.pixels.len(), 6);
    // every decoded pixel is a stored palette entry
    let n = read(&bytes, 8) as usize;
    let palette: Vec<RgbU8> = (0..n)
        .map(|i| rgb(bytes[12 + 3 * i], bytes[12 + 3 * i + 1], bytes[12 + 3 * i + 2]))
        .collect();
    for p in &img.pixels {
        assert!(palette.contains(p));
    }
}

#[test]
fn compress_k_means_on_display_colors_round_trips() {
    // two pixels give two clusters; two distant pixels seed two
    // distinct centroids, so this image survives compression exactly
    let pixels = vec![rgb(255, 0, 0), rgb(0, 255, 0)];
    let bytes = compress(2, 1, &pixels, PaletteMethod::KMeans);
    assert_eq!(read(&bytes, 0), 2);
    assert_eq!(read(&bytes, 4), 1);
    assert_eq!(read(&bytes, 8), 2);
    let img = decompress(&bytes).unwrap();
    assert_eq!(img.pixels, pixels);
}
