use davis::sixel::{encode_indexed, percent_of_channel, to_sixel, Error, Raster};

fn flat(width: u32, height: u32, rgba: [u8; 4]) -> Raster {
    let mut pixels = Vec::new();
    for _ in 0..width * height {
        pixels.extend_from_slice(&rgba);
    }
    Raster { width, height, pixels }
}

/// The number of colour definitions, and the bytes between them and the
/// terminator.
fn split_output(out: &[u8]) -> (usize, &[u8]) {
    assert!(out.ends_with(b"\x1B\\"));
    let body = &out[..out.len() - 2];
    let mut i = body.iter().position(|&b| b == b'#').unwrap();
    let mut definitions = 0;
    loop {
        let rest = &body[i..];
        let end = rest[1..].iter().position(|&b| b == b'#').map(|p| p + 1).unwrap_or(rest.len());
        if rest[..end].contains(&b';') {
            definitions += 1;
            i += end;
        } else {
            return (definitions, &body[i..]);
        }
    }
}

fn band_data(out: &[u8]) -> &[u8] {
    split_output(out).1
}

fn palette_count(out: &[u8]) -> usize {
    split_output(out).0
}

#[test]
fn channel_rescale_is_rounded() {
    assert_eq!(percent_of_channel(255), 100);
    assert_eq!(percent_of_channel(0), 0);
    assert_eq!(percent_of_channel(128), 50);
    assert_eq!(percent_of_channel(64), 25);
    assert_eq!(percent_of_channel(32), 13);
    assert_eq!(percent_of_channel(1), 0);
    assert_eq!(percent_of_channel(2), 1);
}

#[test]
fn single_pixel_definitions() {
    let cases = [
        ((255u8, 255u8, 255u8), "100;100;100"),
        ((0, 0, 0), "0;0;0"),
        ((128, 64, 32), "50;25;13"),
    ];
    for ((r, g, b), want) in cases {
        let out = encode_indexed(1, 1, &vec![(r, g, b, 255)], &vec![0]);
        let expected = format!("\x1BPq\"1;1;1;1#0;2;{}#0@-\x1B\\", want);
        assert_eq!(out, expected.as_bytes().to_vec());
    }
}

#[test]
fn single_pixel_end_to_end() {
    let white = to_sixel(1, &flat(1, 1, [255, 255, 255, 255]), 2).unwrap();
    let text = String::from_utf8(white).unwrap();
    assert!(text.starts_with("\x1BPq\"1;1;1;1#0;2;100;100;100"));
    let black = to_sixel(1, &flat(1, 1, [0, 0, 0, 255]), 2).unwrap();
    let text = String::from_utf8(black).unwrap();
    assert!(text.starts_with("\x1BPq\"1;1;1;1#0;2;0;0;0"));
}

#[test]
fn skip_run_for_gap() {
    let mut idx = vec![0u8; 12];
    for x in 4..8 {
        idx[x] = 1;
    }
    let out = encode_indexed(12, 1, &vec![(255, 0, 0, 255), (0, 0, 255, 255)], &idx);
    let expected = "\x1BPq\"1;1;12;1#0;2;100;0;0#1;2;0;0;100#0@@@@!4?@@@@$#1!4?@@@@-\x1B\\";
    assert_eq!(String::from_utf8(out).unwrap(), expected);
}

#[test]
fn bands_pack_six_rows() {
    // Two columns, seven rows: the first band is full, the second has one row.
    let idx = vec![0, 1, 0, 1, 0, 1, 0, 1, 0, 1, 0, 1, 1, 1];
    let out = encode_indexed(2, 7, &vec![(0, 0, 0, 255), (255, 255, 255, 255)], &idx);
    let expected = "\x1BPq\"1;1;2;7#0;2;0;0;0#1;2;100;100;100#0~$#1!1?~-#1@@-\x1B\\";
    assert_eq!(String::from_utf8(out).unwrap(), expected);
}

#[test]
fn two_colour_blocks_round_trip() {
    let mut pixels = Vec::new();
    for y in 0..12 {
        for _ in 0..12 {
            if y < 6 {
                pixels.extend_from_slice(&[255, 0, 0, 255]);
            } else {
                pixels.extend_from_slice(&[0, 0, 255, 255]);
            }
        }
    }
    let raster = Raster { width: 12, height: 12, pixels };
    let out = to_sixel(12, &raster, 2).unwrap();
    assert_eq!(palette_count(&out), 2);
    let text = String::from_utf8(out.clone()).unwrap();
    assert!(text.starts_with("\x1BPq\"1;1;12;12#"));
    let red = if text.contains("#0;2;100;0;0") { 0 } else { 1 };
    let blue = 1 - red;
    let full = "~".repeat(12);
    let expected = format!("#{}{}-#{}{}-", red, full, blue, full);
    assert_eq!(band_data(&out), expected.as_bytes());
}

#[test]
fn empty_raster_is_an_input_error() {
    let raster = Raster { width: 0, height: 0, pixels: vec![] };
    assert_eq!(to_sixel(10, &raster, 16), Err(Error::InputError));
}

#[test]
fn malformed_input_is_refused() {
    let raster = Raster { width: 2, height: 2, pixels: vec![0; 15] };
    assert_eq!(to_sixel(2, &raster, 16), Err(Error::InputError));
    assert_eq!(to_sixel(0, &flat(2, 2, [1, 2, 3, 255]), 16), Err(Error::InputError));
}

#[test]
fn palette_size_outside_quantizer_range() {
    let raster = flat(3, 3, [10, 20, 30, 255]);
    assert_eq!(to_sixel(3, &raster, 1), Err(Error::QuantizationError));
    assert_eq!(to_sixel(3, &raster, 257), Err(Error::QuantizationError));
}

#[test]
fn header_dimensions_scale_height() {
    let out = to_sixel(8, &flat(4, 2, [9, 9, 9, 255]), 4).unwrap();
    assert!(out.starts_with(b"\x1BPq\"1;1;8;4#"));
    // 2 * 3 / 4 = 1.5 rounds up.
    let out = to_sixel(2, &flat(4, 3, [9, 9, 9, 255]), 4).unwrap();
    assert!(out.starts_with(b"\x1BPq\"1;1;2;2#"));
    // 1 * 2 / 3 rounds to one row.
    let out = to_sixel(2, &flat(3, 1, [9, 9, 9, 255]), 4).unwrap();
    assert!(out.starts_with(b"\x1BPq\"1;1;2;1#"));
    // A result below half a row still keeps one row.
    let out = to_sixel(1, &flat(10, 1, [9, 9, 9, 255]), 4).unwrap();
    assert!(out.starts_with(b"\x1BPq\"1;1;1;1#"));
}

#[test]
fn upscaled_image_has_target_width() {
    let out = to_sixel(4, &flat(2, 2, [200, 100, 50, 255]), 4).unwrap();
    let text = String::from_utf8(out.clone()).unwrap();
    assert!(text.starts_with("\x1BPq\"1;1;4;4#"));
    // One colour, four columns, one band.
    let data = band_data(&out);
    assert_eq!(data.len(), 2 + 4 + 1);
    assert_eq!(&data[2..], b"NNNN-");
}

fn gradient(width: u32, height: u32) -> Raster {
    let mut pixels = Vec::new();
    for y in 0..height {
        for x in 0..width {
            pixels.extend_from_slice(&[(x * 17 % 256) as u8, (y * 29 % 256) as u8, ((x + y) * 7 % 256) as u8, 255]);
        }
    }
    Raster { width, height, pixels }
}

#[test]
fn band_count_is_rows_over_six() {
    let out = to_sixel(10, &gradient(10, 13), 8).unwrap();
    assert!(out.starts_with(b"\x1BPq\"1;1;10;13#"));
    assert_eq!(out.iter().filter(|&&b| b == b'-').count(), 3);
    let out = to_sixel(10, &gradient(10, 12), 8).unwrap();
    assert_eq!(out.iter().filter(|&&b| b == b'-').count(), 2);
}

#[test]
fn palette_bound_and_references() {
    let out = to_sixel(16, &gradient(16, 16), 5).unwrap();
    let count = palette_count(&out);
    assert!(count >= 1 && count <= 5);
    let data = band_data(&out);
    let mut i = 0;
    while i < data.len() {
        if data[i] == b'#' {
            let mut j = i + 1;
            let mut n = 0usize;
            while j < data.len() && data[j].is_ascii_digit() {
                n = n * 10 + (data[j] - b'0') as usize;
                j += 1;
            }
            assert!(n < count);
            i = j;
        } else {
            i += 1;
        }
    }
}

#[test]
fn encoding_is_deterministic() {
    let a = to_sixel(12, &gradient(20, 15), 16).unwrap();
    let b = to_sixel(12, &gradient(20, 15), 16).unwrap();
    assert_eq!(a, b);
}
