use ppmview::{decode_ppm_image, read_num, ByteCursor, Image, Pixel, PpmError};

fn decode(bytes: &[u8]) -> Result<Image, PpmError> {
    let mut cursor = ByteCursor::new(bytes.to_vec());
    decode_ppm_image(&mut cursor)
}

fn px(r: u8, g: u8, b: u8) -> Pixel {
    Pixel { r, g, b }
}

/// Writes rows one after the other, left to right.
fn encode_row_major(width: u32, height: u32, rows: &[Vec<Pixel>]) -> Vec<u8> {
    let mut out = format!("P6 {} {} 255\n", width, height).into_bytes();
    for row in rows {
        for p in row {
            out.push(p.r);
            out.push(p.g);
            out.push(p.b);
        }
    }
    out
}

/// Writes columns one after the other, top to bottom.
fn encode_column_major(width: u32, height: u32, rows: &[Vec<Pixel>]) -> Vec<u8> {
    let mut out = format!("P6 {} {} 255\n", width, height).into_bytes();
    for c in 0..width as usize {
        for r in 0..height as usize {
            let p = rows[r][c];
            out.push(p.r);
            out.push(p.g);
            out.push(p.b);
        }
    }
    out
}

fn sample_rows() -> Vec<Vec<Pixel>> {
    vec![
        vec![px(1, 2, 3), px(4, 5, 6), px(7, 8, 9)],
        vec![px(10, 11, 12), px(13, 14, 15), px(255, 0, 128)],
    ]
}

#[test]
fn literal_one_pixel_image() {
    let img = decode(b"P6 1 1 255 \xFF\x00\x7F").unwrap();
    assert_eq!(img.width, 1);
    assert_eq!(img.height, 1);
    assert_eq!(img.pixels.len(), 1);
    assert_eq!(img.pixels[0], vec![px(255, 0, 127)]);
}

#[test]
fn well_formed_buffer_has_declared_shape() {
    let mut bytes = b"P6 4 3 255\n".to_vec();
    bytes.extend((0..36).map(|i| i as u8));
    let img = decode(&bytes).unwrap();
    assert_eq!(img.width, 4);
    assert_eq!(img.height, 3);
    assert_eq!(img.pixels.len(), 3);
    for row in &img.pixels {
        assert_eq!(row.len(), 4);
    }
}

#[test]
fn cursor_ends_after_pixel_block() {
    let mut bytes = b"P6 2 1 255\n".to_vec();
    bytes.extend([1, 2, 3, 4, 5, 6, 7, 8]);
    let mut cursor = ByteCursor::new(bytes);
    decode_ppm_image(&mut cursor).unwrap();
    assert_eq!(cursor.position(), 17);
}

#[test]
fn wrong_magic_is_refused() {
    let mut cursor = ByteCursor::new(b"P5 1 1 255 \x00\x00\x00".to_vec());
    assert_eq!(decode_ppm_image(&mut cursor).err(), Some(PpmError::InvalidMagic));
    assert_eq!(cursor.position(), 2);
}

#[test]
fn lower_case_magic_is_refused() {
    assert_eq!(decode(b"p6 1 1 255 \x00\x00\x00").err(), Some(PpmError::InvalidMagic));
}

#[test]
fn letter_in_token_is_malformed() {
    assert_eq!(decode(b"P6 12a3 1 255 \x00\x00\x00").err(), Some(PpmError::MalformedToken));
}

#[test]
fn letter_in_height_is_malformed() {
    assert_eq!(decode(b"P6 1 x 255 \x00\x00\x00").err(), Some(PpmError::MalformedToken));
}

#[test]
fn carriage_return_is_not_a_separator() {
    assert_eq!(decode(b"P6 1\r1 255 \x00\x00\x00").err(), Some(PpmError::MalformedToken));
}

#[test]
fn token_too_large_is_malformed() {
    assert_eq!(decode(b"P6 4294967296 1 255 ").err(), Some(PpmError::MalformedToken));
}

#[test]
fn truncated_pixel_block_is_io_error() {
    let mut bytes = b"P6 2 2 255\n".to_vec();
    bytes.extend([1, 2, 3, 4, 5]);
    assert_eq!(decode(&bytes).err(), Some(PpmError::IoError));
}

#[test]
fn empty_buffer_is_io_error() {
    assert_eq!(decode(b"").err(), Some(PpmError::IoError));
    assert_eq!(decode(b"P").err(), Some(PpmError::IoError));
}

#[test]
fn header_cut_short_is_io_error() {
    assert_eq!(decode(b"P6 12").err(), Some(PpmError::IoError));
    assert_eq!(decode(b"P6 1 1 255").err(), Some(PpmError::IoError));
    assert_eq!(decode(b"P6   ").err(), Some(PpmError::IoError));
}

#[test]
fn round_trip_row_major() {
    let rows = sample_rows();
    let img = decode(&encode_row_major(3, 2, &rows)).unwrap();
    assert_eq!(img.width, 3);
    assert_eq!(img.height, 2);
    assert_eq!(img.pixels, rows);
}

#[test]
fn column_major_bytes_are_read_row_major() {
    let rows = sample_rows();
    let img = decode(&encode_column_major(3, 2, &rows)).unwrap();
    assert_eq!(img.width, 3);
    assert_eq!(img.height, 2);
    assert_ne!(img.pixels, rows);
    assert_eq!(img.pixels[0], vec![px(1, 2, 3), px(10, 11, 12), px(4, 5, 6)]);
    assert_eq!(img.pixels[1], vec![px(13, 14, 15), px(7, 8, 9), px(255, 0, 128)]);
}

#[test]
fn mixed_whitespace_parses_as_single_spaces() {
    let body = [9u8, 8, 7, 6, 5, 4];
    let mut mixed = b"P6\t\n 2 \n\t1\n\n 255\t".to_vec();
    mixed.extend(body);
    let mut plain = b"P6 2 1 255 ".to_vec();
    plain.extend(body);
    let a = decode(&mixed).unwrap();
    let b = decode(&plain).unwrap();
    assert_eq!(a.width, b.width);
    assert_eq!(a.height, b.height);
    assert_eq!(a.pixels, b.pixels);
    assert_eq!(a.pixels, vec![vec![px(9, 8, 7), px(6, 5, 4)]]);
}

#[test]
fn only_one_separator_byte_is_skipped() {
    let img = decode(b"P6 1 1 255  \x01\x02").unwrap();
    assert_eq!(img.pixels[0][0], px(32, 1, 2));
}

#[test]
fn max_value_is_not_enforced() {
    let img = decode(b"P6 1 1 15 \xFF\x80\x00").unwrap();
    assert_eq!(img.pixels[0][0], px(255, 128, 0));
}

#[test]
fn zero_width_gives_empty_rows() {
    let img = decode(b"P6 0 3 255 ").unwrap();
    assert_eq!(img.width, 0);
    assert_eq!(img.height, 3);
    assert_eq!(img.pixels, vec![Vec::<Pixel>::new(), Vec::new(), Vec::new()]);
}

#[test]
fn leading_zeros_are_accepted() {
    let img = decode(b"P6 001 01 255 \x01\x02\x03").unwrap();
    assert_eq!(img.width, 1);
    assert_eq!(img.height, 1);
}

#[test]
fn read_num_skips_whitespace_and_stops_on_delimiter() {
    let mut cursor = ByteCursor::new(b" \t\n42\nrest".to_vec());
    assert_eq!(read_num(&mut cursor), Ok(42));
    assert_eq!(cursor.position(), 5);
}

#[test]
fn read_num_reads_largest_u32() {
    let mut cursor = ByteCursor::new(b"4294967295 ".to_vec());
    assert_eq!(read_num(&mut cursor), Ok(u32::MAX));
}

#[test]
fn read_num_refuses_overflow_and_stray_bytes() {
    let mut cursor = ByteCursor::new(b"99999999999999999999 ".to_vec());
    assert_eq!(read_num(&mut cursor), Err(PpmError::MalformedToken));
    let mut cursor = ByteCursor::new(b"-1 ".to_vec());
    assert_eq!(read_num(&mut cursor), Err(PpmError::MalformedToken));
}

#[test]
fn read_num_needs_a_delimiter() {
    let mut cursor = ByteCursor::new(b"17".to_vec());
    assert_eq!(read_num(&mut cursor), Err(PpmError::IoError));
}
