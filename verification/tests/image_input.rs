use tesseract_ocr::image_input::{parse_pgm, scale_li_pixel, PgmError};

#[test]
fn parses_a_p5_pgm() {
    let mut b = b"P5\n3 2\n255\n".to_vec();
    b.extend_from_slice(&[10, 20, 30, 40, 50, 60]);
    let (grey, w, h) = parse_pgm(&b).expect("valid pgm");
    assert_eq!((w, h), (3, 2));
    assert_eq!(grey, vec![10, 20, 30, 40, 50, 60]);
}

#[test]
fn pgm_header_with_comment() {
    let mut b = b"P5\n# a comment\n3 2\n255\n".to_vec();
    b.extend_from_slice(&[1, 2, 3, 4, 5, 6]);
    let (grey, w, h) = parse_pgm(&b).expect("valid pgm");
    assert_eq!((w, h, grey.len()), (3, 2, 6));
}

#[test]
fn pgm_errors() {
    assert_eq!(parse_pgm(b"P6\n1 1\n255\n\0"), Err(PgmError::BadMagic));
    assert_eq!(parse_pgm(b"P5\n2 2\n255\n\0"), Err(PgmError::Truncated));
}

#[test]
fn pgm_header_errors_are_reported() {
    assert_eq!(parse_pgm(b"P"), Err(PgmError::BadMagic));
    assert_eq!(parse_pgm(b"P5\n2 x\n255\n"), Err(PgmError::BadHeader));
    assert_eq!(parse_pgm(b"P5\n2 2\n65535\n"), Err(PgmError::Not8Bit));
    // No separator byte after maxval.
    assert_eq!(parse_pgm(b"P5\n1 1\n255"), Err(PgmError::BadHeader));
    // A width that does not fit in usize.
    assert_eq!(parse_pgm(b"P5\n99999999999999999999999 1\n255\n\0"), Err(PgmError::BadHeader));
    // width * height overflows.
    assert_eq!(parse_pgm(b"P5 18446744073709551615 2 255 \0"), Err(PgmError::BadHeader));
}

#[test]
fn extra_trailing_bytes_are_ignored_and_comments_may_sit_anywhere() {
    let mut b = b"P5 # c1\n#c2\n 2\t# c3\n1\r255 ".to_vec();
    b.extend_from_slice(&[7, 8, 9, 9]);
    let (grey, w, h) = parse_pgm(&b).expect("valid pgm");
    assert_eq!((w, h), (2, 1));
    assert_eq!(grey, vec![7, 8]);
}

#[test]
fn leading_zeros_and_empty_raster() {
    let (grey, w, h) = parse_pgm(b"P5\n0003 0 0255\n").expect("valid pgm");
    assert_eq!((w, h, grey.len()), (3, 0, 0));
}

#[test]
fn error_messages() {
    assert_eq!(PgmError::BadMagic.message(), "not a P5 PGM");
    assert_eq!(PgmError::Truncated.message(), "PGM pixel data truncated");
}

#[test]
fn li_pixel_at_whole_positions_is_the_pixel() {
    let src = [10u8, 20, 30, 40, 50, 60];
    for y in 0..2i32 {
        for x in 0..3i32 {
            assert_eq!(scale_li_pixel(&src, 3, 2, 16 * x, 16 * y), src[(y * 3 + x) as usize]);
        }
    }
}

#[test]
fn li_pixel_interpolates_and_clamps_at_the_edges() {
    let src = [0u8, 160, 80, 240];
    // Halfway between 0 and 160 on the top row: (8·16·0 + 8·16·160 + 128) / 256 = 80.
    assert_eq!(scale_li_pixel(&src, 2, 2, 8, 0), 80);
    // The centre of the four pixels: (64·0 + 64·160 + 64·80 + 64·240 + 128) / 256 = 120.
    assert_eq!(scale_li_pixel(&src, 2, 2, 8, 8), 120);
    // Past the last column the right neighbour is the pixel itself.
    assert_eq!(scale_li_pixel(&src, 2, 2, 16 + 8, 0), 160);
}
