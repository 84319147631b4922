use tesseract_ocr::morph::{close_brick, dilate_brick, erode_brick, open_brick};

fn to_binary(on_pixels: &[(usize, usize)], w: usize, h: usize) -> Vec<u8> {
    let mut buf = vec![255_u8; w * h];
    for &(x, y) in on_pixels {
        buf[y * w + x] = 0;
    }
    buf
}

fn is_on(buf: &[u8], w: usize, x: usize, y: usize) -> bool {
    buf[y * w + x] == 0
}

#[test]
fn dilate_single_pixel_grows_to_brick_shape() {
    let w = 7;
    let h = 7;
    let binary = to_binary(&[(3, 3)], w, h);
    let out = dilate_brick(&binary, w, h, 3, 3);
    for y in 2..=4 {
        for x in 2..=4 {
            assert!(is_on(&out, w, x, y), "expected ON at ({x},{y})");
        }
    }
    assert!(!is_on(&out, w, 1, 1));
    assert!(!is_on(&out, w, 5, 5));
    assert!(!is_on(&out, w, 3, 1));
    assert!(!is_on(&out, w, 3, 5));
}

#[test]
fn erode_full_black_5x5_brick_3x3_clears_one_pixel_border() {
    let w = 5;
    let h = 5;
    let binary = vec![0_u8; w * h];
    let out = erode_brick(&binary, w, h, 3, 3);
    for y in 0..h {
        for x in 0..w {
            let expect_on = (1..=3).contains(&x) && (1..=3).contains(&y);
            assert_eq!(is_on(&out, w, x, y), expect_on, "mismatch at ({x},{y}): expected on={expect_on}");
        }
    }
}

#[test]
fn open_brick_matches_erode_then_dilate_composition() {
    let w = 9;
    let h = 9;
    let binary = to_binary(&[(4, 4), (0, 0)], w, h);
    let opened = open_brick(&binary, w, h, 3, 3);
    let eroded = erode_brick(&binary, w, h, 3, 3);
    let manual = dilate_brick(&eroded, w, h, 3, 3);
    assert_eq!(opened, manual);
    assert!(!is_on(&opened, w, 0, 0));
}

#[test]
fn close_brick_matches_dilate_then_erode_composition() {
    let w = 9;
    let h = 9;
    let binary = to_binary(&[(4, 4)], w, h);
    let closed = close_brick(&binary, w, h, 3, 3);
    let dilated = dilate_brick(&binary, w, h, 3, 3);
    let manual = erode_brick(&dilated, w, h, 3, 3);
    assert_eq!(closed, manual);
}

#[test]
fn hsize_vsize_one_is_identity_copy() {
    let w = 6;
    let h = 6;
    let binary = to_binary(&[(1, 1), (4, 5)], w, h);
    assert_eq!(dilate_brick(&binary, w, h, 1, 1), binary);
    assert_eq!(erode_brick(&binary, w, h, 1, 1), binary);
    assert_eq!(open_brick(&binary, w, h, 1, 1), binary);
    assert_eq!(close_brick(&binary, w, h, 1, 1), binary);
}

#[test]
fn even_size_brick_has_asymmetric_center() {
    let w = 6;
    let h = 6;
    let binary = vec![0_u8; w * h];
    let out = erode_brick(&binary, w, h, 2, 2);
    for y in 0..h {
        assert!(!is_on(&out, w, 0, y), "left column must be cleared");
    }
    for x in 0..w {
        assert!(!is_on(&out, w, x, 0), "top row must be cleared");
    }
    assert!(is_on(&out, w, w - 1, 3), "right column not cleared for even-size brick (xn=0)");
}

#[test]
fn opening_never_adds_ink() {
    let w = 8;
    let h = 5;
    let binary = to_binary(&[(1, 1), (2, 1), (3, 1), (1, 2), (2, 2), (3, 2), (6, 4)], w, h);
    let opened = open_brick(&binary, w, h, 2, 2);
    for y in 0..h {
        for x in 0..w {
            if is_on(&opened, w, x, y) {
                assert!(is_on(&binary, w, x, y), "opening added ink at ({x},{y})");
            }
        }
    }
    // The 3x2 block survives a 2x2 opening; the isolated speck does not.
    assert!(is_on(&opened, w, 2, 1));
    assert!(!is_on(&opened, w, 6, 4));
}

#[test]
fn dilation_keeps_ink_and_erosion_never_adds_it() {
    let (w, h) = (9usize, 7usize);
    let src = to_binary(&[(1, 1), (2, 1), (3, 1), (4, 4), (4, 5), (5, 5), (7, 2)], w, h);
    for &(hs, vs) in &[(1usize, 1usize), (3, 1), (1, 3), (2, 3), (3, 3)] {
        let dil = dilate_brick(&src, w, h, hs, vs);
        let ero = erode_brick(&src, w, h, hs, vs);
        for i in 0..w * h {
            if src[i] == 0 {
                assert_eq!(dil[i], 0, "dilation lost ink at {i} for {hs}x{vs}");
            }
            if ero[i] == 0 {
                assert_eq!(src[i], 0, "erosion added ink at {i} for {hs}x{vs}");
            }
        }
    }
}
