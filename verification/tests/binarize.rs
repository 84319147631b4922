use tesseract_ocr::binarize::{add_mirrored_border, apply_local_threshold, blockconv_accum, window_fits};

#[test]
fn mirror_border_reflects_edge_duplicated() {
    let (w, h, d) = add_mirrored_border(&[10, 20, 30], 3, 1, 2);
    assert_eq!((w, h), (7, 5));
    let row = &d[2 * 7..3 * 7];
    assert_eq!(row, &[20, 10, 10, 20, 30, 30, 20]);
}

#[test]
fn mirror_border_corners_and_rows() {
    // 2x2 [[1,2],[3,4]] with a border of 1.
    let (w, h, d) = add_mirrored_border(&[1, 2, 3, 4], 2, 2, 1);
    assert_eq!((w, h), (4, 4));
    assert_eq!(d, vec![1, 1, 2, 2, 1, 1, 2, 2, 3, 3, 4, 4, 3, 3, 4, 4]);
}

#[test]
fn border_wider_than_the_image_keeps_reflecting() {
    // 1-pixel-wide image: every column of the bordered row is that pixel.
    let (w, h, d) = add_mirrored_border(&[9], 1, 1, 3);
    assert_eq!((w, h), (7, 7));
    assert!(d.iter().all(|&v| v == 9));
    // 2-wide row, border 3: ... 1 2 2 1 | 1 2 | 2 1 1 ...
    let (w, _, d) = add_mirrored_border(&[1, 2], 2, 1, 3);
    assert_eq!(w, 8);
    assert_eq!(&d[3 * 8..4 * 8], &[2, 2, 1, 1, 2, 2, 1, 1]);
}

#[test]
fn zero_border_is_a_copy_and_empty_image_is_zero() {
    let (w, h, d) = add_mirrored_border(&[5, 6, 7, 8, 9, 10], 3, 2, 0);
    assert_eq!((w, h, d), (3, 2, vec![5, 6, 7, 8, 9, 10]));
    let (w, h, d) = add_mirrored_border(&[], 0, 2, 1);
    assert_eq!((w, h), (2, 4));
    assert!(d.iter().all(|&v| v == 0));
}

#[test]
fn local_threshold_marks_darker_pixels() {
    assert_eq!(apply_local_threshold(&[10, 100, 200, 50], &[50, 100, 100, 51], 4), vec![1, 0, 0, 1]);
}

#[test]
fn blockconv_accum_is_the_summed_area_table() {
    let src = [1u8, 2, 3, 4, 5, 6];
    // 3 × 2: rows [1 2 3] and [4 5 6].
    let a = blockconv_accum(&src, 3, 2);
    assert_eq!(a, vec![1, 3, 6, 5, 12, 21]);
    assert!(blockconv_accum(&[], 0, 4).is_empty());
    assert!(blockconv_accum(&[], 4, 0).is_empty());
}

#[test]
fn blockconv_accum_single_column_and_row() {
    assert_eq!(blockconv_accum(&[7, 8, 9], 1, 3), vec![7, 15, 24]);
    assert_eq!(blockconv_accum(&[7, 8, 9], 3, 1), vec![7, 15, 24]);
}

#[test]
fn window_fits_guards_size_and_window() {
    assert!(window_fits(49, 7, 7, 2));
    assert!(!window_fits(48, 7, 7, 2));
    assert!(!window_fits(36, 6, 6, 2));
    assert!(!window_fits(100, 10, 10, 1));
    assert!(window_fits(110, 10, 11, 3));
    assert!(!window_fits(usize::MAX, usize::MAX, 2, 2));
}
