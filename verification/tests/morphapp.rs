use tesseract_ocr::morphapp::{select_by_size, SelectRelation, SelectType, SizeFilter};

#[test]
fn select_by_size_keeps_matching_components_only() {
    // 10×6: one 5×2 blob, one 2×1 blob.
    let (w, h) = (10usize, 6usize);
    let mut buf = vec![255u8; w * h];
    for y in 1..3 {
        for x in 1..6 {
            buf[y * w + x] = 0;
        }
    }
    buf[4 * w + 8] = 0;
    buf[4 * w + 9] = 0;

    // Keep components with w>=3 AND h>=2 → only the big blob.
    let out = select_by_size(
        &buf,
        w,
        h,
        8,
        SizeFilter {
            width: 3,
            height: 2,
            select_type: SelectType::IfBoth,
            relation: SelectRelation::Gte,
        },
    )
    .expect("valid");
    assert_eq!(out[w + 1], 0);
    assert_eq!(out[4 * w + 8], 255);

    // Keep SMALL: w<=2 (width-only, LTE) → only the little blob.
    let out = select_by_size(
        &buf,
        w,
        h,
        8,
        SizeFilter {
            width: 2,
            height: 0,
            select_type: SelectType::Width,
            relation: SelectRelation::Lte,
        },
    )
    .expect("valid");
    assert_eq!(out[w + 1], 255);
    assert_eq!(out[4 * w + 8], 0);
}

#[test]
fn invalid_connectivity_is_rejected() {
    assert!(select_by_size(
        &[255],
        1,
        1,
        5,
        SizeFilter {
            width: 1,
            height: 1,
            select_type: SelectType::IfBoth,
            relation: SelectRelation::Gte,
        },
    )
    .is_none());
}

#[test]
fn select_by_size_rejects_other_connectivities() {
    let filter = SizeFilter {
        width: 1,
        height: 1,
        select_type: SelectType::IfBoth,
        relation: SelectRelation::Gte,
    };
    assert!(select_by_size(&[0], 1, 1, 6, filter).is_none());
    assert!(select_by_size(&[0], 1, 1, 4, filter).is_some());
}

#[test]
fn select_by_size_output_is_exactly_the_kept_ink() {
    // A 3×3 L shape and a separate 1×3 bar; keep width > 2.
    let (w, h) = (7usize, 4usize);
    let mut buf = vec![255u8; w * h];
    for &(x, y) in &[(0, 0), (0, 1), (0, 2), (1, 2), (2, 2), (5, 0), (5, 1), (5, 2)] {
        buf[y * w + x] = 0;
    }
    let out = select_by_size(
        &buf,
        w,
        h,
        4,
        SizeFilter {
            width: 2,
            height: 0,
            select_type: SelectType::Width,
            relation: SelectRelation::Gt,
        },
    )
    .expect("valid");
    let mut expected = vec![255u8; w * h];
    for &(x, y) in &[(0, 0), (0, 1), (0, 2), (1, 2), (2, 2)] {
        expected[y * w + x] = 0;
    }
    assert_eq!(out, expected);
}

#[test]
fn select_by_size_diagonal_pixels_depend_on_connectivity() {
    // Two diagonal pixels: one 2×2 component under 8-connectivity, two 1×1
    // components under 4-connectivity.
    let (w, h) = (3usize, 3usize);
    let mut buf = vec![255u8; w * h];
    buf[0] = 0;
    buf[w + 1] = 0;
    let filter = SizeFilter {
        width: 2,
        height: 2,
        select_type: SelectType::IfBoth,
        relation: SelectRelation::Gte,
    };
    let out8 = select_by_size(&buf, w, h, 8, filter).expect("valid");
    assert_eq!(out8, buf);
    let out4 = select_by_size(&buf, w, h, 4, filter).expect("valid");
    assert_eq!(out4, vec![255u8; w * h]);
}

#[test]
fn select_by_size_either_and_height_and_lt() {
    // A 4×1 bar and a 1×4 bar.
    let (w, h) = (6usize, 6usize);
    let mut buf = vec![255u8; w * h];
    for x in 0..4 {
        buf[x] = 0;
    }
    for y in 2..6 {
        buf[y * w + 5] = 0;
    }
    let either = select_by_size(
        &buf,
        w,
        h,
        8,
        SizeFilter {
            width: 3,
            height: 3,
            select_type: SelectType::IfEither,
            relation: SelectRelation::Gte,
        },
    )
    .expect("valid");
    assert_eq!(either, buf);
    let tall = select_by_size(
        &buf,
        w,
        h,
        8,
        SizeFilter {
            width: 0,
            height: 3,
            select_type: SelectType::Height,
            relation: SelectRelation::Gt,
        },
    )
    .expect("valid");
    assert_eq!(tall[0], 255);
    assert_eq!(tall[2 * w + 5], 0);
    let narrow = select_by_size(
        &buf,
        w,
        h,
        8,
        SizeFilter {
            width: 2,
            height: 0,
            select_type: SelectType::Width,
            relation: SelectRelation::Lt,
        },
    )
    .expect("valid");
    assert_eq!(narrow[0], 255);
    assert_eq!(narrow[5 * w + 5], 0);
}

#[test]
fn select_by_size_on_blank_image_is_blank() {
    let buf = vec![255u8; 12];
    let out = select_by_size(
        &buf,
        4,
        3,
        8,
        SizeFilter {
            width: 0,
            height: 0,
            select_type: SelectType::IfBoth,
            relation: SelectRelation::Gte,
        },
    )
    .expect("valid");
    assert_eq!(out, buf);
}
