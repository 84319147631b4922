use tesseract_ocr::grid_raster::{detect_column_raster, split_nonconforming, ColumnRaster, PageRect};

fn lattice(x0: usize, cell_w: usize, gutter: usize, n: usize) -> Vec<(usize, usize)> {
    (0..n)
        .map(|k| {
            let left = x0 + k * (cell_w + gutter);
            (left, left + cell_w)
        })
        .collect()
}

fn rect(left: usize, top: usize, right: usize, bottom: usize) -> PageRect {
    PageRect { left, top, right, bottom }
}

#[test]
fn raster_resegments_a_degraded_row_at_the_inherited_boundaries() {
    let x0 = 100;
    let cell_w = 200;
    let gutter = 40;
    let n = 8;
    let cell_h = 60;
    let cols = lattice(x0, cell_w, gutter, n);

    let band_a: Vec<PageRect> = cols.iter().map(|&(l, r)| rect(l, 0, r, cell_h)).collect();
    let merged_left = cols[0].0;
    let merged_right = cols[6].1;
    let merged = rect(merged_left, cell_h, merged_right, 2 * cell_h);

    let mut blocks = band_a.clone();
    blocks.push(merged);

    let raster = detect_column_raster(&blocks).expect("an 8-column lattice must be detected");
    assert_eq!(raster.columns.len(), 8);
    assert_eq!(raster.pitch, cell_w + gutter);

    let output = split_nonconforming(&blocks, &raster);
    assert_eq!(output.len(), 8 + 7);

    let mut expected_cuts: Vec<usize> = (0..6).map(|k| (cols[k].1 + cols[k + 1].0) / 2).collect();
    expected_cuts.sort_unstable();

    let sub_rects = &output[8..15];
    assert_eq!(sub_rects.len(), 7);
    let mut left = merged_left;
    for (i, &cut) in expected_cuts.iter().enumerate() {
        assert_eq!(sub_rects[i].left, left);
        assert_eq!(sub_rects[i].right, cut);
        assert_eq!(sub_rects[i].top, merged.top);
        assert_eq!(sub_rects[i].bottom, merged.bottom);
        left = cut;
    }
    assert_eq!(sub_rects[6].left, left);
    assert_eq!(sub_rects[6].right, merged_right);

    let over_col7 = output.iter().filter(|r| r.left >= cols[7].0).count();
    assert_eq!(over_col7, 1);
}

#[test]
fn two_column_prose_geometry_yields_no_raster() {
    let w1 = 300;
    let w2 = 500;
    let gutter = 40;
    let cell_h = 60;
    let left_col = (100, 100 + w1);
    let right_col = (100 + w1 + gutter, 100 + w1 + gutter + w2);

    let band1 = [rect(left_col.0, 0, left_col.1, cell_h), rect(right_col.0, 0, right_col.1, cell_h)];
    let band2 = [rect(left_col.0, cell_h, left_col.1, 2 * cell_h), rect(right_col.0, cell_h, right_col.1, 2 * cell_h)];
    let full_width = rect(left_col.0, 2 * cell_h, right_col.1, 3 * cell_h);

    let blocks = vec![band1[0], band1[1], band2[0], band2[1], full_width];

    let hypothetical = ColumnRaster { columns: vec![left_col, right_col], pitch: right_col.0 - left_col.0, cell_h };
    assert_eq!(hypothetical.spanned(full_width), 2);

    assert!(detect_column_raster(&blocks).is_none());
}

#[test]
fn a_two_band_grid_is_detected_despite_repeated_lefts() {
    let cell_w = 300;
    let gutter = 40;
    let pitch = cell_w + gutter;
    let cell_h = 60;
    let x0 = 100;
    let cols = 8;

    let mut blocks = Vec::new();
    for band in 0..2 {
        for k in 0..cols {
            let left = x0 + k * pitch;
            blocks.push(rect(left, band * cell_h, left + cell_w, (band + 1) * cell_h));
        }
    }

    let mut raw: Vec<usize> = blocks.iter().map(|b| b.left).collect();
    raw.sort_unstable();
    let zeros = raw.windows(2).filter(|w| w[1] == w[0]).count();
    let steps = raw.windows(2).filter(|w| w[1] > w[0]).count();
    assert!(zeros > steps, "fixture must be zero-dominated (zeros {zeros}, steps {steps})");

    let r = detect_column_raster(&blocks).expect("a 2x8 grid IS a grid");
    assert_eq!(r.columns.len(), cols, "all eight columns recovered");
    assert_eq!(r.pitch, pitch, "pitch from DISTINCT lefts, not repeats");
    assert_eq!(r.cell_h, cell_h);
}

#[test]
fn a_regular_two_column_lattice_is_still_not_a_grid() {
    let cell_w = 300;
    let gutter = 40;
    let pitch = cell_w + gutter;
    let cell_h = 60;
    let x0 = 100;

    let mut blocks = Vec::new();
    for band in 0..3 {
        for k in 0..2 {
            let left = x0 + k * pitch;
            blocks.push(rect(left, band * cell_h, left + cell_w, (band + 1) * cell_h));
        }
    }

    assert!(blocks.iter().all(|b| b.width() == cell_w));
    let lefts: Vec<usize> = {
        let mut v: Vec<usize> = blocks.iter().map(|b| b.left).collect();
        v.sort_unstable();
        v.dedup();
        v
    };
    assert_eq!(lefts, vec![x0, x0 + pitch], "exactly two distinct slots");

    assert!(detect_column_raster(&blocks).is_none(), "two columns are prose, not a grid, however regular they are");
}

#[test]
fn spanning_headline_stays_whole_but_a_full_height_merged_row_splits() {
    let x0 = 50;
    let cell_w = 180;
    let gutter = 30;
    let n = 3;
    let cell_h = 100;
    let cols = lattice(x0, cell_w, gutter, n);

    let band: Vec<PageRect> = cols.iter().map(|&(l, r)| rect(l, 0, r, cell_h)).collect();

    let span_left = cols[0].0;
    let span_right = cols[2].1;
    let headline_h = cell_h / 5;
    let headline = rect(span_left, cell_h, span_right, cell_h + headline_h);
    let merged = rect(span_left, cell_h + headline_h, span_right, cell_h + headline_h + cell_h);

    let mut blocks = band.clone();
    blocks.push(headline);
    blocks.push(merged);

    let raster = detect_column_raster(&blocks).expect("a 3-column lattice must be detected");
    assert_eq!(raster.columns.len(), 3);
    assert_eq!(raster.pitch, cell_w + gutter);

    assert_eq!(raster.spanned(headline), 3);

    let output = split_nonconforming(&blocks, &raster);

    assert!(output.contains(&headline));

    assert_eq!(output.len(), band.len() + 1 + 3);

    let expected_cuts: Vec<usize> = (0..2).map(|k| (cols[k].1 + cols[k + 1].0) / 2).collect();
    let sub_rects: Vec<&PageRect> = output.iter().filter(|r| r.top == merged.top).collect();
    assert_eq!(sub_rects.len(), 3);
    let mut left = merged.left;
    for (i, &cut) in expected_cuts.iter().enumerate() {
        assert_eq!(sub_rects[i].left, left);
        assert_eq!(sub_rects[i].right, cut);
        left = cut;
    }
    assert_eq!(sub_rects[2].left, left);
    assert_eq!(sub_rects[2].right, merged.right);
}

#[test]
fn irregular_pitch_is_rejected_uniform_pitch_is_accepted() {
    let cell_w = 200;
    let cell_h = 80;
    let base_p = 240;

    let uniform_lefts = [0usize, base_p, 2 * base_p];
    let uniform_blocks: Vec<PageRect> = uniform_lefts.iter().map(|&l| rect(l, 0, l + cell_w, cell_h)).collect();
    assert!(detect_column_raster(&uniform_blocks).is_some());

    let irregular_lefts = [0usize, base_p, base_p + (22 * base_p) / 10];
    let irregular_blocks: Vec<PageRect> = irregular_lefts.iter().map(|&l| rect(l, 0, l + cell_w, cell_h)).collect();
    assert!(detect_column_raster(&irregular_blocks).is_none());
}

#[test]
fn a_lattice_supported_on_under_half_its_slots_is_rejected() {
    let cell_w = 200;
    let cell_h = 80;
    let p = 240;

    let dense_lefts = [0usize, p, 2 * p, 3 * p];
    let dense_blocks: Vec<PageRect> = dense_lefts.iter().map(|&l| rect(l, 0, l + cell_w, cell_h)).collect();
    assert!(detect_column_raster(&dense_blocks).is_some());

    let sparse_lefts = [0usize, p, 2 * p, 9 * p];
    let sparse_blocks: Vec<PageRect> = sparse_lefts.iter().map(|&l| rect(l, 0, l + cell_w, cell_h)).collect();
    assert!(detect_column_raster(&sparse_blocks).is_none());
}

#[test]
fn split_preserves_block_order_and_inserts_sub_rects_in_place() {
    let x0 = 0;
    let cell_w = 150;
    let gutter = 30;
    let cell_h = 50;
    let cols = lattice(x0, cell_w, gutter, 3);

    let col_a: Vec<PageRect> = cols.iter().map(|&(l, r)| rect(l, 0, r, cell_h)).collect();
    let merged = rect(cols[0].0, cell_h, cols[2].1, 2 * cell_h);
    let trailing = rect(cols[0].0, 2 * cell_h, cols[0].1, 3 * cell_h);

    let blocks = vec![col_a[0], col_a[1], col_a[2], merged, trailing];

    let raster = detect_column_raster(&blocks).expect("a 3-column lattice must be detected");
    let output = split_nonconforming(&blocks, &raster);

    let cuts: Vec<usize> = (0..2).map(|k| (cols[k].1 + cols[k + 1].0) / 2).collect();
    let expected = vec![
        col_a[0],
        col_a[1],
        col_a[2],
        rect(merged.left, merged.top, cuts[0], merged.bottom),
        rect(cuts[0], merged.top, cuts[1], merged.bottom),
        rect(cuts[1], merged.top, merged.right, merged.bottom),
        trailing,
    ];

    assert_eq!(output, expected);
}

#[test]
fn degenerate_inputs_yield_no_raster() {
    let empty: Vec<PageRect> = Vec::new();
    assert!(detect_column_raster(&empty).is_none());

    let single = vec![rect(0, 0, 100, 50)];
    assert!(detect_column_raster(&single).is_none());
}

#[test]
fn boundaries_are_gutter_midpoints() {
    let r = ColumnRaster { columns: vec![(0, 100), (120, 220), (240, 340)], pitch: 120, cell_h: 40 };
    assert_eq!(r.boundaries(), vec![110, 230]);
}
