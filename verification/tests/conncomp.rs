use tesseract_ocr::conncomp::{conn_comp_areas, conn_comp_bb, ConnCompBox};

fn to_binary(on_pixels: &[(usize, usize)], w: usize, h: usize) -> Vec<u8> {
    let mut buf = vec![255_u8; w * h];
    for &(x, y) in on_pixels {
        buf[y * w + x] = 0;
    }
    buf
}

#[test]
fn single_pixel_component() {
    let w = 5;
    let h = 5;
    let binary = to_binary(&[(2, 2)], w, h);
    let boxes4 = conn_comp_bb(&binary, w, h, 4);
    assert_eq!(boxes4, vec![ConnCompBox { x: 2, y: 2, w: 1, h: 1 }]);
    let boxes8 = conn_comp_bb(&binary, w, h, 8);
    assert_eq!(boxes8, vec![ConnCompBox { x: 2, y: 2, w: 1, h: 1 }]);
}

#[test]
fn two_diagonal_pixels_4_vs_8_connectivity() {
    let w = 4;
    let h = 4;
    let binary = to_binary(&[(1, 1), (2, 2)], w, h);

    let boxes4 = conn_comp_bb(&binary, w, h, 4);
    assert_eq!(boxes4.len(), 2, "diagonal pixels are separate components under 4-connectivity");
    assert_eq!(boxes4[0], ConnCompBox { x: 1, y: 1, w: 1, h: 1 });
    assert_eq!(boxes4[1], ConnCompBox { x: 2, y: 2, w: 1, h: 1 });

    let boxes8 = conn_comp_bb(&binary, w, h, 8);
    assert_eq!(boxes8.len(), 1, "diagonal pixels merge into one component under 8-connectivity");
    assert_eq!(boxes8[0], ConnCompBox { x: 1, y: 1, w: 2, h: 2 });
}

#[test]
fn full_black_image_is_one_component() {
    let w = 6;
    let h = 4;
    let binary = vec![0_u8; w * h];
    let boxes4 = conn_comp_bb(&binary, w, h, 4);
    assert_eq!(boxes4, vec![ConnCompBox { x: 0, y: 0, w: w as i32, h: h as i32 }]);
    let boxes8 = conn_comp_bb(&binary, w, h, 8);
    assert_eq!(boxes8, vec![ConnCompBox { x: 0, y: 0, w: w as i32, h: h as i32 }]);
}

#[test]
fn empty_image_has_no_components() {
    let w = 8;
    let h = 8;
    let binary = vec![255_u8; w * h];
    assert!(conn_comp_bb(&binary, w, h, 4).is_empty());
    assert!(conn_comp_bb(&binary, w, h, 8).is_empty());
}

#[test]
fn pixel_count_single_pixel_component() {
    let w = 5;
    let h = 5;
    let binary = to_binary(&[(2, 2)], w, h);
    let areas = conn_comp_areas(&binary, w, h, 8);
    assert_eq!(areas.len(), 1);
    assert_eq!(areas[0].pixel_count, 1);
    assert_eq!(areas[0].bb, ConnCompBox { x: 2, y: 2, w: 1, h: 1 });
}

#[test]
fn pixel_count_l_shape() {
    let w = 4;
    let h = 4;
    let binary = to_binary(&[(1, 1), (1, 2), (2, 2)], w, h);
    let areas = conn_comp_areas(&binary, w, h, 8);
    assert_eq!(areas.len(), 1);
    assert_eq!(areas[0].pixel_count, 3);
    assert_eq!(areas[0].bb, ConnCompBox { x: 1, y: 1, w: 2, h: 2 });
    assert!(areas[0].pixel_count < areas[0].bb.w * areas[0].bb.h);
}

#[test]
fn pixel_count_ring_with_hole_excludes_hole() {
    let w = 5;
    let h = 5;
    let ring: Vec<(usize, usize)> = vec![(1, 1), (2, 1), (3, 1), (1, 2), (3, 2), (1, 3), (2, 3), (3, 3)];
    let binary = to_binary(&ring, w, h);
    let areas = conn_comp_areas(&binary, w, h, 8);
    assert_eq!(areas.len(), 1);
    assert_eq!(areas[0].pixel_count, 8);
    assert_eq!(areas[0].bb, ConnCompBox { x: 1, y: 1, w: 3, h: 3 });
    assert_eq!(areas[0].bb.w * areas[0].bb.h, 9);
}

#[test]
fn zero_sized_image_has_no_components() {
    assert!(conn_comp_areas(&[], 0, 5, 4).is_empty());
    assert!(conn_comp_areas(&[], 7, 0, 8).is_empty());
}

#[test]
fn components_come_in_raster_order_of_their_first_pixel() {
    // A "U" whose arms start on row 0 and a dot on row 0 between... to its right.
    //   x: 0 1 2 3 4 5
    // y0:  #   #     #
    // y1:  # # #
    let binary = to_binary(&[(0, 0), (2, 0), (5, 0), (0, 1), (1, 1), (2, 1)], 6, 2);
    let areas = conn_comp_areas(&binary, 6, 2, 4);
    assert_eq!(areas.len(), 2);
    assert_eq!(areas[0].bb, ConnCompBox { x: 0, y: 0, w: 3, h: 2 });
    assert_eq!(areas[0].pixel_count, 5);
    assert_eq!(areas[1].bb, ConnCompBox { x: 5, y: 0, w: 1, h: 1 });
    assert_eq!(areas[1].pixel_count, 1);
}

#[test]
fn pixel_counts_sum_to_the_ink() {
    let (w, h) = (23usize, 17usize);
    let mut binary = vec![255u8; w * h];
    for y in 0..h {
        for x in 0..w {
            if ((x * 37 + y * 11) ^ (x * y)) % 7 < 3 {
                binary[y * w + x] = 0;
            }
        }
    }
    let ink = binary.iter().filter(|&&b| b == 0).count() as i32;
    for conn in [4, 8] {
        let areas = conn_comp_areas(&binary, w, h, conn);
        assert_eq!(areas.iter().map(|c| c.pixel_count).sum::<i32>(), ink);
        let boxes = conn_comp_bb(&binary, w, h, conn);
        assert_eq!(boxes, areas.iter().map(|c| c.bb).collect::<Vec<_>>());
        for c in &areas {
            assert!(c.pixel_count > 0 && c.pixel_count <= c.bb.w * c.bb.h);
        }
    }
}

#[test]
fn a_winding_shape_is_one_component() {
    // A spiral-like serpentine that needs the fill to turn back up and down.
    let rows = [
        "#######",
        "......#",
        "#####.#",
        "#...#.#",
        "#.#.#.#",
        "#.#...#",
        "#######",
    ];
    let w = 7;
    let h = rows.len();
    let mut binary = vec![255u8; w * h];
    for (y, r) in rows.iter().enumerate() {
        for (x, ch) in r.chars().enumerate() {
            if ch == '#' {
                binary[y * w + x] = 0;
            }
        }
    }
    let ink = binary.iter().filter(|&&b| b == 0).count() as i32;
    let areas = conn_comp_areas(&binary, w, h, 4);
    assert_eq!(areas.len(), 1);
    assert_eq!(areas[0].pixel_count, ink);
    assert_eq!(areas[0].bb, ConnCompBox { x: 0, y: 0, w: 7, h: 7 });
    // Without the bottom-left corner the left hook is its own component.
    let mut cut = binary.clone();
    cut[6 * w + 1] = 255;
    let areas = conn_comp_areas(&cut, w, h, 4);
    assert_eq!(areas.len(), 2);
    assert_eq!(areas[0].pixel_count + areas[1].pixel_count, ink - 1);
    assert_eq!(areas[1].bb, ConnCompBox { x: 0, y: 2, w: 5, h: 5 });
}
