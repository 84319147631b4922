use tesseract_ocr::deskew::{count_pixels_by_row, rotate90_grey};

#[test]
fn rotate90_hand_checked_2x3() {
    // w=2,h=3, row-major: row0=[A,B]=[1,2], row1=[C,D]=[3,4], row2=[E,F]=[5,6].
    let grey = vec![1, 2, 3, 4, 5, 6];
    let (out, ow, oh) = rotate90_grey(&grey, 2, 3, 1); // clockwise
    assert_eq!((ow, oh), (3, 2));
    // row0=[E,C,A], row1=[F,D,B].
    assert_eq!(out, vec![5, 3, 1, 6, 4, 2], "clockwise 2x3");

    let (out_ccw, ow2, oh2) = rotate90_grey(&grey, 2, 3, -1); // counter-clockwise
    assert_eq!((ow2, oh2), (3, 2));
    // row0=[B,D,F], row1=[A,C,E].
    assert_eq!(out_ccw, vec![2, 4, 6, 1, 3, 5], "counter-clockwise 2x3");
}

#[test]
fn rotate90_dims_swap() {
    let grey = vec![0u8; 4 * 7];
    let (_, ow, oh) = rotate90_grey(&grey, 4, 7, 1);
    assert_eq!((ow, oh), (7, 4));
}

#[test]
fn rotate90_four_clockwise_turns_is_identity() {
    let (w, h) = (5usize, 3usize);
    let grey: Vec<u8> = (0..(w * h) as u8).collect();
    let (mut cur, mut cw, mut ch) = (grey.clone(), w, h);
    for _ in 0..4 {
        let (out, ow, oh) = rotate90_grey(&cur, cw, ch, 1);
        cur = out;
        cw = ow;
        ch = oh;
    }
    assert_eq!((cw, ch), (w, h));
    assert_eq!(cur, grey, "four clockwise quarter-turns is the identity");
}

#[test]
fn rotate90_four_counter_clockwise_turns_is_identity() {
    let (w, h) = (5usize, 3usize);
    let grey: Vec<u8> = (0..(w * h) as u8).collect();
    let (mut cur, mut cw, mut ch) = (grey.clone(), w, h);
    for _ in 0..4 {
        let (out, ow, oh) = rotate90_grey(&cur, cw, ch, -1);
        cur = out;
        cw = ow;
        ch = oh;
    }
    assert_eq!((cw, ch), (w, h));
    assert_eq!(cur, grey, "four counter-clockwise quarter-turns is the identity");
}

#[test]
fn rotate90_clockwise_then_counter_clockwise_is_identity() {
    let (w, h) = (6usize, 4usize);
    let grey: Vec<u8> = (0..(w * h) as u8).collect();
    let (cw_out, cww, cwh) = rotate90_grey(&grey, w, h, 1);
    let (back, bw, bh) = rotate90_grey(&cw_out, cww, cwh, -1);
    assert_eq!((bw, bh), (w, h));
    assert_eq!(back, grey, "clockwise then counter-clockwise cancels out");
}

#[test]
fn rotate90_1x1_is_unchanged_in_both_directions() {
    assert_eq!(rotate90_grey(&[42], 1, 1, 1), (vec![42], 1, 1));
    assert_eq!(rotate90_grey(&[42], 1, 1, -1), (vec![42], 1, 1));
}

#[test]
fn count_pixels_by_row_counts_ink_per_row() {
    // 3 × 3: row 0 has one ink pixel, row 1 none, row 2 three.
    let binary = [0u8, 255, 255, 255, 255, 255, 0, 0, 0];
    assert_eq!(count_pixels_by_row(&binary, 3, 3), vec![1, 0, 3]);
    assert!(count_pixels_by_row(&[], 0, 0).is_empty());
    assert_eq!(count_pixels_by_row(&[], 0, 2), vec![0, 0]);
}
