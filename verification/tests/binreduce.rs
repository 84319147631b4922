use tesseract_ocr::binreduce::{expand_binary_power2, reduce_rank_binary2, reduce_rank_binary_cascade};

fn reduce_fixture() -> (Vec<u8>, usize, usize) {
    let (w, h) = (97usize, 61usize);
    let mut buf = vec![255u8; w * h];
    for y in 0..h {
        for x in 0..w {
            if (x * 7 + y * 13) % 251 < 128 {
                buf[y * w + x] = 0;
            }
        }
    }
    (buf, w, h)
}

fn expand_fixture() -> (Vec<u8>, usize, usize) {
    let (w, h) = (9usize, 5usize);
    let mut buf = vec![255u8; w * h];
    for y in 0..h {
        for x in 0..w {
            if (x * 3 + y * 5) % 17 < 8 {
                buf[y * w + x] = 0;
            }
        }
    }
    (buf, w, h)
}

#[test]
fn reduce_levels_thresholds_by_popcount() {
    // 4×2 page = two 2×2 blocks: left block has 2 ON, right block has 4 ON.
    let buf = vec![0, 255, 0, 0, 255, 0, 0, 0];
    for (level, expect_left, expect_right) in [(1u32, 0u8, 0u8), (2, 0, 0), (3, 255, 0), (4, 255, 0)] {
        let (got, gw, gh) = reduce_rank_binary2(&buf, 4, 2, level).expect("valid");
        assert_eq!((gw, gh), (2, 1));
        assert_eq!(got, vec![expect_left, expect_right], "level {level}");
    }
}

#[test]
fn error_and_truncation_semantics_mirror_the_c() {
    let (buf, w, h) = reduce_fixture();
    assert!(reduce_rank_binary2(&buf, w, h, 0).is_none());
    assert!(reduce_rank_binary2(&buf, w, h, 5).is_none());
    assert!(reduce_rank_binary2(&buf[..w], w, 1, 1).is_none());
    assert!(reduce_rank_binary2(&buf[..2 * h], 1, h, 1).is_none());
    assert!(reduce_rank_binary_cascade(&buf, w, h, [1, 5, 0, 0]).is_none());

    let (copy, cw, ch) = reduce_rank_binary_cascade(&buf, w, h, [0, 3, 3, 3]).expect("copy");
    assert_eq!((cw, ch, &copy), (w, h, &buf));

    let (ebuf, ew, eh) = expand_fixture();
    let (copy, cw, ch) = expand_binary_power2(&ebuf, ew, eh, 1).expect("copy");
    assert_eq!((cw, ch, &copy), (ew, eh, &ebuf));
    assert!(expand_binary_power2(&ebuf, ew, eh, 3).is_none());
    assert!(expand_binary_power2(&ebuf, ew, eh, 32).is_none());
    assert!(expand_binary_power2(&ebuf, ew, eh, 0).is_none());
}

#[test]
fn odd_trailing_row_and_column_are_dropped() {
    // 5×3: the last column and row are ignored by a 2× reduction.
    let mut buf = vec![255u8; 15];
    buf[4] = 0; // (4,0): trailing column
    buf[10] = 0; // (0,2): trailing row
    let (got, gw, gh) = reduce_rank_binary2(&buf, 5, 3, 1).expect("valid");
    assert_eq!((gw, gh), (2, 1));
    assert_eq!(got, vec![255, 255]);
}

#[test]
fn reducing_an_expansion_by_two_gives_back_the_image() {
    let (ebuf, ew, eh) = expand_fixture();
    let (big, bw, bh) = expand_binary_power2(&ebuf, ew, eh, 2).expect("x2");
    assert_eq!((bw, bh), (2 * ew, 2 * eh));
    for level in 1..=4u32 {
        let (back, w2, h2) = reduce_rank_binary2(&big, bw, bh, level).expect("valid");
        assert_eq!((w2, h2), (ew, eh));
        assert_eq!(back, ebuf, "level {level}");
    }
}

#[test]
fn expand_replicates_each_pixel_into_a_block() {
    let (big, bw, bh) = expand_binary_power2(&[0, 255], 2, 1, 4).expect("x4");
    assert_eq!((bw, bh), (8, 4));
    for y in 0..4 {
        for x in 0..8 {
            assert_eq!(big[y * 8 + x], if x < 4 { 0 } else { 255 });
        }
    }
}
