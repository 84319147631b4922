use tesseract_ocr::seedfill::seedfill_binary;

#[test]
fn fills_only_the_seeded_component_and_kills_outside_seeds() {
    // 7×3 mask: blob A = cols 0..3, blob B = cols 4..7 (row 1 only), gap at col 3.
    let mut mask = vec![255u8; 21];
    for x in 0..3 {
        mask[7 + x] = 0;
    }
    for x in 4..7 {
        mask[7 + x] = 0;
    }
    let mut seed = vec![255u8; 21];
    seed[7] = 0; // (0,1) in blob A
    seed[3] = 0; // (3,0) outside the mask entirely

    let out = seedfill_binary(&seed, 7, 3, &mask, 7, 3, 4).expect("valid conn");
    let on: Vec<usize> = out.iter().enumerate().filter(|(_, &p)| p == 0).map(|(i, _)| i).collect();
    assert_eq!(on, vec![7, 8, 9], "only blob A fills: {on:?}");
}

#[test]
fn invalid_connectivity_is_an_error() {
    assert!(seedfill_binary(&[255], 1, 1, &[255], 1, 1, 6).is_none());
    assert!(seedfill_binary(&[255], 1, 1, &[255], 1, 1, 0).is_none());
}

#[test]
fn diagonal_step_needs_eight_connectivity() {
    // 3×3 mask with a diagonal: (0,0), (1,1), (2,2); seed at (0,0).
    let mut mask = vec![255u8; 9];
    mask[0] = 0;
    mask[4] = 0;
    mask[8] = 0;
    let mut seed = vec![255u8; 9];
    seed[0] = 0;
    let four = seedfill_binary(&seed, 3, 3, &mask, 3, 3, 4).expect("4");
    let eight = seedfill_binary(&seed, 3, 3, &mask, 3, 3, 8).expect("8");
    assert_eq!(four.iter().filter(|&&p| p == 0).count(), 1);
    assert_eq!(eight, mask);
}

#[test]
fn smaller_seed_grid_clips_the_mask() {
    // Seed 2×2 against a 3×3 fully-ON mask: the result has the seed's size and
    // fills the whole seed grid from one pixel.
    let mask = vec![0u8; 9];
    let seed = vec![255u8, 255, 255, 0];
    let out = seedfill_binary(&seed, 2, 2, &mask, 3, 3, 4).expect("4");
    assert_eq!(out, vec![0, 0, 0, 0]);
}

#[test]
fn filling_a_fill_result_again_changes_nothing() {
    // 5×4 mask with two blobs; one seed in the first.
    let mut mask = vec![255u8; 20];
    for &i in &[0usize, 1, 5, 6, 11, 13, 14, 18, 19] {
        mask[i] = 0;
    }
    let mut seed = vec![255u8; 20];
    seed[0] = 0;
    for conn in [4u32, 8] {
        let once = seedfill_binary(&seed, 5, 4, &mask, 5, 4, conn).expect("valid conn");
        let twice = seedfill_binary(&once, 5, 4, &mask, 5, 4, conn).expect("valid conn");
        assert_eq!(once, twice);
    }
}
