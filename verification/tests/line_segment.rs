use tesseract_ocr::line_segment::{bands_from_profile, LineBand};

#[test]
fn bands_from_profile_pads_and_splits_overlapping_bands() {
    // Ink rows 5..8 and 9..12 of a 20-row page.
    let mut profile = vec![0usize; 20];
    for y in (5..8).chain(9..12) {
        profile[y] = 4;
    }
    let bands = bands_from_profile(&profile);
    assert_eq!(bands, vec![LineBand { top: 3, bottom: 8 }, LineBand { top: 8, bottom: 14 }]);
    assert!(bands[0].bottom <= bands[1].top);
}

#[test]
fn bands_from_profile_drops_runs_shorter_than_three_rows() {
    let mut profile = vec![0usize; 10];
    profile[4] = 5;
    assert!(bands_from_profile(&profile).is_empty());
    profile[5] = 1;
    assert!(bands_from_profile(&profile).is_empty());
    profile[6] = 2;
    assert_eq!(bands_from_profile(&profile), vec![LineBand { top: 2, bottom: 9 }]);
}

#[test]
fn bands_from_profile_clamps_padding_to_the_page() {
    let profile = vec![1usize, 1, 1, 0, 0, 0, 0, 2, 2, 2];
    assert_eq!(
        bands_from_profile(&profile),
        vec![LineBand { top: 0, bottom: 5 }, LineBand { top: 5, bottom: 10 }]
    );
    let far = vec![1usize, 1, 1, 0, 0, 0, 0, 0, 0, 0, 0, 2, 2, 2];
    assert_eq!(
        bands_from_profile(&far),
        vec![LineBand { top: 0, bottom: 5 }, LineBand { top: 9, bottom: 14 }]
    );
}

#[test]
fn bands_from_profile_of_blank_or_empty_profile() {
    assert!(bands_from_profile(&[]).is_empty());
    assert!(bands_from_profile(&[0, 0, 0]).is_empty());
    assert_eq!(bands_from_profile(&[7, 7, 7]), vec![LineBand { top: 0, bottom: 3 }]);
}

#[test]
fn line_band_height_saturates() {
    assert_eq!(LineBand { top: 3, bottom: 8 }.height(), 5);
    assert_eq!(LineBand { top: 8, bottom: 3 }.height(), 0);
}
