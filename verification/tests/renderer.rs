use tesseract_ocr::renderer::{blank_row_runs, clip_to_range, hocr_escape, to_image_box, to_image_rect, union_boxes};

#[test]
fn hocr_escape_matches_the_exact_cpp_char_set() {
    assert_eq!(hocr_escape("<"), "&lt;");
    assert_eq!(hocr_escape(">"), "&gt;");
    assert_eq!(hocr_escape("&"), "&amp;");
    assert_eq!(hocr_escape("\""), "&quot;");
    assert_eq!(hocr_escape("'"), "&#39;");
    assert_eq!(
        hocr_escape("<a href=\"x\">Tom & Jerry's \"cat\"</a>"),
        "&lt;a href=&quot;x&quot;&gt;Tom &amp; Jerry&#39;s &quot;cat&quot;&lt;/a&gt;"
    );
    assert_eq!(hocr_escape("plain text 123"), "plain text 123");
    assert_eq!(hocr_escape(""), "");
    assert_eq!(hocr_escape("café <naïve>"), "café &lt;naïve&gt;");
}

#[test]
fn escaping_twice_escapes_the_ampersands_again() {
    assert_eq!(hocr_escape(&hocr_escape("<")), "&amp;lt;");
}

#[test]
fn clip_to_range_clamps_and_lets_hi_win() {
    assert_eq!(clip_to_range(5, 0, 10), 5);
    assert_eq!(clip_to_range(-3, 0, 10), 0);
    assert_eq!(clip_to_range(15, 0, 10), 10);
    assert_eq!(clip_to_range(5, 10, 0), 0);
}

#[test]
fn union_boxes_bounds_every_box() {
    assert_eq!(union_boxes(&[]), (i32::MAX, i32::MAX, i32::MIN, i32::MIN));
    assert_eq!(union_boxes(&[(3, 4, 10, 20)]), (3, 4, 10, 20));
    assert_eq!(union_boxes(&[(3, 4, 10, 20), (1, 6, 12, 18), (5, 2, 7, 25)]), (1, 2, 12, 25));
}

#[test]
fn image_boxes_flip_rows_and_clip_to_the_page() {
    assert_eq!(to_image_box((10, 20, 30, 80), 100, 100), (10, 20, 30, 80));
    assert_eq!(to_image_box((10, 5, 30, 60), 100, 100), (10, 40, 30, 95));
    assert_eq!(to_image_rect((10, 5, 30, 60), 100, 100), (10, 40, 20, 55));
    assert_eq!(to_image_box((-5, -10, 200, 300), 100, 100), (0, 0, 100, 100));
    assert_eq!(to_image_box((50, 50, 40, 40), 100, 100), (50, 60, 50, 60));
}

#[test]
fn escaped_text_has_no_raw_markup_characters() {
    let out = hocr_escape("a<b>c\"d'e&f <<>>''\"\"");
    assert!(!out.contains('<') && !out.contains('>') && !out.contains('"') && !out.contains('\''));
    assert_eq!(out, "a&lt;b&gt;c&quot;d&#39;e&amp;f &lt;&lt;&gt;&gt;&#39;&#39;&quot;&quot;");
}

#[test]
fn blank_row_runs_lists_the_maximal_blank_runs() {
    // 3 wide, 7 tall: rows 0, 1, 3, 5, 6 blank; rows 2 and 4 hold ink.
    let mut b = vec![255u8; 3 * 7];
    b[2 * 3 + 1] = 0;
    b[4 * 3 + 2] = 0;
    assert_eq!(blank_row_runs(&b, 3, 7), vec![(0, 2), (3, 1), (5, 2)]);
}

#[test]
fn blank_row_runs_of_an_inked_or_empty_page() {
    assert_eq!(blank_row_runs(&[0, 0, 0, 0], 2, 2), vec![]);
    assert_eq!(blank_row_runs(&[255, 255, 255, 255], 2, 2), vec![(0, 2)]);
    assert_eq!(blank_row_runs(&[], 0, 0), vec![]);
}
