use tesseract_ocr::page_furniture::{detect_page_furniture, page_number_shape, DocLine, DocPage, DocWord};

fn dw(text: &str, bbox: (i32, i32, i32, i32)) -> DocWord {
    DocWord { text: text.to_string(), bbox }
}

fn dl(bbox: (i32, i32, i32, i32), words: Vec<DocWord>) -> DocLine {
    DocLine { bbox, words }
}

/// A 800x1000 page: header band = y in [0, 80], footer band = y in
/// [920, 1000] (8% of 1000 each way).
fn page_with_lines(lines: Vec<DocLine>) -> DocPage {
    DocPage { width: 800, height: 1000, lines }
}

#[test]
fn footer_seite_von_line_is_furniture_and_yields_page_number() {
    let line = dl(
        (300, 930, 500, 960),
        vec![
            dw("Seite", (300, 930, 340, 960)),
            dw("3", (345, 930, 355, 960)),
            dw("von", (360, 930, 390, 960)),
            dw("12", (395, 930, 415, 960)),
        ],
    );
    let page = page_with_lines(vec![line]);
    let furniture = detect_page_furniture(&page);

    assert_eq!(furniture.footer_lines, vec![0]);
    assert!(furniture.header_lines.is_empty());
    assert_eq!(furniture.page_number, Some(3));
    assert_eq!(furniture.page_number_line, Some(0));
}

#[test]
fn bare_number_centered_in_footer_is_page_number() {
    let line = dl((380, 940, 420, 960), vec![dw("7", (390, 940, 400, 960))]);
    let page = page_with_lines(vec![line]);
    let furniture = detect_page_furniture(&page);

    assert_eq!(furniture.footer_lines, vec![0]);
    assert_eq!(furniture.page_number, Some(7));
    assert_eq!(furniture.page_number_line, Some(0));
}

#[test]
fn footer_page_number_is_preferred_over_header() {
    let header_line = dl(
        (350, 10, 450, 40),
        vec![dw("-", (350, 10, 360, 40)), dw("42", (365, 10, 385, 40)), dw("-", (390, 10, 400, 40))],
    );
    let footer_line = dl((390, 950, 410, 970), vec![dw("8", (390, 950, 400, 970))]);
    let page = page_with_lines(vec![header_line, footer_line]);
    let furniture = detect_page_furniture(&page);

    assert_eq!(furniture.header_lines, vec![0]);
    assert_eq!(furniture.footer_lines, vec![1]);
    assert_eq!(furniture.page_number, Some(8));
    assert_eq!(furniture.page_number_line, Some(1));
}

#[test]
fn line_only_partially_inside_footer_band_is_not_furniture() {
    let text = "This is a long paragraph line of body text that runs \
                 well past sixty characters in total length.";
    let words: Vec<DocWord> = text
        .split(' ')
        .enumerate()
        .map(|(i, w)| dw(w, (10 + i as i32 * 20, 900, 30 + i as i32 * 20, 950)))
        .collect();
    let line = dl((10, 900, 500, 950), words);
    let page = page_with_lines(vec![line]);
    let furniture = detect_page_furniture(&page);

    assert!(furniture.header_lines.is_empty());
    assert!(furniture.footer_lines.is_empty());
    assert_eq!(furniture.page_number, None);
}

#[test]
fn amount_label_in_footer_band_is_never_furniture() {
    let line = dl((300, 940, 500, 960), vec![dw("Summe:", (300, 940, 360, 960)), dw("1.234,00", (365, 940, 440, 960))]);
    let page = page_with_lines(vec![line]);
    let furniture = detect_page_furniture(&page);

    assert!(furniture.footer_lines.is_empty());
    assert!(furniture.header_lines.is_empty());
    assert_eq!(furniture.page_number, None);
}

#[test]
fn page_of_line_yields_page_number() {
    let line = dl(
        (300, 935, 520, 960),
        vec![
            dw("Page", (300, 935, 340, 960)),
            dw("12", (345, 935, 365, 960)),
            dw("of", (370, 935, 390, 960)),
            dw("30", (395, 935, 415, 960)),
        ],
    );
    let page = page_with_lines(vec![line]);
    let furniture = detect_page_furniture(&page);

    assert_eq!(furniture.footer_lines, vec![0]);
    assert_eq!(furniture.page_number, Some(12));
    assert_eq!(furniture.page_number_line, Some(0));
}

#[test]
fn page_number_shape_matches_all_documented_forms() {
    assert_eq!(page_number_shape("7"), Some(7));
    assert_eq!(page_number_shape("128"), Some(128));
    assert_eq!(page_number_shape("-42-"), Some(42));
    assert_eq!(page_number_shape("- 42 -"), Some(42));
    assert_eq!(page_number_shape("seite 3"), Some(3));
    assert_eq!(page_number_shape("seite 3 von 12"), Some(3));
    assert_eq!(page_number_shape("page 12"), Some(12));
    assert_eq!(page_number_shape("page 12 of 30"), Some(12));
    assert_eq!(page_number_shape("12 / 30"), Some(12));
    assert_eq!(page_number_shape("not a page number"), None);
    assert_eq!(page_number_shape(""), None);
    assert_eq!(page_number_shape("seite 3 von"), None);
    assert_eq!(page_number_shape("seite 3 vonx 12"), None);
}

#[test]
fn parsed_page_numbers_above_9999_are_rejected_in_selection() {
    let line = dl((300, 935, 520, 960), vec![dw("Seite", (300, 935, 340, 960)), dw("12345", (345, 935, 400, 960))]);
    let page = page_with_lines(vec![line]);
    let furniture = detect_page_furniture(&page);

    assert_eq!(furniture.footer_lines, vec![0]);
    assert_eq!(furniture.page_number, None);
    assert_eq!(furniture.page_number_line, None);
}

#[test]
fn shape_edge_cases() {
    // Five digits are not a bare page number; an overflowing labelled number fails.
    assert_eq!(page_number_shape("12345"), None);
    assert_eq!(page_number_shape("page 99999999999"), None);
    assert_eq!(page_number_shape("99999999999 / 3"), None);
    assert_eq!(page_number_shape("  7 /  8 / 9"), None);
    assert_eq!(page_number_shape("--"), None);
    assert_eq!(page_number_shape("-\u{a0}7\u{2003}-"), Some(7));
}

#[test]
fn header_band_line_with_unicode_space_padding() {
    // Band extent of a 1010-high page: round(80.8) = 81.
    let line = dl((0, 0, 100, 81), vec![dw("\u{3000}Report\u{3000}", (0, 0, 100, 81))]);
    let page = DocPage { width: 500, height: 1010, lines: vec![line] };
    let furniture = detect_page_furniture(&page);
    assert_eq!(furniture.header_lines, vec![0]);
    assert_eq!(furniture.page_number, None);
}
