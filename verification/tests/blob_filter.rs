use tesseract_ocr::blob_filter::box_tuple;
use tesseract_ocr::conncomp::{ConnComp, ConnCompBox};

fn comp(x: i32, y: i32, w: i32, h: i32, pixel_count: i32) -> ConnComp {
    ConnComp { bb: ConnCompBox { x, y, w, h }, pixel_count }
}

#[test]
fn box_tuple_has_positive_height_and_width() {
    let c = comp(3, 5, 8, 20, 160);
    let (left, bottom, right, top) = box_tuple(&c);
    assert_eq!(left, 3);
    assert_eq!(bottom, 5);
    assert_eq!(right, 11);
    assert_eq!(top, 25);
    assert!(top > bottom);
    assert!(right > left);
}
