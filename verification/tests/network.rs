use tesseract_ocr::network::{skip_layer_lr, Cursor, InputShape, NetError, ReverseKind, NF_LAYER_SPECIFIC_LR, TF_COMPRESS_UNICHARSET};

#[test]
fn cursor_reads_little_endian_fields_in_order() {
    let bytes = [1u8, 0, 0, 0, 0xff, 0xff, 0xff, 0xff, 0x78, 0x56, 0x34, 0x12];
    let mut cur = Cursor { bytes: &bytes, pos: 0 };
    assert_eq!(cur.u32(), Ok(1));
    assert_eq!(cur.i32(), Ok(-1));
    assert_eq!(cur.i32(), Ok(0x1234_5678));
    assert_eq!(cur.pos, 12);
    assert_eq!(cur.u32(), Err(NetError::UnexpectedEof));
    assert_eq!(cur.pos, 12);
}

#[test]
fn cursor_take_hands_out_the_next_bytes() {
    let bytes = [9u8, 8, 7, 6, 5];
    let mut cur = Cursor { bytes: &bytes, pos: 1 };
    assert_eq!(cur.take(3), Ok(&bytes[1..4]));
    assert_eq!(cur.pos, 4);
    assert_eq!(cur.take(2), Err(NetError::UnexpectedEof));
    assert_eq!(cur.pos, 4);
    assert_eq!(cur.take(1), Ok(&bytes[4..5]));
    assert_eq!(cur.take(0), Ok(&bytes[5..5]));
    assert_eq!(cur.take(usize::MAX), Err(NetError::UnexpectedEof));
}

#[test]
fn i32_reads_the_most_negative_value() {
    let bytes = [0u8, 0, 0, 0x80];
    let mut cur = Cursor { bytes: &bytes, pos: 0 };
    assert_eq!(cur.i32(), Ok(i32::MIN));
}

#[test]
fn layer_rates_are_skipped_only_when_flagged() {
    // count = 2, then two four-byte rates, then a trailing byte.
    let bytes = [2u8, 0, 0, 0, 1, 2, 3, 4, 5, 6, 7, 8, 42];
    let mut cur = Cursor { bytes: &bytes, pos: 0 };
    assert_eq!(skip_layer_lr(&mut cur, 0), Ok(()));
    assert_eq!(cur.pos, 0);
    assert_eq!(skip_layer_lr(&mut cur, NF_LAYER_SPECIFIC_LR | 1), Ok(()));
    assert_eq!(cur.pos, 12);
    let short = [3u8, 0, 0, 0, 1, 2, 3, 4];
    let mut cur = Cursor { bytes: &short, pos: 0 };
    assert_eq!(skip_layer_lr(&mut cur, NF_LAYER_SPECIFIC_LR), Err(NetError::UnexpectedEof));
}

#[test]
fn net_error_messages() {
    assert_eq!(NetError::UnexpectedEof.message(), "network stream ended mid-field");
    assert_eq!(NetError::BadHeader("x".to_string()).message(), "bad node header: x");
    assert_eq!(NetError::Unsupported("2-D LSTM").message(), "unsupported network feature: 2-D LSTM");
    assert_eq!(NetError::BadPayload("short".to_string()).message(), "bad node payload: short");
    assert_eq!(NetError::Forward("empty Series").message(), "forward error: empty Series");
}

#[test]
fn shapes_and_kinds_compare_by_value() {
    let a = InputShape { batch: 1, height: 36, width: 0, depth: 1, loss_type: 0 };
    let b = a;
    assert_eq!(a, b);
    assert_ne!(a, InputShape { depth: 3, ..a });
    assert_ne!(ReverseKind::X, ReverseKind::Txy);
}

#[test]
fn flag_predicates() {
    assert_eq!(65 & TF_COMPRESS_UNICHARSET, 64, "eng recodes");
    assert_eq!(65 & 1, 1, "eng is int-mode");
    assert_eq!(1 & TF_COMPRESS_UNICHARSET, 0, "int-mode-only model doesn't recode");
}
