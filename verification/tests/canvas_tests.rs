use newplaces::canvas::CanvasCache;
use newplaces::pixel::CANVAS_BYTES;

fn blank_canvas() -> CanvasCache {
    match CanvasCache::hydrate(vec![0u8; CANVAS_BYTES]) {
        Ok(canvas) => canvas,
        Err(_) => panic!("a buffer of the canvas length is accepted"),
    }
}

#[test]
fn hydrate_accepts_exact_length() {
    let canvas = blank_canvas();
    assert_eq!(canvas.read().len(), 16_000_000);
}

#[test]
fn hydrate_hands_back_wrong_length() {
    let short = vec![7u8; 12];
    match CanvasCache::hydrate(short) {
        Ok(_) => panic!("a short buffer is refused"),
        Err(bytes) => assert_eq!(bytes, vec![7u8; 12]),
    }
    assert!(CanvasCache::hydrate(Vec::new()).is_err());
    assert!(CanvasCache::hydrate(vec![0u8; CANVAS_BYTES + 1]).is_err());
}

#[test]
fn patch_writes_big_endian_channels() {
    let mut canvas = blank_canvas();
    canvas.patch(1, 0xFF00_FF00);
    let snapshot = canvas.read();
    assert_eq!(&snapshot[0..4], &[0, 0, 0, 0]);
    assert_eq!(&snapshot[4..8], &[0xFF, 0x00, 0xFF, 0x00]);
    assert_eq!(&snapshot[8..12], &[0, 0, 0, 0]);
    canvas.patch(3_999_999, 0x0102_0304);
    let snapshot = canvas.read();
    assert_eq!(&snapshot[15_999_996..16_000_000], &[1, 2, 3, 4]);
    assert_eq!(&snapshot[4..8], &[0xFF, 0x00, 0xFF, 0x00]);
}
