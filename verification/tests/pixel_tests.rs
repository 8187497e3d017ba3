use newplaces::pixel::{
    split_color, CommitEvent, Pixel, BYTES_PER_PIXEL, CANVAS_BYTES, CANVAS_CELLS, CANVAS_SIDE,
};

#[test]
fn canvas_dimensions() {
    assert_eq!(CANVAS_SIDE, 2000);
    assert_eq!(CANVAS_CELLS, 4_000_000);
    assert_eq!(BYTES_PER_PIXEL, 4);
    assert_eq!(CANVAS_BYTES, 16_000_000);
    assert_eq!(CANVAS_BYTES, 2000 * 2000 * 4);
}

#[test]
fn bounds_are_half_open() {
    assert!(Pixel { x: 0, y: 0, color: 0 }.is_in_bounds());
    assert!(Pixel { x: 1999, y: 1999, color: 0 }.is_in_bounds());
    assert!(!Pixel { x: 2000, y: 0, color: 0 }.is_in_bounds());
    assert!(!Pixel { x: 0, y: 2000, color: 0 }.is_in_bounds());
    assert!(!Pixel { x: u32::MAX, y: u32::MAX, color: 0 }.is_in_bounds());
}

#[test]
fn position_is_row_major() {
    assert_eq!(Pixel { x: 0, y: 0, color: 9 }.cell(), 0);
    assert_eq!(Pixel { x: 1, y: 0, color: 9 }.cell(), 1);
    assert_eq!(Pixel { x: 0, y: 1, color: 9 }.cell(), 2000);
    assert_eq!(Pixel { x: 7, y: 3, color: 9 }.cell(), 6007);
    assert_eq!(Pixel { x: 1999, y: 1999, color: 9 }.cell(), 3_999_999);
}

#[test]
fn positions_differ_for_different_cells() {
    let a = Pixel { x: 1999, y: 0, color: 0 };
    let b = Pixel { x: 0, y: 1, color: 0 };
    assert_eq!(a.cell() + 1, b.cell());
    assert_ne!(a.cell(), b.cell());
}

#[test]
fn color_splits_most_significant_first() {
    assert_eq!(split_color(0xFF00_FF00), [0xFF, 0x00, 0xFF, 0x00]);
    assert_eq!(split_color(0x0102_0304), [1, 2, 3, 4]);
    assert_eq!(split_color(0), [0, 0, 0, 0]);
    assert_eq!(split_color(u32::MAX), [255, 255, 255, 255]);
    assert_eq!(split_color(0x1234_5678), 0x1234_5678u32.to_be_bytes());
}

#[test]
fn commit_event_copies_the_pixel() {
    let event = CommitEvent::from_pixel(Pixel { x: 3, y: 4, color: 5 });
    assert_eq!(event, CommitEvent { x: 3, y: 4, color: 5 });
}
