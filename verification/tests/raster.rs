use maze_walker::decimal::decimal_text;
use maze_walker::{Dimensions, MazeError, Pnger};

#[test]
fn decimal_of_small_and_large_numbers() {
    assert_eq!(decimal_text(0), "0");
    assert_eq!(decimal_text(7), "7");
    assert_eq!(decimal_text(9), "9");
    assert_eq!(decimal_text(10), "10");
    assert_eq!(decimal_text(42), "42");
    assert_eq!(decimal_text(100), "100");
    assert_eq!(decimal_text(1234567890), "1234567890");
    assert_eq!(decimal_text(4294967295), "4294967295");
    assert_eq!(decimal_text(u64::MAX), "18446744073709551615");
}

#[test]
fn decimal_agrees_with_the_standard_rendering() {
    for n in (0..5000u64).chain([65535, 65536, 99999, 100000, 999999999999]) {
        assert_eq!(decimal_text(n), n.to_string());
    }
}

#[test]
fn frame_is_cut_to_its_size() {
    let buffer = [1u8, 2, 3, 4, 5, 6, 7, 8, 9, 9, 9, 9];
    let image = Pnger::from_frame(Dimensions { width: 2, height: 1 }, &buffer, 8).unwrap();
    assert_eq!(image.get_bytes(), vec![1, 2, 3, 4, 5, 6, 7, 8]);
    assert_eq!(image.width(), 2);
    assert_eq!(image.height(), 1);
    assert_eq!(image.dimensions(), Dimensions { width: 2, height: 1 });
    let image = Pnger::from_frame(Dimensions { width: 3, height: 1 }, &buffer, 12).unwrap();
    assert_eq!(image.get_bytes(), buffer.to_vec());
    let image = Pnger::from_frame(Dimensions { width: 0, height: 0 }, &buffer, 0).unwrap();
    assert_eq!(image.get_bytes(), Vec::<u8>::new());
}

#[test]
fn frame_longer_than_its_buffer_is_malformed() {
    let buffer = [0u8; 8];
    assert!(matches!(
        Pnger::from_frame(Dimensions { width: 3, height: 1 }, &buffer, 12),
        Err(MazeError::MalformedInput)
    ));
    assert!(matches!(
        Pnger::from_frame(Dimensions { width: 3, height: 1 }, &buffer, 9),
        Err(MazeError::MalformedInput)
    ));
}

#[test]
fn summary_names_width_and_height() {
    let image = Pnger::from_frame(Dimensions { width: 41, height: 1080 }, &[], 0).unwrap();
    assert_eq!(image.summarize(), "width 41 * height 1080");
    let image = Pnger::from_frame(Dimensions { width: 0, height: u32::MAX }, &[], 0).unwrap();
    assert_eq!(image.summarize(), "width 0 * height 4294967295");
}

#[test]
fn frame_feeds_the_classifier() {
    let buffer = [0u8, 0, 0, 255, 255, 255, 255, 255, 0, 0, 0, 0];
    let image = Pnger::from_frame(Dimensions { width: 2, height: 1 }, &buffer, 8).unwrap();
    let list = maze_walker::PixelList::new(&image.get_bytes(), image.dimensions()).unwrap();
    assert_eq!(list.cells().len(), 2);
    assert!(!list.cells()[0].passable());
    assert!(list.cells()[1].passable());
}
