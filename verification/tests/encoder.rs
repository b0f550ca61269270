use ftov::encoder::{pattern_text, render_pixels};
use ftov::iter::SquarePatternError;
use ftov::metadata::Metadata;

#[test]
fn one_byte_on_two_frames_of_squares() {
    // 0xA0 = 1010_0000; 4 squares of side 2 per row, one row of squares per frame
    let meta = Metadata::new(8, 2, 1, 2, 1).unwrap();
    let text = pattern_text(&[0xA0], &meta).unwrap();
    assert_eq!(
        String::from_utf8(text).unwrap(),
        "11001100\n11001100\n-\n00000000\n00000000\n-\n"
    );
}

#[test]
fn incomplete_row_of_squares_is_refused() {
    let meta = Metadata::new(24, 2, 1, 2, 1).unwrap();
    let result = pattern_text(&[0xFF], &meta);
    assert!(matches!(result, Err(SquarePatternError::InvalidBitVecLength(8, 2, 24))));
}

#[test]
fn no_bytes_give_no_text() {
    let meta = Metadata::new(8, 2, 1, 2, 1).unwrap();
    assert!(pattern_text(&[], &meta).unwrap().is_empty());
}

#[test]
fn render_breaks_rows_and_frames() {
    let pixels = vec![true, false, false, true, true];
    let text = render_pixels(&pixels, 2, 4);
    assert_eq!(String::from_utf8(text).unwrap(), "10\n01\n-\n1");
}

#[test]
fn empty_input_needs_no_square_counts() {
    let meta = Metadata { w: 8, h: 2, sw: 0, sh: 0, ss: 2, fps: 1, buffer_size: 1 };
    assert!(pattern_text(&[], &meta).unwrap().is_empty());
}

#[test]
fn refused_pattern_needs_no_square_counts() {
    let meta = Metadata { w: 5, h: 2, sw: 0, sh: 0, ss: 2, fps: 1, buffer_size: 1 };
    assert!(matches!(pattern_text(&[0xFF], &meta), Err(SquarePatternError::InvalidWidth(5, 2))));
}

#[test]
fn frame_count_is_not_needed_before_a_row_is_complete() {
    let text = render_pixels(&vec![true, false], 4, 0);
    assert_eq!(String::from_utf8(text).unwrap(), "10");
    assert!(render_pixels(&Vec::new(), 0, 0).is_empty());
}

#[test]
fn square_size_that_is_not_a_multiple_of_eight() {
    // 12x6 with squares of 3: 4 squares per row, 2 rows per frame
    let meta = Metadata::new(12, 6, 1, 3, 1).unwrap();
    let text = pattern_text(&[0b1000_0001], &meta).unwrap();
    let expected = "111000000000\n".repeat(3) + &"000000000111\n".repeat(3) + "-\n";
    assert_eq!(String::from_utf8(text).unwrap(), expected);
}
