use ftov::bits::Bits;
use ftov::iter::{SquarePattern, SquarePatternError, SquarePatternIter};

/// A bit vector holding the given bits (1 for set, 0 for clear).
fn bits_of(values: &[u8]) -> Bits {
    let mut bits = Bits::new();
    for &v in values {
        bits.push(v == 1);
    }
    bits
}

#[test]
fn test_invalid_square() {
    let bits = bits_of(&[1, 0, 1, 0]);
    let result = bits.square_pattern(0, 4);
    assert!(matches!(result, Err(SquarePatternError::InvalidSquare)));
}

#[test]
fn test_invalid_width() {
    let bits = bits_of(&[1, 0, 1, 0]);
    let result = bits.square_pattern(2, 5);
    assert!(matches!(result, Err(SquarePatternError::InvalidWidth(5, 2))));
}

#[test]
fn test_invalid_bitvec_length() {
    let bits = bits_of(&[1, 0, 1]);
    let result = bits.square_pattern(2, 4);
    assert!(matches!(result, Err(SquarePatternError::InvalidBitVecLength(3, 2, 4))));
}

#[test]
fn test_valid_square_pattern() {
    let bits = bits_of(&[1, 0, 1, 0]);
    let mut sp = bits.square_pattern(2, 4).unwrap();
        assert_eq!(sp.next(), Some(true));
        assert_eq!(sp.next(), Some(true));
        assert_eq!(sp.next(), Some(false));
        assert_eq!(sp.next(), Some(false));
        assert_eq!(sp.next(), Some(true));
        assert_eq!(sp.next(), Some(true));
        assert_eq!(sp.next(), Some(false));
        assert_eq!(sp.next(), Some(false));
        assert_eq!(sp.next(), Some(true));
        assert_eq!(sp.next(), Some(true));
        assert_eq!(sp.next(), Some(false));
        assert_eq!(sp.next(), Some(false));
        assert_eq!(sp.next(), Some(true));
        assert_eq!(sp.next(), Some(true));
        assert_eq!(sp.next(), Some(false));
        assert_eq!(sp.next(), Some(false));
        assert_eq!(sp.next(), None);
}

#[test]
fn test_large_square_pattern_2sqrows() {
    let bits = bits_of(&[1, 0, 1, 0, 1, 0, 1, 0, 1, 0, 1, 0, 1, 0, 1, 0]);
    let mut sp = bits.square_pattern(2, 8).unwrap();
        assert_eq!(sp.next(), Some(true));
        assert_eq!(sp.next(), Some(true));
        assert_eq!(sp.next(), Some(false));
        assert_eq!(sp.next(), Some(false));
        assert_eq!(sp.next(), Some(true));
        assert_eq!(sp.next(), Some(true));
        assert_eq!(sp.next(), Some(false));
        assert_eq!(sp.next(), Some(false));
        assert_eq!(sp.next(), Some(true));
        assert_eq!(sp.next(), Some(true));
        assert_eq!(sp.next(), Some(false));
        assert_eq!(sp.next(), Some(false));
        assert_eq!(sp.next(), Some(true));
        assert_eq!(sp.next(), Some(true));
        assert_eq!(sp.next(), Some(false));
        assert_eq!(sp.next(), Some(false));
        assert_eq!(sp.next(), Some(true));
        assert_eq!(sp.next(), Some(true));
        assert_eq!(sp.next(), Some(false));
        assert_eq!(sp.next(), Some(false));
        assert_eq!(sp.next(), Some(true));
        assert_eq!(sp.next(), Some(true));
        assert_eq!(sp.next(), Some(false));
        assert_eq!(sp.next(), Some(false));
        assert_eq!(sp.next(), Some(true));
        assert_eq!(sp.next(), Some(true));
        assert_eq!(sp.next(), Some(false));
        assert_eq!(sp.next(), Some(false));
        assert_eq!(sp.next(), Some(true));
        assert_eq!(sp.next(), Some(true));
        assert_eq!(sp.next(), Some(false));
        assert_eq!(sp.next(), Some(false));
        assert_eq!(sp.next(), Some(true));
        assert_eq!(sp.next(), Some(true));
        assert_eq!(sp.next(), Some(false));
        assert_eq!(sp.next(), Some(false));
        assert_eq!(sp.next(), Some(true));
        assert_eq!(sp.next(), Some(true));
        assert_eq!(sp.next(), Some(false));
        assert_eq!(sp.next(), Some(false));
        assert_eq!(sp.next(), Some(true));
        assert_eq!(sp.next(), Some(true));
        assert_eq!(sp.next(), Some(false));
        assert_eq!(sp.next(), Some(false));
        assert_eq!(sp.next(), Some(true));
        assert_eq!(sp.next(), Some(true));
        assert_eq!(sp.next(), Some(false));
        assert_eq!(sp.next(), Some(false));
        assert_eq!(sp.next(), Some(true));
        assert_eq!(sp.next(), Some(true));
        assert_eq!(sp.next(), Some(false));
        assert_eq!(sp.next(), Some(false));
        assert_eq!(sp.next(), Some(true));
        assert_eq!(sp.next(), Some(true));
        assert_eq!(sp.next(), Some(false));
        assert_eq!(sp.next(), Some(false));
        assert_eq!(sp.next(), Some(true));
        assert_eq!(sp.next(), Some(true));
        assert_eq!(sp.next(), Some(false));
        assert_eq!(sp.next(), Some(false));
        assert_eq!(sp.next(), Some(true));
        assert_eq!(sp.next(), Some(true));
        assert_eq!(sp.next(), Some(false));
        assert_eq!(sp.next(), Some(false));
        assert_eq!(sp.next(), None);
}

#[test]
fn width_smaller_than_square_is_refused() {
    let result = bits_of(&[1, 0]).square_pattern(4, 2);
    assert!(matches!(result, Err(SquarePatternError::InvalidWidth(2, 4))));
    let result = bits_of(&[1, 0]).square_pattern(2, 0);
    assert!(matches!(result, Err(SquarePatternError::InvalidWidth(0, 2))));
}

#[test]
fn square_check_comes_before_width_check() {
    let result = bits_of(&[1, 0, 1]).square_pattern(0, 5);
    assert!(matches!(result, Err(SquarePatternError::InvalidSquare)));
}

#[test]
fn width_check_comes_before_length_check() {
    let result = bits_of(&[1, 0, 1]).square_pattern(2, 5);
    assert!(matches!(result, Err(SquarePatternError::InvalidWidth(5, 2))));
}

#[test]
fn new_gives_the_same_walk_as_square_pattern() {
    let mut a = SquarePattern::new(bits_of(&[0, 1]), 1, 2).unwrap();
    assert_eq!(a.next(), Some(false));
    assert_eq!(a.next(), Some(true));
    assert_eq!(a.next(), None);
}

#[test]
fn each_bit_becomes_a_square_of_side_three() {
    let mut sp = bits_of(&[1, 0]).square_pattern(3, 3).unwrap();
    let pixels = sp.collect_remaining();
    let mut expected = vec![true; 9];
    expected.extend(vec![false; 9]);
    assert_eq!(pixels, expected);
    assert_eq!(sp.next(), None);
}

#[test]
fn squares_are_laid_out_row_by_row() {
    // two squares per row, two rows of squares, squares of side 2
    let mut sp = bits_of(&[1, 0, 0, 1]).square_pattern(2, 4).unwrap();
    let pixels: Vec<u8> = sp.collect_remaining().iter().map(|&b| b as u8).collect();
    assert_eq!(
        pixels,
        vec![1, 1, 0, 0, 1, 1, 0, 0, 0, 0, 1, 1, 0, 0, 1, 1]
    );
}

#[test]
fn walk_stays_finished() {
    let mut sp = bits_of(&[1]).square_pattern(1, 1).unwrap();
    assert_eq!(sp.next(), Some(true));
    assert_eq!(sp.next(), None);
    assert_eq!(sp.next(), None);
    assert!(sp.collect_remaining().is_empty());
}

#[test]
fn empty_bit_vector_gives_empty_pattern() {
    let mut sp = Bits::new().square_pattern(2, 4).unwrap();
    assert_eq!(sp.next(), None);
}

#[test]
fn collect_after_partial_walk_gives_the_rest() {
    let mut sp = bits_of(&[1, 0]).square_pattern(1, 2).unwrap();
    assert_eq!(sp.next(), Some(true));
    assert_eq!(sp.collect_remaining(), vec![false]);
}

#[test]
fn bits_from_bytes_are_most_significant_first() {
    let bits = Bits::from_bytes(&[0b1000_0001, 0b0100_0000]);
    assert_eq!(bits.len(), 16);
    assert!(bits.get(0));
    assert!(!bits.get(1));
    assert!(bits.get(7));
    assert!(!bits.get(8));
    assert!(bits.get(9));
}

#[test]
fn squares_of_side_one_pass_the_bits_through() {
    let values = [1u8, 1, 0, 1, 0, 0];
    let mut sp = bits_of(&values).square_pattern(1, 3).unwrap();
    for &v in &values {
        assert_eq!(sp.next(), Some(v == 1));
    }
    assert_eq!(sp.next(), None);
}

#[test]
fn set_and_clear_pixels_are_counted_per_square() {
    // 3 set bits and 3 clear bits, squares of side 2
    let mut sp = bits_of(&[1, 1, 0, 1, 0, 0]).square_pattern(2, 6).unwrap();
    let pixels = sp.collect_remaining();
    assert_eq!(pixels.len(), 6 * 4);
    assert_eq!(pixels.iter().filter(|&&b| b).count(), 3 * 4);
    assert_eq!(pixels.iter().filter(|&&b| !b).count(), 3 * 4);
}
