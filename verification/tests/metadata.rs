use ftov::metadata::{Metadata, MetadataError};

#[test]
fn full_hd_with_squares_of_three() {
    let m = Metadata::new(1920, 1080, 30, 3, 50_000).unwrap();
    assert_eq!((m.w, m.h, m.sw, m.sh, m.ss, m.fps, m.buffer_size), (1920, 1080, 640, 360, 3, 30, 50_000));
}

#[test]
fn zero_square_is_invalid() {
    assert!(matches!(Metadata::new(16, 8, 30, 0, 1), Err(MetadataError::InvalidSquare)));
}

#[test]
fn square_must_divide_width_and_height() {
    assert!(matches!(Metadata::new(16, 9, 30, 2, 1), Err(MetadataError::InvalidSquare)));
    assert!(matches!(Metadata::new(12, 8, 30, 8, 1), Err(MetadataError::InvalidSquare)));
}

#[test]
fn zero_height_is_invalid() {
    assert!(matches!(Metadata::new(16, 0, 30, 2, 1), Err(MetadataError::InvalidHeight)));
}

#[test]
fn zero_width_is_invalid() {
    assert!(matches!(Metadata::new(0, 4, 30, 2, 1), Err(MetadataError::InvalidWidth)));
}

#[test]
fn any_positive_width_divided_by_the_square_is_valid() {
    let m = Metadata::new(12, 6, 30, 3, 1024).unwrap();
    assert_eq!((m.w, m.h, m.sw, m.sh, m.ss), (12, 6, 4, 2, 3));
    let m = Metadata::new(6, 6, 30, 3, 1).unwrap();
    assert_eq!((m.sw, m.sh), (2, 2));
}

#[test]
fn square_check_comes_first() {
    assert!(matches!(Metadata::new(6, 0, 30, 4, 1), Err(MetadataError::InvalidSquare)));
}

#[test]
fn one_square_per_frame() {
    let m = Metadata::new(8, 8, 1, 8, 1).unwrap();
    assert_eq!((m.sw, m.sh), (1, 1));
}
