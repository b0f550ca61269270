use ftov::encode::{raw_video, BWIDTH, HEIGHT, UFRAME, UWIDTH};

#[test]
fn no_rows_give_a_black_frame() {
    let out = raw_video(&Vec::new());
    assert_eq!(out.len(), HEIGHT * BWIDTH);
    assert!(out.iter().all(|&b| b == 0));
}

#[test]
fn rows_come_first_then_black_rows() {
    let data = vec![[7u8; BWIDTH], [9u8; BWIDTH]];
    let out = raw_video(&data);
    assert_eq!(out.len(), HEIGHT * BWIDTH);
    assert!(out[..BWIDTH].iter().all(|&b| b == 7));
    assert!(out[BWIDTH..2 * BWIDTH].iter().all(|&b| b == 9));
    assert!(out[2 * BWIDTH..].iter().all(|&b| b == 0));
}

#[test]
fn full_frames_are_not_padded() {
    let data = vec![[1u8; BWIDTH]; HEIGHT + 1];
    let out = raw_video(&data);
    assert_eq!(out.len(), (HEIGHT + 1) * BWIDTH);
    assert!(out.iter().all(|&b| b == 1));
}

#[test]
fn constants() {
    assert_eq!(BWIDTH, 5760);
    assert_eq!(UWIDTH, 32);
    assert_eq!(UFRAME, 288);
}
