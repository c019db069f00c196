use vibe_search::frame::{body_length, encode_frame};

#[test]
fn frame_of_empty_body_is_a_zero_header() {
    assert_eq!(encode_frame(&[]), vec![0, 0, 0, 0]);
}

#[test]
fn frame_header_is_big_endian_length() {
    let body = vec![7u8; 258];
    let framed = encode_frame(&body);
    assert_eq!(&framed[..4], &[0, 0, 1, 2]);
    assert_eq!(&framed[4..], &body[..]);
}

#[test]
fn frame_roundtrip_gives_back_the_body() {
    let body = br#"{"Search":"holiday photos"}"#.to_vec();
    let framed = encode_frame(&body);
    let header = [framed[0], framed[1], framed[2], framed[3]];
    let n = body_length(header) as usize;
    assert_eq!(n, body.len());
    assert_eq!(&framed[4..4 + n], &body[..]);
}

#[test]
fn body_length_reads_all_four_bytes() {
    assert_eq!(body_length([0x01, 0x02, 0x03, 0x04]), 0x0102_0304);
    assert_eq!(body_length([0xff, 0xff, 0xff, 0xff]), u32::MAX);
}
