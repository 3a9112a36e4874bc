use p2p_services::stream::{frame_header, frame_length, FrameError};

#[test]
fn frame_header_is_big_endian_length() {
    assert_eq!(frame_header(0x1234, 60_000), Ok([0x12, 0x34]));
    assert_eq!(frame_header(0, 10), Ok([0, 0]));
}

#[test]
fn frame_header_refuses_oversized_objects() {
    assert_eq!(frame_header(70_000, 60_000), Err(FrameError::TooBig { len: 70_000, max: 60_000 }));
    assert_eq!(frame_header(70_000, 100_000), Err(FrameError::TooBigForPrefix { len: 70_000 }));
    assert_eq!(frame_header(65_535, 100_000), Ok([0xff, 0xff]));
}

#[test]
fn frame_length_reads_header_and_checks_limit() {
    assert_eq!(frame_length([0x12, 0x34], 60_000), Ok(0x1234));
    assert_eq!(frame_length([0xff, 0xff], 1000), Err(FrameError::TooBig { len: 65_535, max: 1000 }));
    for len in [0usize, 1, 255, 256, 1000, 65_535] {
        let h = frame_header(len, 65_535).unwrap();
        assert_eq!(frame_length(h, 65_535), Ok(len));
    }
}
