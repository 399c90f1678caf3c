use quantam_fs::net::frame::{encode_frame, frame_body_len, frame_from_body, Frame, MAX_FRAME_BODY_LEN};

#[test]
fn constructor_counts_type_byte_in_limit() {
    assert!(Frame::new(1, vec![0; MAX_FRAME_BODY_LEN as usize - 1]).is_ok());
    assert!(Frame::new(1, vec![0; MAX_FRAME_BODY_LEN as usize]).is_err());
    assert!(Frame::new(15, Vec::new()).is_err());
}

#[test]
fn encoded_frame_reads_back_through_header_and_body() {
    let expected = Frame::new(10, vec![0, 0x80, 0xff]).unwrap();
    let bytes = encode_frame(&expected).unwrap();
    assert_eq!(bytes, vec![1, 0, 0, 0, 4, 10, 0, 0x80, 0xff]);
    let mut header = [0u8; 5];
    header.copy_from_slice(&bytes[..5]);
    assert_eq!(frame_body_len(&header).unwrap(), 4);
    assert_eq!(frame_from_body(bytes[5..].to_vec()).unwrap(), expected);
}

#[test]
fn header_rejects_version_empty_body_and_oversize() {
    assert!(frame_body_len(&[2, 0, 0, 0, 1]).is_err());
    assert!(frame_body_len(&[1, 0, 0, 0, 0]).is_err());
    assert!(frame_body_len(&[1, 0, 0x10, 0, 1]).is_err());
    assert!(frame_from_body(vec![0]).is_err());
}
