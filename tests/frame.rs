use keyless_mux::frame::{parse_response, Parsed, Request, MAX_PAYLOAD};

#[test]
fn request_frame_layout() {
    let mut r = Request::new(vec![0xAA, 0xBB]).unwrap();
    r.set_id(0x01020304);
    assert_eq!(r.id(), 0x01020304);
    assert_eq!(r.as_bytes(), vec![1, 0, 0, 2, 1, 2, 3, 4, 0xAA, 0xBB]);
}

#[test]
fn oversized_payload_is_refused() {
    assert!(Request::new(vec![0; MAX_PAYLOAD + 1]).is_none());
    assert!(Request::new(vec![0; MAX_PAYLOAD]).is_some());
}

#[test]
fn response_round_trip() {
    let mut r = Request::new(vec![7, 8, 9]).unwrap();
    r.set_id(300);
    let mut bytes = r.as_bytes();
    bytes.push(0xFF);
    match parse_response(&bytes) {
        Parsed::Complete { response, used } => {
            assert_eq!(used, 11);
            assert_eq!(response.id(), 300);
            assert_eq!(response.payload, vec![7, 8, 9]);
        }
        _ => panic!("frame not read"),
    }
}

#[test]
fn short_buffers_are_incomplete() {
    assert!(matches!(parse_response(&vec![1, 0, 0]), Parsed::Incomplete));
    assert!(matches!(parse_response(&vec![1, 0, 0, 4, 0, 0, 0, 1, 5]), Parsed::Incomplete));
}

#[test]
fn bad_header_is_malformed() {
    assert!(matches!(parse_response(&vec![1, 1, 0, 0, 0, 0, 0, 0]), Parsed::Malformed));
    assert!(matches!(parse_response(&vec![2, 0, 0, 0, 0, 0, 0, 0]), Parsed::Malformed));
}
