use lexikon::protocol::LexRequest;

#[test]
fn request_encodes_count_then_arguments() {
    let req = LexRequest::new(Some(vec!["set".to_string(), "money".to_string()]));
    let bytes = req.to_request().expect("encodable");
    let expected: Vec<u8> = vec![
        2, 0, 0, 0, 3, 0, 0, 0, b's', b'e', b't', 5, 0, 0, 0, b'm', b'o', b'n', b'e', b'y',
    ];
    assert_eq!(bytes, expected);
}

#[test]
fn request_without_arguments() {
    let req = LexRequest::new(None);
    assert_eq!(req.to_request().expect("encodable"), vec![0u8, 0, 0, 0]);
}

#[test]
fn request_counts_utf8_bytes() {
    let req = LexRequest::new(Some(vec!["é".to_string()]));
    assert_eq!(req.to_request().expect("encodable"), vec![1u8, 0, 0, 0, 2, 0, 0, 0, 0xc3, 0xa9]);
}
