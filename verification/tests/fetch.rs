use calimero_store::fetch::encode_headers;
use calimero_store::fetch::fetch_result;
use calimero_store::fetch::FetchError;

#[test]
fn no_headers_encode_to_a_zero_length() {
    assert_eq!(encode_headers(&[]), Some(vec![0, 0, 0, 0]));
}

#[test]
fn headers_encode_to_lengths_and_bytes() {
    let headers = [("a", "bc"), ("", "d")];
    let expected: Vec<u8> = vec![
        2, 0, 0, 0, //
        1, 0, 0, 0, b'a', 2, 0, 0, 0, b'b', b'c', //
        0, 0, 0, 0, 1, 0, 0, 0, b'd',
    ];
    assert_eq!(encode_headers(&headers), Some(expected));
}

#[test]
fn headers_encode_as_borsh_writes_them() {
    let headers: Vec<(&str, &str)> = vec![
        ("Content-Type", "application/json"),
        ("Accept", "*/*"),
        ("X-Näme", "wért"),
    ];
    let slice: &[(&str, &str)] = &headers;
    assert_eq!(encode_headers(slice), Some(borsh::to_vec(&slice).unwrap()));
}

#[test]
fn a_request_that_went_through_gives_its_data() {
    assert_eq!(fetch_result(false, vec![1, 2, 0xff]), Ok(vec![1, 2, 0xff]));
    assert_eq!(fetch_result(false, vec![]), Ok(vec![]));
}

#[test]
fn a_request_that_failed_gives_its_message() {
    assert_eq!(
        fetch_result(true, b"not found".to_vec()),
        Err(FetchError::Failed("not found".to_owned()))
    );
    assert_eq!(
        fetch_result(true, "grüß".as_bytes().to_vec()),
        Err(FetchError::Failed("grüß".to_owned()))
    );
}

#[test]
fn a_failure_whose_message_is_not_utf8_is_told_apart() {
    assert_eq!(
        fetch_result(true, vec![0xff, 0xfe]),
        Err(FetchError::InvalidMessage)
    );
}
