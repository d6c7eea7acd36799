use zest::connection::{
    parse_header_line, parse_http_request, parse_request_line, HttpMethod, HttpRequest,
    HttpVersion, ParseError,
};
use zest::dict::Dict;

#[test]
fn test_parse_request_line_http0_9() {
    let mut request = HttpRequest::default();
    parse_request_line(&b"GET /hello".to_vec(), &mut request).unwrap();

    assert_eq!(request.method, HttpMethod::GET);
    assert_eq!(request.path, b"/hello".to_vec());
    assert_eq!(request.version, HttpVersion::V0_9);
}

#[test]
fn test_parse_request_line_http1_0() {
    let mut request = HttpRequest::default();
    parse_request_line(&b"POST /world HTTP/1.0".to_vec(), &mut request).unwrap();

    assert_eq!(request.method, HttpMethod::POST);
    assert_eq!(request.path, b"/world".to_vec());
    assert_eq!(request.version, HttpVersion::V1);
}

#[test]
fn test_parse_request_line_http1_1() {
    let mut request = HttpRequest::default();
    parse_request_line(&b"DELETE /sailor HTTP/1.1".to_vec(), &mut request).unwrap();

    assert_eq!(request.method, HttpMethod::DELETE);
    assert_eq!(request.path, b"/sailor".to_vec());
    assert_eq!(request.version, HttpVersion::V1_1);
}

#[test]
fn test_parse_request_line_unknown_method() {
    let mut request = HttpRequest::default();
    let result = parse_request_line(&b"FOO /path HTTP/1.1".to_vec(), &mut request);

    assert!(result.is_err());
}

#[test]
fn test_parse_request_line_unknown_version() {
    let mut request = HttpRequest::default();
    let result = parse_request_line(&b"GET /path HTTP/69.0".to_vec(), &mut request);

    assert!(result.is_err());
}

#[test]
fn test_parse_request_line_http1_0_extra_spaces() {
    let mut request = HttpRequest::default();
    parse_request_line(&b"GET   /path   HTTP/1.0".to_vec(), &mut request).unwrap();

    assert_eq!(request.method, HttpMethod::GET);
    assert_eq!(request.path, b"/path".to_vec());
    assert_eq!(request.version, HttpVersion::V1);
}

#[test]
fn test_parse_request_line_http1_1_lower_case() {
    let mut request = HttpRequest::default();
    parse_request_line(&b"get /path http/1.1".to_vec(), &mut request).unwrap();

    assert_eq!(request.method, HttpMethod::GET);
    assert_eq!(request.path, b"/path".to_vec());
    assert_eq!(request.version, HttpVersion::V1_1);
}

#[test]
fn test_parse_header_line_valid() {
    let mut headers = Dict::new();
    parse_header_line(&b"Content-Type: text/html".to_vec(), &mut headers).unwrap();

    assert_eq!(headers.get(&b"content-type".to_vec()).unwrap(), &b"text/html".to_vec());
}

#[test]
fn test_parse_header_line_invalid() {
    let mut headers = Dict::new();
    let result = parse_header_line(&b"Invalid-Header".to_vec(), &mut headers);

    assert!(result.is_err());
}

#[test]
fn test_parse_header_line_valid_extra_spaces() {
    let mut headers = Dict::new();
    parse_header_line(&b"Content-Type   :   text/html".to_vec(), &mut headers).unwrap();

    assert_eq!(headers.get(&b"content-type".to_vec()).unwrap(), &b"text/html".to_vec());
}

#[test]
fn test_parse_header_line_valid_case_insensitive() {
    let mut headers = Dict::new();
    parse_header_line(&b"content-type: text/html".to_vec(), &mut headers).unwrap();

    assert_eq!(headers.get(&b"content-type".to_vec()).unwrap(), &b"text/html".to_vec());
}

#[test]
fn test_parse_http_request() {
    let payload =
        b"PATCH /api/v1/music/all?hello=world&what=nothing HTTP/1.0\r\nHost: www.example.com\r\n\r\n";

    match parse_http_request(&payload.to_vec()) {
        Ok(request) => {
            assert_eq!(request.method, HttpMethod::PATCH);
            assert_eq!(request.path, b"/api/v1/music/all".to_vec());
            assert_eq!(request.version, HttpVersion::V1);
            assert_eq!(
                request.headers.get(&b"host".to_vec()).unwrap(),
                &b"www.example.com".to_vec()
            );
            assert_eq!(
                request.parameters.as_ref().unwrap().get(&b"hello".to_vec()).unwrap(),
                &b"world".to_vec()
            );
            assert_eq!(
                request.parameters.as_ref().unwrap().get(&b"what".to_vec()).unwrap(),
                &b"nothing".to_vec()
            );
        },
        Err(e) => panic!("Test failed: {:?}", e),
    }
}

#[test]
fn parse_recovers_decoded_path_and_headers() {
    let payload = b"GET /a%20b HTTP/1.1\r\n  X-One : first \r\nx-two:second\r\n\r\n";

    let request = parse_http_request(&payload.to_vec()).unwrap();
    assert_eq!(request.method, HttpMethod::GET);
    assert_eq!(request.path, b"/a b".to_vec());
    assert_eq!(request.raw_path, b"/a b".to_vec());
    assert_eq!(request.version, HttpVersion::V1_1);
    assert_eq!(request.headers.get(&b"x-one".to_vec()).unwrap(), &b"first".to_vec());
    assert_eq!(request.headers.get(&b"x-two".to_vec()).unwrap(), &b"second".to_vec());
    assert!(request.parameters.is_none());
}

#[test]
fn parse_completes_on_bare_terminator() {
    let request = parse_http_request(&b"\r\nrest is never read".to_vec()).unwrap();
    assert_eq!(request.method, HttpMethod::Unknown);
    assert_eq!(request.path, Vec::<u8>::new());
}

#[test]
fn parse_duplicate_query_keys_last_wins() {
    let payload = b"GET /p?a=1&a=2&=skipped&b=3 HTTP/1.1\r\n\r\n";
    let request = parse_http_request(&payload.to_vec()).unwrap();
    let params = request.parameters.as_ref().unwrap();
    assert_eq!(params.get(&b"a".to_vec()).unwrap(), &b"2".to_vec());
    assert_eq!(params.get(&b"b".to_vec()).unwrap(), &b"3".to_vec());
    assert_eq!(params.len(), 2);
}

#[test]
fn parse_rejects_bad_method() {
    let r = parse_http_request(&b"FOO /x HTTP/1.1\r\n\r\n".to_vec());
    assert_eq!(r.unwrap_err(), ParseError::InvalidMethod);
}

#[test]
fn parse_rejects_bad_version() {
    let r = parse_http_request(&b"GET /x HTTP/9.9\r\n\r\n".to_vec());
    assert_eq!(r.unwrap_err(), ParseError::InvalidVersion);
}

#[test]
fn parse_rejects_bad_escape() {
    let r = parse_http_request(&b"GET /a%zz HTTP/1.1\r\n\r\n".to_vec());
    assert_eq!(r.unwrap_err(), ParseError::InvalidEncoding);
}

#[test]
fn parse_rejects_bad_header_line() {
    let r = parse_http_request(&b"GET /x HTTP/1.1\r\nNo-Colon-Here\r\n\r\n".to_vec());
    assert_eq!(r.unwrap_err(), ParseError::InvalidHeaderLine);
}

#[test]
fn parse_rejects_truncated_input() {
    let r = parse_http_request(&b"GET /x HTTP/1.1\r\n".to_vec());
    assert_eq!(r.unwrap_err(), ParseError::Truncated);
}

#[test]
fn parse_rejects_oversized_header_block() {
    // no line break at all in far more than the budget
    let blob = vec![b'a'; 5000];
    assert_eq!(parse_http_request(&blob).unwrap_err(), ParseError::HeaderTooLarge);
}

#[test]
fn parse_rejects_oversized_but_well_formed_headers() {
    // valid request line and valid header lines, together past the budget
    let mut payload = b"GET /x HTTP/1.1\r\n".to_vec();
    for _ in 0..200 {
        payload.extend_from_slice(b"Key: 01234567890123456789\r\n");
    }
    payload.extend_from_slice(b"\r\n");
    assert!(payload.len() > 4096);
    assert_eq!(parse_http_request(&payload).unwrap_err(), ParseError::HeaderTooLarge);
}

#[test]
fn parse_query_value_runs_past_further_equals() {
    let payload = b"GET /p?a=b=c HTTP/1.1\r\n\r\n";
    let request = parse_http_request(&payload.to_vec()).unwrap();
    let params = request.parameters.as_ref().unwrap();
    assert_eq!(params.get(&b"a".to_vec()).unwrap(), &b"b=c".to_vec());
}

#[test]
fn parse_rejects_bad_escape_anywhere_in_a_value() {
    let r = parse_http_request(&b"GET /p?a=1=%zz HTTP/1.1\r\n\r\n".to_vec());
    assert_eq!(r.unwrap_err(), ParseError::InvalidEncoding);
}

#[test]
fn parse_headers_follow_an_empty_path_request_line() {
    // the request line is done once a method is set, even when the
    // decoded path is empty
    let payload = b"GET ?a=1 HTTP/1.1\r\nHost: example\r\n\r\n";
    let request = parse_http_request(&payload.to_vec()).unwrap();
    assert_eq!(request.method, HttpMethod::GET);
    assert_eq!(request.path, Vec::<u8>::new());
    assert_eq!(request.headers.get(&b"host".to_vec()).unwrap(), &b"example".to_vec());
    assert_eq!(
        request.parameters.as_ref().unwrap().get(&b"a".to_vec()).unwrap(),
        &b"1".to_vec()
    );
}
