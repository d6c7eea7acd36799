use zest::connection::{parse_http_request, HttpMethod};
use zest::response::{internal_error_response, HttpResponse};
use zest::router::{not_found, route, Route};

#[test]
fn response_wire_format_is_exact() {
    let bytes = HttpResponse::new(200, b"OK".to_vec())
        .set_header(b"X-One".to_vec(), b"y".to_vec())
        .set_body(b"hi".to_vec())
        .to_bytes();
    assert_eq!(bytes, b"HTTP/1.1 200 OK\r\nX-One: y\r\n\r\nhi".to_vec());
}

#[test]
fn response_without_headers_or_body() {
    let bytes = HttpResponse::new(500, b"Internal Server Error".to_vec()).to_bytes();
    assert_eq!(bytes, b"HTTP/1.1 500 Internal Server Error\r\n\r\n".to_vec());
}

#[test]
fn json_body_sets_content_type() {
    let text = String::from_utf8(
        HttpResponse::new(200, b"OK".to_vec()).set_json_body(b"{}".to_vec()).to_bytes(),
    )
    .unwrap();
    assert_eq!(
        text,
        "HTTP/1.1 200 OK\r\nContent-Type: application/json; charset=utf-8\r\n\r\n{}"
    );
}

#[test]
fn origin_is_mirrored_back() {
    let request = parse_http_request(
        &b"GET /x HTTP/1.1\r\nOrigin: http://example.net\r\n\r\n".to_vec(),
    )
    .unwrap();
    let text = String::from_utf8(internal_error_response(&request).to_bytes()).unwrap();
    assert_eq!(
        text,
        "HTTP/1.1 500 Internal Server Error\r\nAccess-Control-Allow-Origin: http://example.net\r\n\r\n"
    );
}

#[test]
fn absent_origin_allows_every_origin() {
    let request = parse_http_request(&b"GET /x HTTP/1.1\r\n\r\n".to_vec()).unwrap();
    let text = String::from_utf8(internal_error_response(&request).to_bytes()).unwrap();
    assert!(text.contains("Access-Control-Allow-Origin: *\r\n"));
}

#[test]
fn registered_routes_resolve() {
    assert_eq!(route(HttpMethod::GET, &b"/api/v1/music/get".to_vec()), Route::MusicChunk);
    assert_eq!(route(HttpMethod::GET, &b"/api/v1/music/all".to_vec()), Route::MusicList);
}

#[test]
fn unregistered_routes_are_not_found() {
    assert_eq!(route(HttpMethod::GET, &b"/api/v1/music".to_vec()), Route::NotFound);
    assert_eq!(route(HttpMethod::POST, &b"/api/v1/music/all".to_vec()), Route::NotFound);
    assert_eq!(route(HttpMethod::DELETE, &b"/".to_vec()), Route::NotFound);
    assert_eq!(route(HttpMethod::Unknown, &b"/api/v1/music/get".to_vec()), Route::NotFound);
}

#[test]
fn not_found_page_body() {
    let text = String::from_utf8(not_found().to_bytes()).unwrap();
    assert!(text.starts_with("HTTP/1.1 404 Not Found\r\n"));
    assert!(text.ends_with("{\"message\":\"Page not found\"}"));
}
