use rymo::error::Error;
use rymo::http::mime::{read_mime, CSS_UTF_8, HTML_UTF_8, TEXT};
use rymo::http::response::{IntoResponse, Response, Status};

#[test]
fn serialization_round_trip_exact_bytes() {
    let mut res = Response::default();
    res.headers.insert("content-type".to_string(), "text/plain".to_string());
    res.body = b"hi".to_vec();
    let bytes = res.into_response();
    assert_eq!(bytes, b"HTTP/1.1 200 OK\r\ncontent-type: text/plain\r\n\r\nhi".to_vec());
}

#[test]
fn serialization_of_default_response() {
    let res = Response::default();
    assert_eq!(res.status, Status::Okay);
    let bytes = res.into_response();
    assert_eq!(bytes, b"HTTP/1.1 200 OK\r\n\r\n".to_vec());
}

#[test]
fn serialization_keeps_header_insertion_order() {
    let mut res = Response::default();
    res.headers.insert("b".to_string(), "2".to_string());
    res.headers.insert("a".to_string(), "1".to_string());
    let bytes = res.into_response();
    assert_eq!(bytes, b"HTTP/1.1 200 OK\r\nb: 2\r\na: 1\r\n\r\n".to_vec());
}

#[test]
fn status_reasons() {
    assert_eq!(Status::Okay.reason(), "200 OK");
    assert_eq!(Status::InternalServer.reason(), "500 Internal Server Error");
    assert_eq!(Status::NotFound.reason(), "404 Not Found");
    assert_eq!(Status::MethodNotAllowed.reason(), "405 Method Not Allowed");
    assert_eq!(Status::BadRequest.reason(), "400 Bad Request");
}

#[test]
fn status_head_bytes_is_bare_status_line() {
    assert_eq!(Status::NotFound.head_bytes(), b"HTTP/1.1 404 Not Found\r\n\r\n".to_vec());
}

#[test]
fn error_statuses() {
    let bad = Error::BadRequest("x".to_string());
    let ise = Error::InternalServerError("y".to_string());
    assert_eq!(bad.status(), Status::BadRequest);
    assert_eq!(ise.status(), Status::InternalServer);
    assert_eq!(bad.response_bytes(), b"HTTP/1.1 400 Bad Request\r\n\r\n".to_vec());
    assert_eq!(ise.response_bytes(), b"HTTP/1.1 500 Internal Server Error\r\n\r\n".to_vec());
    assert_eq!(bad.message(), "x");
}

#[test]
fn error_into_response_is_internal_server_error() {
    let bad = Error::BadRequest("x".to_string());
    assert_eq!(bad.into_response(), b"HTTP/1.1 500 Internal Server Error\r\n\r\n".to_vec());
}

#[test]
fn mime_table() {
    assert_eq!(read_mime("html"), "text/html; charset=utf-8");
    assert_eq!(read_mime("css"), "text/css; charset=utf-8");
    assert_eq!(read_mime("gif"), "text/plain");
    assert_eq!(read_mime(""), "text/plain");
    assert_eq!(HTML_UTF_8, "text/html; charset=utf-8");
    assert_eq!(CSS_UTF_8, "text/css; charset=utf-8");
    assert_eq!(TEXT, "text/plain");
}
