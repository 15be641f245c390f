use t_query::server::http::{ContentType, RequestLine, Response, Status};

#[test]
fn request_line_parts_are_trimmed() {
    let r = RequestLine::new("  GET ", " /x", "HTTP/1.1\r");
    assert_eq!(r.verb, "GET");
    assert_eq!(r.path, "/x");
    assert_eq!(r.version, "HTTP/1.1");
    assert_eq!(r.to_string(), "RequestLine[GET /x HTTP/1.1]");
}

#[test]
fn request_line_from_str() {
    let r = RequestLine::from_str("GET /index.html HTTP/1.0").unwrap();
    assert_eq!(r.path, "/index.html");
    assert!(RequestLine::from_str("get / HTTP").is_some());
    assert!(RequestLine::from_str("GET / HTTP/1.1\r\n").is_some());
    assert!(RequestLine::from_str("POST / HTTP/1.0").is_none());
    assert!(RequestLine::from_str("GET /a").is_none());
    assert!(RequestLine::from_str("GET a HTTP/1.0").is_none());
    assert!(RequestLine::from_str("GET  / HTTP/1.0").is_none());
    assert!(RequestLine::from_str("GET / HTTP/2").is_none());
}

#[test]
fn request_line_valid() {
    assert!(RequestLine::new("gEt", "/", "HTTP/0.9").valid());
    assert!(!RequestLine::new("GETS", "/", "HTTP/0.9").valid());
}

#[test]
fn responses_render() {
    assert_eq!(Response::bad(Status::NotFound).to_string(), "HTTP/1.0 404 Not Found\r\n");
    assert_eq!(Response::bad(Status::BadRequest).to_string(), "HTTP/1.0 400 Bad Request\r\n");
    assert_eq!(Response::bad(Status::Forbidden).to_string(), "HTTP/1.0 403 Forbidden\r\n");
    assert_eq!(
        Response::ok(ContentType::Plain, 5, "hello").to_string(),
        "HTTP/1.0 200 OK\r\nIBATs_web_server\r\nContent-type: text/plain\r\nContent-Length: 5\r\n\r\n\r\nhello"
    );
    assert_eq!(
        Response::ok(ContentType::Html, 1024, "<p>").to_string(),
        "HTTP/1.0 200 OK\r\nIBATs_web_server\r\nContent-type: text/html\r\nContent-Length: 1024\r\n\r\n\r\n<p>"
    );
}

#[test]
fn content_type_by_extension() {
    assert_eq!(ContentType::for_extension(Some("html")), ContentType::Html);
    assert_eq!(ContentType::for_extension(Some("txt")), ContentType::Plain);
    assert_eq!(ContentType::for_extension(None), ContentType::Plain);
}
