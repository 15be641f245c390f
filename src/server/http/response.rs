//! HTTP responses of the static-file responder.
use vstd::prelude::*;

use crate::text::{append_str, decimal, push_decimal};

verus! {

/// The name that a response gives the server.
pub const SERVER_NAME: &'static str = "IBATs_web_server";

/// The outcome that a response reports.
#[derive(Clone, Copy, Debug, PartialEq, Eq, Structural)]
pub enum Status {
    Success,
    BadRequest,
    Forbidden,
    NotFound,
}

/// The kind of a body.
#[derive(Clone, Copy, Debug, PartialEq, Eq, Structural)]
pub enum ContentType {
    Plain,
    Html,
}

/// A response: a status line, and for success a few headers and the body.
pub struct Response<'a> {
    pub status: Status,
    pub content_type: ContentType,
    pub content_length: u64,
    pub body: &'a str,
}

/// The text of a response.
pub open spec fn response_text(r: Response<'_>) -> Seq<char> {
    match r.status {
        Status::BadRequest => "HTTP/1.0 400 Bad Request\r\n"@,
        Status::Forbidden => "HTTP/1.0 403 Forbidden\r\n"@,
        Status::NotFound => "HTTP/1.0 404 Not Found\r\n"@,
        Status::Success => "HTTP/1.0 200 OK"@ + "\r\n"@ + SERVER_NAME@ + "\r\n"@ + match r.content_type {
            ContentType::Plain => "Content-type: text/plain"@,
            ContentType::Html => "Content-type: text/html"@,
        } + "\r\n"@ + "Content-Length: "@ + decimal(r.content_length as nat) + "\r\n"@ + "\r\n"@
            + "\r\n"@ + r.body@,
    }
}

impl ContentType {
    /// The kind of a file with the extension `ext`: HTML for `html`, plain
    /// text otherwise.
    pub fn for_extension(ext: Option<&str>) -> (r: ContentType)
        ensures
            r == (if ext matches Some(e) && e@ == "html"@ {
                ContentType::Html
            } else {
                ContentType::Plain
            }),
    {
        match ext {
            Some(e) => if crate::text::str_eq(e, "html") {
                ContentType::Html
            } else {
                ContentType::Plain
            },
            None => ContentType::Plain,
        }
    }
}

impl<'a> Response<'a> {
    /// A successful response with the given body.
    pub fn ok(content_type: ContentType, content_len: u64, body: &'a str) -> (r: Response<'a>)
        ensures
            r.status == Status::Success,
            r.content_type == content_type,
            r.content_length == content_len,
            r.body == body,
    {
        Response { status: Status::Success, content_type, content_length: content_len, body }
    }

    /// A response without a body, reporting `response_status`.
    pub fn bad(response_status: Status) -> (r: Response<'a>)
        ensures
            r.status == response_status,
            r.content_type == ContentType::Plain,
            r.content_length == 0,
            r.body@ == Seq::<char>::empty(),
    {
        proof {
            reveal_strlit("");
        }
        Response { status: response_status, content_type: ContentType::Plain, content_length: 0, body: "" }
    }

    /// The text of the response.
    pub fn to_string(&self) -> (r: String)
        ensures
            r@ == response_text(*self),
    {
        let mut s = String::new();
        match self.status {
            Status::BadRequest => append_str(&mut s, "HTTP/1.0 400 Bad Request\r\n"),
            Status::Forbidden => append_str(&mut s, "HTTP/1.0 403 Forbidden\r\n"),
            Status::NotFound => append_str(&mut s, "HTTP/1.0 404 Not Found\r\n"),
            Status::Success => {
                append_str(&mut s, "HTTP/1.0 200 OK");
                append_str(&mut s, "\r\n");
                append_str(&mut s, SERVER_NAME);
                append_str(&mut s, "\r\n");
                match self.content_type {
                    ContentType::Plain => append_str(&mut s, "Content-type: text/plain"),
                    ContentType::Html => append_str(&mut s, "Content-type: text/html"),
                }
                append_str(&mut s, "\r\n");
                append_str(&mut s, "Content-Length: ");
                push_decimal(&mut s, self.content_length);
                append_str(&mut s, "\r\n");
                append_str(&mut s, "\r\n");
                append_str(&mut s, "\r\n");
                append_str(&mut s, self.body);
            },
        }
        s
    }
}

} // verus!
