//! A minimal HTTP/1.0 request line and response.
pub mod request;
pub mod response;

pub use self::request::RequestLine;
pub use self::response::{ContentType, Response, Status};
