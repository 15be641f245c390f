//! A transit router: a graph of stations and line connections, a
//! cost-aware route finder that penalises changes of line and branch and
//! disabled stations, the interpreter of the text requests that clients
//! send, and the step with which one serial worker answers them.
mod pattern;
pub mod server;
pub mod subway;
mod text;

pub use subway::data::load_subway_data;
pub use subway::query::Query;
pub use subway::query::Query::{Disable, Enable, Route};
pub use subway::route::find_route;
