//! A small HTTP/1.1 server engine: a wire codec for requests and responses,
//! a routing table keyed by method and path, and the dispatch rules that
//! choose the entry answering a request.
//!
//! Policies: an unknown method token is an error (`UnknownMethod`), never a
//! silent GET; a query parameter without `=` binds its key to the empty
//! value; static file bytes are read once, when the file is registered; a
//! request line must end in CR LF; a request cut short by the end of its
//! stream is refused, never answered in part; `\` in static paths is read
//! as `/`.

pub mod bytes;
pub mod string_map;
pub mod method;
pub mod uri;
pub mod message;
pub mod mime;
pub mod route;
pub mod server;
pub mod reading;

pub use message::{Request, Response};
pub use method::{Method, ParseError};
pub use mime::get_content_type;
pub use route::RouteTable;
pub use reading::{MAX_REQUEST_BYTES, Next, ReadState, next_step_of, read_state_of};
pub use server::{HttpServer, not_found, too_large};
pub use string_map::StringMap;
pub use uri::Uri;
