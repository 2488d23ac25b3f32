//! A minimal HTTP/1.1 server core: request parsing, route and static-asset
//! dispatch, and response serialization, with machine-checked contracts.
//!
//! The crate is organised around plain data: requests and responses carry
//! `String` and `Vec<u8>` fields, and every transformation between wire bytes
//! and structured values is specified over `Seq<u8>` and `Seq<char>`.
//! Listening sockets, connection tasks and file reads live outside the
//! library; they hand byte buffers in and take byte buffers out.

pub mod error;
pub mod http;
pub mod middleware;
pub mod route;
pub mod server;
pub mod table;
pub mod text;
pub mod utils;

pub use http::request;
pub use http::response;
pub use server::static_handler;
pub use server::Rymo;
