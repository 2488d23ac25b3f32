//! HTTP data types and their wire forms: requests, responses, MIME lookup.

pub mod request;
pub mod response;
pub mod mime;
