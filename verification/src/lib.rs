//! A parser for Web ARChive (WARC) container data.
//!
//! An archive is a sequence of records. A record is a version line, a block of `name: value`
//! headers closed by a blank line, and a content body whose length the `Content-Length` header
//! declares; a blank line separates it from the next record.
//!
//! [`record`] parses one record from the start of a buffer and [`records`] a whole buffer.
//! Both tell a buffer that ends too early (`ParseStatus::Incomplete`) from one that is
//! malformed, so that a caller who reads from a stream knows when to read more.
//!
//! Every function is specified by a function on byte sequences (`spec_record`, `spec_records`
//! and the grammars in [`lines`]) and proved to compute it. What these specifications mean is
//! proved in two places: [`layout`] shows which lines the grammars accept and that an archive
//! written in the plain way is read as what was written, and [`streaming`] shows what a caller
//! can rely on whose buffer grows.

pub mod classes;
pub mod elements;
pub mod headers;
pub mod layout;
pub mod length;
pub mod lines;
pub mod record;
pub mod status;
pub mod streaming;
pub mod text;

pub use crate::headers::Headers;
pub use crate::record::{record, record_complete, records, Record};
pub use crate::status::{ParseStatus, SyntaxElement};
