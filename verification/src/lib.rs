//! A verified engine for serving HTTP Range requests over a seekable byte
//! source: parsing and validating `Range` headers, deciding between full-body,
//! single-range and `multipart/byteranges` responses, and producing the
//! response bytes through pull-based streamers.

pub mod bytes;
pub mod header;
pub mod multipart;
pub mod ranges;
pub mod seekstream;

pub use header::parse_range_header;
pub use multipart::{content_range_value, multipart_content_type, MultipartReader};
pub use ranges::{to_satisfiable_range, ByteRange};
pub use seekstream::{
    content_length_value, decimal_value, MemoryStream, RangeStreamer, ReadSeek, RespondError,
    SeekResponse, SeekStream, StreamError,
};
