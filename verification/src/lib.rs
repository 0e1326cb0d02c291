//! A small collection of verified byte-stream tools: an adjacent-redundancy
//! codec (run-length compression with an escape-coded wire format), a
//! column-tracking tab expander, line/word/byte counting, and the helpers
//! they share.
//!
//! Every transform works on in-memory byte buffers; reading and writing
//! files is left to callers, which feed buffers in and write the returned
//! bytes out.

pub mod bytes_iter;
pub mod compression;
pub mod counting;
pub mod error;
pub mod func_iter;
pub mod iter_extra;
pub mod round_trip;
pub mod tabs;
pub mod util;
