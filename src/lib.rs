//! Filtering of name-grouped, tab-separated alignment records.
//!
//! A line whose first byte is `@` is a header and passes through untouched.
//! Every other line is a record; contiguous records that share an identifier
//! form a group, which is written out whole or dropped whole.

pub mod bytes;
pub mod group;
pub mod laws;
pub mod param;
pub mod record;
