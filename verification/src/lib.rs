//! Buffered streams and C-style formatted input and output.
//!
//! The crate holds the decisions of a C standard I/O layer and none of its
//! system calls: a stream says which transfer it needs next and is told how
//! the transfer went, the printing engine turns a format and its arguments
//! into the byte runs that a sink receives, and the scanning engine is fed
//! the bytes of a source one at a time.

pub mod ascii;
pub mod dirent;
pub mod errors;
pub mod file;
pub mod format;
pub mod number;
pub mod parse;
pub mod stdio;
pub mod stdlib;
pub mod string;
