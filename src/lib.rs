//! Framing and receive logic for sending one named file over a secure,
//! ordered byte stream.
//!
//! The wire header is `[name_len: u16 LE][file_size: u64 LE][name bytes]`;
//! everything after it is the file body, ended by the end of the stream.

pub mod cert;
pub mod header;
pub mod receive;
pub mod sanitize;
