//! The byte-level layer of the MySQL client/server protocol: length-encoded
//! integers and strings, binary column values, and packets split into frames.

pub mod consts;
pub mod error;
pub mod format;
pub mod laws;
pub mod le;
pub mod read;
pub mod source;
pub mod stream;
pub mod value;
pub mod wire;
pub mod write;
