//! Streaming decoder for files of fixed-width numbers.
//!
//! A byte stream is cut into consecutive groups of one scalar width, and each
//! complete group is reinterpreted as a value of the requested kind and byte
//! order. The stream may arrive in chunks of any size: the decode loop carries
//! the bytes of a split group over to the next chunk and never emits a partial
//! value.

pub mod kind;
pub mod value;
pub mod codec;
pub mod groups;
pub mod reader;
pub mod stream;
pub mod request;
pub mod rows;
pub mod text;
