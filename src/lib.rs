//! Decoding and encoding of Named Binary Tag trees.
//!
//! The [`reader::Reader`] is a forward-only big-endian byte cursor; the
//! [`tag::Tag`] tree is encoded by [`tag::Tag::as_bytes`] and decoded by
//! [`codec::NBTParser::parse`]. A file may come gzip-compressed; the
//! [`container`] module takes that layer off.

pub mod container;
pub mod error;
pub mod reader;
pub mod tag;
pub mod unique;
pub mod codec;
