//! Verified parsing of the WeeChat relay protocol.
//!
//! The relay sends binary messages: a header (body length and compression
//! flag), an identifier, and a sequence of typed objects.  The parsers in
//! [`parser`] read those objects from a byte buffer; their contracts speak of
//! the grammar written as spec functions in [`grammar`].

pub mod bytes;
pub mod client;
pub mod grammar;
pub mod laws;
pub mod parser;
