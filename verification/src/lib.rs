//! A binary codec for DNS messages in the RFC 1035 wire format.
//!
//! The crate builds query messages from a domain name and decodes received
//! messages into their header fields, questions and resource records. Every
//! function that touches wire bytes carries a contract over the byte sequence
//! it reads or writes.

pub mod consts;
pub mod error;
pub mod header;
pub mod message;
pub mod message_proofs;
pub mod name;
pub mod name_proofs;
pub mod packet;
pub mod question;
pub mod record;
pub mod wire;
