//! A stub resolver and forwarder for the classic 512-octet UDP DNS message
//! format: a verified wire-format codec (header, question, resource record,
//! compressed domain names) over a fixed-size packet buffer, and the decision
//! core of an iterative recursive-resolution state machine.
//!
//! All socket work lives outside this crate; the library only turns octets
//! into messages and back, and decides which nameserver to ask next.

pub mod buffer;
pub mod codes;
pub mod header;
pub mod laws;
pub mod name;
pub mod packet;
pub mod question;
pub mod record;
pub mod resolver;
