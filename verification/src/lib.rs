//! Wake-on-LAN building blocks.
//!
//! A MAC address written as six colon-separated hexadecimal byte groups is
//! parsed into its six raw bytes with [`parse_mac`], and those bytes are
//! expanded into the 102-byte magic packet with [`payload::create_payload`]
//! or its length-checked variant [`payload::build_payload`]. Transmitting
//! the packet is left to the caller: it is plain socket I/O with no logic
//! of its own.
use vstd::prelude::*;

pub mod parse;
pub mod payload;

pub use parse::parse_mac;
pub use payload::build_payload;
pub use payload::create_payload;

verus! {

/// Why a MAC address string (or a raw byte sequence) was rejected.
#[derive(Debug, Clone, PartialEq, Eq)]
pub enum ParseError {
    /// A token between the colons is not a one- or two-digit hexadecimal
    /// byte; the offending token is carried for diagnostics.
    Number(String),
    /// The input does not consist of exactly six tokens.
    Length,
}

impl ParseError {
    /// A human-readable description of the error.
    pub fn message(&self) -> (m: String)
        ensures
            self matches ParseError::Length ==> m@ == "illegal MAC address length"@,
            (self matches ParseError::Number(t) ==> m@ == "invalid hexadecimal byte: "@ + t@),
    {
        match self {
            ParseError::Length => "illegal MAC address length".to_owned(),
            ParseError::Number(t) => "invalid hexadecimal byte: ".to_owned().concat(t.as_str()),
        }
    }
}

} // verus!
