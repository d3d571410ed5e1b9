//! A verified codec for the Geneve tunnel header.
//!
//! The crate converts between the wire format (a byte sequence) and a
//! structured representation in both directions: a fixed eight-byte header,
//! a run of variable-length tunnel options, and a zero-copy packet wrapper
//! that binds a decoded header to the borrowed input buffer.
use vstd::prelude::*;

pub mod header;
pub mod laws;
pub mod model;
pub mod packet;
pub mod tunnel_option;

pub use header::Header;
pub use packet::GenevePacket;
pub use tunnel_option::TunnelOption;

verus! {

/// Minimum size in bytes of a Geneve header: the fixed fields without options.
pub const MIN_GENEVE_HDR: usize = 8;

/// The ways encoding or decoding can fail.
#[derive(Debug)]
pub enum GeneveErr {
    /// The byte sequence does not parse as a Geneve header.
    NotGeneve,
    /// An input or destination buffer is too short, or an option's data
    /// block exceeds the 128-byte protocol maximum.
    InvalidLength,
}

} // verus!
