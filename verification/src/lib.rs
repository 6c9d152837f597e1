//! IPv4 subnet calculation: an address-block value with a strict CIDR-style
//! text parser, and two partitioning strategies — fixed-length subnet masking
//! (FLSM), which splits a block into equally sized subnetworks, and
//! variable-length subnet masking (VLSM), which allocates differently sized
//! subnetworks to satisfy per-network host-count requirements.

pub mod bits;
pub mod block;
pub mod hosts;
pub mod parse;

pub use block::IpAddressBlock;
pub use hosts::NetworkHosts;
pub use parse::IpAddressErrorKind;
pub use parse::IpAddressParseError;
