//! A verified core for a private-subnet discovery scanner.
//!
//! The library models IPv4 addresses and /24 blocks, parses exclusion-file
//! lines, partitions the RFC1918 private address space into blocks, decides
//! which addresses may be probed, aggregates probe results into host and
//! subnet collections, and renders the result files.  All network I/O is the
//! caller's business: the caller asks the engine what to probe, performs the
//! probes, and hands the outcomes back.

pub mod addr;
pub mod exclusions;
pub mod output;
pub mod parse;
pub mod partition;
pub mod scan;

pub use addr::Addr;
