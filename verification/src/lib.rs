//! A memory-scanning engine: wildcard byte-pattern search, cross-reference
//! (relative-displacement) resolution, and the pattern grammar behind them.
//!
//! The engine works on a span of bytes together with the base address the
//! bytes were taken from; every match is reported as an absolute address,
//! never as an offset. Raw access to process memory (building a span from a
//! raw address, typed reads and writes, module lookup) is the host's
//! business and lives outside this crate.

pub mod pattern;
pub mod scanner;
pub mod xref;

pub use pattern::{ParseError, Pattern};
pub use scanner::{rscan, rscan_pattern, rscan_str, scan, scan_all, scan_all_pattern, scan_all_str, scan_pattern, scan_str};
pub use xref::{resolve_displacement, xref, xrefs};
