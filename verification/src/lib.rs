//! Verified core of a hosts-file override manager.
//!
//! A "managed" line in a hosts file carries the `#muko:` tag and maps a
//! domain to an override IP.  This crate recognizes, rewrites and reports
//! such lines: parsing and serialising single lines ([`codec`]), switching
//! a managed line between its active (DEV) and commented-out (PROD) state
//! ([`switch`]), replacing and appending entries for a domain
//! ([`registrar`]), and collecting entries together with a bounded-retry
//! policy for resolving their production IPs ([`report`]).
//!
//! The crate never touches the file system or the network: callers hand in
//! the file as a sequence of lines and write back what comes out, and the
//! retry policy is driven step by step by whoever performs the lookups.

pub mod codec;
pub mod registrar;
pub mod report;
pub mod switch;
pub mod text;
