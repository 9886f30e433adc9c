//! A DNS protocol toolkit: a wire-format message codec with domain-name
//! compression, transaction signatures (TSIG), validation of signed record
//! sets (DNSSEC) and a guard for zone-transfer streams.
//!
//! Every operation is a synchronous function from caller-supplied bytes or
//! structures to a value or an [`error::Error`]; nothing here blocks, logs,
//! retries or keeps state between calls.

pub mod error;
pub mod msg;
pub mod cursor;
pub mod name;
pub mod compress;
pub mod presentation;
pub mod envelope;
pub mod transfer;
pub mod tsig;
pub mod dnssec;
