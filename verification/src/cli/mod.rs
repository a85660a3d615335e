//! The command line: `memguard cleanup`.
pub mod cleanup;
pub mod laws;
