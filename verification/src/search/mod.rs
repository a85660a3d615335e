//! Keyword search over decisions and traps.
pub mod index;
pub mod laws;
pub mod scorer;
