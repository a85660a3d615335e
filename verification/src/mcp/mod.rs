//! The Model Context Protocol server: what requests mean and how they are
//! answered.
pub mod json;
pub mod laws;
pub mod server;
