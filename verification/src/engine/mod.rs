//! The runtime engine: Markdown projection, validation and the state machine.
pub mod calendar;
pub mod laws;
pub mod memory_laws;
pub mod persistence;
pub mod projection;
pub mod state_manager;
pub mod switching;
pub mod validator;
pub mod validators;
