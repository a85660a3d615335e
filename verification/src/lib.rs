//! The memory of a coding agent: tasks, architecture decision records and traps,
//! kept in Markdown files and served over the Model Context Protocol.
pub mod cli;
pub mod engine;
pub mod foreign;
pub mod lines;
pub mod mcp;
pub mod models;
pub mod search;
pub mod text;
