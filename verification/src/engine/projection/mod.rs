//! Conversion between the memory files (Markdown) and the domain types.
use vstd::prelude::*;

pub mod archive;
pub mod context;
pub mod decisions;
pub mod laws;
pub mod phase;
pub mod traps;

pub use archive::append_tasks_archive;
pub use context::{parse_context, parse_task_lines, render_context};
pub use decisions::{
    parse_decisions, render_active_decisions, render_decision, render_decisions,
    render_stale_decisions,
};
pub use phase::canonicalize_phase;
pub use traps::{parse_traps, render_trap, render_traps};

verus! {

/// Why a memory file could not be read.
#[derive(Debug)]
pub struct ParseError {
    pub message: String,
}

} // verus!
