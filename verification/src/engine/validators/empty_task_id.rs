//! Rejects `TaskCreated` events with an empty task ID.
//!
//! An empty task ID is meaningless: the task cannot be referenced for
//! updates, prioritisation, or archival.
use vstd::prelude::*;

use crate::engine::validator::{failure, ValidationError, ValidationErrorView, Validator};
use crate::models::{
    AdrView, RuntimeEvent, RuntimeEventView, RuntimeState, RuntimeStateView, Trap, TrapView, ADR,
};

verus! {

pub struct EmptyTaskId;

pub open spec fn empty_task_id_verdict(event: RuntimeEventView) -> Option<ValidationErrorView> {
    match event {
        RuntimeEventView::TaskCreated(task) if task.id.len() == 0 => Some(
            failure(
                "empty_task_id"@,
                "Task ID cannot be empty."@,
                "Provide a non-empty task ID."@,
            ),
        ),
        _ => None,
    }
}

impl Validator for EmptyTaskId {
    open spec fn verdict(
        &self,
        event: RuntimeEventView,
        state: RuntimeStateView,
        decisions: Seq<AdrView>,
        traps: Seq<TrapView>,
    ) -> Option<ValidationErrorView> {
        empty_task_id_verdict(event)
    }

    fn validate(
        &self,
        event: &RuntimeEvent,
        _state: &RuntimeState,
        _decisions: &[ADR],
        _traps: &[Trap],
    ) -> (r: Result<(), ValidationError>) {
        if let RuntimeEvent::TaskCreated(task) = event {
            if task.id.as_str().is_empty() {
                return Err(
                    ValidationError::new(
                        self.name(),
                        "Task ID cannot be empty.",
                        "Provide a non-empty task ID.",
                    ),
                );
            }
        }
        Ok(())
    }

    fn name(&self) -> (r: &'static str)
        ensures
            r@ == "empty_task_id"@,
    {
        "empty_task_id"
    }
}

} // verus!
