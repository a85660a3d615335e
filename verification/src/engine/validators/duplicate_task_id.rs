//! Rejects `TaskCreated` events when the task ID already exists among the
//! active tasks.
//!
//! Duplicate task IDs break the invariant that every active task has
//! a unique identifier. The caller should use `TaskUpdated` instead.
use vstd::prelude::*;

use crate::engine::validator::{failure, ValidationError, ValidationErrorView, Validator};
use crate::models::{
    AdrView, RuntimeEvent, RuntimeEventView, RuntimeState, RuntimeStateView, Task, TaskView, Trap,
    TrapView, ADR,
};

verus! {

pub struct DuplicateTaskId;

/// Whether some task has the given id.
pub open spec fn has_task(tasks: Seq<TaskView>, id: Seq<char>) -> bool {
    exists|i: int| 0 <= i < tasks.len() && (#[trigger] tasks[i]).id == id
}

pub fn any_task_with(tasks: &Vec<Task>, id: &String) -> (r: bool)
    ensures
        r == has_task(crate::models::task_views(tasks@), id@),
{
    let ghost all = crate::models::task_views(tasks@);
    let mut i: usize = 0;
    while i < tasks.len()
        invariant
            i <= tasks@.len(),
            all == crate::models::task_views(tasks@),
            forall|j: int| 0 <= j < i ==> (#[trigger] all[j]).id != id@,
        decreases tasks@.len() - i,
    {
        if tasks[i].id == *id {
            assert(all[i as int].id == id@);
            return true;
        }
        i = i + 1;
    }
    false
}

pub open spec fn duplicate_task_id_verdict(
    event: RuntimeEventView,
    state: RuntimeStateView,
) -> Option<ValidationErrorView> {
    match event {
        RuntimeEventView::TaskCreated(task) if has_task(state.active_tasks, task.id) => Some(
            failure(
                "duplicate_task_id"@,
                "Task with id '"@ + task.id + "' already exists."@,
                "Use TaskUpdated to modify the existing task."@,
            ),
        ),
        _ => None,
    }
}

impl Validator for DuplicateTaskId {
    open spec fn verdict(
        &self,
        event: RuntimeEventView,
        state: RuntimeStateView,
        decisions: Seq<AdrView>,
        traps: Seq<TrapView>,
    ) -> Option<ValidationErrorView> {
        duplicate_task_id_verdict(event, state)
    }

    fn validate(
        &self,
        event: &RuntimeEvent,
        state: &RuntimeState,
        _decisions: &[ADR],
        _traps: &[Trap],
    ) -> (r: Result<(), ValidationError>) {
        if let RuntimeEvent::TaskCreated(task) = event {
            if any_task_with(&state.active_tasks, &task.id) {
                let mut message = "Task with id '".to_owned();
                message.append(task.id.as_str());
                message.append("' already exists.");
                return Err(
                    ValidationError::new(
                        self.name(),
                        message.as_str(),
                        "Use TaskUpdated to modify the existing task.",
                    ),
                );
            }
        }
        Ok(())
    }

    fn name(&self) -> (r: &'static str)
        ensures
            r@ == "duplicate_task_id"@,
    {
        "duplicate_task_id"
    }
}

} // verus!
