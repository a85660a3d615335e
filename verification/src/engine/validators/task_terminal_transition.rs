//! Validates that terminal-status tasks (Done, Superseded, Cancelled)
//! cannot be transitioned to any other status.
use vstd::prelude::*;

use crate::engine::validator::{failure, ValidationError, ValidationErrorView, Validator};
use crate::models::{
    task_views, AdrView, RuntimeEvent, RuntimeEventView, RuntimeState, RuntimeStateView, Task,
    TaskView, Trap, TrapView, ADR,
};

verus! {

pub struct TaskTerminalTransition;

/// The position of the first task with the given id, or the number of tasks.
pub open spec fn task_index(tasks: Seq<TaskView>, id: Seq<char>) -> int
    decreases tasks.len(),
{
    if tasks.len() == 0 || tasks[0].id == id {
        0
    } else {
        1 + task_index(tasks.drop_first(), id)
    }
}

/// The task with the given id, looked up among the active ones first.
pub open spec fn known_task(state: RuntimeStateView, id: Seq<char>) -> Option<TaskView> {
    let i = task_index(state.active_tasks, id);
    let j = task_index(state.done_tasks, id);
    if 0 <= i < state.active_tasks.len() {
        Some(state.active_tasks[i])
    } else if 0 <= j < state.done_tasks.len() {
        Some(state.done_tasks[j])
    } else {
        None
    }
}

/// The position of the first task with the given id.
pub fn find_task(tasks: &Vec<Task>, id: &String) -> (r: Option<usize>)
    ensures
        match r {
            Some(i) => i < tasks@.len() && i == task_index(task_views(tasks@), id@)
                && tasks@[i as int].id@ == id@,
            None => task_index(task_views(tasks@), id@) == tasks@.len(),
        },
{
    let ghost all = task_views(tasks@);
    let mut i: usize = 0;
    assert(all.skip(0) =~= all);
    while i < tasks.len()
        invariant
            i <= tasks@.len(),
            all == task_views(tasks@),
            task_index(all, id@) == i + task_index(all.skip(i as int), id@),
        decreases tasks@.len() - i,
    {
        assert(all.skip(i as int)[0] == tasks@[i as int]@);
        assert(all.skip(i as int).drop_first() =~= all.skip(i + 1));
        if tasks[i].id == *id {
            return Some(i);
        }
        i = i + 1;
    }
    None
}

pub open spec fn task_terminal_transition_verdict(
    event: RuntimeEventView,
    state: RuntimeStateView,
) -> Option<ValidationErrorView> {
    match event {
        RuntimeEventView::TaskUpdated { task_id, new_status, superseded_by } => match known_task(
            state,
            task_id,
        ) {
            Some(task) if task.status.terminal() => Some(
                failure(
                    "TaskTerminalTransition"@,
                    "Task "@ + task_id + " is already in terminal status "@ + task.status.name()
                        + " and cannot be transitioned to "@ + new_status.name(),
                    "Terminal tasks (Done, Superseded, Cancelled) are immutable. Create a new task if needed."@,
                ),
            ),
            _ => None,
        },
        _ => None,
    }
}

impl Validator for TaskTerminalTransition {
    open spec fn verdict(
        &self,
        event: RuntimeEventView,
        state: RuntimeStateView,
        decisions: Seq<AdrView>,
        traps: Seq<TrapView>,
    ) -> Option<ValidationErrorView> {
        task_terminal_transition_verdict(event, state)
    }

    fn validate(
        &self,
        event: &RuntimeEvent,
        state: &RuntimeState,
        _decisions: &[ADR],
        _traps: &[Trap],
    ) -> (r: Result<(), ValidationError>) {
        if let RuntimeEvent::TaskUpdated { task_id, new_status, .. } = event {
            let current = match find_task(&state.active_tasks, task_id) {
                Some(i) => Some(state.active_tasks[i].status),
                None => match find_task(&state.done_tasks, task_id) {
                    Some(j) => Some(state.done_tasks[j].status),
                    None => None,
                },
            };
            if let Some(status) = current {
                if status.is_terminal() {
                    let mut message = "Task ".to_owned();
                    message.append(task_id.as_str());
                    message.append(" is already in terminal status ");
                    message.append(status.label());
                    message.append(" and cannot be transitioned to ");
                    message.append(new_status.label());
                    return Err(
                        ValidationError::new(
                            self.name(),
                            message.as_str(),
                            "Terminal tasks (Done, Superseded, Cancelled) are immutable. Create a new task if needed.",
                        ),
                    );
                }
            }
        }
        Ok(())
    }

    fn name(&self) -> (r: &'static str)
        ensures
            r@ == "TaskTerminalTransition"@,
    {
        "TaskTerminalTransition"
    }
}

} // verus!
