//! Validates that `TaskUpdated` events with status `Superseded` include
//! a `superseded_by` field with a reason, and that the referenced task or ADR
//! exists.
use vstd::prelude::*;

use crate::engine::validator::{failure, ValidationError, ValidationErrorView, Validator};
use crate::engine::validators::duplicate_task_id::{any_task_with, has_task};
use crate::foreign::{debug_quoted, quoted};
use crate::lines::lemma_trim_blank;
use crate::models::{
    adr_views, AdrView, Reference, ReferenceView, RuntimeEvent, RuntimeEventView, RuntimeState,
    RuntimeStateView, TaskStatus, Trap, TrapView, ADR,
};
use crate::text::{is_blank, to_chars, trimmed};

verus! {

pub struct SupersededByRequired;

/// Whether some ADR has the given id.
pub open spec fn has_adr(decisions: Seq<AdrView>, id: Seq<char>) -> bool {
    exists|i: int| 0 <= i < decisions.len() && (#[trigger] decisions[i]).id == id
}

pub fn any_adr_with(decisions: &[ADR], id: &String) -> (r: bool)
    ensures
        r == has_adr(adr_views(decisions@), id@),
{
    let ghost all = adr_views(decisions@);
    let mut i: usize = 0;
    while i < decisions.len()
        invariant
            i <= decisions@.len(),
            all == adr_views(decisions@),
            forall|j: int| 0 <= j < i ==> (#[trigger] all[j]).id != id@,
        decreases decisions@.len() - i,
    {
        if decisions[i].id == *id {
            assert(all[i as int].id == id@);
            return true;
        }
        i = i + 1;
    }
    false
}

/// Whether the state holds a task with the given id, active or finished.
pub open spec fn task_stands(state: RuntimeStateView, id: Seq<char>) -> bool {
    has_task(state.active_tasks, id) || has_task(state.done_tasks, id)
}

/// A reference as messages show it: its kind, and its id in quotation marks.
pub open spec fn reference_shown(reference: ReferenceView) -> Seq<char> {
    match reference {
        ReferenceView::Task(id) => "Task("@ + quoted(id) + ")"@,
        ReferenceView::Adr(id) => "Adr("@ + quoted(id) + ")"@,
    }
}

fn show_reference(reference: &Reference) -> (r: String)
    ensures
        r@ == reference_shown(reference@),
{
    let (mut out, id) = match reference {
        Reference::Task(id) => ("Task(".to_owned(), id),
        Reference::Adr(id) => ("Adr(".to_owned(), id),
    };
    let shown = debug_quoted(id.as_str());
    out.append(shown.as_str());
    out.append(")");
    out
}

pub open spec fn superseded_by_required_verdict(
    event: RuntimeEventView,
    state: RuntimeStateView,
    decisions: Seq<AdrView>,
) -> Option<ValidationErrorView> {
    match event {
        RuntimeEventView::TaskUpdated {
            task_id,
            new_status: TaskStatus::Superseded,
            superseded_by,
        } => match superseded_by {
            None => Some(
                failure(
                    "SupersededByRequired"@,
                    "Task "@ + task_id
                        + " marked as Superseded but missing 'superseded_by' field"@,
                    "Provide superseded_by with reference (Task or ADR) and reason."@,
                ),
            ),
            Some(info) => if is_blank(info.reason) {
                Some(
                    failure(
                        "SupersededByRequired"@,
                        "Task "@ + task_id + " Superseded by "@ + reference_shown(info.reference)
                            + " but reason is empty"@,
                        "Provide a non-empty reason explaining why the task was superseded."@,
                    ),
                )
            } else {
                match info.reference {
                    ReferenceView::Adr(id) if !has_adr(decisions, id) => Some(
                        failure(
                            "SupersededByRequired"@,
                            "Task "@ + task_id + " Superseded by ADR "@ + id
                                + " but that ADR does not exist in decisions.md"@,
                            "Commit the ADR first, or correct the ADR ID in superseded_by."@,
                        ),
                    ),
                    ReferenceView::Task(id) if !task_stands(state, id) => Some(
                        failure(
                            "SupersededByRequired"@,
                            "Task "@ + task_id + " Superseded by Task "@ + id
                                + " but that task does not exist"@,
                            "Create the task first, or correct the task ID in superseded_by."@,
                        ),
                    ),
                    _ => None,
                }
            },
        },
        _ => None,
    }
}

impl Validator for SupersededByRequired {
    open spec fn verdict(
        &self,
        event: RuntimeEventView,
        state: RuntimeStateView,
        decisions: Seq<AdrView>,
        traps: Seq<TrapView>,
    ) -> Option<ValidationErrorView> {
        superseded_by_required_verdict(event, state, decisions)
    }

    fn validate(
        &self,
        event: &RuntimeEvent,
        state: &RuntimeState,
        decisions: &[ADR],
        _traps: &[Trap],
    ) -> (r: Result<(), ValidationError>) {
        if let RuntimeEvent::TaskUpdated { task_id, new_status, superseded_by } = event {
            if *new_status != TaskStatus::Superseded {
                return Ok(());
            }
            let mut message = "Task ".to_owned();
            message.append(task_id.as_str());
            let info = match superseded_by {
                Some(info) => info,
                None => {
                    message.append(" marked as Superseded but missing 'superseded_by' field");
                    return Err(
                        ValidationError::new(
                            self.name(),
                            message.as_str(),
                            "Provide superseded_by with reference (Task or ADR) and reason.",
                        ),
                    );
                },
            };
            let reason = to_chars(info.reason.as_str());
            proof {
                lemma_trim_blank(info.reason@);
            }
            if trimmed(reason.as_slice()).len() == 0 {
                let shown = show_reference(&info.reference);
                message.append(" Superseded by ");
                message.append(shown.as_str());
                message.append(" but reason is empty");
                return Err(
                    ValidationError::new(
                        self.name(),
                        message.as_str(),
                        "Provide a non-empty reason explaining why the task was superseded.",
                    ),
                );
            }
            match &info.reference {
                Reference::Adr(id) => {
                    if !any_adr_with(decisions, id) {
                        message.append(" Superseded by ADR ");
                        message.append(id.as_str());
                        message.append(" but that ADR does not exist in decisions.md");
                        return Err(
                            ValidationError::new(
                                self.name(),
                                message.as_str(),
                                "Commit the ADR first, or correct the ADR ID in superseded_by.",
                            ),
                        );
                    }
                },
                Reference::Task(id) => {
                    if !any_task_with(&state.active_tasks, id)
                        && !any_task_with(&state.done_tasks, id) {
                        message.append(" Superseded by Task ");
                        message.append(id.as_str());
                        message.append(" but that task does not exist");
                        return Err(
                            ValidationError::new(
                                self.name(),
                                message.as_str(),
                                "Create the task first, or correct the task ID in superseded_by.",
                            ),
                        );
                    }
                },
            }
        }
        Ok(())
    }

    fn name(&self) -> (r: &'static str)
        ensures
            r@ == "SupersededByRequired"@,
    {
        "SupersededByRequired"
    }
}

} // verus!
