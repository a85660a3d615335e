//! Rejects `AdrCommitted` events when an existing ADR with the same ID
//! is in a terminal state (Superseded or Archived) that has no valid
//! next state transitions.
//!
//! Terminal ADRs cannot be modified: the caller should create a new
//! ADR with a different identifier.
use vstd::prelude::*;

use crate::engine::state_manager::{next_statuses, valid_transitions};
use crate::engine::validator::{failure, ValidationError, ValidationErrorView, Validator};
use crate::models::{
    adr_views, AdrStatus, AdrView, RuntimeEvent, RuntimeEventView, RuntimeState, RuntimeStateView,
    Trap, TrapView, ADR,
};

verus! {

pub struct AdrInvalidTransition;

/// The first ADR with the given id whose status has no next one.
pub open spec fn terminal_adr(decisions: Seq<AdrView>, id: Seq<char>) -> Option<AdrView>
    decreases decisions.len(),
{
    if decisions.len() == 0 {
        None
    } else if decisions[0].id == id && next_statuses(decisions[0].status).len() == 0 {
        Some(decisions[0])
    } else {
        terminal_adr(decisions.drop_first(), id)
    }
}

pub open spec fn adr_invalid_transition_verdict(
    event: RuntimeEventView,
    decisions: Seq<AdrView>,
) -> Option<ValidationErrorView> {
    match event {
        RuntimeEventView::AdrCommitted(adr) => match terminal_adr(decisions, adr.id) {
            Some(existing) => Some(
                failure(
                    "adr_invalid_transition"@,
                    "[INVALID TRANSITION] ADR "@ + adr.id + " has status "@
                        + existing.status.name() + " which is terminal. Valid transitions from "@
                        + existing.status.name() + ": none."@,
                    "Create a new ADR with a different id."@,
                ),
            ),
            None => None,
        },
        _ => None,
    }
}

/// The status of the first ADR with the given id whose status has no next one.
pub fn find_terminal(decisions: &[ADR], id: &String) -> (r: Option<AdrStatus>)
    ensures
        match r {
            Some(status) => terminal_adr(adr_views(decisions@), id@) matches Some(a) && a.status
                == status && next_statuses(status).len() == 0,
            None => terminal_adr(adr_views(decisions@), id@) is None,
        },
{
    let ghost all = adr_views(decisions@);
    let mut i: usize = 0;
    assert(all.skip(0) =~= all);
    while i < decisions.len()
        invariant
            i <= decisions@.len(),
            all == adr_views(decisions@),
            terminal_adr(all, id@) == terminal_adr(all.skip(i as int), id@),
        decreases decisions@.len() - i,
    {
        assert(all.skip(i as int)[0] == decisions@[i as int]@);
        assert(all.skip(i as int).drop_first() =~= all.skip(i + 1));
        if decisions[i].id == *id {
            let next = valid_transitions(&decisions[i].status);
            if next.len() == 0 {
                return Some(decisions[i].status);
            }
        }
        i = i + 1;
    }
    None
}

impl Validator for AdrInvalidTransition {
    open spec fn verdict(
        &self,
        event: RuntimeEventView,
        state: RuntimeStateView,
        decisions: Seq<AdrView>,
        traps: Seq<TrapView>,
    ) -> Option<ValidationErrorView> {
        adr_invalid_transition_verdict(event, decisions)
    }

    fn validate(
        &self,
        event: &RuntimeEvent,
        _state: &RuntimeState,
        decisions: &[ADR],
        _traps: &[Trap],
    ) -> (r: Result<(), ValidationError>) {
        if let RuntimeEvent::AdrCommitted(adr) = event {
            if let Some(status) = find_terminal(decisions, &adr.id) {
                let mut message = "[INVALID TRANSITION] ADR ".to_owned();
                message.append(adr.id.as_str());
                message.append(" has status ");
                message.append(status.label());
                message.append(" which is terminal. Valid transitions from ");
                message.append(status.label());
                message.append(": none.");
                return Err(
                    ValidationError::new(
                        self.name(),
                        message.as_str(),
                        "Create a new ADR with a different id.",
                    ),
                );
            }
        }
        Ok(())
    }

    fn name(&self) -> (r: &'static str)
        ensures
            r@ == "adr_invalid_transition"@,
    {
        "adr_invalid_transition"
    }
}

} // verus!
