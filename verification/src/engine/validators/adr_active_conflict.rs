//! Rejects `AdrCommitted` events when an accepted ADR with the same ID
//! already exists and has different content (title/decision).
//!
//! This guards against accidental overwrites of active architectural
//! decisions. Idempotent re-submissions with identical content are
//! NOT treated as conflicts: they pass.
use vstd::prelude::*;

use crate::engine::validator::{failure, ValidationError, ValidationErrorView, Validator};
use crate::engine::validators::{accepted_adr, has_same_content, same_content};
use crate::models::{
    adr_views, AdrStatus, AdrView, RuntimeEvent, RuntimeEventView, RuntimeState, RuntimeStateView,
    Trap, TrapView, ADR,
};

verus! {

pub struct AdrActiveConflict;

pub open spec fn adr_active_conflict_verdict(
    event: RuntimeEventView,
    decisions: Seq<AdrView>,
) -> Option<ValidationErrorView> {
    match event {
        RuntimeEventView::AdrCommitted(adr) => match accepted_adr(decisions, adr.id) {
            Some(existing) if !same_content(existing, adr) => Some(
                failure(
                    "adr_active_conflict"@,
                    "[CONFLICT] ADR "@ + adr.id
                        + " conflict: an active ADR with this id already exists with different content."@,
                    "Re-read current ADR state. To supersede: first submit a PhaseChanged or use a new ADR id."@,
                ),
            ),
            _ => None,
        },
        _ => None,
    }
}

/// The position of the first accepted ADR with the given id.
pub fn find_accepted(decisions: &[ADR], id: &String) -> (r: Option<usize>)
    ensures
        match r {
            Some(i) => i < decisions@.len() && accepted_adr(adr_views(decisions@), id@) == Some(
                decisions@[i as int]@,
            ),
            None => accepted_adr(adr_views(decisions@), id@) is None,
        },
{
    let ghost all = adr_views(decisions@);
    let mut i: usize = 0;
    assert(all.skip(0) =~= all);
    while i < decisions.len()
        invariant
            i <= decisions@.len(),
            all == adr_views(decisions@),
            accepted_adr(all, id@) == accepted_adr(all.skip(i as int), id@),
        decreases decisions@.len() - i,
    {
        assert(all.skip(i as int)[0] == decisions@[i as int]@);
        assert(all.skip(i as int).drop_first() =~= all.skip(i + 1));
        if decisions[i].id == *id && decisions[i].status == AdrStatus::Accepted {
            return Some(i);
        }
        i = i + 1;
    }
    None
}

impl Validator for AdrActiveConflict {
    open spec fn verdict(
        &self,
        event: RuntimeEventView,
        state: RuntimeStateView,
        decisions: Seq<AdrView>,
        traps: Seq<TrapView>,
    ) -> Option<ValidationErrorView> {
        adr_active_conflict_verdict(event, decisions)
    }

    fn validate(
        &self,
        event: &RuntimeEvent,
        _state: &RuntimeState,
        decisions: &[ADR],
        _traps: &[Trap],
    ) -> (r: Result<(), ValidationError>) {
        if let RuntimeEvent::AdrCommitted(adr) = event {
            if let Some(i) = find_accepted(decisions, &adr.id) {
                if !has_same_content(&decisions[i], adr) {
                    let mut message = "[CONFLICT] ADR ".to_owned();
                    message.append(adr.id.as_str());
                    message.append(
                        " conflict: an active ADR with this id already exists with different content.",
                    );
                    return Err(
                        ValidationError::new(
                            self.name(),
                            message.as_str(),
                            "Re-read current ADR state. To supersede: first submit a PhaseChanged or use a new ADR id.",
                        ),
                    );
                }
            }
        }
        Ok(())
    }

    fn name(&self) -> (r: &'static str)
        ensures
            r@ == "adr_active_conflict"@,
    {
        "adr_active_conflict"
    }
}

} // verus!
