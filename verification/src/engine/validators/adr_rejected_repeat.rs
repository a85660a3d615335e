//! Rejects `AdrCommitted` events when the same decision content
//! (title + decision) was previously rejected for the same ADR ID.
//!
//! Re-submitting an identical proposal without addressing the reasons
//! for rejection wastes deliberation cycles. The caller must explain
//! what material conditions have changed.
use vstd::prelude::*;

use crate::engine::validator::{failure, ValidationError, ValidationErrorView, Validator};
use crate::engine::validators::{has_same_content, same_content};
use crate::models::{
    adr_views, AdrStatus, AdrView, RuntimeEvent, RuntimeEventView, RuntimeState, RuntimeStateView,
    Trap, TrapView, ADR,
};

verus! {

pub struct AdrRejectedRepeat;

/// Whether an ADR with this id and content was rejected.
pub open spec fn was_rejected(decisions: Seq<AdrView>, adr: AdrView) -> bool {
    exists|i: int|
        0 <= i < decisions.len() && (#[trigger] decisions[i]).id == adr.id && decisions[i].status
            is Rejected && same_content(decisions[i], adr)
}

pub open spec fn adr_rejected_repeat_verdict(
    event: RuntimeEventView,
    decisions: Seq<AdrView>,
) -> Option<ValidationErrorView> {
    match event {
        RuntimeEventView::AdrCommitted(adr) if was_rejected(decisions, adr) => Some(
            failure(
                "adr_rejected_repeat"@,
                "[CONFLICT] ADR "@ + adr.id
                    + " was previously rejected with the same decision content."@,
                "To re-submit, explain what material conditions have changed in the context field."@,
            ),
        ),
        _ => None,
    }
}

impl Validator for AdrRejectedRepeat {
    open spec fn verdict(
        &self,
        event: RuntimeEventView,
        state: RuntimeStateView,
        decisions: Seq<AdrView>,
        traps: Seq<TrapView>,
    ) -> Option<ValidationErrorView> {
        adr_rejected_repeat_verdict(event, decisions)
    }

    fn validate(
        &self,
        event: &RuntimeEvent,
        _state: &RuntimeState,
        decisions: &[ADR],
        _traps: &[Trap],
    ) -> (r: Result<(), ValidationError>) {
        if let RuntimeEvent::AdrCommitted(adr) = event {
            let ghost all = adr_views(decisions@);
            let mut i: usize = 0;
            while i < decisions.len()
                invariant
                    i <= decisions@.len(),
                    all == adr_views(decisions@),
                    event@ == RuntimeEventView::AdrCommitted(adr@),
                    forall|j: int|
                        0 <= j < i ==> !((#[trigger] all[j]).id == adr@.id && all[j].status
                            is Rejected && same_content(all[j], adr@)),
                decreases decisions@.len() - i,
            {
                let existing = &decisions[i];
                assert(all[i as int] == existing@);
                if existing.id == adr.id && existing.status == AdrStatus::Rejected
                    && has_same_content(existing, adr) {
                    let mut message = "[CONFLICT] ADR ".to_owned();
                    message.append(adr.id.as_str());
                    message.append(" was previously rejected with the same decision content.");
                    return Err(
                        ValidationError::new(
                            self.name(),
                            message.as_str(),
                            "To re-submit, explain what material conditions have changed in the context field.",
                        ),
                    );
                }
                i = i + 1;
            }
        }
        Ok(())
    }

    fn name(&self) -> (r: &'static str)
        ensures
            r@ == "adr_rejected_repeat"@,
    {
        "adr_rejected_repeat"
    }
}

} // verus!
