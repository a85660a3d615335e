//! Concrete validators for runtime event application.
//!
//! Each validator implements the `Validator` trait and guards against a
//! specific class of invalid state transitions. They can be registered with
//! `ValidatorRegistry` in any order.
use vstd::prelude::*;

use crate::foreign::{lowercase, to_lower};
use crate::models::{AdrView, ADR};
use crate::text::{string_of, to_chars, trim, trimmed};

pub mod adr_active_conflict;
pub mod adr_invalid_transition;
pub mod adr_rejected_repeat;
pub mod duplicate_task_id;
pub mod empty_task_id;
pub mod superseded_by_required;
pub mod task_terminal_transition;

pub use adr_active_conflict::AdrActiveConflict;
pub use adr_invalid_transition::AdrInvalidTransition;
pub use adr_rejected_repeat::AdrRejectedRepeat;
pub use duplicate_task_id::DuplicateTaskId;
pub use empty_task_id::EmptyTaskId;
pub use superseded_by_required::SupersededByRequired;
pub use task_terminal_transition::TaskTerminalTransition;

verus! {

/// A text in lower case, without white space at its ends.
pub open spec fn normalized(s: Seq<char>) -> Seq<char> {
    lowercase(trim(s))
}

/// Whether two ADRs say the same: title and decision agree but for case and
/// outer white space.
pub open spec fn same_content(a: AdrView, b: AdrView) -> bool {
    normalized(a.title) == normalized(b.title) && normalized(a.decision) == normalized(b.decision)
}

fn normalize(s: &str) -> (r: String)
    ensures
        r@ == normalized(s@),
{
    let chars = to_chars(s);
    let t = string_of(trimmed(chars.as_slice()));
    to_lower(t.as_str())
}

/// Whether two ADRs say the same.
pub fn has_same_content(a: &ADR, b: &ADR) -> (r: bool)
    ensures
        r == same_content(a@, b@),
{
    let ta = normalize(a.title.as_str());
    let tb = normalize(b.title.as_str());
    let da = normalize(a.decision.as_str());
    let db = normalize(b.decision.as_str());
    ta == tb && da == db
}

/// The first accepted ADR with the given id.
pub open spec fn accepted_adr(decisions: Seq<AdrView>, id: Seq<char>) -> Option<AdrView>
    decreases decisions.len(),
{
    if decisions.len() == 0 {
        None
    } else if decisions[0].id == id && decisions[0].status is Accepted {
        Some(decisions[0])
    } else {
        accepted_adr(decisions.drop_first(), id)
    }
}

/// Having the same content is an equivalence.
pub proof fn law_same_content_equivalence(a: AdrView, b: AdrView, c: AdrView)
    ensures
        same_content(a, a),
        same_content(a, b) == same_content(b, a),
        same_content(a, b) && same_content(b, c) ==> same_content(a, c),
{
}

} // verus!
