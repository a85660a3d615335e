//! Validation trait and registry for guarding event application.
//!
//! Validators are called before an event is applied to detect conflicts,
//! inconsistencies, or policy violations. Each validator either passes or fails
//! with a `ValidationError`. The registry stops at the first error and returns it.
use vstd::prelude::*;

use crate::models::{
    adr_views, trap_views, AdrView, RuntimeEvent, RuntimeEventView, RuntimeState, RuntimeStateView,
    Trap, TrapView, ADR,
};

verus! {

/// Structured validation failure carrying the validator identity,
/// a human-readable explanation, and a suggestion for resolution.
#[derive(Debug, PartialEq, Eq)]
pub struct ValidationError {
    pub validator_name: String,
    pub message: String,
    pub suggestion: String,
}

#[verifier::ext_equal]
pub struct ValidationErrorView {
    pub validator_name: Seq<char>,
    pub message: Seq<char>,
    pub suggestion: Seq<char>,
}

impl View for ValidationError {
    type V = ValidationErrorView;

    open spec fn view(&self) -> ValidationErrorView {
        ValidationErrorView {
            validator_name: self.validator_name@,
            message: self.message@,
            suggestion: self.suggestion@,
        }
    }
}

pub open spec fn failure(
    validator_name: Seq<char>,
    message: Seq<char>,
    suggestion: Seq<char>,
) -> ValidationErrorView {
    ValidationErrorView { validator_name, message, suggestion }
}

impl Clone for ValidationError {
    fn clone(&self) -> (r: Self)
        ensures
            r == *self,
    {
        ValidationError {
            validator_name: self.validator_name.clone(),
            message: self.message.clone(),
            suggestion: self.suggestion.clone(),
        }
    }
}

impl ValidationError {
    pub fn new(validator_name: &str, message: &str, suggestion: &str) -> (r: Self)
        ensures
            r@ == failure(validator_name@, message@, suggestion@),
    {
        ValidationError {
            validator_name: validator_name.to_owned(),
            message: message.to_owned(),
            suggestion: suggestion.to_owned(),
        }
    }

    /// `[validator] message (suggestion: suggestion)`.
    pub fn to_string(&self) -> (r: String)
        ensures
            r@ == "["@ + self.validator_name@ + "] "@ + self.message@ + " (suggestion: "@
                + self.suggestion@ + ")"@,
    {
        let mut out = "[".to_owned();
        out.append(self.validator_name.as_str());
        out.append("] ");
        out.append(self.message.as_str());
        out.append(" (suggestion: ");
        out.append(self.suggestion.as_str());
        out.append(")");
        out
    }
}

/// A validator inspects a proposed event against the current state, ADR history
/// and trap log before it is applied. Validators are pure: what they decide is a
/// function of what they see.
pub trait Validator: Send + Sync {
    /// The failure, if any, for `event` in the given memory state. A validator
    /// that says nothing of its own here lets every event pass.
    open spec fn verdict(
        &self,
        event: RuntimeEventView,
        state: RuntimeStateView,
        decisions: Seq<AdrView>,
        traps: Seq<TrapView>,
    ) -> Option<ValidationErrorView> {
        None
    }

    /// Check whether `event` is acceptable given the current memory state.
    fn validate(
        &self,
        event: &RuntimeEvent,
        state: &RuntimeState,
        decisions: &[ADR],
        traps: &[Trap],
    ) -> (r: Result<(), ValidationError>)
        ensures
            outcome(r) == self.verdict(
                event@,
                state@,
                adr_views(decisions@),
                trap_views(traps@),
            ),
    ;

    /// A unique, stable identifier used in error messages.
    fn name(&self) -> &'static str;
}

/// The failure in the result of a validation, if there is one.
pub open spec fn outcome(r: Result<(), ValidationError>) -> Option<ValidationErrorView> {
    match r {
        Ok(_) => None,
        Err(e) => Some(e@),
    }
}

/// A place in a registry.
pub struct Registered<V: Validator + ?Sized> {
    pub validator: Box<V>,
}

/// A collection of validators that are run in registration order.
pub struct ValidatorRegistry {
    validators: Vec<Registered<dyn Validator>>,
}

/// The verdict of the first of `validators` that does not pass.
pub open spec fn first_failure(
    validators: Seq<Registered<dyn Validator>>,
    event: RuntimeEventView,
    state: RuntimeStateView,
    decisions: Seq<AdrView>,
    traps: Seq<TrapView>,
) -> Option<ValidationErrorView>
    decreases validators.len(),
{
    if validators.len() == 0 {
        None
    } else {
        match first_failure(validators.drop_last(), event, state, decisions, traps) {
            Some(e) => Some(e),
            None => validators.last().validator.verdict(event, state, decisions, traps),
        }
    }
}

impl View for ValidatorRegistry {
    type V = Seq<Registered<dyn Validator>>;

    closed spec fn view(&self) -> Seq<Registered<dyn Validator>> {
        self.validators@
    }
}

impl ValidatorRegistry {
    /// Create an empty registry.
    pub fn new() -> (r: Self)
        ensures
            r@ == Seq::<Registered<dyn Validator>>::empty(),
    {
        ValidatorRegistry { validators: Vec::new() }
    }

    /// Register a validator. Order matters: validators are run in
    /// the order they are registered.
    pub fn register(&mut self, validator: Box<dyn Validator>)
        ensures
            final(self)@.len() == old(self)@.len() + 1,
            final(self)@.drop_last() == old(self)@,
            forall|
                event: RuntimeEventView,
                state: RuntimeStateView,
                decisions: Seq<AdrView>,
                traps: Seq<TrapView>,
            | #[trigger]
                final(self)@.last().validator.verdict(event, state, decisions, traps)
                    == validator.verdict(event, state, decisions, traps),
    {
        let ghost before = self.validators@;
        let registered = Registered { validator };
        assert(registered.validator == validator);
        self.validators.push(registered);
        assert(self.validators@.drop_last() =~= before);
    }

    /// Run the registered validators in order. Passes if all pass, else fails
    /// with the error of the first one that fails.
    pub fn validate_all(
        &self,
        event: &RuntimeEvent,
        state: &RuntimeState,
        decisions: &[ADR],
        traps: &[Trap],
    ) -> (r: Result<(), ValidationError>)
        ensures
            outcome(r) == first_failure(
                self@,
                event@,
                state@,
                adr_views(decisions@),
                trap_views(traps@),
            ),
    {
        let ghost all = self.validators@;
        let mut i: usize = 0;
        assert(all.take(0).len() == 0);
        while i < self.validators.len()
            invariant
                i <= all.len(),
                all == self.validators@,
                first_failure(
                    all.take(i as int),
                    event@,
                    state@,
                    adr_views(decisions@),
                    trap_views(traps@),
                ) is None,
            decreases all.len() - i,
        {
            assert(all.take(i + 1).drop_last() =~= all.take(i as int));
            assert(all.take(i + 1).last() == all[i as int]);
            match self.validators[i].validator.validate(event, state, decisions, traps) {
                Ok(()) => {},
                Err(e) => {
                    proof {
                        lemma_failure_stays(
                            all,
                            i + 1,
                            event@,
                            state@,
                            adr_views(decisions@),
                            trap_views(traps@),
                        );
                    }
                    return Err(e);
                },
            }
            i = i + 1;
        }
        assert(all.take(i as int) =~= all);
        Ok(())
    }

    /// Returns the number of registered validators.
    pub fn len(&self) -> (r: usize)
        ensures
            r == self@.len(),
    {
        self.validators.len()
    }

    /// Returns `true` if no validators are registered.
    pub fn is_empty(&self) -> (r: bool)
        ensures
            r == (self@.len() == 0),
    {
        self.validators.len() == 0
    }
}

impl Default for ValidatorRegistry {
    fn default() -> (r: Self)
        ensures
            r@ == Seq::<Registered<dyn Validator>>::empty(),
    {
        ValidatorRegistry::new()
    }
}

/// What comes after a failing validator does not matter.
proof fn lemma_failure_stays(
    validators: Seq<Registered<dyn Validator>>,
    k: int,
    event: RuntimeEventView,
    state: RuntimeStateView,
    decisions: Seq<AdrView>,
    traps: Seq<TrapView>,
)
    requires
        0 <= k <= validators.len(),
        first_failure(validators.take(k), event, state, decisions, traps) is Some,
    ensures
        first_failure(validators, event, state, decisions, traps) == first_failure(
            validators.take(k),
            event,
            state,
            decisions,
            traps,
        ),
    decreases validators.len(),
{
    if k == validators.len() {
        assert(validators.take(k) =~= validators);
    } else {
        let front = validators.drop_last();
        assert(front.take(k) =~= validators.take(k));
        lemma_failure_stays(front, k, event, state, decisions, traps);
    }
}

// ── Laws ───────────────────────────────────────────────────────────────────

/// The registry passes exactly where every validator passes.
pub proof fn law_registry_passes_iff_all_pass(
    validators: Seq<Registered<dyn Validator>>,
    event: RuntimeEventView,
    state: RuntimeStateView,
    decisions: Seq<AdrView>,
    traps: Seq<TrapView>,
)
    ensures
        first_failure(validators, event, state, decisions, traps) is None <==> forall|i: int|
            0 <= i < validators.len() ==> (#[trigger] validators[i]).validator.verdict(
                event,
                state,
                decisions,
                traps,
            ) is None,
    decreases validators.len(),
{
    if validators.len() > 0 {
        let front = validators.drop_last();
        law_registry_passes_iff_all_pass(front, event, state, decisions, traps);
        assert forall|i: int| 0 <= i < front.len() implies #[trigger] front[i]
            == validators[i] by {}
        let last = validators.len() - 1;
        if first_failure(front, event, state, decisions, traps) is None {
            assert forall|i: int| 0 <= i < last implies (
            #[trigger] validators[i]).validator.verdict(event, state, decisions, traps) is None by {
                assert(front[i] == validators[i]);
            }
            assert(validators[last] == validators.last());
        } else {
            let k = choose|i: int|
                0 <= i < front.len() && (#[trigger] front[i]).validator.verdict(
                    event,
                    state,
                    decisions,
                    traps,
                ) is Some;
            assert(validators[k].validator.verdict(event, state, decisions, traps) is Some);
        }
    }
}

/// A failure of the registry is the verdict of its first failing validator: all
/// before that one pass.
pub proof fn law_registry_reports_first_failure(
    validators: Seq<Registered<dyn Validator>>,
    event: RuntimeEventView,
    state: RuntimeStateView,
    decisions: Seq<AdrView>,
    traps: Seq<TrapView>,
    k: int,
)
    requires
        0 <= k < validators.len(),
        validators[k].validator.verdict(event, state, decisions, traps) is Some,
        forall|i: int|
            0 <= i < k ==> (#[trigger] validators[i]).validator.verdict(
                event,
                state,
                decisions,
                traps,
            ) is None,
    ensures
        first_failure(validators, event, state, decisions, traps)
            == validators[k].validator.verdict(event, state, decisions, traps),
{
    let front = validators.take(k);
    assert forall|i: int| 0 <= i < front.len() implies (#[trigger] front[i]).validator.verdict(
        event,
        state,
        decisions,
        traps,
    ) is None by {
        assert(front[i] == validators[i]);
    }
    law_registry_passes_iff_all_pass(front, event, state, decisions, traps);
    let upto = validators.take(k + 1);
    assert(upto.drop_last() =~= front);
    assert(upto.last() == validators[k]);
    lemma_failure_stays(validators, k + 1, event, state, decisions, traps);
}

/// Validators may be registered in any order: whether an event passes does not depend
/// on it. The validator at each place of `other` is the one at the place that
/// `places` tells in `validators`, and none is left out.
pub proof fn law_registration_order_does_not_decide(
    validators: Seq<Registered<dyn Validator>>,
    other: Seq<Registered<dyn Validator>>,
    places: Seq<int>,
    event: RuntimeEventView,
    state: RuntimeStateView,
    decisions: Seq<AdrView>,
    traps: Seq<TrapView>,
)
    requires
        places.len() == other.len(),
        forall|i: int|
            0 <= i < other.len() ==> 0 <= #[trigger] places[i] < validators.len() && other[i]
                == validators[places[i]],
        forall|j: int| 0 <= j < validators.len() ==> places.contains(j),
    ensures
        first_failure(validators, event, state, decisions, traps) is None <==> first_failure(
            other,
            event,
            state,
            decisions,
            traps,
        ) is None,
{
    law_registry_passes_iff_all_pass(validators, event, state, decisions, traps);
    law_registry_passes_iff_all_pass(other, event, state, decisions, traps);
    if first_failure(validators, event, state, decisions, traps) is None {
        assert forall|i: int| 0 <= i < other.len() implies (#[trigger] other[i]).validator.verdict(
            event,
            state,
            decisions,
            traps,
        ) is None by {
            let j = places[i];
            assert(validators[j].validator.verdict(event, state, decisions, traps) is None);
        }
    }
    if first_failure(other, event, state, decisions, traps) is None {
        assert forall|j: int| 0 <= j < validators.len() implies (
        #[trigger] validators[j]).validator.verdict(event, state, decisions, traps) is None by {
            assert(places.contains(j));
            let i = choose|i: int| 0 <= i < places.len() && places[i] == j;
            assert(other[i].validator.verdict(event, state, decisions, traps) is None);
        }
    }
}

} // verus!
