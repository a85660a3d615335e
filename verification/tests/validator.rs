use memguard::engine::validator::{ValidationError, Validator, ValidatorRegistry};
use memguard::models::{RuntimeEvent, RuntimeState, Task, TaskStatus, Trap, ADR};


// ---- Helper test validators ----

struct AlwaysPass;
impl Validator for AlwaysPass {
    fn validate(
        &self,
        _event: &RuntimeEvent,
        _state: &RuntimeState,
        _decisions: &[ADR],
        _traps: &[Trap],
    ) -> Result<(), ValidationError> {
        Ok(())
    }
    fn name(&self) -> &'static str {
        "always_pass"
    }
}

struct AlwaysFail;
impl Validator for AlwaysFail {
    fn validate(
        &self,
        _event: &RuntimeEvent,
        _state: &RuntimeState,
        _decisions: &[ADR],
        _traps: &[Trap],
    ) -> Result<(), ValidationError> {
        Err(ValidationError::new(
            "always_fail",
            "deliberate test failure",
            "remove this validator",
        ))
    }
    fn name(&self) -> &'static str {
        "always_fail"
    }
}

struct FailOnTaskCreated;
impl Validator for FailOnTaskCreated {
    fn validate(
        &self,
        event: &RuntimeEvent,
        _state: &RuntimeState,
        _decisions: &[ADR],
        _traps: &[Trap],
    ) -> Result<(), ValidationError> {
        if matches!(event, RuntimeEvent::TaskCreated(_)) {
            return Err(ValidationError::new(
                "fail_on_task_created",
                "TaskCreated not allowed",
                "use a different event type",
            ));
        }
        Ok(())
    }
    fn name(&self) -> &'static str {
        "fail_on_task_created"
    }
}

// ---- Helper factories ----

fn empty_state() -> RuntimeState {
    RuntimeState {
        current_phase: "explore".into(),
        active_tasks: vec![],
        done_tasks: vec![],
        constraints: vec![],
    }
}

fn empty_decisions() -> Vec<ADR> {
    vec![]
}

fn empty_traps() -> Vec<Trap> {
    vec![]
}

// ---- Tests ----

#[test]
fn registry_starts_empty() {
    let reg = ValidatorRegistry::new();
    assert!(reg.is_empty());
    assert_eq!(reg.len(), 0);
}

#[test]
fn registry_can_hold_multiple_validators() {
    let mut reg = ValidatorRegistry::new();
    reg.register(Box::new(AlwaysPass));
    reg.register(Box::new(AlwaysPass));
    assert_eq!(reg.len(), 2);
    assert!(!reg.is_empty());
}

#[test]
fn validate_all_passes_when_no_validators() {
    let reg = ValidatorRegistry::new();
    let result = reg.validate_all(
        &RuntimeEvent::PhaseChanged("plan".into()),
        &empty_state(),
        &empty_decisions(),
        &empty_traps(),
    );
    assert!(result.is_ok());
}

#[test]
fn validate_all_returns_first_error() {
    let mut reg = ValidatorRegistry::new();
    reg.register(Box::new(AlwaysPass));
    reg.register(Box::new(AlwaysFail));
    reg.register(Box::new(AlwaysPass)); // would pass, but never reached

    let result = reg.validate_all(
        &RuntimeEvent::PhaseChanged("plan".into()),
        &empty_state(),
        &empty_decisions(),
        &empty_traps(),
    );
    assert!(result.is_err());
    let err = result.unwrap_err();
    assert_eq!(err.validator_name, "always_fail");
    assert!(err.message.contains("deliberate"));
    assert!(err.suggestion.contains("remove"));
}

#[test]
fn validate_all_stops_at_first_failure() {
    let mut reg = ValidatorRegistry::new();
    reg.register(Box::new(FailOnTaskCreated));
    reg.register(Box::new(AlwaysFail)); // different error — should never fire

    let task = Task {
        id: "T1".into(),
        description: "test".into(),
        status: TaskStatus::Todo,
        superseded_by: None,
    };

    let result = reg.validate_all(
        &RuntimeEvent::TaskCreated(task),
        &empty_state(),
        &empty_decisions(),
        &empty_traps(),
    );
    assert!(result.is_err());
    let err = result.unwrap_err();
    assert_eq!(err.validator_name, "fail_on_task_created");
}

#[test]
fn validation_error_contains_correct_validator_name() {
    let err = ValidationError::new(
        "my_validator",
        "something went wrong",
        "try fixing it",
    );
    assert_eq!(err.validator_name, "my_validator");
    assert_eq!(err.message, "something went wrong");
    assert_eq!(err.suggestion, "try fixing it");

    let display = err.to_string();
    assert!(display.contains("my_validator"));
    assert!(display.contains("something went wrong"));
    assert!(display.contains("try fixing it"));
}


#[test]
fn validator_trait_object_send_sync() {
    // Static assertion: Box<dyn Validator> must be Send + Sync.
    fn assert_send_sync<T: Send + Sync>(_t: T) {}
    let v: Box<dyn Validator> = Box::new(AlwaysPass);
    assert_send_sync(v);
}

#[test]
fn validate_all_passes_with_all_passing_validators() {
    let mut reg = ValidatorRegistry::new();
    reg.register(Box::new(AlwaysPass));
    reg.register(Box::new(AlwaysPass));

    let result = reg.validate_all(
        &RuntimeEvent::PhaseChanged("verify".into()),
        &empty_state(),
        &empty_decisions(),
        &empty_traps(),
    );
    assert!(result.is_ok());
}
