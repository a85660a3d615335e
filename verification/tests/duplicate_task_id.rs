use memguard::engine::validator::Validator;
use memguard::engine::validators::DuplicateTaskId;
use memguard::models::{RuntimeEvent, RuntimeState, Task, TaskStatus, Trap, ADR};


fn state_with_task(id: &str) -> RuntimeState {
    RuntimeState {
        current_phase: String::new(),
        active_tasks: vec![Task {
        id: id.to_string(),
        description: "existing".into(),
        status: TaskStatus::Todo,
        superseded_by: None,
    }],
        done_tasks: vec![],
        constraints: vec![],
    }
}

fn empty_state() -> RuntimeState {
    RuntimeState {
        current_phase: String::new(),
        active_tasks: vec![],
        done_tasks: vec![],
        constraints: vec![],
    }
}

fn empty_decisions() -> Vec<ADR> {
    vec![]
}

fn empty_traps() -> Vec<Trap> {
    vec![]
}

#[test]
fn duplicate_task_id_passes_on_non_task_created_event() {
    let validator = DuplicateTaskId;
    let event = RuntimeEvent::PhaseChanged("plan".into());
    let result = validator.validate(&event, &empty_state(), &empty_decisions(), &empty_traps());
    assert!(result.is_ok(), "PhaseChanged should pass");
}

#[test]
fn passes_on_unique_task_id() {
    let validator = DuplicateTaskId;
    let state = state_with_task("TASK-001");
    let event = RuntimeEvent::TaskCreated(Task {
        id: "TASK-002".into(),
        description: "unique".into(),
        status: TaskStatus::Todo,
        superseded_by: None,
    });
    let result = validator.validate(&event, &state, &empty_decisions(), &empty_traps());
    assert!(result.is_ok(), "unique ID should pass");
}

#[test]
fn passes_on_empty_state() {
    let validator = DuplicateTaskId;
    let event = RuntimeEvent::TaskCreated(Task {
        id: "TASK-001".into(),
        description: "first task".into(),
        status: TaskStatus::Todo,
        superseded_by: None,
    });
    let result = validator.validate(&event, &empty_state(), &empty_decisions(), &empty_traps());
    assert!(result.is_ok(), "empty state should always pass");
}

#[test]
fn rejects_duplicate_task_id() {
    let validator = DuplicateTaskId;
    let state = state_with_task("TASK-001");
    let event = RuntimeEvent::TaskCreated(Task {
        id: "TASK-001".into(),
        description: "duplicate".into(),
        status: TaskStatus::Todo,
        superseded_by: None,
    });
    let result = validator.validate(&event, &state, &empty_decisions(), &empty_traps());
    assert!(result.is_err());
    let err = result.unwrap_err();
    assert_eq!(err.validator_name, "duplicate_task_id");
    assert!(err.message.contains("already exists"));
    assert!(err.message.contains("TASK-001"));
    assert!(err.suggestion.contains("TaskUpdated"));
}

#[test]
fn duplicate_task_id_name_returns_expected() {
    assert_eq!(DuplicateTaskId.name(), "duplicate_task_id");
}
