use memguard::engine::validator::Validator;
use memguard::engine::validators::AdrActiveConflict;
use memguard::models::{AdrStatus, RuntimeEvent, RuntimeState, Task, TaskStatus, Trap, ADR};


fn empty_state() -> RuntimeState {
    RuntimeState {
        current_phase: String::new(),
        active_tasks: vec![],
        done_tasks: vec![],
        constraints: vec![],
    }
}

fn empty_traps() -> Vec<Trap> {
    vec![]
}

#[test]
fn adr_active_conflict_passes_on_non_adr_event() {
    let validator = AdrActiveConflict;
    let event = RuntimeEvent::TaskCreated(Task {
        id: "TASK-001".into(),
        description: "test".into(),
        status: TaskStatus::Todo,
        superseded_by: None,
    });
    let result = validator.validate(&event, &empty_state(), &[], &empty_traps());
    assert!(result.is_ok());
}

#[test]
fn adr_active_conflict_passes_on_empty_decisions() {
    let validator = AdrActiveConflict;
    let adr = ADR {
        id: "ADR-001".into(),
        title: "New ADR".into(),
        status: AdrStatus::Proposed,
        context: "ctx".into(),
        decision: "dec".into(),
        tags: vec![],
    };
    let event = RuntimeEvent::AdrCommitted(adr);
    let result = validator.validate(&event, &empty_state(), &[], &empty_traps());
    assert!(result.is_ok());
}

#[test]
fn passes_idempotent_same_content() {
    let validator = AdrActiveConflict;
    let existing = vec![ADR {
        id: "ADR-001".into(),
        title: "Use Postgres".into(),
        status: AdrStatus::Accepted,
        context: "ctx".into(),
        decision: "Use Postgres for persistence".into(),
        tags: vec![],
    }];
    let adr = ADR {
        id: "ADR-001".into(),
        title: "Use Postgres".into(),
        status: AdrStatus::Proposed,
        context: "ctx".into(),
        decision: "Use Postgres for persistence".into(),
        tags: vec![],
    };
    let event = RuntimeEvent::AdrCommitted(adr);
    let result = validator.validate(&event, &empty_state(), &existing, &empty_traps());
    assert!(result.is_ok(), "idempotent should pass");
}

#[test]
fn rejects_active_conflict_different_content() {
    let validator = AdrActiveConflict;
    let existing = vec![ADR {
        id: "ADR-001".into(),
        title: "Use Postgres".into(),
        status: AdrStatus::Accepted,
        context: "ctx".into(),
        decision: "Use Postgres for persistence".into(),
        tags: vec![],
    }];
    let adr = ADR {
        id: "ADR-001".into(),
        title: "Use SQLite".into(),
        status: AdrStatus::Proposed,
        context: "ctx".into(),
        decision: "Use SQLite for persistence".into(),
        tags: vec![],
    };
    let event = RuntimeEvent::AdrCommitted(adr);
    let result = validator.validate(&event, &empty_state(), &existing, &empty_traps());
    assert!(result.is_err());
    let err = result.unwrap_err();
    assert_eq!(err.validator_name, "adr_active_conflict");
    assert!(err.message.contains("conflict"));
    assert!(err.message.contains("ADR-001"));
}

#[test]
fn ignores_non_accepted_existing() {
    let validator = AdrActiveConflict;
    let existing = vec![ADR {
        id: "ADR-001".into(),
        title: "Old".into(),
        status: AdrStatus::Superseded,
        context: "old".into(),
        decision: "old".into(),
        tags: vec![],
    }];
    let adr = ADR {
        id: "ADR-001".into(),
        title: "New".into(),
        status: AdrStatus::Proposed,
        context: "new".into(),
        decision: "new".into(),
        tags: vec![],
    };
    let event = RuntimeEvent::AdrCommitted(adr);
    let result = validator.validate(&event, &empty_state(), &existing, &empty_traps());
    assert!(result.is_ok(), "superseded should not cause conflict");
}

#[test]
fn adr_active_conflict_name_returns_expected() {
    assert_eq!(AdrActiveConflict.name(), "adr_active_conflict");
}
