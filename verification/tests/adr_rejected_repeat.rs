use memguard::engine::validator::Validator;
use memguard::engine::validators::AdrRejectedRepeat;
use memguard::models::{AdrStatus, RuntimeEvent, RuntimeState, Task, TaskStatus, Trap, ADR};


fn empty_state() -> RuntimeState {
    RuntimeState {
        current_phase: String::new(),
        active_tasks: vec![],
        done_tasks: vec![],
        constraints: vec![],
    }
}

fn empty_traps() -> Vec<Trap> {
    vec![]
}

#[test]
fn adr_rejected_repeat_passes_on_non_adr_event() {
    let validator = AdrRejectedRepeat;
    let event = RuntimeEvent::TaskCreated(Task {
        id: "TASK-001".into(),
        description: "test".into(),
        status: TaskStatus::Todo,
        superseded_by: None,
    });
    let result = validator.validate(&event, &empty_state(), &[], &empty_traps());
    assert!(result.is_ok());
}

#[test]
fn passes_when_no_prior_rejected() {
    let validator = AdrRejectedRepeat;
    let decisions = vec![ADR {
        id: "ADR-001".into(),
        title: "Use Postgres".into(),
        status: AdrStatus::Accepted,
        context: "".into(),
        decision: "Use Postgres for persistence".into(),
        tags: vec![],
    }];
    let adr = ADR {
        id: "ADR-001".into(),
        title: "Use Cassandra".into(),
        status: AdrStatus::Proposed,
        context: "new".into(),
        decision: "Use Cassandra for persistence".into(),
        tags: vec![],
    };
    let event = RuntimeEvent::AdrCommitted(adr);
    let result = validator.validate(&event, &empty_state(), &decisions, &empty_traps());
    assert!(result.is_ok());
}

#[test]
fn passes_rejected_different_content() {
    let validator = AdrRejectedRepeat;
    let decisions = vec![ADR {
        id: "ADR-001".into(),
        title: "Use Cassandra".into(),
        status: AdrStatus::Rejected,
        context: "old".into(),
        decision: "Use Cassandra for persistence".into(),
        tags: vec![],
    }];
    let adr = ADR {
        id: "ADR-001".into(),
        title: "Use Cassandra with Sharding".into(),
        status: AdrStatus::Proposed,
        context: "new reqs".into(),
        decision: "Use Cassandra with consistent hashing".into(),
        tags: vec![],
    };
    let event = RuntimeEvent::AdrCommitted(adr);
    let result = validator.validate(&event, &empty_state(), &decisions, &empty_traps());
    assert!(result.is_ok(), "different content should pass");
}

#[test]
fn rejects_rejected_repeat() {
    let validator = AdrRejectedRepeat;
    let decisions = vec![ADR {
        id: "ADR-001".into(),
        title: "Use Cassandra".into(),
        status: AdrStatus::Rejected,
        context: "old".into(),
        decision: "Use Cassandra for persistence".into(),
        tags: vec![],
    }];
    let adr = ADR {
        id: "ADR-001".into(),
        title: "Use Cassandra".into(),
        status: AdrStatus::Proposed,
        context: "same old".into(),
        decision: "Use Cassandra for persistence".into(),
        tags: vec![],
    };
    let event = RuntimeEvent::AdrCommitted(adr);
    let result = validator.validate(&event, &empty_state(), &decisions, &empty_traps());
    assert!(result.is_err());
    let err = result.unwrap_err();
    assert_eq!(err.validator_name, "adr_rejected_repeat");
    assert!(err.message.contains("rejected"));
    assert!(err.message.contains("ADR-001"));
    assert!(err.suggestion.contains("material conditions"));
}

#[test]
fn adr_rejected_repeat_name_returns_expected() {
    assert_eq!(AdrRejectedRepeat.name(), "adr_rejected_repeat");
}
