use memguard::engine::validator::Validator;
use memguard::engine::validators::SupersededByRequired;
use memguard::models::{AdrStatus, Reference, RuntimeEvent, RuntimeState, SupersededInfo, TaskStatus, ADR};


fn make_adr(id: &str) -> ADR {
    ADR {
        id: id.into(),
        title: "title".into(),
        status: AdrStatus::Accepted,
        context: "ctx".into(),
        decision: "dec".into(),
        tags: vec![],
    }
}

fn empty_state() -> RuntimeState {
    RuntimeState {
        current_phase: "plan".into(),
        active_tasks: vec![],
        done_tasks: vec![],
        constraints: vec![],
    }
}

#[test]
fn passes_when_superseded_by_adr_exists() {
    let v = SupersededByRequired;
    let decisions = vec![make_adr("ADR-053")];
    let event = RuntimeEvent::TaskUpdated {
        task_id: "T1".into(),
        new_status: TaskStatus::Superseded,
        superseded_by: Some(SupersededInfo {
            reference: Reference::Adr("ADR-053".into()),
            reason: "Redesigned".into(),
        }),
    };
    assert!(v.validate(&event, &empty_state(), &decisions, &[]).is_ok());
}

#[test]
fn fails_when_superseded_by_missing() {
    let v = SupersededByRequired;
    let event = RuntimeEvent::TaskUpdated {
        task_id: "T1".into(),
        new_status: TaskStatus::Superseded,
        superseded_by: None,
    };
    assert!(v.validate(&event, &empty_state(), &[], &[]).is_err());
}

#[test]
fn fails_when_reason_empty() {
    let v = SupersededByRequired;
    let event = RuntimeEvent::TaskUpdated {
        task_id: "T1".into(),
        new_status: TaskStatus::Superseded,
        superseded_by: Some(SupersededInfo {
            reference: Reference::Adr("ADR-053".into()),
            reason: "".into(),
        }),
    };
    assert!(v.validate(&event, &empty_state(), &[], &[]).is_err());
}

#[test]
fn fails_when_adr_not_found() {
    let v = SupersededByRequired;
    let event = RuntimeEvent::TaskUpdated {
        task_id: "T1".into(),
        new_status: TaskStatus::Superseded,
        superseded_by: Some(SupersededInfo {
            reference: Reference::Adr("ADR-999".into()),
            reason: "Redesigned".into(),
        }),
    };
    assert!(v.validate(&event, &empty_state(), &[], &[]).is_err());
}

#[test]
fn ignores_non_superseded_events() {
    let v = SupersededByRequired;
    let event = RuntimeEvent::TaskUpdated {
        task_id: "T1".into(),
        new_status: TaskStatus::Done,
        superseded_by: None,
    };
    assert!(v.validate(&event, &empty_state(), &[], &[]).is_ok());
}
