use memguard::engine::validator::Validator;
use memguard::engine::validators::TaskTerminalTransition;
use memguard::models::{RuntimeEvent, RuntimeState, Task, TaskStatus};


fn make_task(id: &str, status: TaskStatus) -> Task {
    Task {
        id: id.into(),
        description: "test".into(),
        status,
        superseded_by: None,
    }
}

fn state_with_tasks(active: Vec<Task>, done: Vec<Task>) -> RuntimeState {
    RuntimeState {
        current_phase: "plan".into(),
        active_tasks: active,
        done_tasks: done,
        constraints: vec![],
    }
}

#[test]
fn allows_transition_from_todo() {
    let v = TaskTerminalTransition;
    let state = state_with_tasks(vec![make_task("T1", TaskStatus::Todo)], vec![]);
    let event = RuntimeEvent::TaskUpdated {
        task_id: "T1".into(),
        new_status: TaskStatus::Done,
        superseded_by: None,
    };
    assert!(v.validate(&event, &state, &[], &[]).is_ok());
}

#[test]
fn blocks_transition_from_done() {
    let v = TaskTerminalTransition;
    let state = state_with_tasks(vec![], vec![make_task("T1", TaskStatus::Done)]);
    let event = RuntimeEvent::TaskUpdated {
        task_id: "T1".into(),
        new_status: TaskStatus::Superseded,
        superseded_by: None,
    };
    assert!(v.validate(&event, &state, &[], &[]).is_err());
}

#[test]
fn blocks_transition_from_superseded() {
    let v = TaskTerminalTransition;
    let state = state_with_tasks(vec![], vec![make_task("T1", TaskStatus::Superseded)]);
    let event = RuntimeEvent::TaskUpdated {
        task_id: "T1".into(),
        new_status: TaskStatus::Todo,
        superseded_by: None,
    };
    assert!(v.validate(&event, &state, &[], &[]).is_err());
}

#[test]
fn blocks_transition_from_cancelled() {
    let v = TaskTerminalTransition;
    let state = state_with_tasks(vec![], vec![make_task("T1", TaskStatus::Cancelled)]);
    let event = RuntimeEvent::TaskUpdated {
        task_id: "T1".into(),
        new_status: TaskStatus::Todo,
        superseded_by: None,
    };
    assert!(v.validate(&event, &state, &[], &[]).is_err());
}

#[test]
fn ignores_non_taskupdated_events() {
    let v = TaskTerminalTransition;
    let state = state_with_tasks(vec![], vec![]);
    assert!(v.validate(&RuntimeEvent::PhaseChanged("plan".into()), &state, &[], &[]).is_ok());
}
