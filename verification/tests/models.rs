use memguard::models::{
    AdrStatus, Reference, SupersededInfo, Task, TaskCreatePayload, TaskStatus, Trap,
};

#[test]
fn test_task_status_existing_variants_unchanged() {
    assert_eq!(TaskStatus::Todo.label(), "Todo");
    assert_eq!(TaskStatus::InProgress.label(), "InProgress");
    assert_eq!(TaskStatus::Done.label(), "Done");
}

#[test]
fn test_adr_status_active_maps_to_accepted() {
    let decoded = AdrStatus::from_str("active").unwrap();
    assert_eq!(decoded, AdrStatus::Accepted);
}

#[test]
fn test_adr_status_accepted_serializes_correctly() {
    assert_eq!(AdrStatus::Accepted.to_string(), "Accepted");
}

#[test]
fn test_adr_status_all_variants_roundtrip() {
    for status in [
        AdrStatus::Proposed,
        AdrStatus::Accepted,
        AdrStatus::Superseded,
        AdrStatus::Rejected,
        AdrStatus::Archived,
    ] {
        let decoded = AdrStatus::from_str(&status.to_string()).unwrap();
        assert_eq!(decoded, status, "round-trip failed for {:?}", status);
    }
}

#[test]
fn test_adr_status_backward_compat_proposed() {
    assert_eq!(AdrStatus::from_str("proposed").unwrap(), AdrStatus::Proposed);
}

#[test]
fn test_adr_status_backward_compat_superseded() {
    assert_eq!(AdrStatus::from_str("superseded").unwrap(), AdrStatus::Superseded);
}

#[test]
fn test_adr_status_backward_compat_rejected() {
    assert_eq!(AdrStatus::from_str("rejected").unwrap(), AdrStatus::Rejected);
}

#[test]
fn test_adr_status_backward_compat_archived() {
    assert_eq!(AdrStatus::from_str("archived").unwrap(), AdrStatus::Archived);
}

#[test]
fn status_names_ignore_case_and_unknown_ones_are_refused() {
    assert_eq!(AdrStatus::from_str("ACTIVE").unwrap(), AdrStatus::Accepted);
    assert_eq!(AdrStatus::from_str("Archived").unwrap(), AdrStatus::Archived);
    assert_eq!(AdrStatus::from_str("Odd").unwrap_err(), "unknown ADR status: odd");
    assert!(AdrStatus::from_str("ÄCTIVE").is_err());
}

#[test]
fn finished_statuses_are_terminal() {
    let terminal: Vec<&str> = [
        TaskStatus::Todo,
        TaskStatus::InProgress,
        TaskStatus::Done,
        TaskStatus::Blocked,
        TaskStatus::Superseded,
        TaskStatus::Cancelled,
    ]
    .iter()
    .filter(|s| s.is_terminal())
    .map(|s| s.label())
    .collect();
    assert_eq!(terminal, vec!["Done", "Superseded", "Cancelled"]);
}

#[test]
fn new_tasks_begin_as_todo() {
    let task = TaskCreatePayload { id: "TASK-001".into(), description: "d".into() }.into_task();
    assert_eq!(task.status, TaskStatus::Todo);
    assert!(task.superseded_by.is_none());
}

#[test]
fn copies_are_equal() {
    let task = Task {
        id: "TASK-001".into(),
        description: "d".into(),
        status: TaskStatus::Superseded,
        superseded_by: Some(SupersededInfo {
            reference: Reference::Adr("ADR-053".into()),
            reason: "Redesigned".into(),
        }),
    };
    let copy = task.clone();
    assert_eq!(copy.id, "TASK-001");
    let info = copy.superseded_by.unwrap();
    assert_eq!(info.reference, Reference::Adr("ADR-053".into()));
    assert_eq!(info.reason, "Redesigned");
    assert!(Trap::default().error_signature.is_empty());
}
