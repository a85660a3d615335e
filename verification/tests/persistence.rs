use memguard::engine::persistence::{
    adr_status_priority, flush_error, load_state, merge_decisions, same_generation, FlushAction,
    FlushLoop, FlushSignal, MemoryFiles, DEBOUNCE_MILLIS, DEFAULT_CONTEXT,
};
use memguard::engine::projection::decisions::render_decisions_file;
use memguard::engine::projection::{parse_context, parse_decisions, parse_traps};
use memguard::engine::state_manager::{commit_adr, new_state, AdrError, StateManager};
use memguard::models::{AdrStatus, RuntimeEvent, Task, TaskStatus, Trap, ADR};

fn adr(id: &str, title: &str, status: AdrStatus) -> ADR {
    ADR {
        id: id.into(),
        title: title.into(),
        status,
        context: "ctx".into(),
        decision: "dec".into(),
        tags: vec!["a".into(), "b".into()],
    }
}

fn trap(signature: &str) -> Trap {
    Trap {
        error_signature: signature.into(),
        context: "when".into(),
        solution: "how".into(),
        root_cause: "why".into(),
        prevention: "lint".into(),
    }
}

fn told(adrs: &[ADR]) -> Vec<(&str, AdrStatus)> {
    adrs.iter().map(|a| (a.id.as_str(), a.status)).collect()
}

#[test]
fn priorities_follow_the_life_of_an_adr() {
    let all = [
        AdrStatus::Accepted,
        AdrStatus::Proposed,
        AdrStatus::Rejected,
        AdrStatus::Superseded,
        AdrStatus::Archived,
    ];
    let priorities: Vec<u8> = all.iter().map(adr_status_priority).collect();
    assert_eq!(priorities, vec![5, 4, 3, 2, 1]);
}

#[test]
fn merging_keeps_the_best_version_in_order() {
    let merged = merge_decisions(vec![
        adr("ADR-002", "old", AdrStatus::Superseded),
        adr("ADR-003", "p", AdrStatus::Proposed),
        adr("ADR-002", "new", AdrStatus::Accepted),
        adr("ADR-001", "x", AdrStatus::Accepted),
        adr("ADR-002", "late", AdrStatus::Accepted),
    ]);
    assert_eq!(
        told(&merged),
        vec![
            ("ADR-001", AdrStatus::Accepted),
            ("ADR-002", AdrStatus::Accepted),
            ("ADR-003", AdrStatus::Proposed)
        ]
    );
    assert_eq!(merged[1].title, "new");
    assert!(merge_decisions(vec![]).is_empty());
}

#[test]
fn an_unreadable_context_is_not_overwritten() {
    let files = MemoryFiles {
        memory_exists: true,
        context: Some("no headings here".into()),
        decisions: None,
        decisions_archive: None,
        traps: Some("no traps here".into()),
    };
    let loaded = load_state(&files);
    assert!(!loaded.is_greenfield);
    assert!(!loaded.context_parsed && !loaded.decisions_parsed && !loaded.traps_parsed);

    let mut mgr = StateManager::new();
    assert!(!mgr.bootstrap(&files));
    let plan = mgr.plan_flush();
    assert!(plan.context.is_none());
    assert!(plan.decisions.is_none());
    assert!(plan.decisions_archive.is_none());
    assert!(plan.traps.is_none());

    // Once there is something to write, the files are written.
    mgr.apply_event(RuntimeEvent::PhaseChanged("plan".into())).unwrap();
    mgr.apply_event(RuntimeEvent::TrapRecorded(trap("E"))).unwrap();
    mgr.apply_event(RuntimeEvent::AdrCommitted(adr("ADR-001", "T", AdrStatus::Proposed))).unwrap();
    let plan = mgr.plan_flush();
    assert!(plan.context.is_some() && plan.decisions.is_some() && plan.traps.is_some());
}

#[test]
fn the_default_context_has_no_phase() {
    assert!(parse_context(DEFAULT_CONTEXT).is_ok());
    assert!(parse_context(DEFAULT_CONTEXT).unwrap().current_phase.is_empty());
}

#[test]
fn what_is_flushed_is_loaded_again() {
    let mut mgr = StateManager::new();
    mgr.state.current_phase = "implement".into();
    mgr.state.constraints.push("Keep it simple".into());
    for (id, status) in [("TASK-001", TaskStatus::Todo), ("TASK-002", TaskStatus::Done)] {
        mgr.state.active_tasks.push(Task {
            id: id.into(),
            description: "work".into(),
            status,
            superseded_by: None,
        });
    }
    mgr.decisions.push(adr("ADR-001", "One", AdrStatus::Accepted));
    mgr.decisions.push(adr("ADR-002", "Two", AdrStatus::Rejected));
    mgr.traps.push(trap("E1"));

    let plan = mgr.plan_flush();
    let files = MemoryFiles {
        memory_exists: true,
        context: plan.context,
        decisions: plan.decisions,
        decisions_archive: plan.decisions_archive,
        traps: plan.traps,
    };
    let mut again = StateManager::new();
    again.bootstrap(&files);
    assert_eq!(again.state.current_phase, "implement");
    assert_eq!(again.state.constraints, vec!["Keep it simple"]);
    assert_eq!(again.state.active_tasks.len(), 1);
    assert_eq!(again.state.active_tasks[0].id, "TASK-001");
    assert_eq!(
        told(&again.decisions),
        vec![("ADR-001", AdrStatus::Accepted), ("ADR-002", AdrStatus::Rejected)]
    );
    assert_eq!(again.decisions[1].tags, vec!["a", "b"]);
    assert_eq!(again.traps.len(), 1);
    assert_eq!(again.traps[0].root_cause, "why");
}

#[test]
fn decisions_point_to_their_archive() {
    let active = vec![adr("ADR-001", "One", AdrStatus::Accepted)];
    let plain = render_decisions_file(&active, false);
    let noted = render_decisions_file(&active, true);
    assert_eq!(
        noted,
        format!(
            "> Historical decisions are in [decisions_archive.md](./decisions_archive.md)\n\n{}",
            plain
        )
    );
    assert_eq!(parse_decisions(&noted).unwrap().len(), 1);
}

#[test]
fn flush_errors_are_counted() {
    assert_eq!(flush_error(&vec![]), None);
    assert_eq!(
        flush_error(&vec!["a".into(), "b".into()]),
        Some("2 flush error(s): a; b".into())
    );
}

#[test]
fn a_burst_is_one_flush() {
    assert_eq!(DEBOUNCE_MILLIS, 500);
    let mut at = FlushLoop::Idle;
    assert_eq!(at.step(FlushSignal::Silence), FlushAction::AwaitChange);
    for _ in 0..3 {
        assert_eq!(at.step(FlushSignal::Changed), FlushAction::AwaitSilence);
    }
    assert_eq!(at.step(FlushSignal::Silence), FlushAction::Flush);
    assert_eq!(at, FlushLoop::Idle);
    assert_eq!(at.step(FlushSignal::Closed), FlushAction::Stop);
    assert_eq!(at.step(FlushSignal::Changed), FlushAction::Stop);
    assert_eq!(at, FlushLoop::Stopped);
    assert!(same_generation(3, 3));
    assert!(!same_generation(3, 4));
}

#[test]
fn switching_projects_leaves_nothing_behind() {
    let mut mgr = StateManager::new();
    mgr.state.current_phase = "plan".into();
    mgr.decisions.push(adr("ADR-001", "One", AdrStatus::Accepted));
    mgr.traps.push(trap("E"));
    let files = MemoryFiles {
        memory_exists: true,
        context: Some("# Current Phase\nverify\n".into()),
        decisions: None,
        decisions_archive: None,
        traps: None,
    };
    mgr.bootstrap(&files);
    assert_eq!(mgr.state.current_phase, "verify");
    assert!(mgr.decisions.is_empty());
    assert!(mgr.traps.is_empty());
    assert!(new_state().active_tasks.is_empty());
}

#[test]
fn a_new_version_supersedes_its_elders() {
    let mut decisions = vec![
        adr("ADR-001", "Rejected", AdrStatus::Rejected),
        adr("ADR-002", "Other", AdrStatus::Accepted),
    ];
    assert!(commit_adr(&mut decisions, adr("ADR-001", "New", AdrStatus::Proposed)).is_ok());
    assert_eq!(
        told(&decisions),
        vec![
            ("ADR-001", AdrStatus::Superseded),
            ("ADR-002", AdrStatus::Accepted),
            ("ADR-001", AdrStatus::Accepted)
        ]
    );
}

#[test]
fn transition_errors_are_spelled_out() {
    let terminal = AdrError::InvalidTransition {
        id: "ADR-001".into(),
        current_status: AdrStatus::Archived,
        valid_next: vec![],
    };
    assert_eq!(
        terminal.to_string(),
        "[INVALID TRANSITION] ADR ADR-001 is in terminal state Archived and cannot transition further."
    );
    let open = AdrError::InvalidTransition {
        id: "ADR-001".into(),
        current_status: AdrStatus::Accepted,
        valid_next: vec![AdrStatus::Superseded, AdrStatus::Archived],
    };
    assert_eq!(
        open.to_string(),
        "[INVALID TRANSITION] ADR ADR-001 is Accepted but can only transition to: Superseded, Archived. Current transition not allowed."
    );
}

#[test]
fn finished_tasks_are_archived_in_their_sections() {
    let mut mgr = StateManager::new();
    for (id, status) in [
        ("TASK-001", TaskStatus::Done),
        ("TASK-002", TaskStatus::Cancelled),
    ] {
        mgr.state.done_tasks.push(Task {
            id: id.into(),
            description: "work".into(),
            status,
            superseded_by: None,
        });
    }
    let text = mgr.archive_done_tasks("", 1_784_116_800).unwrap();
    assert!(text.contains("2026-07-15"));
    assert!(text.contains("[Done] [TASK-001]"));
    assert!(text.contains("[Cancelled] [TASK-002]"));
    assert!(mgr.state.done_tasks.is_empty());
    assert!(parse_traps("").unwrap().is_empty());
}

#[test]
fn the_files_alone_decide_what_is_loaded() {
    let files = MemoryFiles {
        memory_exists: true,
        context: Some("# Current Phase\nplan\n".into()),
        decisions: Some("## ADR-001: T\n\n**Status:** Accepted\n".into()),
        decisions_archive: None,
        traps: Some("## Trap: E\n\n### Context\nc\n".into()),
    };
    let mut fresh = StateManager::new();
    fresh.bootstrap(&files);
    let mut used = StateManager::new();
    used.decisions.push(adr("ADR-009", "Old", AdrStatus::Accepted));
    used.state.constraints.push("old".into());
    used.bootstrap(&files);
    assert_eq!(told(&fresh.decisions), told(&used.decisions));
    assert_eq!(fresh.state.constraints, used.state.constraints);
    assert_eq!(fresh.traps.len(), used.traps.len());
    assert_eq!(fresh.traps[0].error_signature, used.traps[0].error_signature);
}

#[test]
fn loaded_tasks_have_unique_ids() {
    let loaded = load_state(&MemoryFiles {
        memory_exists: true,
        context: Some("# Current Phase\nplan\n\n# Active Tasks\n- a\n- [Todo] [TASK-002] b\n- c\n".into()),
        decisions: None,
        decisions_archive: None,
        traps: None,
    });
    let ids: Vec<&str> = loaded.state.active_tasks.iter().map(|t| t.id.as_str()).collect();
    assert_eq!(ids, vec!["TASK-000", "TASK-002", "TASK-003"]);
}
