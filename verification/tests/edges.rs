use memguard::engine::projection::{
    append_tasks_archive, canonicalize_phase, parse_context, parse_decisions, parse_task_lines,
    parse_traps, render_context, render_decision, render_trap,
};
use memguard::engine::state_manager::StateManager;
use memguard::engine::validator::{Validator, ValidatorRegistry};
use memguard::engine::validators::{
    AdrActiveConflict, DuplicateTaskId, EmptyTaskId, SupersededByRequired, TaskTerminalTransition,
};
use memguard::models::{
    AdrStatus, Reference, RuntimeEvent, RuntimeState, SupersededInfo, Task, TaskStatus, Trap, ADR,
};

fn task(id: &str, status: TaskStatus) -> Task {
    Task { id: id.into(), description: "work".into(), status, superseded_by: None }
}

fn state(tasks: Vec<Task>) -> RuntimeState {
    RuntimeState {
        current_phase: "plan".into(),
        active_tasks: tasks,
        done_tasks: vec![],
        constraints: vec![],
    }
}

// ── Phases ─────────────────────────────────────────────────────────────────

#[test]
fn phases_have_canonical_names() {
    for (raw, canonical) in [
        ("explore", "explore"),
        ("  探索模式 ", "explore"),
        ("架构设计", "plan"),
        ("Planning", "plan"),
        ("EXECUTION MODE", "implement"),
        ("开发中", "implement"),
        ("测试", "verify"),
        ("Done", "complete"),
        (" Deployment ", "Deployment"),
        ("", ""),
    ] {
        assert_eq!(canonicalize_phase(raw), canonical, "{}", raw);
        assert_eq!(canonicalize_phase(&canonicalize_phase(raw)), canonical);
    }
}

// ── Contexts ───────────────────────────────────────────────────────────────

#[test]
fn tasks_without_an_id_are_numbered() {
    let tasks = parse_task_lines("- [Todo] first\n- [ ] second\n- third\n\nplain\n");
    let told: Vec<(&str, &str)> =
        tasks.iter().map(|t| (t.id.as_str(), t.description.as_str())).collect();
    assert_eq!(told[0], ("TASK-000", "first"));
    assert_eq!(told[1], ("TASK-001", "second"));
    assert_eq!(told[2], ("TASK-002", "third"));
}

#[test]
fn digits_of_other_scripts_count_as_digits() {
    let tasks = parse_task_lines("- [Done] [TASK-٠١٢] 任务\n- [Done] [TASK-x12] rest\n");
    assert_eq!(tasks[0].id, "TASK-٠١٢");
    assert_eq!(tasks[0].description, "任务");
    assert_eq!(tasks[0].status, TaskStatus::Done);
    assert_eq!(tasks[1].description, "[TASK-x12] rest");
}

#[test]
fn a_context_needs_a_phase() {
    let e = parse_context("nothing").unwrap_err();
    assert_eq!(e.message, "Missing 'Current Phase' / '当前阶段' section in context.md");
    let s = parse_context("# Current Phase\n  Testing \n\n# Constraints\n- a\n- b\n").unwrap();
    assert_eq!(s.current_phase, "verify");
    assert_eq!(s.constraints, vec!["a", "b"]);
}

#[test]
fn done_tasks_are_not_written() {
    let full = state(vec![task("TASK-001", TaskStatus::Done), task("TASK-002", TaskStatus::Blocked)]);
    let open = state(vec![task("TASK-002", TaskStatus::Blocked)]);
    assert_eq!(render_context(&full), render_context(&open));
    let back = parse_context(&render_context(&full)).unwrap();
    assert_eq!(back.active_tasks.len(), 1);
    assert_eq!(back.active_tasks[0].status, TaskStatus::Blocked);
}

// ── Decisions and traps ────────────────────────────────────────────────────

#[test]
fn decisions_of_several_lines_read_back() {
    let adr = ADR {
        id: "ADR-007".into(),
        title: "Ünïcode: 标题".into(),
        status: AdrStatus::Rejected,
        context: "line one\nline two".into(),
        decision: "- a\n- b".into(),
        tags: vec!["x y".into(), "z".into()],
    };
    let back = parse_decisions(&render_decision(&adr)).unwrap();
    assert_eq!(back.len(), 1);
    assert_eq!(back[0].id, adr.id);
    assert_eq!(back[0].title, adr.title);
    assert_eq!(back[0].status, adr.status);
    assert_eq!(back[0].context, adr.context);
    assert_eq!(back[0].decision, adr.decision);
    assert_eq!(back[0].tags, adr.tags);
}

#[test]
fn unknown_statuses_read_as_proposed() {
    let md = "## ADR-001: T\n\n**Status:** whatever\n\n### Context\nc\n\n### Decision\nd\n";
    assert_eq!(parse_decisions(md).unwrap()[0].status, AdrStatus::Proposed);
    let md = "## ADR-001: T\n\n**Status:** ACTIVE\n";
    assert_eq!(parse_decisions(md).unwrap()[0].status, AdrStatus::Accepted);
}

#[test]
fn traps_of_several_lines_read_back() {
    let trap = Trap {
        error_signature: "E0382: use of moved value".into(),
        context: "a\nb".into(),
        solution: "clone".into(),
        root_cause: String::new(),
        prevention: "review".into(),
    };
    let back = parse_traps(&render_trap(&trap)).unwrap();
    assert_eq!(back[0].error_signature, trap.error_signature);
    assert_eq!(back[0].context, trap.context);
    assert_eq!(back[0].root_cause, "");
    assert_eq!(back[0].prevention, "review");
}

// ── The archive of tasks ───────────────────────────────────────────────────

#[test]
fn the_archive_has_three_sections() {
    let mut superseded = task("TASK-011", TaskStatus::Superseded);
    superseded.superseded_by = Some(SupersededInfo {
        reference: Reference::Adr("ADR-053".into()),
        reason: "Ground Truth generation redesigned".into(),
    });
    let tasks = vec![
        task("TASK-001", TaskStatus::Done),
        superseded,
        task("TASK-028", TaskStatus::Cancelled),
    ];
    let text = append_tasks_archive("", &tasks, "2026-06-02");
    for line in [
        "# Archived Tasks",
        "## Completed",
        "- [Done] [TASK-001] work",
        "## Superseded",
        "- [Superseded] [TASK-011] work\n  Superseded by: ADR-053\n  Reason: Ground Truth generation redesigned\n",
        "## Cancelled",
        "- [Cancelled] [TASK-028] work",
    ] {
        assert!(text.contains(line), "{} in {}", line, text);
    }
    // Recording them again changes nothing, in whatever section they are.
    assert_eq!(append_tasks_archive(&text, &tasks, "2026-06-03"), text);
    let as_done = vec![task("TASK-028", TaskStatus::Done)];
    assert_eq!(append_tasks_archive(&text, &as_done, "2026-06-03"), text);
}

#[test]
fn archived_records_stay() {
    let first = append_tasks_archive("", &[task("TASK-001", TaskStatus::Done)], "2026-06-02");
    let second = append_tasks_archive(&first, &[task("TASK-002", TaskStatus::Done)], "2026-06-03");
    assert!(second.contains("[TASK-001]") && second.contains("[TASK-002]"));
    assert!(second.contains("### 2026-06-02") && second.contains("### 2026-06-03"));
}

// ── Validators ─────────────────────────────────────────────────────────────

fn superseding(reference: Reference, reason: &str) -> RuntimeEvent {
    RuntimeEvent::TaskUpdated {
        task_id: "TASK-001".into(),
        new_status: TaskStatus::Superseded,
        superseded_by: Some(SupersededInfo { reference, reason: reason.into() }),
    }
}

#[test]
fn references_are_shown_in_quotes() {
    let v = SupersededByRequired;
    let s = state(vec![]);
    let e = v.validate(&superseding(Reference::Adr("ADR-1".into()), " "), &s, &[], &[]).unwrap_err();
    assert_eq!(e.message, "Task TASK-001 Superseded by Adr(\"ADR-1\") but reason is empty");
    let odd = Reference::Task("a\"b\\c\n".into());
    let e = v.validate(&superseding(odd, ""), &s, &[], &[]).unwrap_err();
    assert_eq!(
        e.message,
        "Task TASK-001 Superseded by Task(\"a\\\"b\\\\c\\n\") but reason is empty"
    );
}

#[test]
fn a_superseding_adr_must_exist() {
    let v = SupersededByRequired;
    let s = state(vec![]);
    let e = v.validate(&superseding(Reference::Adr("ADR-9".into()), "r"), &s, &[], &[]).unwrap_err();
    assert_eq!(
        e.message,
        "Task TASK-001 Superseded by ADR ADR-9 but that ADR does not exist in decisions.md"
    );
    assert_eq!(
        e.to_string(),
        "[SupersededByRequired] Task TASK-001 Superseded by ADR ADR-9 but that ADR does not exist in decisions.md (suggestion: Commit the ADR first, or correct the ADR ID in superseded_by.)"
    );
}

#[test]
fn a_superseding_task_must_exist() {
    let v = SupersededByRequired;
    let event = superseding(Reference::Task("TASK-002".into()), "r");
    let e = v.validate(&event, &state(vec![]), &[], &[]).unwrap_err();
    assert_eq!(
        e.message,
        "Task TASK-001 Superseded by Task TASK-002 but that task does not exist"
    );
    assert_eq!(
        e.suggestion,
        "Create the task first, or correct the task ID in superseded_by."
    );
    let active = state(vec![task("TASK-002", TaskStatus::Todo)]);
    assert!(v.validate(&event, &active, &[], &[]).is_ok());
    let mut finished = state(vec![]);
    finished.done_tasks.push(task("TASK-002", TaskStatus::Done));
    assert!(v.validate(&event, &finished, &[], &[]).is_ok());
}

#[test]
fn finished_tasks_stay_finished() {
    let mut s = state(vec![]);
    s.done_tasks.push(task("TASK-001", TaskStatus::Cancelled));
    let event = RuntimeEvent::TaskUpdated {
        task_id: "TASK-001".into(),
        new_status: TaskStatus::Todo,
        superseded_by: None,
    };
    assert!(TaskTerminalTransition.validate(&event, &s, &[], &[]).is_err());
    assert_eq!(TaskTerminalTransition.name(), "TaskTerminalTransition");
}

// ── Events ─────────────────────────────────────────────────────────────────

#[test]
fn a_superseded_task_keeps_its_reason() {
    let mut mgr = StateManager::new();
    mgr.apply_event(RuntimeEvent::TaskCreated(task("TASK-001", TaskStatus::Done))).unwrap();
    assert_eq!(mgr.state.active_tasks[0].status, TaskStatus::Todo);
    assert!(mgr.apply_event(superseding(Reference::Task("TASK-002".into()), "merged")).is_err());
    mgr.apply_event(RuntimeEvent::TaskCreated(task("TASK-002", TaskStatus::Todo))).unwrap();
    mgr.apply_event(superseding(Reference::Task("TASK-002".into()), "merged")).unwrap();
    assert_eq!(mgr.state.active_tasks.len(), 1);
    assert_eq!(mgr.state.active_tasks[0].id, "TASK-002");
    let done = &mgr.state.done_tasks[0];
    assert_eq!(done.status, TaskStatus::Superseded);
    assert_eq!(done.superseded_by.as_ref().unwrap().reason, "merged");
}

#[test]
fn refused_events_change_nothing() {
    let mut mgr = StateManager::new();
    mgr.apply_event(RuntimeEvent::TaskCreated(task("TASK-001", TaskStatus::Todo))).unwrap();
    let e = mgr
        .apply_event(RuntimeEvent::TaskCreated(task("TASK-001", TaskStatus::Todo)))
        .unwrap_err();
    assert_eq!(e.to_string(), "Task with id 'TASK-001' already exists.");
    let e = mgr.apply_event(RuntimeEvent::TaskCreated(task("", TaskStatus::Todo))).unwrap_err();
    assert_eq!(e.message, "Task ID cannot be empty.");
    assert_eq!(mgr.state.active_tasks.len(), 1);
}

#[test]
fn other_updates_keep_a_task_in_place() {
    let mut mgr = StateManager::new();
    for id in ["TASK-001", "TASK-002", "TASK-003"] {
        mgr.apply_event(RuntimeEvent::TaskCreated(task(id, TaskStatus::Todo))).unwrap();
    }
    mgr.apply_event(RuntimeEvent::TaskUpdated {
        task_id: "TASK-002".into(),
        new_status: TaskStatus::Blocked,
        superseded_by: None,
    })
    .unwrap();
    let ids: Vec<&str> = mgr.state.active_tasks.iter().map(|t| t.id.as_str()).collect();
    assert_eq!(ids, vec!["TASK-001", "TASK-002", "TASK-003"]);
    assert_eq!(mgr.state.active_tasks[1].status, TaskStatus::Blocked);
}

#[test]
fn the_order_of_registration_does_not_decide() {
    let mut forward = ValidatorRegistry::new();
    forward.register(Box::new(EmptyTaskId));
    forward.register(Box::new(DuplicateTaskId));
    forward.register(Box::new(AdrActiveConflict));
    let mut backward = ValidatorRegistry::new();
    backward.register(Box::new(AdrActiveConflict));
    backward.register(Box::new(DuplicateTaskId));
    backward.register(Box::new(EmptyTaskId));
    assert_eq!(forward.len(), 3);
    let s = state(vec![task("TASK-001", TaskStatus::Todo), task("", TaskStatus::Todo)]);
    for id in ["", "TASK-001", "TASK-002"] {
        let event = RuntimeEvent::TaskCreated(task(id, TaskStatus::Todo));
        let a = forward.validate_all(&event, &s, &[], &[]);
        let b = backward.validate_all(&event, &s, &[], &[]);
        assert_eq!(a.is_ok(), b.is_ok());
        assert_eq!(a.is_ok(), id == "TASK-002");
    }
    // The first failing validator is the one that is reported.
    let event = RuntimeEvent::TaskCreated(task("", TaskStatus::Todo));
    let a = forward.validate_all(&event, &s, &[], &[]).unwrap_err();
    let b = backward.validate_all(&event, &s, &[], &[]).unwrap_err();
    assert_eq!(a.validator_name, "empty_task_id");
    assert_eq!(b.validator_name, "duplicate_task_id");
}
