use memguard::engine::persistence::MemoryFiles;
use memguard::engine::projection::parse_decisions;
use memguard::engine::state_manager::{valid_transitions, StateManager};
use memguard::models::{AdrStatus, RuntimeEvent, Task, TaskStatus, Trap, ADR};

/// Noon of 2026-07-15, in seconds.
const NOW: u64 = 1_784_116_800;

/// A project without a memory/ directory.
fn no_files() -> MemoryFiles {
    MemoryFiles {
        memory_exists: false,
        context: None,
        decisions: None,
        decisions_archive: None,
        traps: None,
    }
}

fn decision_files(decisions: &str, archive: &str) -> MemoryFiles {
    MemoryFiles {
        memory_exists: true,
        context: None,
        decisions: Some(decisions.into()),
        decisions_archive: Some(archive.into()),
        traps: None,
    }
}

fn greenfield() -> StateManager {
    let mut mgr = StateManager::new();
    mgr.bootstrap(&no_files());
    mgr
}

#[test]
fn test_bootstrap_greenfield() {
    let mut mgr = StateManager::new();
    assert!(mgr.bootstrap(&no_files()), "a missing memory/ is created afresh");

    // A fresh memory/ gets its default files.
    let plan = mgr.plan_flush();
    assert!(plan.context.is_some());
    assert!(plan.decisions.is_some());
    assert!(plan.traps.is_some());

    // Verify state is empty defaults.
    let state = &mgr.state;
    assert!(state.current_phase.is_empty());
    assert!(state.active_tasks.is_empty());
    assert!(state.constraints.is_empty());
}

#[test]
fn test_apply_task_updated() {
    let mut mgr = greenfield();

    // Pre-populate a task.
    {
        let state = &mut mgr.state;
        state.active_tasks.push(Task {
        id: "TASK-000".into(),
        description: "Test task".into(),
        status: TaskStatus::Todo,
        superseded_by: None,
    });
    }

    // Update the task.
    mgr.apply_event(RuntimeEvent::TaskUpdated {
        task_id: "TASK-000".into(),
        new_status: TaskStatus::Done,
        superseded_by: None,
    })
    .expect("apply should succeed");

    let state = &mgr.state;
    assert!(state.active_tasks.is_empty());
    assert_eq!(state.done_tasks.len(), 1);
    assert!(matches!(
        state.done_tasks[0].status,
        TaskStatus::Done
    ));
}

#[test]
fn test_apply_task_not_found() {
    let mut mgr = greenfield();

    let result = mgr
        .apply_event(RuntimeEvent::TaskUpdated {
        task_id: "nonexistent".into(),
        new_status: TaskStatus::Done,
        superseded_by: None,
    });
    assert!(result.is_err());
}

#[test]
fn test_apply_adr_committed() {
    let mut mgr = greenfield();

    let adr = ADR {
        id: "ADR-001".into(),
        title: "Test ADR".into(),
        status: AdrStatus::Proposed,
        context: "Test context".into(),
        decision: "Test decision".into(),
        tags: vec!["test".into()],
    };

    mgr.apply_event(RuntimeEvent::AdrCommitted(adr))
        .expect("apply should succeed");

    let decisions = &mgr.decisions;
    assert_eq!(decisions.len(), 1);
    assert_eq!(decisions[0].id, "ADR-001");
    assert_eq!(decisions[0].status, AdrStatus::Accepted); // forced to active
}

#[test]
fn test_apply_adr_supersedes_existing() {
    let mut mgr = greenfield();

    let adr1 = ADR {
        id: "ADR-001".into(),
        title: "First".into(),
        status: AdrStatus::Proposed,
        context: "".into(),
        decision: "".into(),
        tags: vec![],
    };

    mgr.apply_event(RuntimeEvent::AdrCommitted(adr1))
        .unwrap();

    let adr2 = ADR {
        id: "ADR-001".into(),
        title: "Second".into(),
        status: AdrStatus::Proposed,
        context: "".into(),
        decision: "".into(),
        tags: vec![],
    };

    // Same id with different content now triggers a conflict error.
    let result = mgr.apply_event(RuntimeEvent::AdrCommitted(adr2));
    assert!(result.is_err());
    let err_msg = result.unwrap_err().to_string();
    assert!(err_msg.starts_with("[CONFLICT]"));
    assert!(err_msg.contains("ADR-001"));
}

#[test]
fn test_apply_phase_changed() {
    let mut mgr = greenfield();

    mgr.apply_event(RuntimeEvent::PhaseChanged(
        "deployment".into(),
    ))
    .expect("apply should succeed");

    let state = &mgr.state;
    assert_eq!(state.current_phase, "deployment");
}

#[test]
fn test_apply_trap_recorded() {
    let mut mgr = greenfield();

    let trap = Trap {
        error_signature: "NPE".into(),
        context: "Null pointer".into(),
        solution: "Add check".into(),
        root_cause: String::new(),
        prevention: String::new(),
    };

    mgr.apply_event(RuntimeEvent::TrapRecorded(trap))
        .expect("apply should succeed");

    let traps = &mgr.traps;
    assert_eq!(traps.len(), 1);
    assert_eq!(traps[0].error_signature, "NPE");
}

#[test]
fn test_flush_now_writes_files() {
    let mut mgr = greenfield();

    {
        let state = &mut mgr.state;
        state.current_phase = "testing".to_string();
        state.active_tasks.push(Task {
            id: "TASK-000".into(),
            description: "Flush test".into(),
            status: TaskStatus::InProgress,
            superseded_by: None,
        });
        state.constraints.push("Must flush correctly".into());
    }

    let content = mgr.plan_flush().context.expect("context.md is written");
    assert!(content.contains("testing"));
    assert!(content.contains("Flush test"));
    assert!(content.contains("Must flush correctly"));
}

#[test]
fn test_adr_conflict_active_different_content() {
    let mut mgr = greenfield();

    let adr1 = ADR {
        id: "ADR-001".into(),
        title: "Use Postgres".into(),
        status: AdrStatus::Proposed,
        context: "".into(),
        decision: "Use Postgres for persistence".into(),
        tags: vec![],
    };
    mgr.apply_event(RuntimeEvent::AdrCommitted(adr1))
        .unwrap();

    let adr2 = ADR {
        id: "ADR-001".into(),
        title: "Use SQLite".into(),
        status: AdrStatus::Proposed,
        context: "".into(),
        decision: "Use SQLite for persistence".into(),
        tags: vec![],
    };
    let result = mgr.apply_event(RuntimeEvent::AdrCommitted(adr2));
    assert!(result.is_err());
    let err_msg = result.unwrap_err().to_string();
    assert!(err_msg.starts_with("[CONFLICT]"));
    assert!(err_msg.contains("ADR-001"));
}

#[test]
fn test_adr_idempotent_same_content() {
    let mut mgr = greenfield();

    let adr1 = ADR {
        id: "ADR-001".into(),
        title: "Use Postgres".into(),
        status: AdrStatus::Proposed,
        context: "".into(),
        decision: "Use Postgres for persistence".into(),
        tags: vec![],
    };
    mgr.apply_event(RuntimeEvent::AdrCommitted(adr1))
        .unwrap();

    let adr2 = ADR {
        id: "ADR-001".into(),
        title: "Use Postgres".into(),
        status: AdrStatus::Proposed,
        context: "".into(),
        decision: "Use Postgres for persistence".into(),
        tags: vec![],
    };
    mgr.apply_event(RuntimeEvent::AdrCommitted(adr2))
        .unwrap();

    let decisions = &mgr.decisions;
    assert_eq!(decisions.len(), 1);
    assert_eq!(decisions[0].status, AdrStatus::Accepted);
}

#[test]
fn test_adr_rejected_repeat() {
    let mut mgr = greenfield();

    {
        let decisions = &mut mgr.decisions;
        decisions.push(ADR {
            id: "ADR-001".into(),
            title: "Use Cassandra".into(),
            status: AdrStatus::Rejected,
            context: "".into(),
            decision: "Use Cassandra for persistence".into(),
            tags: vec![],
        });
    }

    let adr = ADR {
        id: "ADR-001".into(),
        title: "Use Cassandra".into(),
        status: AdrStatus::Proposed,
        context: "".into(),
        decision: "Use Cassandra for persistence".into(),
        tags: vec![],
    };
    let result = mgr.apply_event(RuntimeEvent::AdrCommitted(adr));
    assert!(result.is_err());
    let err_msg = result.unwrap_err().to_string();
    assert!(err_msg.starts_with("[CONFLICT]"));
    assert!(err_msg.contains("rejected"));
}

#[test]
fn test_adr_rejected_different_content_allowed() {
    let mut mgr = greenfield();

    {
        let decisions = &mut mgr.decisions;
        decisions.push(ADR {
            id: "ADR-001".into(),
            title: "Use Cassandra".into(),
            status: AdrStatus::Rejected,
            context: "".into(),
            decision: "Use Cassandra for persistence".into(),
            tags: vec![],
        });
    }

    let adr = ADR {
        id: "ADR-001".into(),
        title: "Use Cassandra with Sharding".into(),
        status: AdrStatus::Proposed,
        context: "New scaling requirements".into(),
        decision: "Use Cassandra with consistent hashing".into(),
        tags: vec![],
    };
    mgr.apply_event(RuntimeEvent::AdrCommitted(adr))
        .unwrap();

    let decisions = &mgr.decisions;
    assert_eq!(decisions.len(), 2);
    assert_eq!(decisions[0].status, AdrStatus::Superseded);
    assert_eq!(decisions[1].status, AdrStatus::Accepted);
    assert_eq!(decisions[1].title, "Use Cassandra with Sharding");
}

#[test]
fn test_adr_superseded_is_terminal() {
    let mut mgr = greenfield();

    {
        let decisions = &mut mgr.decisions;
        decisions.push(ADR {
            id: "ADR-001".into(),
            title: "Use MySQL".into(),
            status: AdrStatus::Superseded,
            context: "".into(),
            decision: "Use MySQL for persistence".into(),
            tags: vec![],
        });
    }

    let adr = ADR {
        id: "ADR-001".into(),
        title: "Use Postgres".into(),
        status: AdrStatus::Proposed,
        context: "".into(),
        decision: "Use Postgres for persistence".into(),
        tags: vec![],
    };
    let result = mgr.apply_event(RuntimeEvent::AdrCommitted(adr));
    assert!(result.is_err(), "Superseded ADR should reject further transitions");
    let err_msg = result.unwrap_err().to_string();
    assert!(
        err_msg.contains("INVALID TRANSITION"),
        "should be InvalidTransition, got: {}",
        err_msg
    );
    assert!(
        err_msg.contains("terminal"),
        "should mention terminal state, got: {}",
        err_msg
    );
    assert!(
        err_msg.contains("ADR-001"),
        "should mention ADR id, got: {}",
        err_msg
    );
}

#[test] fn test_flush_partitions_stale_adrs() {
    let mut mgr = greenfield();

    {
        let decisions = &mut mgr.decisions;
        decisions.push(ADR {
            id: "ADR-001".into(),
            title: "Active Choice".into(),
            status: AdrStatus::Accepted,
            context: "ctx".into(),
            decision: "dec".into(),
            tags: vec!["a".into()],
        });
        decisions.push(ADR {
            id: "ADR-002".into(),
            title: "Superseded Choice".into(),
            status: AdrStatus::Superseded,
            context: "ctx2".into(),
            decision: "dec2".into(),
            tags: vec![],
        });
        decisions.push(ADR {
            id: "ADR-003".into(),
            title: "Rejected Choice".into(),
            status: AdrStatus::Rejected,
            context: "ctx3".into(),
            decision: "dec3".into(),
            tags: vec![],
        });
    }

    let plan = mgr.plan_flush();
    let dec_content = plan.decisions.expect("decisions.md is written");
    let archive_content = plan.decisions_archive.expect("decisions_archive.md is written");

    // decisions.md should reference archive and contain only active ADRs
    assert!(dec_content.contains("> Historical decisions are in [decisions_archive.md](./decisions_archive.md)"));
    assert!(dec_content.contains("## ADR-001: Active Choice"));
    assert!(!dec_content.contains("## ADR-002:"));
    assert!(!dec_content.contains("## ADR-003:"));

    // archive should contain stale ADRs
    assert!(archive_content.contains("## ADR-002: Superseded Choice"));
    assert!(archive_content.contains("## ADR-003: Rejected Choice"));
    assert!(!archive_content.contains("## ADR-001:"));

    // parse round-trip
    let active_parsed = parse_decisions(&dec_content).unwrap();
    let stale_parsed = parse_decisions(&archive_content).unwrap();
    assert_eq!(active_parsed.len(), 1);
    assert_eq!(active_parsed[0].id, "ADR-001");
    assert_eq!(stale_parsed.len(), 2);
}

#[test]
fn test_load_merges_archive() {
    let active_md = r##"## ADR-001: Active Choice

**Status:** active

### Context
ctx

### Decision
dec

**Tags:** a
"##;
    let archive_md = r##"## ADR-002: Old Choice

**Status:** superseded

### Context
old ctx

### Decision
old dec
"##;

    let mut mgr = StateManager::new();
    mgr.bootstrap(&decision_files(active_md, archive_md));

    let decisions = &mgr.decisions;
    assert_eq!(decisions.len(), 2);
    let ids: Vec<&str> = decisions.iter().map(|a| a.id.as_str()).collect();
    assert!(ids.contains(&"ADR-001"));
    assert!(ids.contains(&"ADR-002"));
}

#[test]
fn test_bootstrap_deduplicates_by_id() {
    // decisions.md: ADR-001 active
    let main_md = r##"## ADR-001: Active Choice

**Status:** active

### Context
ctx

### Decision
dec

**Tags:** a
"##;
    // archive: ADR-001 superseded (duplicate ID!)
    let archive_md = r##"## ADR-001: Old Choice

**Status:** superseded

### Context
old ctx

### Decision
old dec

**Tags:** old
"##;

    let mut mgr = StateManager::new();
    mgr.bootstrap(&decision_files(main_md, archive_md));

    let decisions = &mgr.decisions;
    // Should deduplicate ADR-001 to a single entry (active has priority)
    assert_eq!(decisions.len(), 1, "ADR-001 should be deduplicated");
    assert_eq!(decisions[0].status, AdrStatus::Accepted, "higher-priority status should win");
}

#[test]
fn test_archive_not_created_when_empty() {
    let mut mgr = greenfield();

    mgr.decisions.push(ADR {
        id: "ADR-001".into(),
        title: "Only Active".into(),
        status: AdrStatus::Accepted,
        context: "ctx".into(),
        decision: "dec".into(),
        tags: vec![],
    });

    let plan = mgr.plan_flush();
    assert!(plan.decisions.is_some());
    assert!(plan.decisions_archive.is_none());
}

#[test]
fn test_adr_conflict_checks_all_matching_ids() {
    let mut sm = StateManager::new();

    // Manually inject duplicate ADR-001 entries:
    // first superseded (simulating archive load), then active.
    {
        let decisions = &mut sm.decisions;
        decisions.push(ADR {
            id: "ADR-001".into(),
            title: "Old".into(),
            status: AdrStatus::Superseded,
            context: "old".into(),
            decision: "old".into(),
            tags: vec![],
        });
        decisions.push(ADR {
            id: "ADR-001".into(),
            title: "Current".into(),
            status: AdrStatus::Accepted,
            context: "ctx".into(),
            decision: "dec".into(),
            tags: vec![],
        });
    }

    // Attempt to commit a new ADR-001 with different content.
    let event = RuntimeEvent::AdrCommitted(ADR {
        id: "ADR-001".into(),
        title: "New".into(),
        status: AdrStatus::Accepted,
        context: "new ctx".into(),
        decision: "new dec".into(),
        tags: vec![],
    });
    let result = sm.apply_event(event);

    assert!(
        result.is_err(),
        "should fail with ActiveConflict even when first match is superseded"
    );
    let err_msg = result.unwrap_err().to_string();
    assert!(err_msg.starts_with("[CONFLICT]"), "error should be ActiveConflict: {}", err_msg);
}

#[test]
fn test_apply_task_created() {
    let mut mgr = greenfield();

    let event = RuntimeEvent::TaskCreated(Task {
        id: "TASK-011".into(),
        description: "New task".into(),
        status: TaskStatus::Todo,
        superseded_by: None,
    });
    mgr.apply_event(event).unwrap();

    let state = &mgr.state;
    assert_eq!(state.active_tasks.len(), 1);
    assert_eq!(state.active_tasks[0].id, "TASK-011");
    assert_eq!(state.active_tasks[0].description, "New task");
    assert!(
        matches!(state.active_tasks[0].status, TaskStatus::Todo),
        "status should be forced to Todo, got {:?}",
        state.active_tasks[0].status
    );
}

#[test]
fn test_apply_task_created_empty_id() {
    let mut mgr = greenfield();

    let event = RuntimeEvent::TaskCreated(Task {
        id: "".into(),
        description: "Invalid task".into(),
        status: TaskStatus::Todo,
        superseded_by: None,
    });
    let result = mgr.apply_event(event);
    assert!(result.is_err(), "should reject empty task ID");
    let err_msg = result.unwrap_err().to_string();
    assert!(err_msg.contains("cannot be empty"), "error should mention empty ID: {}", err_msg);
}

#[test]
fn test_apply_task_created_duplicate_id() {
    let mut mgr = greenfield();

    // Create first task
    let event1 = RuntimeEvent::TaskCreated(Task {
        id: "TASK-011".into(),
        description: "First task".into(),
        status: TaskStatus::Todo,
        superseded_by: None,
    });
    mgr.apply_event(event1).unwrap();

    // Attempt duplicate
    let event2 = RuntimeEvent::TaskCreated(Task {
        id: "TASK-011".into(),
        description: "Duplicate task".into(),
        status: TaskStatus::Todo,
        superseded_by: None,
    });
    let result = mgr.apply_event(event2);
    assert!(result.is_err(), "should reject duplicate task ID");
    let err_msg = result.unwrap_err().to_string();
    assert!(err_msg.contains("already exists"), "error should mention conflict: {}", err_msg);
}

// ── ADR State Machine Transition Tests ──────────────────────────────

#[test]
fn test_adr_proposed_to_accepted() {
    let transitions = valid_transitions(&AdrStatus::Proposed);
    assert!(transitions.contains(&AdrStatus::Accepted));
    assert!(transitions.contains(&AdrStatus::Rejected));
    assert_eq!(transitions.len(), 2);
}

#[test]
fn test_adr_accepted_to_superseded() {
    let transitions = valid_transitions(&AdrStatus::Accepted);
    assert!(transitions.contains(&AdrStatus::Superseded));
}

#[test]
fn test_adr_accepted_to_archived() {
    let transitions = valid_transitions(&AdrStatus::Accepted);
    assert!(transitions.contains(&AdrStatus::Archived));
    assert_eq!(transitions.len(), 2);
}

#[test]
fn test_adr_rejected_to_proposed() {
    let transitions = valid_transitions(&AdrStatus::Rejected);
    assert!(transitions.contains(&AdrStatus::Proposed));
    assert_eq!(transitions.len(), 1);
}

#[test]
fn test_valid_transitions_superseded_terminal() {
    let transitions = valid_transitions(&AdrStatus::Superseded);
    assert!(
        transitions.is_empty(),
        "Superseded should have no valid next states"
    );
}

#[test]
fn test_valid_transitions_archived_terminal() {
    let transitions = valid_transitions(&AdrStatus::Archived);
    assert!(
        transitions.is_empty(),
        "Archived should have no valid next states"
    );
}

#[test]
fn test_adr_archived_is_terminal_handler() {
    let mut mgr = greenfield();

    {
        let decisions = &mut mgr.decisions;
        decisions.push(ADR {
            id: "ADR-001".into(),
            title: "Archived Choice".into(),
            status: AdrStatus::Archived,
            context: "".into(),
            decision: "Archived decision".into(),
            tags: vec![],
        });
    }

    let adr = ADR {
        id: "ADR-001".into(),
        title: "New Choice".into(),
        status: AdrStatus::Proposed,
        context: "".into(),
        decision: "New decision".into(),
        tags: vec![],
    };
    let result = mgr.apply_event(RuntimeEvent::AdrCommitted(adr));
    assert!(result.is_err(), "Archived ADR should reject further transitions");
    let err_msg = result.unwrap_err().to_string();
    assert!(
        err_msg.contains("INVALID TRANSITION"),
        "should be InvalidTransition, got: {}",
        err_msg
    );
    assert!(
        err_msg.contains("terminal"),
        "should mention terminal state, got: {}",
        err_msg
    );
    assert!(
        err_msg.contains("ADR-001"),
        "should mention ADR id, got: {}",
        err_msg
    );
}

// ── Done-task auto-archive tests ────────────────────────────────

#[test] fn test_done_task_auto_archived() {
    let mut mgr = greenfield();

    // Create two tasks and mark them Done.
    for (id, desc) in &[("TASK-001", "First task"), ("TASK-002", "Second task")] {
        mgr.apply_event(RuntimeEvent::TaskCreated(Task {
        id: id.to_string(),
        description: desc.to_string(),
        status: TaskStatus::Todo,
        superseded_by: None,
    }))
        .unwrap();
    }

    mgr.apply_event(RuntimeEvent::TaskUpdated {
        task_id: "TASK-001".into(),
        new_status: TaskStatus::Done,
        superseded_by: None,
    })
    .unwrap();
    mgr.apply_event(RuntimeEvent::TaskUpdated {
        task_id: "TASK-002".into(),
        new_status: TaskStatus::Done,
        superseded_by: None,
    })
    .unwrap();

    // Verify removed from active, placed in done.
    {
        let state = &mgr.state;
        assert!(state.active_tasks.is_empty());
        assert_eq!(state.done_tasks.len(), 2);
    }

    // Flush and verify tasks_archive.md was created.
    let content = mgr.archive_done_tasks("", NOW).expect("tasks_archive.md should be created");
    assert!(content.contains("TASK-001"), "should contain TASK-001: {}", content);
    assert!(content.contains("First task"), "should contain desc: {}", content);
    assert!(content.contains("TASK-002"), "should contain TASK-002: {}", content);
    assert!(content.contains("Second task"), "should contain desc: {}", content);
    assert!(content.contains("# Archived Tasks"), "should have header");
    assert!(content.contains("[Done]"), "should have Done status marker");

    // done_tasks should be cleared after flush.
    {
        let state = &mgr.state;
        assert!(state.done_tasks.is_empty(), "done_tasks should be cleared");
    }
}

#[test] fn test_idempotent_done_marking() {
    let mut mgr = greenfield();

    // Create a task.
    mgr.apply_event(RuntimeEvent::TaskCreated(Task {
        id: "TASK-000".into(),
        description: "Only task".into(),
        status: TaskStatus::Todo,
        superseded_by: None,
    }))
    .unwrap();

    // Mark Done — first time.
    mgr.apply_event(RuntimeEvent::TaskUpdated {
        task_id: "TASK-000".into(),
        new_status: TaskStatus::Done,
        superseded_by: None,
    })
    .unwrap();

    // Flush once.
    let content = mgr.archive_done_tasks("", NOW).expect("archive should be written");

    // Second Done-marking should fail (task no longer in active_tasks).
    let result = mgr
        .apply_event(RuntimeEvent::TaskUpdated {
        task_id: "TASK-000".into(),
        new_status: TaskStatus::Done,
        superseded_by: None,
    });
    assert!(result.is_err(), "second Done should fail — task not in active");

    // Verify no duplicate in done_tasks.
    {
        let state = &mgr.state;
        assert_eq!(state.done_tasks.len(), 0, "done_tasks should be empty after flush");
    }

    // Flush again — archive should NOT have duplicate entry.
    assert!(mgr.archive_done_tasks(&content, NOW).is_none());

    // Count occurrences of TASK-000 in the archive.
    let count = content.matches("TASK-000").count();
    assert_eq!(count, 1, "TASK-000 should appear exactly once in archive, got {} in:\n{}", count, content);
}

#[test]
fn test_greenfield_no_archive() {
    let mut mgr = greenfield();

    // Greenfield — no tasks created. Flush should NOT create tasks_archive.md.
    assert!(
        mgr.archive_done_tasks("", NOW).is_none(),
        "tasks_archive.md should not be created when no Done tasks exist"
    );
}
