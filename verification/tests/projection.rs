use memguard::engine::projection::{
    append_tasks_archive, parse_context, parse_decisions, parse_task_lines, parse_traps,
    render_active_decisions, render_context, render_decision, render_decisions,
    render_stale_decisions, render_trap,
};
use memguard::models::{AdrStatus, RuntimeState, Task, TaskStatus, Trap, ADR};


// ── context.md round-trip ──────────────────────────────────────────

#[test]
fn test_parse_context_minimal() {
    let md = "# Current Phase\nplanning\n\n# Active Tasks\n\n# Constraints\n";
    let state = parse_context(md).unwrap();
    assert_eq!(state.current_phase, "plan");
    assert!(state.active_tasks.is_empty());
    assert!(state.constraints.is_empty());
}

#[test]
fn test_parse_context_full() {
    let md = "# Current Phase\nimplementation\n\n# Active Tasks\n- [Todo] Add login page\n- [InProgress] Refactor database\n- [Done] Setup CI\n\n# Constraints\n- Must use PostgreSQL\n- No ORM allowed\n";
    let state = parse_context(md).unwrap();
    assert_eq!(state.current_phase, "implement");
    assert_eq!(state.active_tasks.len(), 3);
    assert_eq!(state.active_tasks[0].description, "Add login page");
    assert!(matches!(state.active_tasks[0].status, TaskStatus::Todo));
    assert!(matches!(state.active_tasks[1].status, TaskStatus::InProgress));
    assert!(matches!(state.active_tasks[2].status, TaskStatus::Done));
    assert_eq!(state.constraints.len(), 2);
    assert_eq!(state.constraints[0], "Must use PostgreSQL");
}

#[test]
fn test_render_context_round_trip() {
    let md = "# Current Phase\nimplementation\n\n# Active Tasks\n- [Todo] Task A\n- [Done] Task B\n\n# Constraints\n- Limit memory\n\n";
    let state = parse_context(md).unwrap();
    let rendered = render_context(&state);
    let state2 = parse_context(&rendered).unwrap();
    assert_eq!(state.current_phase, state2.current_phase);
    // Done tasks are filtered from render output, so round-trip loses them.
    assert_eq!(state2.active_tasks.len(), 1);
    assert_eq!(state2.active_tasks[0].description, "Task A");
}

#[test]
fn test_render_context_filters_done() {
    let state = RuntimeState {
        current_phase: "implement".into(),
        active_tasks: vec![
            Task {
        id: "TASK-000".into(),
        description: "Todo task".into(),
        status: TaskStatus::Todo,
        superseded_by: None,
    },
            Task {
        id: "TASK-001".into(),
        description: "InProgress task".into(),
        status: TaskStatus::InProgress,
        superseded_by: None,
    },
            Task {
        id: "TASK-002".into(),
        description: "Done task".into(),
        status: TaskStatus::Done,
        superseded_by: None,
    },
            Task {
        id: "TASK-003".into(),
        description: "Blocked task".into(),
        status: TaskStatus::Blocked,
        superseded_by: None,
    },
        ],
        done_tasks: vec![],
        constraints: vec![],
    };
    let rendered = render_context(&state);
    assert!(!rendered.contains("Done task"));
    assert!(rendered.contains("Todo task"));
    assert!(rendered.contains("InProgress task"));
    assert!(rendered.contains("Blocked task"));
}

#[test]
fn test_parse_task_lines_blocked() {
    let md = "- [Blocked] [TASK-001] test";
    let tasks = parse_task_lines(md);
    assert_eq!(tasks.len(), 1);
    assert_eq!(tasks[0].id, "TASK-001");
    assert_eq!(tasks[0].description, "test");
    assert!(matches!(tasks[0].status, TaskStatus::Blocked));
}

#[test]
fn test_roundtrip_excludes_done() {
    let md = "# Current Phase\nimplementation\n\n# Active Tasks\n- [Todo] [TASK-000] Active task\n- [Done] [TASK-001] Finished task\n\n# Constraints\n- Limit memory\n";
    let state = parse_context(md).unwrap();
    assert_eq!(state.active_tasks.len(), 2);
    let rendered = render_context(&state);
    let state2 = parse_context(&rendered).unwrap();
    assert_eq!(state2.active_tasks.len(), 1);
    assert_eq!(state2.active_tasks[0].description, "Active task");
    assert!(matches!(state2.active_tasks[0].status, TaskStatus::Todo));
}

// ── Legacy Chinese H2 format (v2 skill) ────────────────────────────

#[test]
fn test_parse_context_legacy_chinese_h2() {
    let md = "# Current Context\n\n## 当前阶段\n执行模式\n\n## 关键任务\n- [ ] 任务一\n- 任务二\n\n## 当前约束\n- 必须使用 PostgreSQL\n- 不允许使用 ORM\n";
    let state = parse_context(md).unwrap();
    assert_eq!(state.current_phase, "implement");
    assert_eq!(state.active_tasks.len(), 2);
    assert_eq!(state.active_tasks[0].description, "任务一");
    assert!(matches!(state.active_tasks[0].status, TaskStatus::Todo));
    assert_eq!(state.active_tasks[1].description, "任务二");
    assert!(matches!(state.active_tasks[1].status, TaskStatus::Todo));
    assert_eq!(state.constraints.len(), 2);
    assert_eq!(state.constraints[0], "必须使用 PostgreSQL");
}

#[test]
fn test_parse_context_legacy_mixed() {
    // A file that has both H1 and H2 — the parser should pick the
    // dominant level and still produce correct results.
    let md = "# Current Context\n\n## 当前阶段\nplanning\n\n## 关键任务\n- [Todo] [TASK-000] Modern task\n- [ ] Legacy task\n\n## 当前约束\n- Limit memory\n";
    let state = parse_context(md).unwrap();
    assert_eq!(state.current_phase, "plan");
    assert_eq!(state.active_tasks.len(), 2);
    assert_eq!(state.active_tasks[0].description, "Modern task");
    assert_eq!(state.active_tasks[1].description, "Legacy task");
}

// ── decisions.md ───────────────────────────────────────────────────

#[test]
fn test_parse_decisions_empty() {
    let adrs = parse_decisions("").unwrap();
    assert!(adrs.is_empty());
}

#[test]
fn test_parse_decisions_single() {
    let md = "## ADR-001: Use Rust for backend\n\n**Status:** Accepted\n\n### Context\nNeed high performance.\n\n### Decision\nUse Rust with Tokio.\n\n**Tags:** rust, backend, performance\n";
    let adrs = parse_decisions(md).unwrap();
    assert_eq!(adrs.len(), 1);
    assert_eq!(adrs[0].id, "ADR-001");
    assert_eq!(adrs[0].title, "Use Rust for backend");
    assert_eq!(adrs[0].status, AdrStatus::Accepted);
    assert_eq!(adrs[0].tags, vec!["rust", "backend", "performance"]);
}

#[test]
fn test_render_decision_round_trip() {
    let adr = ADR {
        id: "ADR-001".into(),
        title: "Test".into(),
        status: AdrStatus::Accepted,
        context: "Some context.\nMore context.".into(),
        decision: "The decision.".into(),
        tags: vec!["a".into(), "b".into()],
    };
    let rendered = render_decision(&adr);
    let parsed = parse_decisions(&rendered).unwrap();
    assert_eq!(parsed.len(), 1);
    assert_eq!(parsed[0].id, "ADR-001");
    assert_eq!(parsed[0].title, "Test");
}

// ── traps.md ───────────────────────────────────────────────────────

#[test]
fn test_parse_traps_empty() {
    let traps = parse_traps("").unwrap();
    assert!(traps.is_empty());
}

#[test]
fn test_parse_traps_single() {
    let md = "## Trap: NPE in auth handler\n\n### Context\nNull pointer when token expired.\n\n### Solution\nAdd null check before dereference.\n";
    let traps = parse_traps(md).unwrap();
    assert_eq!(traps.len(), 1);
    assert_eq!(traps[0].error_signature, "NPE in auth handler");
    assert!(traps[0].context.contains("token expired"));
    assert!(traps[0].solution.contains("null check"));
}

#[test]
fn test_render_trap_round_trip() {
    let trap = Trap {
        error_signature: "Timeout".into(),
        context: "Request took too long.".into(),
        solution: "Add timeout config.".into(),
        root_cause: String::new(),
        prevention: String::new(),
    };
    let rendered = render_trap(&trap);
    let parsed = parse_traps(&rendered).unwrap();
    assert_eq!(parsed.len(), 1);
    assert_eq!(parsed[0].error_signature, "Timeout");
}

#[test]
fn test_parse_traps_with_root_cause_prevention() {
    let md = "## Trap: Race in cache\n\n### Context\nConcurrent writes corrupt state.\n\n### Root Cause\nMissing lock around shared map.\n\n### Solution\nUse RwLock for the cache.\n\n### Prevention\nAudit all shared mutable state.\n";
    let traps = parse_traps(md).unwrap();
    assert_eq!(traps.len(), 1);
    assert_eq!(traps[0].error_signature, "Race in cache");
    assert!(traps[0].context.contains("Concurrent writes"));
    assert_eq!(traps[0].root_cause, "Missing lock around shared map.");
    assert!(traps[0].solution.contains("RwLock"));
    assert_eq!(traps[0].prevention, "Audit all shared mutable state.");
}

#[test]
fn test_render_trap_skips_empty_sections() {
    let trap = Trap {
        error_signature: "Leak".into(),
        context: "Memory grows unbounded.".into(),
        root_cause: String::new(),
        solution: "Drop resources after use.".into(),
        prevention: String::new(),
    };
    let rendered = render_trap(&trap);
    assert!(rendered.contains("### Context"));
    assert!(!rendered.contains("### Root Cause"));
    assert!(rendered.contains("### Solution"));
    assert!(!rendered.contains("### Prevention"));
}

#[test]
fn test_trap_roundtrip_all_fields() {
    let original = Trap {
        error_signature: "Deadlock".into(),
        context: "Two threads wait forever.".into(),
        root_cause: "Circular dependency on locks.".into(),
        solution: "Enforce lock ordering.".into(),
        prevention: "Use try_lock with timeout.".into(),
    };
    let rendered = render_trap(&original);
    let parsed = parse_traps(&rendered).unwrap();
    assert_eq!(parsed.len(), 1);
    let round = &parsed[0];
    assert_eq!(round.error_signature, "Deadlock");
    assert_eq!(round.context, "Two threads wait forever.");
    assert_eq!(round.root_cause, "Circular dependency on locks.");
    assert_eq!(round.solution, "Enforce lock ordering.");
    assert_eq!(round.prevention, "Use try_lock with timeout.");
}

// ── ADR status partition ───────────────────────────────────────────

#[test]
fn test_adr_partition_by_status() {
    let adrs = vec![
        ADR {
            id: "ADR-001".into(),
            title: "Accepted".into(),
            status: AdrStatus::Accepted,
            context: "ctx".into(),
            decision: "dec".into(),
            tags: vec![],
        },
        ADR {
            id: "ADR-002".into(),
            title: "Proposed".into(),
            status: AdrStatus::Proposed,
            context: "ctx".into(),
            decision: "dec".into(),
            tags: vec![],
        },
        ADR {
            id: "ADR-003".into(),
            title: "Superseded".into(),
            status: AdrStatus::Superseded,
            context: "ctx".into(),
            decision: "dec".into(),
            tags: vec![],
        },
        ADR {
            id: "ADR-004".into(),
            title: "Rejected".into(),
            status: AdrStatus::Rejected,
            context: "ctx".into(),
            decision: "dec".into(),
            tags: vec![],
        },
        ADR {
            id: "ADR-005".into(),
            title: "Archived".into(),
            status: AdrStatus::Archived,
            context: "ctx".into(),
            decision: "dec".into(),
            tags: vec![],
        },
    ];

    let active = render_active_decisions(&adrs);
    assert!(active.contains("## ADR-001: Accepted"));
    assert!(active.contains("## ADR-002: Proposed"));
    assert!(!active.contains("## ADR-003:"));
    assert!(!active.contains("## ADR-004:"));
    assert!(!active.contains("## ADR-005:"));
    assert!(
        active.contains("> Historical decisions are in [decisions_archive.md](./decisions_archive.md)")
    );

    let stale = render_stale_decisions(&adrs);
    assert!(stale.contains("## ADR-003: Superseded"));
    assert!(stale.contains("## ADR-004: Rejected"));
    assert!(stale.contains("## ADR-005: Archived"));
    assert!(!stale.contains("## ADR-001:"));
    assert!(!stale.contains("## ADR-002:"));
}

#[test]
fn test_roundtrip_adr_status() {
    let adrs = vec![
        ADR {
            id: "ADR-001".into(),
            title: "A".into(),
            status: AdrStatus::Accepted,
            context: "ctx".into(),
            decision: "dec".into(),
            tags: vec![],
        },
        ADR {
            id: "ADR-002".into(),
            title: "P".into(),
            status: AdrStatus::Proposed,
            context: "ctx".into(),
            decision: "dec".into(),
            tags: vec![],
        },
        ADR {
            id: "ADR-003".into(),
            title: "S".into(),
            status: AdrStatus::Superseded,
            context: "ctx".into(),
            decision: "dec".into(),
            tags: vec![],
        },
        ADR {
            id: "ADR-004".into(),
            title: "R".into(),
            status: AdrStatus::Rejected,
            context: "ctx".into(),
            decision: "dec".into(),
            tags: vec![],
        },
        ADR {
            id: "ADR-005".into(),
            title: "Ar".into(),
            status: AdrStatus::Archived,
            context: "ctx".into(),
            decision: "dec".into(),
            tags: vec![],
        },
    ];

    let rendered = render_decisions(&adrs);
    let parsed = parse_decisions(&rendered).unwrap();
    assert_eq!(parsed.len(), 5);
    assert_eq!(parsed[0].status, AdrStatus::Accepted);
    assert_eq!(parsed[1].status, AdrStatus::Proposed);
    assert_eq!(parsed[2].status, AdrStatus::Superseded);
    assert_eq!(parsed[3].status, AdrStatus::Rejected);
    assert_eq!(parsed[4].status, AdrStatus::Archived);
}

// ── tasks_archive global dedup ────────────────────────────────────

#[test]
fn test_append_tasks_archive_global_dedup() {
    let existing = "# Archived Tasks\n\n## 2026-06-01\n- [Done] [TASK-001] Old task\n\n";
    let new_task = Task {
        id: "TASK-001".into(),
        description: "Same task".into(),
        status: TaskStatus::Done,
        superseded_by: None,
    };
    let result = append_tasks_archive(existing, &[new_task], "2026-06-02");
    // TASK-001 already exists globally — new section must NOT be created.
    assert!(!result.contains("## 2026-06-02"));
}

#[test]
fn test_append_tasks_archive_keeps_earliest() {
    let existing = "# Archived Tasks\n\n## 2026-06-01\n- [Done] [TASK-001] First\n\n";
    let new_task = Task {
        id: "TASK-001".into(),
        description: "Second".into(),
        status: TaskStatus::Done,
        superseded_by: None,
    };
    let result = append_tasks_archive(existing, &[new_task], "2026-06-02");
    // Should still only have TASK-001 in 2026-06-01.
    assert!(result.contains("## 2026-06-01"));
    assert!(result.contains("[TASK-001] First"));
    // Should NOT have it in a 2026-06-02 section.
    let parts: Vec<&str> = result.split("## 2026-06-02").collect();
    if parts.len() > 1 {
        assert!(!parts[1].contains("TASK-001"));
    }
}

// ── Further cases ──────────────────────────────────────────────────

#[test]
fn the_archive_is_pointed_to_without_active_decisions() {
    let adr = ADR {
        id: "ADR-001".into(),
        title: "Old".into(),
        status: AdrStatus::Superseded,
        context: "ctx".into(),
        decision: "dec".into(),
        tags: vec![],
    };
    assert_eq!(
        render_active_decisions(&[adr]),
        "> Historical decisions are in [decisions_archive.md](./decisions_archive.md)\n\n"
    );
    assert_eq!(render_active_decisions(&[]), "");
}

#[test]
fn generated_ids_pass_over_taken_ones() {
    let ids = |md: &str| -> Vec<String> {
        parse_task_lines(md).into_iter().map(|t| t.id).collect()
    };
    assert_eq!(ids("- [Todo] [TASK-001] a\n- b"), vec!["TASK-001", "TASK-002"]);
    assert_eq!(ids("- a\n- [Todo] [TASK-000] b\n- c"), vec!["TASK-001", "TASK-000", "TASK-002"]);
    assert_eq!(ids("- a\n- [ ] b\n- [Todo] c"), vec!["TASK-000", "TASK-001", "TASK-002"]);
    assert_eq!(
        ids("- a\n- [Todo] [TASK-002] b\n- [Done] [TASK-003] c\n- d"),
        vec!["TASK-000", "TASK-002", "TASK-003", "TASK-004"]
    );
}

#[test]
fn a_grown_archive_keeps_its_lines() {
    let task = |id: &str, status: TaskStatus| Task {
        id: id.into(),
        description: "d".into(),
        status,
        superseded_by: None,
    };
    let first = append_tasks_archive("", &[task("TASK-001", TaskStatus::Done)], "2026-06-01");
    let more = [task("TASK-002", TaskStatus::Done), task("TASK-003", TaskStatus::Cancelled)];
    let second = append_tasks_archive(&first, &more, "2026-06-02");
    for line in ["- [Done] [TASK-001] d", "- [Done] [TASK-002] d", "- [Cancelled] [TASK-003] d"] {
        assert!(second.lines().any(|l| l == line));
    }
    assert_eq!(append_tasks_archive(&second, &more, "2026-06-03"), second);
}

#[test]
fn rewritten_decisions_read_back() {
    let md = "## ADR-001:  A title \n**Status:** rejected\n### Context\n\n  a  \n\n b\n### Decision\nd\n**Tags:** x, , y\n## ADR-2: B\n### Context\nc";
    let adrs = parse_decisions(md).unwrap();
    assert_eq!(adrs.len(), 2);
    assert_eq!(adrs[0].context, "a\n\nb");
    let again = parse_decisions(&render_decisions(&adrs)).unwrap();
    assert_eq!(again.len(), 2);
    for (a, b) in adrs.iter().zip(again.iter()) {
        assert_eq!(a.id, b.id);
        assert_eq!(a.title, b.title);
        assert_eq!(a.status, b.status);
        assert_eq!(a.context, b.context);
        assert_eq!(a.decision, b.decision);
        assert_eq!(a.tags, b.tags);
    }
}
