use memguard::engine::state_manager::{EventError, StateManager};
use memguard::mcp::json::Json;
use memguard::mcp::server::{
    adr_event, bad_project_root, commit_args, commit_reply, dispatch, ends_handshake, parse_event,
    query_args, reply_to, request_step, request_text, result_item, runtime_bootstrap,
    runtime_commit_event, switch_failed, task_event, tools_call, trap_event, unreadable_line,
    wanted_project, workspace_path, CommitReply, EventStep, McpError, Method, RequestStep,
    ResultItem, Tool,
};
use memguard::models::{
    AdrStatus, RuntimeEvent, Task, TaskCreatePayload, TaskStatus, Trap, ADR,
};
use memguard::search::index::{rank, SearchIndex};
use memguard::search::scorer::TokenHit;

fn text(s: &str) -> Json {
    Json::Text(s.into())
}

fn object(fields: Vec<(&str, Json)>) -> Json {
    Json::Object(fields.into_iter().map(|(k, v)| (k.to_string(), v)).collect())
}

/// The event that a kind and a payload give, a new task being decoded by hand.
fn event(kind: &str, payload: &Json) -> Result<RuntimeEvent, McpError> {
    match parse_event(kind, payload) {
        EventStep::Ready(event) => Ok(event),
        EventStep::Refused(e) => Err(e),
        EventStep::DecodeTask => {
            match (payload.get_str("id"), payload.get_str("description")) {
                (Some(id), Some(description)) => task_event(Ok(TaskCreatePayload {
                    id: id.into(),
                    description: description.into(),
                })),
                _ => task_event(Err("missing field `id`".into())),
            }
        }
        EventStep::DecodeAdr => adr_event(Err("missing field `id`".into())),
        EventStep::DecodeTrap => trap_event(Ok(Trap::default())),
    }
}

/// Answer a query: score what the index finds and show the best.
fn query_memory(manager: &StateManager, args: &Json) -> Vec<ResultItem> {
    let q = query_args(args).unwrap();
    let index = SearchIndex::build(&manager.decisions, &manager.traps);
    let found = index.find(&q.query, q.include_stale);
    let keys: Vec<u64> = found
        .iter()
        .map(|m| {
            let mut score = 0.0;
            for f in &m.fields {
                let weight = f.weight as f64;
                for hit in &f.hits {
                    score += match *hit {
                        TokenHit::Exact => weight,
                        TokenHit::Fuzzy { shared, total } => {
                            weight * 0.25 * (2.0 * shared as f64 / total as f64)
                        }
                        TokenHit::Near => weight * 0.25 * 0.5,
                        TokenHit::Miss => 0.0,
                    };
                }
                if f.phrase {
                    score += weight * 0.5;
                }
            }
            let score: f64 = if m.stale { score * 0.3 } else { score };
            score.to_bits()
        })
        .collect();
    rank(&keys, q.limit)
        .into_iter()
        .map(|i| result_item(index.item(found[i].entry).unwrap()))
        .collect()
}

fn adr_id(item: &ResultItem) -> &str {
    match item {
        ResultItem::Adr { id, .. } => id,
        ResultItem::Trap { .. } => "",
    }
}

#[test]
fn test_parse_event_task_updated() {
    let payload = object(vec![("task_id", text("TASK-000")), ("new_status", text("Done"))]);
    let event = event("TaskUpdated", &payload).unwrap();
    assert!(matches!(event, RuntimeEvent::TaskUpdated { .. }));
}

#[test]
fn test_parse_event_invalid_status() {
    let payload = object(vec![("task_id", text("TASK-000")), ("new_status", text("InvalidStatus"))]);
    let result = event("TaskUpdated", &payload);
    assert!(result.is_err());
}

#[test]
fn test_parse_event_unknown_type() {
    let payload = object(vec![]);
    let result = event("UnknownEvent", &payload);
    assert!(result.is_err());
}

#[test]
fn test_parse_event_task_created() {
    let payload = object(vec![("id", text("TASK-011")), ("description", text("New task"))]);
    let event = event("TaskCreated", &payload).unwrap();
    assert!(matches!(event, RuntimeEvent::TaskCreated(_)));
    if let RuntimeEvent::TaskCreated(task) = event {
        assert_eq!(task.id, "TASK-011");
        assert_eq!(task.description, "New task");
    }
}

#[test]
fn test_parse_event_task_created_with_status_ignored() {
    let payload = object(vec![
        ("id", text("TASK-012")),
        ("description", text("Task with status")),
        ("status", text("InProgress")),
    ]);
    let event = event("TaskCreated", &payload).unwrap();
    if let RuntimeEvent::TaskCreated(task) = event {
        assert_eq!(task.id, "TASK-012");
        assert!(
            matches!(task.status, TaskStatus::Todo),
            "status should be forced to Todo, got {:?}",
            task.status
        );
    }
}

#[test]
fn test_query_memory_filters_stale_by_default() {
    let mut sm = StateManager::new();

    // Inject a superseded ADR that would match "auth" and an unrelated active ADR.
    {
        let decisions = &mut sm.decisions;
        decisions.push(ADR {
            id: "ADR-001".into(),
            title: "auth module".into(),
            status: AdrStatus::Superseded,
            context: "legacy".into(),
            decision: "old".into(),
            tags: vec!["security".into()],
        });
        decisions.push(ADR {
            id: "ADR-002".into(),
            title: "database migration".into(),
            status: AdrStatus::Accepted,
            context: "sql".into(),
            decision: "use postgres".into(),
            tags: vec!["db".into()],
        });
    }

    let args = object(vec![("query_intent", text("auth"))]);
    let results = query_memory(&sm, &args);

    assert_eq!(results.len(), 0, "superseded ADR should be filtered by default");
}

#[test]
fn test_query_memory_include_stale() {
    let mut sm = StateManager::new();

    {
        let decisions = &mut sm.decisions;
        decisions.push(ADR {
            id: "ADR-001".into(),
            title: "auth module".into(),
            status: AdrStatus::Accepted,
            context: "legacy".into(),
            decision: "old".into(),
            tags: vec!["security".into()],
        });
        decisions.push(ADR {
            id: "ADR-002".into(),
            title: "auth module".into(),
            status: AdrStatus::Superseded,
            context: "legacy".into(),
            decision: "old".into(),
            tags: vec!["security".into()],
        });
    }

    let args =
        object(vec![("query_intent", text("auth")), ("include_stale", Json::Bool(true))]);
    let results = query_memory(&sm, &args);

    assert_eq!(results.len(), 2, "both ADRs should be returned");
    assert_eq!(adr_id(&results[0]), "ADR-001", "active ADR should rank higher");
    assert_eq!(adr_id(&results[1]), "ADR-002", "stale ADR should be penalized");
}

#[test]
fn test_query_memory_traps_unaffected() {
    let mut sm = StateManager::new();

    {
        let decisions = &mut sm.decisions;
        decisions.push(ADR {
            id: "ADR-001".into(),
            title: "auth module".into(),
            status: AdrStatus::Superseded,
            context: "legacy".into(),
            decision: "old".into(),
            tags: vec!["security".into()],
        });
    }
    {
        let traps = &mut sm.traps;
        traps.push(Trap {
            error_signature: "auth failure".into(),
            context: "legacy".into(),
            solution: "retry".into(),
            root_cause: String::new(),
            prevention: String::new(),
        });
    }

    let args = object(vec![("query_intent", text("auth"))]);
    let results = query_memory(&sm, &args);

    assert_eq!(results.len(), 1, "only trap should be returned");
    assert!(
        matches!(results[0], ResultItem::Trap { .. }),
        "traps must not be affected by ADR stale filter"
    );
}

#[test]
fn test_query_memory_filters_non_accepted_adrs() {
    let mut sm = StateManager::new();

    {
        let decisions = &mut sm.decisions;
        decisions.push(ADR {
            id: "ADR-001".into(),
            title: "auth module".into(),
            status: AdrStatus::Superseded,
            context: "legacy".into(),
            decision: "old".into(),
            tags: vec!["security".into()],
        });
    }

    let args = object(vec![("query_intent", text("auth"))]);
    let results = query_memory(&sm, &args);

    assert_eq!(results.len(), 0, "superseded ADR should be filtered by default");
}

#[test]
fn test_query_memory_trap_boost() {
    let mut sm = StateManager::new();

    {
        let decisions = &mut sm.decisions;
        decisions.push(ADR {
            id: "ADR-001".into(),
            title: "database".into(),
            status: AdrStatus::Accepted,
            context: "sql".into(),
            decision: "postgres".into(),
            tags: vec!["db".into()],
        });
    }
    {
        let traps = &mut sm.traps;
        traps.push(Trap {
            error_signature: "database".into(),
            context: "legacy".into(),
            solution: "retry".into(),
            root_cause: "network".into(),
            prevention: "timeout".into(),
        });
    }

    let args = object(vec![("query_intent", text("database"))]);
    let results = query_memory(&sm, &args);

    assert_eq!(results.len(), 2, "both ADR and Trap should be returned");
    assert!(
        matches!(results[0], ResultItem::Trap { .. }),
        "Trap should rank higher due to boosted weights"
    );
    assert!(matches!(results[1], ResultItem::Adr { .. }), "ADR should rank lower");
}

#[test]
fn test_query_memory_trap_enriched() {
    let mut sm = StateManager::new();

    {
        let traps = &mut sm.traps;
        traps.push(Trap {
            error_signature: "auth failure".into(),
            context: "legacy".into(),
            solution: "retry".into(),
            root_cause: "token expired".into(),
            prevention: "refresh token".into(),
        });
    }

    let args = object(vec![("query_intent", text("auth"))]);
    let results = query_memory(&sm, &args);

    assert_eq!(results.len(), 1, "trap should be returned");
    match &results[0] {
        ResultItem::Trap { root_cause, prevention, .. } => {
            assert_eq!(root_cause, "token expired", "Trap result should include root_cause");
            assert_eq!(prevention, "refresh token", "Trap result should include prevention");
        }
        ResultItem::Adr { .. } => panic!("a trap should be returned"),
    }
}

#[test]
fn test_latest_adr_prefers_active() {
    let mut sm = StateManager::new();

    // Inject ADR-001 active, then ADR-002 superseded.
    // If latest_adr used decisions.last(), it would return ADR-002.
    {
        let decisions = &mut sm.decisions;
        decisions.push(ADR {
            id: "ADR-001".into(),
            title: "Active Choice".into(),
            status: AdrStatus::Accepted,
            context: "ctx".into(),
            decision: "dec".into(),
            tags: vec!["a".into()],
        });
        decisions.push(ADR {
            id: "ADR-002".into(),
            title: "Superseded Choice".into(),
            status: AdrStatus::Superseded,
            context: "old".into(),
            decision: "old dec".into(),
            tags: vec![],
        });
    }

    let latest = runtime_bootstrap(&sm).latest_adr.expect("latest_adr should exist");
    assert_eq!(latest.id, "ADR-001", "latest_adr should be active, not last in Vec");
    assert_eq!(latest.status.to_string(), "Accepted");
}

#[test]
fn test_bootstrap_filters_done_tasks() {
    let mut sm = StateManager::new();

    {
        let state = &mut sm.state;
        state.active_tasks = vec![
            Task {
                id: "TASK-001".into(),
                description: "Todo task".into(),
                status: TaskStatus::Todo,
                superseded_by: None,
            },
            Task {
                id: "TASK-002".into(),
                description: "InProgress task".into(),
                status: TaskStatus::InProgress,
                superseded_by: None,
            },
            Task {
                id: "TASK-003".into(),
                description: "Done task".into(),
                status: TaskStatus::Done,
                superseded_by: None,
            },
            Task {
                id: "TASK-004".into(),
                description: "Blocked task".into(),
                status: TaskStatus::Blocked,
                superseded_by: None,
            },
        ];
    }

    let tasks = runtime_bootstrap(&sm).active_tasks;
    assert_eq!(tasks.len(), 3, "Done task should be filtered out");

    for task in tasks {
        assert_ne!(task.status, "Done", "Done tasks must not appear in bootstrap output");
    }
}

// ── Errors, lines and routes ───────────────────────────────────────────────

fn code(e: McpError) -> (i32, String) {
    let e = e.into_rpc();
    (e.code, e.message)
}

fn make_adr(title: &str, status: AdrStatus) -> ADR {
    ADR {
        id: "ADR-001".into(),
        title: title.into(),
        status,
        context: "ctx".into(),
        decision: "dec".into(),
        tags: vec![],
    }
}

#[test]
fn errors_have_codes_and_texts() {
    assert_eq!(McpError::MethodNotFound("m".into()).to_string(), "Method not found: m");
    assert_eq!(McpError::InvalidParams("p".into()).to_string(), "Invalid params: p");
    assert_eq!(McpError::Internal("i".into()).to_string(), "Internal error: i");
    assert_eq!(code(McpError::MethodNotFound("m".into())), (-32601, "m".into()));
    assert_eq!(code(McpError::InvalidParams("p".into())), (-32602, "p".into()));
    assert_eq!(code(McpError::Internal("i".into())), (-32603, "i".into()));
}

#[test]
fn lines_are_trimmed_and_headers_skipped() {
    assert_eq!(request_text("  {}\t"), Some("{}".into()));
    assert_eq!(request_text(" \u{3000} "), None);
    assert!(unreadable_line("Content-Length: 12", "e").is_none());
    assert!(unreadable_line("Content-Type: json", "e").is_none());
    let e = unreadable_line("garbage", "expected value").unwrap();
    assert_eq!((e.code, e.message.as_str()), (-32700, "Parse error: expected value"));
    assert!(ends_handshake("notifications/initialized"));
    assert!(!ends_handshake("initialize"));
}

#[test]
fn methods_and_tools_are_routed() {
    assert_eq!(dispatch("initialize").unwrap(), Method::Initialize);
    assert_eq!(dispatch("tools/list").unwrap(), Method::ToolsList);
    assert_eq!(dispatch("tools/call").unwrap(), Method::ToolsCall);
    assert_eq!(code(dispatch("x").unwrap_err()), (-32601, "Unknown method: x".into()));

    let call = |name: &str| tools_call(Some(&object(vec![("name", text(name))])));
    assert_eq!(call("runtime_bootstrap").unwrap(), Tool::Bootstrap);
    assert_eq!(call("runtime_commit_event").unwrap(), Tool::CommitEvent);
    assert_eq!(call("runtime_query_memory").unwrap(), Tool::QueryMemory);
    assert_eq!(code(call("y").unwrap_err()), (-32601, "Unknown tool: y".into()));
    assert_eq!(code(tools_call(None).unwrap_err()), (-32602, "Missing params".into()));
    let nameless = object(vec![("name", Json::Count(3))]);
    assert_eq!(code(tools_call(Some(&nameless)).unwrap_err()), (-32602, "Missing tool name".into()));
    assert_eq!(code(tools_call(Some(&Json::Null)).unwrap_err()).0, -32602);
}

#[test]
fn the_workspace_is_the_first_folder_or_the_root() {
    let folder = |uri: &str| Json::List(vec![object(vec![("uri", text(uri))])]);
    let both = object(vec![
        ("workspaceFolders", folder("file:///C:/a")),
        ("rootUri", text("file:///b")),
    ]);
    assert_eq!(workspace_path(Some(&both)), Some("C:/a".into()));
    let root = object(vec![("workspaceFolders", Json::List(vec![])), ("rootUri", text("file://b"))]);
    assert_eq!(workspace_path(Some(&root)), Some("b".into()));
    let path = object(vec![("workspaceFolders", Json::Null), ("rootUri", text("/plain"))]);
    assert_eq!(workspace_path(Some(&path)), Some("/plain".into()));
    assert_eq!(workspace_path(Some(&object(vec![]))), None);
    assert_eq!(workspace_path(None), None);
}

#[test]
fn projects_are_named_or_refused() {
    let args = object(vec![("project_root", text("/p"))]);
    assert_eq!(wanted_project(&args), Some("/p"));
    assert_eq!(wanted_project(&Json::Null), None);
    assert_eq!(
        code(bad_project_root("/p", "not found")),
        (-32602, "Invalid project_root path '/p': not found".into())
    );
    assert_eq!(code(switch_failed("io")), (-32603, "Project switch failed: io".into()));
}

// ── Events ─────────────────────────────────────────────────────────────────

#[test]
fn every_documented_status_is_accepted() {
    for (name, status) in [
        ("Todo", TaskStatus::Todo),
        ("InProgress", TaskStatus::InProgress),
        ("Blocked", TaskStatus::Blocked),
        ("Done", TaskStatus::Done),
    ] {
        let payload = object(vec![("task_id", text("T")), ("new_status", text(name))]);
        match event("TaskUpdated", &payload).unwrap() {
            RuntimeEvent::TaskUpdated { task_id, new_status, superseded_by } => {
                assert_eq!(task_id, "T");
                assert_eq!(new_status, status);
                assert!(superseded_by.is_none());
            }
            _ => panic!("an update is expected"),
        }
    }
    let payload = object(vec![("task_id", text("T")), ("new_status", text("Superseded"))]);
    assert_eq!(
        code(event("TaskUpdated", &payload).unwrap_err()),
        (
            -32602,
            "Invalid task status: Superseded (expected Todo|InProgress|Blocked|Done)".into()
        )
    );
}

#[test]
fn missing_fields_are_named() {
    let none = object(vec![]);
    let half = object(vec![("task_id", text("T"))]);
    assert_eq!(code(event("TaskUpdated", &none).unwrap_err()).1, "Missing task_id");
    assert_eq!(code(event("TaskUpdated", &half).unwrap_err()).1, "Missing new_status");
    assert_eq!(code(event("PhaseChanged", &none).unwrap_err()).1, "Missing new_phase");
    assert_eq!(code(event("Other", &none).unwrap_err()).1, "Unknown event_type: Other");
    assert_eq!(
        code(event("TaskCreated", &none).unwrap_err()).1,
        "Invalid Task payload: missing field `id`"
    );
    assert_eq!(
        code(event("AdrCommitted", &none).unwrap_err()).1,
        "Invalid ADR payload: missing field `id`"
    );
    assert_eq!(
        code(trap_event(Err("no".into())).unwrap_err()).1,
        "Invalid Trap payload: no"
    );
    assert!(matches!(event("TrapRecorded", &none).unwrap(), RuntimeEvent::TrapRecorded(_)));
    let adr = make_adr("T", AdrStatus::Proposed);
    assert!(matches!(adr_event(Ok(adr)).unwrap(), RuntimeEvent::AdrCommitted(_)));
}

#[test]
fn phases_are_canonical() {
    for payload in [object(vec![("new_phase", text(" Testing "))]), text("verification")] {
        match event("PhaseChanged", &payload).unwrap() {
            RuntimeEvent::PhaseChanged(phase) => {
                assert_eq!(phase, "verify")
            }
            _ => panic!("a change of phase is expected"),
        }
    }
}

#[test]
fn commit_arguments_are_read() {
    let args = object(vec![("event_type", text("PhaseChanged")), ("payload", Json::Null)]);
    let (kind, payload) = commit_args(&args).unwrap();
    assert_eq!(kind, "PhaseChanged");
    assert!(matches!(payload, Json::Null));
    let kindless = object(vec![("payload", Json::Null)]);
    assert_eq!(code(commit_args(&kindless).err().unwrap()).1, "Missing event_type");
    let empty = object(vec![("event_type", text("PhaseChanged"))]);
    assert_eq!(code(commit_args(&empty).err().unwrap()).1, "Missing payload");
}

#[test]
fn conflicts_are_answers_and_other_refusals_are_errors() {
    let mut manager = StateManager::new();
    let reply = runtime_commit_event(
        &mut manager,
        RuntimeEvent::AdrCommitted(make_adr("First", AdrStatus::Proposed)),
    );
    match reply.unwrap() {
        CommitReply::Committed(text) => {
            assert_eq!(text, "Event successfully committed to runtime state.")
        }
        CommitReply::Conflict { .. } => panic!("nothing contradicts it"),
    }
    let reply = runtime_commit_event(
        &mut manager,
        RuntimeEvent::AdrCommitted(make_adr("Second", AdrStatus::Proposed)),
    );
    match reply.unwrap() {
        CommitReply::Conflict { message } => assert_eq!(
            message,
            "[CONFLICT] ADR ADR-001 conflict: an active ADR with this id already exists with different content."
        ),
        CommitReply::Committed(_) => panic!("the accepted ADR is contradicted"),
    }
    assert_eq!(manager.decisions.len(), 1);
    let update = RuntimeEvent::TaskUpdated {
        task_id: "nowhere".into(),
        new_status: TaskStatus::Done,
        superseded_by: None,
    };
    match runtime_commit_event(&mut manager, update) {
        Err(e) => {
            let (code, message) = code(e);
            assert_eq!(code, -32603);
            assert!(message.starts_with("State update failed: "));
        }
        Ok(_) => panic!("there is no such task"),
    }
    let refusal = commit_reply(Err(EventError { message: "odd".into() }));
    assert_eq!(code(refusal.err().unwrap()).1, "State update failed: odd");
}

// ── Summaries and queries ──────────────────────────────────────────────────

#[test]
fn the_summary_counts_and_lists() {
    let mut manager = StateManager::new();
    manager.state.current_phase = "plan".into();
    manager.state.constraints.push("simple".into());
    manager.state.active_tasks.push(Task {
        id: "TASK-001".into(),
        description: "d".into(),
        status: TaskStatus::InProgress,
        superseded_by: None,
    });
    manager.decisions.push(make_adr("Old", AdrStatus::Rejected));
    manager.traps.push(Trap::default());
    let s = runtime_bootstrap(&manager);
    assert_eq!(s.current_phase, "plan");
    assert_eq!(s.constraints, vec!["simple"]);
    assert!(s.latest_adr.is_none());
    assert_eq!((s.adr_count, s.trap_count), (1, 1));
    let task = &s.active_tasks[0];
    assert_eq!(
        (task.id.as_str(), task.description.as_str(), task.status.as_str()),
        ("TASK-001", "d", "InProgress")
    );
}

#[test]
fn query_limits_are_kept() {
    let limit = |v: Json| {
        query_args(&object(vec![("query_intent", text("X")), ("limit", v)])).unwrap().limit
    };
    assert_eq!(limit(Json::Count(0)), 1);
    assert_eq!(limit(Json::Count(7)), 7);
    assert_eq!(limit(Json::Count(21)), 20);
    assert_eq!(limit(Json::OtherNumber), 3);
    let q = query_args(&object(vec![("query_intent", text("AUTH Token"))])).unwrap();
    assert_eq!(q.query, "auth token");
    assert_eq!(q.limit, 3);
    assert!(!q.include_stale);
    assert_eq!(
        code(query_args(&Json::Null).err().unwrap()),
        (-32602, "Missing query_intent".into())
    );
}

#[test]
fn long_decisions_are_cut() {
    let mut manager = StateManager::new();
    let mut adr = make_adr("auth", AdrStatus::Accepted);
    adr.decision = "x".repeat(300);
    manager.decisions.push(adr);
    let results = query_memory(&manager, &object(vec![("query_intent", text("auth"))]));
    match &results[0] {
        ResultItem::Adr { summary, .. } => {
            assert_eq!(summary.chars().count(), 201);
            assert!(summary.ends_with('…'));
        }
        ResultItem::Trap { .. } => panic!("an ADR is expected"),
    }
}

#[test]
fn only_requests_with_an_id_are_answered() {
    assert_eq!(request_step(true, "initialize"), RequestStep::Handle);
    assert_eq!(request_step(true, "notifications/initialized"), RequestStep::Handle);
    assert_eq!(request_step(false, "notifications/initialized"), RequestStep::NoteHandshake);
    assert_eq!(request_step(false, "tools/list"), RequestStep::Ignore);
    assert!(reply_to(false, Ok::<u8, McpError>(1)).is_none());
    let reply = reply_to(true, Ok::<u8, McpError>(1)).unwrap();
    assert_eq!(reply.result, Some(1));
    assert!(reply.error.is_none());
    let refused: Result<u8, McpError> = Err(McpError::InvalidParams("no".into()));
    let reply = reply_to(true, refused).unwrap();
    assert!(reply.result.is_none());
    let error = reply.error.unwrap();
    assert_eq!(error.code, -32602);
    assert_eq!(error.message, "no");
}
