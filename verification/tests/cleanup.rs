use memguard::cli::cleanup::{
    analyze, apply_changes, backup_manifest, clean_state, course, is_confirmation, read_memory,
    render_report, CleanupArgs, CleanupIssues, CleanupPlan, Course,
};
use memguard::engine::calendar::backup_timestamp;
use memguard::engine::projection::{parse_context, parse_decisions};
use memguard::models::{AdrStatus, RuntimeState, Task, TaskStatus, ADR};
use memguard::search::index::SearchIndex;


// ── Unit tests for analyze() ───────────────────────────────────────

fn make_adr(id: &str, title: &str, status: AdrStatus, decision: &str) -> ADR {
    ADR {
        id: id.to_string(),
        title: title.to_string(),
        status,
        context: "test context".to_string(),
        decision: decision.to_string(),
        tags: vec![],
    }
}

fn make_task(id: &str, desc: &str, status: TaskStatus) -> Task {
    Task { id: id.to_string(), description: desc.to_string(), status, superseded_by: None }
}

#[test]
fn test_analyze_no_issues() {
    let state = RuntimeState {
        current_phase: "plan".into(),
        active_tasks: vec![make_task("TASK-001", "Active", TaskStatus::Todo)],
        done_tasks: vec![],
        constraints: vec![],
    };
    let issues = analyze(&state, &[], &[]);
    assert!(issues.is_empty());
}

#[test]
fn test_analyze_completed_tasks() {
    let state = RuntimeState {
        current_phase: "plan".into(),
        active_tasks: vec![
            make_task("TASK-001", "Active", TaskStatus::Todo),
            make_task("TASK-002", "Done 1", TaskStatus::Done),
            make_task("TASK-003", "Done 2", TaskStatus::Done),
        ],
        done_tasks: vec![],
        constraints: vec![],
    };
    let issues = analyze(&state, &[], &[]);
    assert_eq!(issues.completed_tasks.len(), 2);
    assert_eq!(issues.completed_tasks[0].id, "TASK-002");
    assert_eq!(issues.completed_tasks[1].id, "TASK-003");
}

#[test]
fn test_analyze_duplicate_adrs_same_title_decision() {
    let adr1 = make_adr("ADR-001", "Use Rust", AdrStatus::Accepted, "We decided to use Rust.");
    let adr2 = make_adr("ADR-005", "Use Rust", AdrStatus::Proposed, "We decided to use Rust.");
    // ADR-001 (Accepted priority=5) vs ADR-005 (Proposed priority=4)
    let state = RuntimeState {
        current_phase: "plan".into(),
        active_tasks: vec![],
        done_tasks: vec![],
        constraints: vec![],
    };
    let issues = analyze(&state, &[adr1], &[adr2]);
    assert_eq!(issues.duplicate_pairs.len(), 1);
    let (keep, supersede) = &issues.duplicate_pairs[0];
    assert_eq!(keep.id, "ADR-001"); // higher priority kept
    assert_eq!(supersede.id, "ADR-005");
}

#[test]
fn test_analyze_duplicate_adrs_same_priority() {
    let adr1 = make_adr("ADR-001", "Use Rust", AdrStatus::Proposed, "Rust.");
    let adr2 = make_adr("ADR-005", "Use Rust", AdrStatus::Proposed, "Rust.");
    let state = RuntimeState {
        current_phase: "plan".into(),
        active_tasks: vec![],
        done_tasks: vec![],
        constraints: vec![],
    };
    let issues = analyze(&state, &[adr1], &[adr2]);
    assert_eq!(issues.duplicate_pairs.len(), 1);
    let (keep, _) = &issues.duplicate_pairs[0];
    assert_eq!(keep.id, "ADR-001"); // first in list kept when equal
}

#[test]
fn test_analyze_no_duplicate_if_different_decision() {
    let adr1 = make_adr("ADR-001", "Use Rust", AdrStatus::Accepted, "Rust with Tokio.");
    let adr2 = make_adr("ADR-005", "Use Rust", AdrStatus::Accepted, "Rust with Actix.");
    let state = RuntimeState {
        current_phase: "plan".into(),
        active_tasks: vec![],
        done_tasks: vec![],
        constraints: vec![],
    };
    let issues = analyze(&state, &[adr1], &[adr2]);
    assert!(issues.duplicate_pairs.is_empty());
}

#[test]
fn test_analyze_stale_adrs_in_main() {
    let adr1 = make_adr("ADR-001", "Use Rust", AdrStatus::Accepted, "Rust.");
    let adr2 = make_adr("ADR-002", "Old decision", AdrStatus::Superseded, "Old stuff.");
    let adr3 = make_adr("ADR-003", "Rejected", AdrStatus::Rejected, "Bad idea.");
    let state = RuntimeState {
        current_phase: "plan".into(),
        active_tasks: vec![],
        done_tasks: vec![],
        constraints: vec![],
    };
    // main_adrs has the stale ones, archive_adrs is empty
    let issues = analyze(&state, &[adr1, adr2, adr3], &[]);
    assert_eq!(issues.stale_adrs_in_main.len(), 2);
    assert_eq!(issues.stale_adrs_in_main[0].id, "ADR-002");
    assert_eq!(issues.stale_adrs_in_main[1].id, "ADR-003");
}

#[test]
fn test_analyze_archive_adrs_not_flagged_as_stale() {
    let active = make_adr("ADR-001", "Use Rust", AdrStatus::Accepted, "Rust.");
    let archived = make_adr("ADR-002", "Old stuff", AdrStatus::Superseded, "Old.");
    let state = RuntimeState {
        current_phase: "plan".into(),
        active_tasks: vec![],
        done_tasks: vec![],
        constraints: vec![],
    };
    // archived ADR is in archive, not in main — should not be flagged
    let issues = analyze(&state, &[active.clone()], &[archived]);
    assert!(issues.stale_adrs_in_main.is_empty());
}

#[test]
fn test_analyze_content_hash_warning() {
    let state = RuntimeState {
        current_phase: "plan".into(),
        active_tasks: vec![],
        done_tasks: vec![],
        constraints: vec![],
    };
    let adr1 = make_adr("ADR-032", "Same content", AdrStatus::Accepted, "Decision A");
    let adr2 = make_adr("ADR-033", "Same content", AdrStatus::Accepted, "Decision A");
    let issues = analyze(&state, &[adr1, adr2], &[]);
    assert_eq!(issues.content_hash_warnings.len(), 1);
    assert!(issues.content_hash_warnings[0].contains("ADR-032"));
    assert!(issues.content_hash_warnings[0].contains("ADR-033"));
}

#[test]
fn test_analyze_stale_explicit_only() {
    let state = RuntimeState {
        current_phase: "plan".into(),
        active_tasks: vec![],
        done_tasks: vec![],
        constraints: vec![],
    };
    let accepted = make_adr("ADR-001", "Accepted", AdrStatus::Accepted, "Decision.");
    let proposed = make_adr("ADR-002", "Proposed", AdrStatus::Proposed, "Decision.");
    let superseded = make_adr("ADR-003", "Superseded", AdrStatus::Superseded, "Decision.");
    let rejected = make_adr("ADR-004", "Rejected", AdrStatus::Rejected, "Decision.");
    let archived = make_adr("ADR-005", "Archived", AdrStatus::Archived, "Decision.");
    let main_adrs = vec![accepted, proposed, superseded, rejected, archived];
    let issues = analyze(&state, &main_adrs, &[]);
    // Only Superseded, Rejected, Archived should be flagged
    assert_eq!(issues.stale_adrs_in_main.len(), 3);
    let stale_ids: Vec<&str> = issues.stale_adrs_in_main.iter().map(|a| a.id.as_str()).collect();
    assert!(stale_ids.contains(&"ADR-003"));
    assert!(stale_ids.contains(&"ADR-004"));
    assert!(stale_ids.contains(&"ADR-005"));
    assert!(!stale_ids.contains(&"ADR-001"));
    assert!(!stale_ids.contains(&"ADR-002"));
}

#[test]
fn test_analyze_blocked_tasks_not_flagged() {
    let state = RuntimeState {
        current_phase: "plan".into(),
        active_tasks: vec![
            make_task("TASK-001", "Blocked task", TaskStatus::Blocked),
            make_task("TASK-002", "In progress", TaskStatus::InProgress),
        ],
        done_tasks: vec![],
        constraints: vec![],
    };
    let issues = analyze(&state, &[], &[]);
    assert!(issues.completed_tasks.is_empty());
}

// ── Report rendering tests ───────────────────────────────────────

#[test]
fn test_render_report_no_issues() {
    let issues = CleanupIssues::default();
    let report = render_report(&issues);
    assert!(report.contains("No issues found"));
}

#[test]
fn test_render_report_with_issues() {
    let mut issues = CleanupIssues::default();
    issues.completed_tasks = vec![make_task("TASK-001", "done", TaskStatus::Done)];
    issues.duplicate_pairs = vec![(
        make_adr("ADR-001", "Keep", AdrStatus::Accepted, "dec"),
        make_adr("ADR-002", "Keep", AdrStatus::Proposed, "dec"),
    )];
    let report = render_report(&issues);
    assert!(report.contains("Found:"));
    assert!(report.contains("1 completed task"));
    assert!(report.contains("1 duplicate ADR"));
    assert!(report.contains("Supersede ADR-002 (keep ADR-001)"));
}

#[test]
fn test_render_report_plural() {
    let mut issues = CleanupIssues::default();
    issues.completed_tasks = vec![
        make_task("TASK-001", "a", TaskStatus::Done),
        make_task("TASK-002", "b", TaskStatus::Done),
    ];
    issues.stale_adrs_in_main = vec![
        make_adr("ADR-001", "S1", AdrStatus::Superseded, "d1"),
        make_adr("ADR-002", "S2", AdrStatus::Rejected, "d2"),
    ];
    let report = render_report(&issues);
    assert!(report.contains("2 completed tasks"));
    assert!(report.contains("2 stale ADRs in decisions.md"));
}

// ── Whole cleanups, on the texts of the files ──────────────────────────────

/// Noon of 2026-07-15, in seconds.
const NOW: u64 = 1_784_116_800;

/// The files of a memory directory; the archives may be missing.
struct Files {
    context: String,
    decisions: String,
    tasks_archive: Option<String>,
    decisions_archive: Option<String>,
}

/// A context with a Done task, and decisions with one active and one stale ADR.
fn setup_memory_dir() -> Files {
    let context_md = "# Current Phase\nplan\n\n# Active Tasks\n- [Todo] [TASK-001] Active task\n- [Done] [TASK-002] Completed task\n\n# Constraints\n- Keep it simple\n";
    let decisions_md = "## ADR-001: Use Rust\n\n**Status:** Accepted\n\n### Context\nTest.\n\n### Decision\nUse Rust.\n\n**Tags:** rust\n\n## ADR-002: Old stuff\n\n**Status:** Superseded\n\n### Context\nOld.\n\n### Decision\nOld decision.\n\n";
    Files {
        context: context_md.into(),
        decisions: decisions_md.into(),
        tasks_archive: None,
        decisions_archive: None,
    }
}

fn args(dry_run: bool, no_backup: bool) -> CleanupArgs {
    CleanupArgs { dry_run, project_root: "/project".into(), no_backup }
}

/// Run a cleanup with the given answer.
fn run(files: &mut Files, args: &CleanupArgs, answer: bool) -> Course {
    let archive = files.decisions_archive.clone().unwrap_or_default();
    let m = read_memory(&files.context, &files.decisions, &archive, "").unwrap();
    let issues = analyze(&m.state, &m.main_adrs, &m.archive_adrs);
    let way = course(args, &issues, Some(answer));
    if let Course::Apply { .. } = way {
        let existing = files.tasks_archive.clone().unwrap_or_default();
        let plan: CleanupPlan =
            apply_changes(&m.state, &m.main_adrs, &m.archive_adrs, &issues, &existing, NOW);
        files.context = plan.context;
        files.decisions = plan.decisions;
        if plan.tasks_archive.is_some() {
            files.tasks_archive = plan.tasks_archive;
        }
        if plan.decisions_archive.is_some() {
            files.decisions_archive = plan.decisions_archive;
        }
    }
    way
}

#[test]
fn test_cleanup_dry_run() {
    let mut files = setup_memory_dir();
    assert_eq!(run(&mut files, &args(true, true), true), Course::DryRun);

    // Dry run, no changes.
    assert!(files.context.contains("[Done] [TASK-002]"));
    assert!(files.decisions.contains("ADR-002: Old stuff"));
    assert!(files.tasks_archive.is_none());
}

#[test]
fn test_cleanup_cancel() {
    let mut files = setup_memory_dir();
    assert_eq!(run(&mut files, &args(false, true), false), Course::Cancelled);

    assert!(files.context.contains("[Done] [TASK-002]"));
    assert!(files.tasks_archive.is_none());
}

#[test]
fn test_cleanup_apply() {
    let mut files = setup_memory_dir();
    assert_eq!(run(&mut files, &args(false, true), true), Course::Apply { backup: false });

    // Verify Done task removed from context.md
    assert!(!files.context.contains("[Done] [TASK-002]"));
    assert!(files.context.contains("[Todo] [TASK-001]"));

    // Verify Done task archived
    assert!(files.tasks_archive.unwrap().contains("[Done] [TASK-002] Completed task"));

    // Verify stale ADR moved from decisions.md to archive
    assert!(!files.decisions.contains("ADR-002: Old stuff"));
    assert!(files.decisions.contains("ADR-001: Use Rust"));
    assert!(files.decisions_archive.unwrap().contains("ADR-002: Old stuff"));
}

#[test]
fn test_cleanup_idempotent() {
    let mut files = setup_memory_dir();

    // First cleanup: archives the Done task
    run(&mut files, &args(false, true), true);
    assert!(!files.context.contains("[Done] [TASK-002]"));
    let archive1 = files.tasks_archive.clone().unwrap();
    let count1 = archive1.matches("[Done] [TASK-002]").count();
    assert_eq!(count1, 1, "Done task should appear exactly once after first cleanup");

    // Second cleanup: no issues, no changes
    assert_eq!(run(&mut files, &args(false, true), true), Course::RebuildOnly);
    assert_eq!(
        Some(archive1),
        files.tasks_archive,
        "Second cleanup should not modify tasks_archive.md"
    );
}

#[test]
fn test_cleanup_no_resurrection() {
    let mut files = setup_memory_dir();
    run(&mut files, &args(false, true), true);

    // Re-parse context.md — Done task must NOT be in active_tasks
    let state = parse_context(&files.context).unwrap();
    assert!(
        !state.active_tasks.iter().any(|t| t.id == "TASK-002"),
        "Done task should not be resurrected in active_tasks"
    );

    // Verify Done task IS in archive
    assert!(
        files.tasks_archive.unwrap().contains("[Done] [TASK-002]"),
        "Done task should be present in tasks_archive.md"
    );
}

#[test]
fn test_cleanup_creates_backup() {
    let mut files = setup_memory_dir();
    assert_eq!(run(&mut files, &args(false, false), true), Course::Apply { backup: true });

    // Verify format: YYYYMMDD-HHMMSS
    let dir_name = backup_timestamp(NOW);
    assert!(
        dir_name.len() == 15 && dir_name.contains('-') && dir_name[8..9] == *"-",
        "backup dir name should be YYYYMMDD-HHMMSS format, got: {}",
        dir_name
    );
    assert_eq!(dir_name, "20260715-120000");

    let manifest = backup_manifest(NOW);
    assert_eq!(manifest.version, "memguard-v4");
    assert_eq!(manifest.reason, "cleanup");
    assert!(manifest.created_at.contains('T'));
    assert_eq!(manifest.created_at, "2026-07-15T12:00:00Z");
}

#[test]
fn test_cleanup_no_backup_flag() {
    let mut files = setup_memory_dir();
    assert_eq!(run(&mut files, &args(false, true), true), Course::Apply { backup: false });
}

#[test]
fn test_cleanup_rebuilds_cache_files() {
    let files = setup_memory_dir();
    let m = read_memory(&files.context, &files.decisions, "", "").unwrap();

    // The rebuilt runtime state has no Done tasks.
    let cleaned = clean_state(&m.state);
    assert!(
        cleaned.active_tasks.iter().all(|t| t.status != TaskStatus::Done),
        "rebuilt runtime_state should not contain Done tasks"
    );
    assert_eq!(cleaned.active_tasks.len(), 1);

    // The rebuilt index has terms and metadata.
    let adrs = parse_decisions(&files.decisions).unwrap();
    let doc = SearchIndex::build(&adrs, &[]).to_index_json(&adrs, &[], NOW);
    assert!(!doc.terms.is_empty(), "rebuilt index should have terms");
    assert!(!doc.version.is_empty() && !doc.rebuilt_at.is_empty());
}

// ── Arguments, answers and reports ─────────────────────────────────────────

fn parsed(list: &[&str]) -> CleanupArgs {
    let all: Vec<String> = list.iter().map(|s| s.to_string()).collect();
    CleanupArgs::parse(&all, "/here")
}

#[test]
fn arguments_are_read_from_the_third_on() {
    let a = parsed(&["memguard", "cleanup"]);
    assert!(!a.dry_run && !a.no_backup);
    assert_eq!(a.project_root, "/here");

    let a = parsed(&["memguard", "cleanup", "--dry-run", "--project-root", "/p", "--no-backup"]);
    assert!(a.dry_run && a.no_backup);
    assert_eq!(a.project_root, "/p");

    // The path is taken as it is, an unknown word is passed over, and so is a
    // missing path.
    let a = parsed(&["memguard", "cleanup", "--project-root", "--dry-run", "x", "--project-root"]);
    assert!(!a.dry_run);
    assert_eq!(a.project_root, "--dry-run");

    let a = parsed(&["--dry-run", "--no-backup"]);
    assert!(!a.dry_run && !a.no_backup);
}

#[test]
fn only_yes_confirms() {
    for yes in ["y", "Y", "yes\n", "  YES  "] {
        assert!(is_confirmation(yes), "{}", yes);
    }
    for no in ["", "n", "yeah", "no", "yy"] {
        assert!(!is_confirmation(no), "{}", no);
    }
}

#[test]
fn a_question_comes_before_changes() {
    let issues = CleanupIssues::default();
    assert_eq!(course(&args(false, false), &issues, None), Course::RebuildOnly);
    let mut issues = CleanupIssues::default();
    issues.content_hash_warnings.push("w".into());
    assert_eq!(course(&args(false, false), &issues, None), Course::Ask);
    assert_eq!(course(&args(true, false), &issues, None), Course::DryRun);
}

#[test]
fn the_report_is_exact() {
    assert_eq!(render_report(&CleanupIssues::default()), "Found:\n  No issues found.\n");
    let issues = CleanupIssues {
        completed_tasks: vec![make_task("TASK-001", "a", TaskStatus::Done)],
        duplicate_pairs: vec![
            (
                make_adr("ADR-001", "T", AdrStatus::Accepted, "d"),
                make_adr("ADR-002", "T", AdrStatus::Proposed, "d"),
            ),
            (
                make_adr("ADR-001", "T", AdrStatus::Accepted, "d"),
                make_adr("ADR-003", "T", AdrStatus::Proposed, "d"),
            ),
        ],
        stale_adrs_in_main: vec![make_adr("ADR-004", "S", AdrStatus::Rejected, "s")],
        content_hash_warnings: vec!["ADR ADR-001 and ADR-002 have identical content_hash".into()],
    };
    assert_eq!(
        render_report(&issues),
        "Found:\n  1 completed task\n  2 duplicate ADRs\n  1 stale ADR in decisions.md\n\nWarnings:\n  ADR ADR-001 and ADR-002 have identical content_hash\n\nSuggested:\n  Archive 1 completed task\n  Supersede ADR-002 (keep ADR-001)\n  Supersede ADR-003 (keep ADR-001)\n  Move ADR-004 to archive\n"
    );
}

#[test]
fn content_is_compared_case_and_outer_space_aside() {
    let state = parse_context("# Current Phase\nplan\n").unwrap();
    let a = make_adr("ADR-001", " Use Rust ", AdrStatus::Accepted, "DECISION");
    let b = make_adr("ADR-002", "use rust", AdrStatus::Accepted, "decision ");
    let issues = analyze(&state, &[a], &[b]);
    assert!(issues.duplicate_pairs.is_empty());
    assert_eq!(
        issues.content_hash_warnings,
        vec!["ADR ADR-001 and ADR-002 have identical content_hash"]
    );
}

#[test]
fn archived_duplicates_are_marked_superseded() {
    let state = parse_context("# Current Phase\nplan\n").unwrap();
    let main = vec![make_adr("ADR-001", "Use Rust", AdrStatus::Accepted, "Rust.")];
    let archive = vec![
        make_adr("ADR-005", "Use Rust", AdrStatus::Rejected, "Rust."),
        make_adr("ADR-006", "Other", AdrStatus::Archived, "Other."),
    ];
    let issues = analyze(&state, &main, &archive);
    let plan = apply_changes(&state, &main, &archive, &issues, "", NOW);
    let stale = parse_decisions(&plan.decisions_archive.unwrap()).unwrap();
    let told: Vec<(&str, AdrStatus)> = stale.iter().map(|a| (a.id.as_str(), a.status)).collect();
    assert_eq!(
        told,
        vec![("ADR-006", AdrStatus::Archived), ("ADR-005", AdrStatus::Superseded)]
    );
    assert!(plan.tasks_archive.is_none());
    assert!(plan.decisions.starts_with(
        "> Historical decisions are in [decisions_archive.md](./decisions_archive.md)\n\n"
    ));
}

#[test]
fn a_context_without_a_phase_is_refused() {
    match read_memory("# Active Tasks\n", "", "", "") {
        Err(e) => assert_eq!(
            e.message,
            "Missing 'Current Phase' / '当前阶段' section in context.md"
        ),
        Ok(_) => panic!("there is no phase"),
    }
}

#[test]
fn superseded_duplicates_leave_the_main_file() {
    let state = RuntimeState {
        current_phase: "plan".into(),
        active_tasks: vec![],
        done_tasks: vec![],
        constraints: vec![],
    };
    let main = [
        make_adr("ADR-001", "Use Rust", AdrStatus::Accepted, "Rust."),
        make_adr("ADR-002", "Use Rust", AdrStatus::Accepted, "Rust."),
        make_adr("ADR-003", "Use Go", AdrStatus::Accepted, "Go."),
    ];
    let issues = analyze(&state, &main, &[]);
    assert!(render_report(&issues).contains("Supersede ADR-002 (keep ADR-001)"));
    let plan = apply_changes(&state, &main, &[], &issues, "", 0);
    let kept = parse_decisions(&plan.decisions).unwrap();
    let ids: Vec<&str> = kept.iter().map(|a| a.id.as_str()).collect();
    assert_eq!(ids, vec!["ADR-001", "ADR-003"]);
    let archived = parse_decisions(&plan.decisions_archive.unwrap()).unwrap();
    assert_eq!(archived.len(), 1);
    assert_eq!(archived[0].id, "ADR-002");
    assert_eq!(archived[0].status, AdrStatus::Superseded);
}

#[test]
fn a_second_cleanup_writes_nothing() {
    let mut files = Files {
        context: "# Current Phase\n  # odd\nphase\n\n# Active Tasks\n- [Done] a\n- b\n- [Blocked] [TASK-1234] c\n\n# Constraints\n- - # x\n".into(),
        decisions: "## ADR-001:  A \n### Context\n  x  \n\n\n## ADR-002: B\n**Status:** archived\n".into(),
        tasks_archive: Some("- [Done] [OLD-1] flat".into()),
        decisions_archive: None,
    };
    assert_eq!(run(&mut files, &args(false, false), true), Course::Apply { backup: true });
    let once = (
        files.context.clone(),
        files.decisions.clone(),
        files.tasks_archive.clone(),
        files.decisions_archive.clone(),
    );
    assert!(once.2.as_ref().unwrap().contains("- [Done] [OLD-1] flat\n"));
    assert_eq!(run(&mut files, &args(false, false), true), Course::RebuildOnly);
    assert_eq!(
        once,
        (files.context, files.decisions, files.tasks_archive, files.decisions_archive)
    );
}
