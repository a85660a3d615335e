//! Cleaning up a project's memory: what is amiss, how it is reported, and what
//! the files hold afterwards.
use vstd::prelude::*;

use crate::engine::calendar::{date_of, date_text, iso8601, time_text, today_date};
use crate::engine::persistence::{adr_status_priority, opt_text, status_priority};
use crate::engine::projection::archive::archive_after;
use crate::engine::projection::context::{
    context_text, is_open, law_context_reads_back, law_read_state_is_one_line,
    law_rewritten_context_is_open, one_line_task, readable_state, readable_task, retold_state,
    state_in,
};
use crate::engine::projection::decisions::{
    adrs_by_activity, adrs_in, adrs_text, decisions_file_text, is_active, is_stale,
    law_adrs_read_back, law_noted_adrs_read_back, law_read_adrs_can_be_written, lemma_filter_from,
    lemma_filter_has, lemma_settled_all, read_adr, readable_adr, render_decisions_file, settled_adr,
};
use crate::engine::projection::traps::traps_in;
use crate::engine::projection::{
    append_tasks_archive, parse_context, parse_decisions, parse_traps, render_context,
    render_decisions, ParseError,
};
use crate::engine::validators::{has_same_content, same_content};
use crate::foreign::{lowercase, to_lower};
use crate::models::{
    adr_views, clone_strings, task_views, trap_views, AdrStatus, AdrView, RuntimeState,
    RuntimeStateView, Task, TaskStatus, TaskView, Trap, ADR,
};
use crate::text::{decimal, decimal_of, same_text, string_of, texts, to_chars, trim, trimmed};

verus! {

// ── Argument parsing ───────────────────────────────────────────────────────

pub struct CleanupArgs {
    pub dry_run: bool,
    pub project_root: String,
    pub no_backup: bool,
}

#[verifier::ext_equal]
pub struct CleanupArgsView {
    pub dry_run: bool,
    pub project_root: Seq<char>,
    pub no_backup: bool,
}

impl View for CleanupArgs {
    type V = CleanupArgsView;

    open spec fn view(&self) -> CleanupArgsView {
        CleanupArgsView {
            dry_run: self.dry_run,
            project_root: self.project_root@,
            no_backup: self.no_backup,
        }
    }
}

/// What the arguments from position `i` on make of the settings so far. Later ones
/// count; what is not known, and a `--project-root` without a path, is passed over.
pub open spec fn args_from(args: Seq<Seq<char>>, i: int, so_far: CleanupArgsView) -> CleanupArgsView
    decreases args.len() - i,
{
    if i < 0 || i >= args.len() {
        so_far
    } else if args[i] == "--dry-run"@ {
        args_from(args, i + 1, CleanupArgsView { dry_run: true, ..so_far })
    } else if args[i] == "--no-backup"@ {
        args_from(args, i + 1, CleanupArgsView { no_backup: true, ..so_far })
    } else if args[i] == "--project-root"@ && i + 1 < args.len() {
        args_from(args, i + 2, CleanupArgsView { project_root: args[i + 1], ..so_far })
    } else {
        args_from(args, i + 1, so_far)
    }
}

impl CleanupArgs {
    /// Parse the process's arguments, of which the program's name and "cleanup" are
    /// the first two. Supports `--dry-run`, `--no-backup` and
    /// `--project-root <path>`; the root is `cwd` where none is given.
    pub fn parse(args: &Vec<String>, cwd: &str) -> (r: Self)
        ensures
            r@ == args_from(
                texts(args@),
                2,
                (CleanupArgsView { dry_run: false, project_root: cwd@, no_backup: false }),
            ),
    {
        let ghost all = texts(args@);
        let mut r = CleanupArgs { dry_run: false, project_root: cwd.to_owned(), no_backup: false };
        let ghost start = r@;
        assert(start == CleanupArgsView {
            dry_run: false,
            project_root: cwd@,
            no_backup: false,
        });
        let mut i: usize = 2;
        while i < args.len()
            invariant
                2 <= i,
                all == texts(args@),
                args_from(all, 2, start) == args_from(all, i as int, r@),
            decreases args@.len() - i,
        {
            assert(all[i as int] == args@[i as int]@);
            if same_text(args[i].as_str(), "--dry-run") {
                r.dry_run = true;
            } else if same_text(args[i].as_str(), "--no-backup") {
                r.no_backup = true;
            } else if same_text(args[i].as_str(), "--project-root") && i + 1 < args.len() {
                r.project_root = args[i + 1].clone();
                assert(all[i + 1] == args@[i + 1]@);
                i = i + 1;
            }
            i = i + 1;
        }
        r
    }
}

// ── Issue detection ────────────────────────────────────────────────────────

/// What a cleanup would mend.
#[derive(Debug)]
pub struct CleanupIssues {
    /// Finished tasks found in active_tasks
    pub completed_tasks: Vec<Task>,
    /// Duplicate ADRs: (keep, supersede)
    pub duplicate_pairs: Vec<(ADR, ADR)>,
    /// ADRs with stale status found in decisions.md
    pub stale_adrs_in_main: Vec<ADR>,
    /// Warnings about ADRs with the same content but different IDs
    pub content_hash_warnings: Vec<String>,
}

#[verifier::ext_equal]
pub struct CleanupIssuesView {
    pub completed_tasks: Seq<TaskView>,
    pub duplicate_pairs: Seq<(AdrView, AdrView)>,
    pub stale_adrs_in_main: Seq<AdrView>,
    pub content_hash_warnings: Seq<Seq<char>>,
}

pub open spec fn pair_views(pairs: Seq<(ADR, ADR)>) -> Seq<(AdrView, AdrView)> {
    pairs.map_values(|p: (ADR, ADR)| (p.0@, p.1@))
}

impl View for CleanupIssues {
    type V = CleanupIssuesView;

    open spec fn view(&self) -> CleanupIssuesView {
        CleanupIssuesView {
            completed_tasks: task_views(self.completed_tasks@),
            duplicate_pairs: pair_views(self.duplicate_pairs@),
            stale_adrs_in_main: adr_views(self.stale_adrs_in_main@),
            content_hash_warnings: texts(self.content_hash_warnings@),
        }
    }
}

pub open spec fn no_issues() -> CleanupIssuesView {
    CleanupIssuesView {
        completed_tasks: Seq::empty(),
        duplicate_pairs: Seq::empty(),
        stale_adrs_in_main: Seq::empty(),
        content_hash_warnings: Seq::empty(),
    }
}

impl Default for CleanupIssues {
    fn default() -> (r: Self)
        ensures
            r@ == no_issues(),
    {
        let r = CleanupIssues {
            completed_tasks: Vec::new(),
            duplicate_pairs: Vec::new(),
            stale_adrs_in_main: Vec::new(),
            content_hash_warnings: Vec::new(),
        };
        assert(r@ =~= no_issues());
        r
    }
}

impl CleanupIssues {
    pub fn is_empty(&self) -> (r: bool)
        ensures
            r == (self@ == no_issues()),
    {
        let r = self.completed_tasks.len() == 0 && self.duplicate_pairs.len() == 0
            && self.stale_adrs_in_main.len() == 0 && self.content_hash_warnings.len() == 0;
        proof {
            assert(self@.completed_tasks.len() == self.completed_tasks@.len());
            assert(self@.duplicate_pairs.len() == self.duplicate_pairs@.len());
            assert(self@.stale_adrs_in_main.len() == self.stale_adrs_in_main@.len());
            assert(self@.content_hash_warnings.len() == self.content_hash_warnings@.len());
            if r {
                assert(self@ =~= no_issues());
            }
        }
        r
    }
}

/// What `f` gives for the pairs of a list, earlier one first, from the pair at `i`
/// and `j` on: by the first of the two, then by the second.
pub open spec fn picked_pairs<B>(
    all: Seq<AdrView>,
    f: spec_fn(AdrView, AdrView) -> Option<B>,
    i: int,
    j: int,
) -> Seq<B>
    decreases all.len() - i, all.len() - j,
{
    if i < 0 || i >= all.len() {
        Seq::empty()
    } else if j >= all.len() {
        picked_pairs(all, f, i + 1, i + 2)
    } else {
        match f(all[i], all[j]) {
            Some(b) => seq![b] + picked_pairs(all, f, i, j + 1),
            None => picked_pairs(all, f, i, j + 1),
        }
    }
}

/// Two ADRs of different ids with the same title and decision: the one to keep,
/// which is the one whose status counts for more or else the earlier, and the one
/// to supersede.
pub open spec fn duplicates() -> spec_fn(AdrView, AdrView) -> Option<(AdrView, AdrView)> {
    |a: AdrView, b: AdrView|
        if a.title == b.title && a.decision == b.decision && a.id != b.id {
            if status_priority(a.status) >= status_priority(b.status) {
                Some((a, b))
            } else {
                Some((b, a))
            }
        } else {
            None
        }
}

pub open spec fn twin_warning(a: Seq<char>, b: Seq<char>) -> Seq<char> {
    "ADR "@ + a + " and "@ + b + " have identical content_hash"@
}

/// A warning about two ADRs of different ids that say the same.
pub open spec fn twins() -> spec_fn(AdrView, AdrView) -> Option<Seq<char>> {
    |a: AdrView, b: AdrView|
        if a.id != b.id && same_content(a, b) {
            Some(twin_warning(a.id, b.id))
        } else {
            None
        }
}

pub open spec fn is_finished() -> spec_fn(TaskView) -> bool {
    |t: TaskView| t.status.terminal()
}

/// What is amiss in a memory state.
pub open spec fn issues_in(
    state: RuntimeStateView,
    main: Seq<AdrView>,
    archive: Seq<AdrView>,
) -> CleanupIssuesView {
    CleanupIssuesView {
        completed_tasks: state.active_tasks.filter(is_finished()),
        duplicate_pairs: picked_pairs(main + archive, duplicates(), 0, 1),
        stale_adrs_in_main: main.filter(is_stale()),
        content_hash_warnings: picked_pairs(main + archive, twins(), 0, 1),
    }
}

fn finished_tasks(tasks: &Vec<Task>) -> (r: Vec<Task>)
    ensures
        task_views(r@) == task_views(tasks@).filter(is_finished()),
{
    let mut r: Vec<Task> = Vec::new();
    let ghost all = task_views(tasks@);
    let mut i: usize = 0;
    proof {
        reveal(Seq::filter);
        assert(all.take(0).filter(is_finished()) =~= Seq::empty());
    }
    while i < tasks.len()
        invariant
            i <= tasks@.len(),
            all == task_views(tasks@),
            task_views(r@) == all.take(i as int).filter(is_finished()),
        decreases tasks@.len() - i,
    {
        proof {
            reveal(Seq::filter);
            assert(all.take(i + 1).drop_last() =~= all.take(i as int));
            assert(all.take(i + 1).last() == tasks@[i as int]@);
        }
        if tasks[i].status.is_terminal() {
            let t = tasks[i].clone();
            let ghost before = r@;
            r.push(t);
            assert(task_views(r@) =~= task_views(before).push(t@));
        }
        i = i + 1;
    }
    assert(all.take(i as int) =~= all);
    r
}

/// The ADRs of both files, those of decisions.md first.
fn both<'a>(main: &'a [ADR], archive: &'a [ADR]) -> (r: Vec<&'a ADR>)
    ensures
        r@.map_values(|a: &ADR| a@) == adr_views(main@) + adr_views(archive@),
{
    let mut r: Vec<&ADR> = Vec::new();
    let ghost view = |a: &ADR| a@;
    let mut i: usize = 0;
    while i < main.len()
        invariant
            i <= main@.len(),
            view == |a: &ADR| a@,
            r@.map_values(view) == adr_views(main@).take(i as int),
        decreases main@.len() - i,
    {
        let ghost before = r@;
        r.push(&main[i]);
        proof {
            assert(r@.map_values(view) =~= before.map_values(view).push(main@[i as int]@));
            assert(adr_views(main@).take(i + 1) =~= adr_views(main@).take(i as int).push(
                main@[i as int]@,
            ));
        }
        i = i + 1;
    }
    let mut j: usize = 0;
    assert(adr_views(main@).take(i as int) =~= adr_views(main@) + adr_views(archive@).take(0));
    while j < archive.len()
        invariant
            j <= archive@.len(),
            view == |a: &ADR| a@,
            r@.map_values(view) == adr_views(main@) + adr_views(archive@).take(j as int),
        decreases archive@.len() - j,
    {
        let ghost before = r@;
        r.push(&archive[j]);
        proof {
            assert(r@.map_values(view) =~= before.map_values(view).push(archive@[j as int]@));
            assert(adr_views(archive@).take(j + 1) =~= adr_views(archive@).take(j as int).push(
                archive@[j as int]@,
            ));
        }
        j = j + 1;
    }
    assert(adr_views(archive@).take(j as int) =~= adr_views(archive@));
    r
}

fn duplicate_pairs(all: &Vec<&ADR>) -> (r: Vec<(ADR, ADR)>)
    ensures
        pair_views(r@) == picked_pairs(all@.map_values(|a: &ADR| a@), duplicates(), 0, 1),
{
    let ghost adrs = all@.map_values(|a: &ADR| a@);
    let ghost whole = picked_pairs(adrs, duplicates(), 0, 1);
    let mut r: Vec<(ADR, ADR)> = Vec::new();
    let mut i: usize = 0;
    assert(pair_views(r@) =~= Seq::empty());
    while i < all.len()
        invariant
            i <= all@.len(),
            adrs == all@.map_values(|a: &ADR| a@),
            whole == pair_views(r@) + picked_pairs(adrs, duplicates(), i as int, i + 1),
        decreases all@.len() - i,
    {
        let mut j: usize = i + 1;
        while j < all.len()
            invariant
                i < all@.len(),
                i < j <= all@.len(),
                adrs == all@.map_values(|a: &ADR| a@),
                whole == pair_views(r@) + picked_pairs(adrs, duplicates(), i as int, j as int),
            decreases all@.len() - j,
        {
            let a = all[i];
            let b = all[j];
            let ghost before = r@;
            let ghost rest = picked_pairs(adrs, duplicates(), i as int, j + 1);
            assert(adrs[i as int] == a@ && adrs[j as int] == b@);
            if same_text(a.title.as_str(), b.title.as_str()) && same_text(
                a.decision.as_str(),
                b.decision.as_str(),
            ) && !same_text(a.id.as_str(), b.id.as_str()) {
                let pair = if adr_status_priority(&a.status) >= adr_status_priority(&b.status) {
                    (a.clone(), b.clone())
                } else {
                    (b.clone(), a.clone())
                };
                r.push(pair);
                proof {
                    let p = (pair.0@, pair.1@);
                    assert(duplicates()(a@, b@) == Some(p));
                    assert(pair_views(r@) =~= pair_views(before).push(p));
                    assert(pair_views(before) + (seq![p] + rest) =~= pair_views(r@) + rest);
                }
            } else {
                assert(duplicates()(a@, b@) is None);
            }
            j = j + 1;
        }
        i = i + 1;
    }
    assert(picked_pairs(adrs, duplicates(), i as int, i + 1) =~= Seq::empty());
    assert(whole =~= pair_views(r@));
    r
}

fn twin_warnings(all: &Vec<&ADR>) -> (r: Vec<String>)
    ensures
        texts(r@) == picked_pairs(all@.map_values(|a: &ADR| a@), twins(), 0, 1),
{
    let ghost adrs = all@.map_values(|a: &ADR| a@);
    let ghost whole = picked_pairs(adrs, twins(), 0, 1);
    let mut r: Vec<String> = Vec::new();
    let mut i: usize = 0;
    assert(texts(r@) =~= Seq::empty());
    while i < all.len()
        invariant
            i <= all@.len(),
            adrs == all@.map_values(|a: &ADR| a@),
            whole == texts(r@) + picked_pairs(adrs, twins(), i as int, i + 1),
        decreases all@.len() - i,
    {
        let mut j: usize = i + 1;
        while j < all.len()
            invariant
                i < all@.len(),
                i < j <= all@.len(),
                adrs == all@.map_values(|a: &ADR| a@),
                whole == texts(r@) + picked_pairs(adrs, twins(), i as int, j as int),
            decreases all@.len() - j,
        {
            let a = all[i];
            let b = all[j];
            let ghost before = r@;
            let ghost rest = picked_pairs(adrs, twins(), i as int, j + 1);
            assert(adrs[i as int] == a@ && adrs[j as int] == b@);
            if !same_text(a.id.as_str(), b.id.as_str()) && has_same_content(a, b) {
                let mut w = "ADR ".to_owned();
                w.append(a.id.as_str());
                w.append(" and ");
                w.append(b.id.as_str());
                w.append(" have identical content_hash");
                r.push(w);
                proof {
                    assert(twins()(a@, b@) == Some(w@));
                    assert(texts(r@) =~= texts(before).push(w@));
                    assert(texts(before) + (seq![w@] + rest) =~= texts(r@) + rest);
                }
            } else {
                assert(twins()(a@, b@) is None);
            }
            j = j + 1;
        }
        i = i + 1;
    }
    assert(picked_pairs(adrs, twins(), i as int, i + 1) =~= Seq::empty());
    assert(whole =~= texts(r@));
    r
}

/// Analyze loaded memory state for cleanup opportunities.
pub fn analyze(state: &RuntimeState, main_adrs: &[ADR], archive_adrs: &[ADR]) -> (r: CleanupIssues)
    ensures
        r@ == issues_in(state@, adr_views(main_adrs@), adr_views(archive_adrs@)),
{
    let all = both(main_adrs, archive_adrs);
    CleanupIssues {
        completed_tasks: finished_tasks(&state.active_tasks),
        duplicate_pairs: duplicate_pairs(&all),
        stale_adrs_in_main: adrs_by_activity(main_adrs, false),
        content_hash_warnings: twin_warnings(&all),
    }
}

// ── Report rendering ───────────────────────────────────────────────────────

pub open spec fn plural(n: nat) -> Seq<char> {
    if n == 1 {
        ""@
    } else {
        "s"@
    }
}

/// A line that counts things, or nothing where there are none.
pub open spec fn count_line(
    before: Seq<char>,
    n: nat,
    noun: Seq<char>,
    after: Seq<char>,
) -> Seq<char> {
    if n == 0 {
        Seq::empty()
    } else {
        before + decimal(n) + noun + plural(n) + after
    }
}

/// The texts one after the other.
pub open spec fn concat(parts: Seq<Seq<char>>) -> Seq<char>
    decreases parts.len(),
{
    if parts.len() == 0 {
        Seq::empty()
    } else {
        concat(parts.drop_last()) + parts.last()
    }
}

pub open spec fn warning_line() -> spec_fn(Seq<char>) -> Seq<char> {
    |w: Seq<char>| "  "@ + w + "\n"@
}

pub open spec fn supersede_line() -> spec_fn((AdrView, AdrView)) -> Seq<char> {
    |p: (AdrView, AdrView)| "  Supersede "@ + p.1.id + " (keep "@ + p.0.id + ")\n"@
}

pub open spec fn move_line() -> spec_fn(AdrView) -> Seq<char> {
    |a: AdrView| "  Move "@ + a.id + " to archive\n"@
}

/// What was found, counted.
pub open spec fn found_text(issues: CleanupIssuesView) -> Seq<char> {
    "Found:\n"@ + count_line("  "@, issues.completed_tasks.len(), " completed task"@, "\n"@)
        + count_line("  "@, issues.duplicate_pairs.len(), " duplicate ADR"@, "\n"@) + count_line(
        "  "@,
        issues.stale_adrs_in_main.len(),
        " stale ADR"@,
        " in decisions.md\n"@,
    )
}

pub open spec fn warnings_text(warnings: Seq<Seq<char>>) -> Seq<char> {
    if warnings.len() == 0 {
        Seq::empty()
    } else {
        "\nWarnings:\n"@ + concat(warnings.map_values(warning_line()))
    }
}

/// What would be done about it.
pub open spec fn suggested_text(issues: CleanupIssuesView) -> Seq<char> {
    "\nSuggested:\n"@ + count_line(
        "  Archive "@,
        issues.completed_tasks.len(),
        " completed task"@,
        "\n"@,
    ) + concat(issues.duplicate_pairs.map_values(supersede_line())) + concat(
        issues.stale_adrs_in_main.map_values(move_line()),
    )
}

/// The report on the issues.
pub open spec fn report_text(issues: CleanupIssuesView) -> Seq<char> {
    if issues == no_issues() {
        found_text(issues) + "  No issues found.\n"@
    } else {
        found_text(issues) + warnings_text(issues.content_hash_warnings) + suggested_text(issues)
    }
}

fn append_count(out: &mut String, before: &str, n: usize, noun: &str, after: &str)
    ensures
        final(out)@ == old(out)@ + count_line(before@, n as nat, noun@, after@),
{
    let ghost start = out@;
    if n > 0 {
        out.append(before);
        let number = decimal_of(n as u128);
        out.append(number.as_str());
        out.append(noun);
        if n != 1 {
            out.append("s");
        }
        out.append(after);
        proof {
            reveal_strlit("");
            assert(n as u64 == n);
        }
    }
    assert(out@ =~= start + count_line(before@, n as nat, noun@, after@));
}

proof fn lemma_concat_push(parts: Seq<Seq<char>>, x: Seq<char>)
    ensures
        concat(parts.push(x)) == concat(parts) + x,
{
    assert(parts.push(x).drop_last() =~= parts);
}

fn append_warnings(out: &mut String, warnings: &Vec<String>)
    ensures
        final(out)@ == old(out)@ + concat(texts(warnings@).map_values(warning_line())),
{
    let ghost start = out@;
    let ghost parts = texts(warnings@).map_values(warning_line());
    let mut i: usize = 0;
    assert(parts.take(0) =~= Seq::empty());
    assert(out@ =~= start + concat(parts.take(0)));
    while i < warnings.len()
        invariant
            i <= warnings@.len(),
            parts == texts(warnings@).map_values(warning_line()),
            out@ == start + concat(parts.take(i as int)),
        decreases warnings@.len() - i,
    {
        let ghost before = out@;
        out.append("  ");
        out.append(warnings[i].as_str());
        out.append("\n");
        proof {
            lemma_concat_push(parts.take(i as int), parts[i as int]);
            assert(parts.take(i + 1) =~= parts.take(i as int).push(parts[i as int]));
            assert(out@ =~= before + parts[i as int]);
            assert(out@ =~= start + concat(parts.take(i + 1)));
        }
        i = i + 1;
    }
    assert(parts.take(i as int) =~= parts);
}

fn append_supersessions(out: &mut String, pairs: &Vec<(ADR, ADR)>)
    ensures
        final(out)@ == old(out)@ + concat(pair_views(pairs@).map_values(supersede_line())),
{
    let ghost start = out@;
    let ghost parts = pair_views(pairs@).map_values(supersede_line());
    let mut i: usize = 0;
    assert(parts.take(0) =~= Seq::empty());
    assert(out@ =~= start + concat(parts.take(0)));
    while i < pairs.len()
        invariant
            i <= pairs@.len(),
            parts == pair_views(pairs@).map_values(supersede_line()),
            out@ == start + concat(parts.take(i as int)),
        decreases pairs@.len() - i,
    {
        let ghost before = out@;
        out.append("  Supersede ");
        out.append(pairs[i].1.id.as_str());
        out.append(" (keep ");
        out.append(pairs[i].0.id.as_str());
        out.append(")\n");
        proof {
            lemma_concat_push(parts.take(i as int), parts[i as int]);
            assert(parts.take(i + 1) =~= parts.take(i as int).push(parts[i as int]));
            assert(out@ =~= before + parts[i as int]);
            assert(out@ =~= start + concat(parts.take(i + 1)));
        }
        i = i + 1;
    }
    assert(parts.take(i as int) =~= parts);
}

fn append_moves(out: &mut String, adrs: &Vec<ADR>)
    ensures
        final(out)@ == old(out)@ + concat(adr_views(adrs@).map_values(move_line())),
{
    let ghost start = out@;
    let ghost parts = adr_views(adrs@).map_values(move_line());
    let mut i: usize = 0;
    assert(parts.take(0) =~= Seq::empty());
    assert(out@ =~= start + concat(parts.take(0)));
    while i < adrs.len()
        invariant
            i <= adrs@.len(),
            parts == adr_views(adrs@).map_values(move_line()),
            out@ == start + concat(parts.take(i as int)),
        decreases adrs@.len() - i,
    {
        let ghost before = out@;
        out.append("  Move ");
        out.append(adrs[i].id.as_str());
        out.append(" to archive\n");
        proof {
            lemma_concat_push(parts.take(i as int), parts[i as int]);
            assert(parts.take(i + 1) =~= parts.take(i as int).push(parts[i as int]));
            assert(out@ =~= before + parts[i as int]);
            assert(out@ =~= start + concat(parts.take(i + 1)));
        }
        i = i + 1;
    }
    assert(parts.take(i as int) =~= parts);
}

/// Generate a human-readable report from CleanupIssues.
pub fn render_report(issues: &CleanupIssues) -> (r: String)
    ensures
        r@ == report_text(issues@),
{
    proof {
        assert(issues@.completed_tasks.len() == issues.completed_tasks@.len());
        assert(issues@.duplicate_pairs.len() == issues.duplicate_pairs@.len());
        assert(issues@.stale_adrs_in_main.len() == issues.stale_adrs_in_main@.len());
        assert(issues@.content_hash_warnings.len() == issues.content_hash_warnings@.len());
    }
    let mut report = "Found:\n".to_owned();
    append_count(&mut report, "  ", issues.completed_tasks.len(), " completed task", "\n");
    append_count(&mut report, "  ", issues.duplicate_pairs.len(), " duplicate ADR", "\n");
    append_count(
        &mut report,
        "  ",
        issues.stale_adrs_in_main.len(),
        " stale ADR",
        " in decisions.md\n",
    );
    assert(report@ == found_text(issues@));
    if issues.is_empty() {
        report.append("  No issues found.\n");
        return report;
    }
    if issues.content_hash_warnings.len() > 0 {
        report.append("\nWarnings:\n");
        append_warnings(&mut report, &issues.content_hash_warnings);
    }
    assert(report@ =~= found_text(issues@) + warnings_text(issues@.content_hash_warnings));
    let ghost before = report@;
    report.append("\nSuggested:\n");
    append_count(&mut report, "  Archive ", issues.completed_tasks.len(), " completed task", "\n");
    append_supersessions(&mut report, &issues.duplicate_pairs);
    append_moves(&mut report, &issues.stale_adrs_in_main);
    assert(report@ =~= before + suggested_text(issues@));
    report
}

// ── Interactive confirmation ───────────────────────────────────────────────

/// The question that is asked before anything is changed.
pub const CONFIRM_PROMPT: &'static str = "\nContinue? (y/N): ";

pub open spec fn confirms(input: Seq<char>) -> bool {
    lowercase(trim(input)) == "y"@ || lowercase(trim(input)) == "yes"@
}

/// Whether an answer means yes: "y" or "yes", case and outer white space aside.
pub fn is_confirmation(input: &str) -> (r: bool)
    ensures
        r == confirms(input@),
{
    let chars = to_chars(input);
    let core = string_of(trimmed(chars.as_slice()));
    let answer = to_lower(core.as_str());
    same_text(answer.as_str(), "y") || same_text(answer.as_str(), "yes")
}

/// What a cleanup does once the issues are reported.
#[derive(Debug, Clone, Copy, PartialEq, Eq, Structural)]
pub enum Course {
    /// A dry run writes nothing.
    DryRun,
    /// Nothing is amiss: only the cache files are written anew.
    RebuildOnly,
    /// The user has to be asked.
    Ask,
    /// The user said no.
    Cancelled,
    /// The changes are made, after a backup or without.
    Apply { backup: bool },
}

/// The course of a cleanup, given the user's answer where there is one.
pub open spec fn course_of(
    dry_run: bool,
    no_backup: bool,
    issues: CleanupIssuesView,
    answer: Option<bool>,
) -> Course {
    if dry_run {
        Course::DryRun
    } else if issues == no_issues() {
        Course::RebuildOnly
    } else {
        match answer {
            None => Course::Ask,
            Some(false) => Course::Cancelled,
            Some(true) => Course::Apply { backup: !no_backup },
        }
    }
}

/// The course of a cleanup, given the user's answer where there is one.
pub fn course(args: &CleanupArgs, issues: &CleanupIssues, answer: Option<bool>) -> (r: Course)
    ensures
        r == course_of(args.dry_run, args.no_backup, issues@, answer),
{
    if args.dry_run {
        Course::DryRun
    } else if issues.is_empty() {
        Course::RebuildOnly
    } else {
        match answer {
            None => Course::Ask,
            Some(confirmed) => if confirmed {
                Course::Apply { backup: !args.no_backup }
            } else {
                Course::Cancelled
            },
        }
    }
}

// ── Reading the memory files ───────────────────────────────────────────────

/// The memory that a cleanup works on.
pub struct CleanupMemory {
    pub state: RuntimeState,
    pub main_adrs: Vec<ADR>,
    pub archive_adrs: Vec<ADR>,
    pub traps: Vec<Trap>,
}

/// Read the texts of the four files; those that are missing count as empty. Only
/// `context.md` can be beyond reading.
pub fn read_memory(context: &str, decisions: &str, archive: &str, traps: &str) -> (r: Result<
    CleanupMemory,
    ParseError,
>)
    ensures
        r is Ok == state_in(context@) is Some,
        match r {
            Ok(m) => {
                &&& state_in(context@) == Some(m.state@)
                &&& adr_views(m.main_adrs@) == adrs_in(decisions@)
                &&& adr_views(m.archive_adrs@) == adrs_in(archive@)
                &&& trap_views(m.traps@) == traps_in(traps@)
            },
            Err(e) => e.message@ == "Missing 'Current Phase' / '当前阶段' section in context.md"@,
        },
{
    let state = match parse_context(context) {
        Ok(state) => state,
        Err(e) => {
            return Err(e);
        },
    };
    let main_adrs = match parse_decisions(decisions) {
        Ok(adrs) => adrs,
        Err(e) => {
            return Err(e);
        },
    };
    let archive_adrs = match parse_decisions(archive) {
        Ok(adrs) => adrs,
        Err(e) => {
            return Err(e);
        },
    };
    let traps = match parse_traps(traps) {
        Ok(traps) => traps,
        Err(e) => {
            return Err(e);
        },
    };
    Ok(CleanupMemory { state, main_adrs, archive_adrs, traps })
}

// ── Backup ─────────────────────────────────────────────────────────────────

/// What a backup says of itself.
pub struct BackupManifest {
    pub created_at: String,
    pub version: String,
    pub reason: String,
}

/// The manifest of a backup made at `secs` after the epoch.
pub fn backup_manifest(secs: u64) -> (r: BackupManifest)
    ensures
        r.created_at@ == date_text(date_of(secs as int / 86400)) + "T"@ + time_text(
            secs as int,
            ":"@,
        ) + "Z"@,
        r.version@ == "memguard-v4"@,
        r.reason@ == "cleanup"@,
{
    BackupManifest {
        created_at: iso8601(secs),
        version: "memguard-v4".to_owned(),
        reason: "cleanup".to_owned(),
    }
}

// ── Apply changes ──────────────────────────────────────────────────────────

/// The state without Done tasks.
pub open spec fn cleaned(state: RuntimeStateView) -> RuntimeStateView {
    RuntimeStateView {
        active_tasks: state.active_tasks.filter(is_open()),
        done_tasks: Seq::empty(),
        ..state
    }
}

/// Whether an ADR of that id and title is in the list.
pub open spec fn listed(adrs: Seq<AdrView>, id: Seq<char>, title: Seq<char>) -> bool {
    exists|i: int| 0 <= i < adrs.len() && (#[trigger] adrs[i]).id == id && adrs[i].title == title
}

/// Those that are to be superseded, of the pairs of duplicates.
pub open spec fn to_supersede(pairs: Seq<(AdrView, AdrView)>) -> Seq<AdrView> {
    pairs.map_values(|p: (AdrView, AdrView)| p.1)
}

/// The ADRs of `decisions.md` after a cleanup: the active ones that are not to be
/// superseded.
pub open spec fn active_after(main: Seq<AdrView>, issues: CleanupIssuesView) -> Seq<AdrView> {
    let superseded = to_supersede(issues.duplicate_pairs);
    main.filter(is_active()).filter(|a: AdrView| !superseded.contains(a))
}

/// The list with each of `more` that it lacks added at its end, as superseded.
pub open spec fn add_superseded(stale: Seq<AdrView>, more: Seq<AdrView>) -> Seq<AdrView>
    decreases more.len(),
{
    if more.len() == 0 {
        stale
    } else {
        let so_far = add_superseded(stale, more.drop_last());
        let a = more.last();
        if listed(so_far, a.id, a.title) {
            so_far
        } else {
            so_far.push(AdrView { status: AdrStatus::Superseded, ..a })
        }
    }
}

/// The ADRs of `decisions_archive.md` after a cleanup: the stale ones of
/// `decisions.md`, the archived ones that are not superseded anew, and those that
/// are.
pub open spec fn stale_after(archive: Seq<AdrView>, issues: CleanupIssuesView) -> Seq<AdrView> {
    let superseded = to_supersede(issues.duplicate_pairs);
    add_superseded(
        issues.stale_adrs_in_main + archive.filter(
            |a: AdrView| !listed(superseded, a.id, a.title),
        ),
        superseded,
    )
}

/// What a cleanup writes: the text of each file, or `None` where it is left alone.
pub struct CleanupPlan {
    pub context: String,
    pub tasks_archive: Option<String>,
    pub decisions: String,
    pub decisions_archive: Option<String>,
}

#[verifier::ext_equal]
pub struct CleanupPlanView {
    pub context: Seq<char>,
    pub tasks_archive: Option<Seq<char>>,
    pub decisions: Seq<char>,
    pub decisions_archive: Option<Seq<char>>,
}

impl View for CleanupPlan {
    type V = CleanupPlanView;

    open spec fn view(&self) -> CleanupPlanView {
        CleanupPlanView {
            context: self.context@,
            tasks_archive: opt_text(self.tasks_archive),
            decisions: self.decisions@,
            decisions_archive: opt_text(self.decisions_archive),
        }
    }
}

/// What a cleanup on the given day writes, where `existing` is the text of
/// `tasks_archive.md`.
pub open spec fn cleanup_of(
    state: RuntimeStateView,
    main: Seq<AdrView>,
    archive: Seq<AdrView>,
    issues: CleanupIssuesView,
    existing: Seq<char>,
    day: Seq<char>,
) -> CleanupPlanView {
    let stale = stale_after(archive, issues);
    CleanupPlanView {
        context: context_text(cleaned(state)),
        tasks_archive: if issues.completed_tasks.len() == 0 {
            None
        } else {
            Some(archive_after(existing, issues.completed_tasks, day))
        },
        decisions: decisions_file_text(active_after(main, issues), stale.len() > 0),
        decisions_archive: if stale.len() == 0 {
            None
        } else {
            Some(adrs_text(stale))
        },
    }
}

/// The state without Done tasks.
pub fn clean_state(state: &RuntimeState) -> (r: RuntimeState)
    ensures
        r@ == cleaned(state@),
{
    let mut open: Vec<Task> = Vec::new();
    let ghost all = task_views(state.active_tasks@);
    let mut i: usize = 0;
    proof {
        reveal(Seq::filter);
        assert(all.take(0).filter(is_open()) =~= Seq::empty());
    }
    while i < state.active_tasks.len()
        invariant
            i <= state.active_tasks@.len(),
            all == task_views(state.active_tasks@),
            task_views(open@) == all.take(i as int).filter(is_open()),
        decreases state.active_tasks@.len() - i,
    {
        proof {
            reveal(Seq::filter);
            assert(all.take(i + 1).drop_last() =~= all.take(i as int));
            assert(all.take(i + 1).last() == state.active_tasks@[i as int]@);
        }
        if !matches!(state.active_tasks[i].status, TaskStatus::Done) {
            let t = state.active_tasks[i].clone();
            let ghost before = open@;
            open.push(t);
            assert(task_views(open@) =~= task_views(before).push(t@));
        }
        i = i + 1;
    }
    assert(all.take(i as int) =~= all);
    let r = RuntimeState {
        current_phase: state.current_phase.clone(),
        active_tasks: open,
        done_tasks: Vec::new(),
        constraints: clone_strings(&state.constraints),
    };
    assert(r@ =~= cleaned(state@));
    r
}

fn is_listed(adrs: &Vec<ADR>, a: &ADR) -> (r: bool)
    ensures
        r == listed(adr_views(adrs@), a@.id, a@.title),
{
    let mut i: usize = 0;
    while i < adrs.len()
        invariant
            i <= adrs@.len(),
            forall|j: int|
                0 <= j < i ==> !((#[trigger] adr_views(adrs@)[j]).id == a@.id && adr_views(
                    adrs@,
                )[j].title == a@.title),
        decreases adrs@.len() - i,
    {
        assert(adr_views(adrs@)[i as int] == adrs@[i as int]@);
        if same_text(adrs[i].id.as_str(), a.id.as_str()) && same_text(
            adrs[i].title.as_str(),
            a.title.as_str(),
        ) {
            return true;
        }
        i = i + 1;
    }
    false
}

fn superseded_of(pairs: &Vec<(ADR, ADR)>) -> (r: Vec<ADR>)
    ensures
        adr_views(r@) == to_supersede(pair_views(pairs@)),
{
    let mut r: Vec<ADR> = Vec::new();
    let ghost all = to_supersede(pair_views(pairs@));
    let mut i: usize = 0;
    while i < pairs.len()
        invariant
            i <= pairs@.len(),
            all == to_supersede(pair_views(pairs@)),
            adr_views(r@) == all.take(i as int),
        decreases pairs@.len() - i,
    {
        let a = pairs[i].1.clone();
        let ghost before = r@;
        r.push(a);
        proof {
            assert(adr_views(r@) =~= adr_views(before).push(a@));
            assert(all.take(i + 1) =~= all.take(i as int).push(a@));
        }
        i = i + 1;
    }
    assert(all.take(i as int) =~= all);
    r
}

fn same_texts(a: &Vec<String>, b: &Vec<String>) -> (r: bool)
    ensures
        r == (texts(a@) == texts(b@)),
{
    assert(texts(a@).len() == a@.len() && texts(b@).len() == b@.len());
    if a.len() != b.len() {
        return false;
    }
    let mut i: usize = 0;
    while i < a.len()
        invariant
            i <= a@.len(),
            a@.len() == b@.len(),
            forall|j: int| 0 <= j < i ==> (#[trigger] a@[j])@ == b@[j]@,
        decreases a@.len() - i,
    {
        if !same_text(a[i].as_str(), b[i].as_str()) {
            assert(texts(a@)[i as int] != texts(b@)[i as int]);
            return false;
        }
        i = i + 1;
    }
    assert(texts(a@) =~= texts(b@));
    true
}

fn same_adr(a: &ADR, b: &ADR) -> (r: bool)
    ensures
        r == (a@ == b@),
{
    a.status == b.status && same_text(a.id.as_str(), b.id.as_str()) && same_text(
        a.title.as_str(),
        b.title.as_str(),
    ) && same_text(a.context.as_str(), b.context.as_str()) && same_text(
        a.decision.as_str(),
        b.decision.as_str(),
    ) && same_texts(&a.tags, &b.tags)
}

fn holds_adr(adrs: &Vec<ADR>, a: &ADR) -> (r: bool)
    ensures
        r == adr_views(adrs@).contains(a@),
{
    let mut i: usize = 0;
    while i < adrs.len()
        invariant
            i <= adrs@.len(),
            forall|j: int| 0 <= j < i ==> #[trigger] adr_views(adrs@)[j] != a@,
        decreases adrs@.len() - i,
    {
        assert(adr_views(adrs@)[i as int] == adrs@[i as int]@);
        if same_adr(&adrs[i], a) {
            return true;
        }
        i = i + 1;
    }
    false
}

fn active_list(main: &[ADR], issues: &CleanupIssues) -> (r: Vec<ADR>)
    ensures
        adr_views(r@) == active_after(adr_views(main@), issues@),
{
    let superseded = superseded_of(&issues.duplicate_pairs);
    let active = adrs_by_activity(main, true);
    let ghost more = adr_views(superseded@);
    let ghost keep = |a: AdrView| !more.contains(a);
    let ghost all = adr_views(active@);
    let mut r: Vec<ADR> = Vec::new();
    let mut i: usize = 0;
    proof {
        reveal(Seq::filter);
        assert(all.take(0).filter(keep) =~= Seq::empty());
    }
    while i < active.len()
        invariant
            i <= active@.len(),
            all == adr_views(active@),
            more == adr_views(superseded@),
            keep == |a: AdrView| !more.contains(a),
            adr_views(r@) == all.take(i as int).filter(keep),
        decreases active@.len() - i,
    {
        proof {
            reveal(Seq::filter);
            assert(all.take(i + 1).drop_last() =~= all.take(i as int));
            assert(all.take(i + 1).last() == active@[i as int]@);
        }
        if !holds_adr(&superseded, &active[i]) {
            let a = active[i].clone();
            let ghost before = r@;
            r.push(a);
            assert(adr_views(r@) =~= adr_views(before).push(a@));
        }
        i = i + 1;
    }
    assert(all.take(i as int) =~= all);
    r
}

fn stale_list(archive: &[ADR], issues: &CleanupIssues) -> (r: Vec<ADR>)
    ensures
        adr_views(r@) == stale_after(adr_views(archive@), issues@),
{
    let superseded = superseded_of(&issues.duplicate_pairs);
    let ghost more = adr_views(superseded@);
    let ghost first = issues@.stale_adrs_in_main;
    let ghost keep = |a: AdrView| !listed(more, a.id, a.title);
    let ghost old_ones = adr_views(archive@);
    let mut r: Vec<ADR> = Vec::new();
    let mut k: usize = 0;
    while k < issues.stale_adrs_in_main.len()
        invariant
            k <= issues.stale_adrs_in_main@.len(),
            first == adr_views(issues.stale_adrs_in_main@),
            adr_views(r@) == first.take(k as int),
        decreases issues.stale_adrs_in_main@.len() - k,
    {
        let a = issues.stale_adrs_in_main[k].clone();
        let ghost before = r@;
        r.push(a);
        proof {
            assert(adr_views(r@) =~= adr_views(before).push(a@));
            assert(first.take(k + 1) =~= first.take(k as int).push(a@));
        }
        k = k + 1;
    }
    let mut i: usize = 0;
    proof {
        reveal(Seq::filter);
        assert(old_ones.take(0).filter(keep) =~= Seq::empty());
        assert(first.take(k as int) =~= first + old_ones.take(0).filter(keep));
    }
    while i < archive.len()
        invariant
            i <= archive@.len(),
            old_ones == adr_views(archive@),
            more == adr_views(superseded@),
            keep == |a: AdrView| !listed(more, a.id, a.title),
            adr_views(r@) == first + old_ones.take(i as int).filter(keep),
        decreases archive@.len() - i,
    {
        let ghost before = r@;
        proof {
            reveal(Seq::filter);
            assert(old_ones.take(i + 1).drop_last() =~= old_ones.take(i as int));
            assert(old_ones.take(i + 1).last() == archive@[i as int]@);
        }
        if !is_listed(&superseded, &archive[i]) {
            let a = archive[i].clone();
            r.push(a);
            assert(adr_views(r@) =~= adr_views(before).push(a@));
            assert(adr_views(r@) =~= first + old_ones.take(i + 1).filter(keep));
        }
        i = i + 1;
    }
    assert(old_ones.take(i as int) =~= old_ones);
    let ghost base = adr_views(r@);
    let mut j: usize = 0;
    assert(more.take(0) =~= Seq::empty());
    while j < superseded.len()
        invariant
            j <= superseded@.len(),
            more == adr_views(superseded@),
            adr_views(r@) == add_superseded(base, more.take(j as int)),
        decreases superseded@.len() - j,
    {
        let ghost before = r@;
        proof {
            assert(more.take(j + 1).drop_last() =~= more.take(j as int));
            assert(more.take(j + 1).last() == superseded@[j as int]@);
        }
        if !is_listed(&r, &superseded[j]) {
            let mut a = superseded[j].clone();
            a.status = AdrStatus::Superseded;
            r.push(a);
            proof {
                assert(a@ =~= AdrView {
                    status: AdrStatus::Superseded,
                    ..superseded@[j as int]@
                });
                assert(adr_views(r@) =~= adr_views(before).push(a@));
            }
        }
        j = j + 1;
    }
    assert(more.take(j as int) =~= more);
    r
}

/// What a cleanup writes at `secs` after the epoch, once it is confirmed; `existing`
/// is the text of `tasks_archive.md`.
pub fn apply_changes(
    state: &RuntimeState,
    main_adrs: &[ADR],
    archive_adrs: &[ADR],
    issues: &CleanupIssues,
    existing: &str,
    secs: u64,
) -> (r: CleanupPlan)
    ensures
        r@ == cleanup_of(
            state@,
            adr_views(main_adrs@),
            adr_views(archive_adrs@),
            issues@,
            existing@,
            date_text(date_of(secs as int / 86400)),
        ),
{
    let open = clean_state(state);
    let context = render_context(&open);
    assert(issues@.completed_tasks.len() == issues.completed_tasks@.len());
    let tasks_archive = if issues.completed_tasks.len() == 0 {
        None
    } else {
        let today = today_date(secs);
        Some(
            append_tasks_archive(existing, issues.completed_tasks.as_slice(), today.as_str()),
        )
    };
    let active = active_list(main_adrs, issues);
    let stale = stale_list(archive_adrs, issues);
    assert(adr_views(stale@).len() == stale@.len());
    let decisions = render_decisions_file(active.as_slice(), stale.len() > 0);
    let decisions_archive = if stale.len() == 0 {
        None
    } else {
        Some(render_decisions(stale.as_slice()))
    };
    CleanupPlan { context, tasks_archive, decisions, decisions_archive }
}

// ── Laws ───────────────────────────────────────────────────────────────────

proof fn lemma_picked_pairs<B>(
    all: Seq<AdrView>,
    f: spec_fn(AdrView, AdrView) -> Option<B>,
    i: int,
    j: int,
    m: B,
)
    requires
        0 <= i < j,
    ensures
        picked_pairs(all, f, i, j).contains(m) <==> exists|p: int, q: int|
            i <= p < q < all.len() && (p > i || q >= j) && f(
                #[trigger] all[p],
                #[trigger] all[q],
            ) == Some(m),
    decreases all.len() - i, all.len() - j,
{
    if i >= all.len() {
    } else if j >= all.len() {
        lemma_picked_pairs(all, f, i + 1, i + 2, m);
        assert(picked_pairs(all, f, i, j) == picked_pairs(all, f, i + 1, i + 2));
    } else {
        lemma_picked_pairs(all, f, i, j + 1, m);
        let rest = picked_pairs(all, f, i, j + 1);
        let whole = picked_pairs(all, f, i, j);
        match f(all[i], all[j]) {
            Some(x) => {
                assert(whole =~= seq![x] + rest);
                if rest.contains(m) {
                    let k = choose|k: int| 0 <= k < rest.len() && rest[k] == m;
                    assert(whole[k + 1] == m);
                }
                if x == m {
                    assert(whole[0] == m);
                }
                if whole.contains(m) {
                    let k = choose|k: int| 0 <= k < whole.len() && whole[k] == m;
                    if k > 0 {
                        assert(rest[k - 1] == m);
                    }
                }
            },
            None => {},
        }
    }
}

/// A pair of duplicates is reported if and only if two ADRs of different ids agree
/// in title and decision; of the two the one whose status counts for more is kept,
/// and the earlier one where they count the same.
pub proof fn law_duplicates_reported(
    state: RuntimeStateView,
    main: Seq<AdrView>,
    archive: Seq<AdrView>,
    keep: AdrView,
    supersede: AdrView,
)
    ensures
        issues_in(state, main, archive).duplicate_pairs.contains((keep, supersede)) <==> {
            &&& keep.title == supersede.title
            &&& keep.decision == supersede.decision
            &&& keep.id != supersede.id
            &&& exists|i: int, j: int|
                #![trigger (main + archive)[i], (main + archive)[j]]
                0 <= i < (main + archive).len() && 0 <= j < (main + archive).len() && (main
                    + archive)[i] == keep && (main + archive)[j] == supersede && (status_priority(
                    keep.status,
                ) > status_priority(supersede.status) || status_priority(keep.status)
                    == status_priority(supersede.status) && i < j)
        },
{
    let all = main + archive;
    let m = (keep, supersede);
    let found = issues_in(state, main, archive).duplicate_pairs.contains(m);
    lemma_picked_pairs(all, duplicates(), 0, 1, m);
    if found {
        let (p, q) = choose|p: int, q: int|
            0 <= p < q < all.len() && (p > 0 || q >= 1) && duplicates()(
                #[trigger] all[p],
                #[trigger] all[q],
            ) == Some(m);
        if all[p] == keep {
            assert(all[p] == keep && all[q] == supersede);
        } else {
            assert(all[q] == keep && all[p] == supersede);
        }
    }
    if keep.title == supersede.title && keep.decision == supersede.decision && keep.id
        != supersede.id && (exists|i: int, j: int|
        #![trigger all[i], all[j]]
        0 <= i < all.len() && 0 <= j < all.len() && all[i] == keep && all[j] == supersede && (
        status_priority(keep.status) > status_priority(supersede.status) || status_priority(
            keep.status,
        ) == status_priority(supersede.status) && i < j)) {
        let (i, j) = choose|i: int, j: int|
            #![trigger all[i], all[j]]
            0 <= i < all.len() && 0 <= j < all.len() && all[i] == keep && all[j] == supersede && (
            status_priority(keep.status) > status_priority(supersede.status) || status_priority(
                keep.status,
            ) == status_priority(supersede.status) && i < j);
        if i < j {
            assert(duplicates()(all[i], all[j]) == Some(m));
        } else {
            assert(i != j);
            assert(duplicates()(all[j], all[i]) == Some(m));
        }
    }
}

/// Two ADRs of different ids that say the same are always warned about.
pub proof fn law_twins_warned_about(
    state: RuntimeStateView,
    main: Seq<AdrView>,
    archive: Seq<AdrView>,
    i: int,
    j: int,
)
    requires
        0 <= i < j < (main + archive).len(),
        (main + archive)[i].id != (main + archive)[j].id,
        same_content((main + archive)[i], (main + archive)[j]),
    ensures
        issues_in(state, main, archive).content_hash_warnings.contains(
            twin_warning((main + archive)[i].id, (main + archive)[j].id),
        ),
{
    let all = main + archive;
    let w = twin_warning(all[i].id, all[j].id);
    lemma_picked_pairs(all, twins(), 0, 1, w);
    assert(twins()(all[i], all[j]) == Some(w));
}

/// After a cleanup `context.md` tells of no Done task: none is resurrected by
/// reading the file.
pub proof fn law_done_tasks_stay_archived(
    state: RuntimeStateView,
    main: Seq<AdrView>,
    archive: Seq<AdrView>,
    issues: CleanupIssuesView,
    existing: Seq<char>,
    day: Seq<char>,
)
    requires
        readable_state(state),
    ensures
        state_in(cleanup_of(state, main, archive, issues, existing, day).context) == Some(
            retold_state(state),
        ),
        forall|i: int|
            0 <= i < retold_state(state).active_tasks.len() ==> !((
            #[trigger] retold_state(state).active_tasks[i]).status is Done),
{
    let open = state.active_tasks.filter(is_open());
    assert(open.filter(is_open()) =~= open) by {
        lemma_filter_twice(state.active_tasks, is_open());
    }
    assert forall|i: int| 0 <= i < open.len() implies readable_task(#[trigger] open[i]) && !(
    open[i].status is Done) by {
        lemma_filter_from(state.active_tasks, is_open(), i);
    }
    law_context_reads_back(cleaned(state));
    assert(retold_state(cleaned(state)) =~= retold_state(state));
}

proof fn lemma_filter_twice<A>(s: Seq<A>, keep: spec_fn(A) -> bool)
    ensures
        s.filter(keep).filter(keep) == s.filter(keep),
    decreases s.len(),
{
    reveal(Seq::filter);
    if s.len() > 0 {
        let rest = s.drop_last();
        lemma_filter_twice(rest, keep);
        if keep(s.last()) {
            let kept = rest.filter(keep);
            assert(kept.push(s.last()).drop_last() =~= kept);
        }
    }
}

/// After a cleanup `decisions.md` holds the active ADRs that it held but for the
/// duplicates that are to be superseded, and no stale one.
pub proof fn law_main_file_holds_active_adrs(
    state: RuntimeStateView,
    main: Seq<AdrView>,
    archive: Seq<AdrView>,
    issues: CleanupIssuesView,
    existing: Seq<char>,
    day: Seq<char>,
)
    requires
        forall|i: int| 0 <= i < main.len() ==> readable_adr(#[trigger] main[i]),
    ensures
        adrs_in(cleanup_of(state, main, archive, issues, existing, day).decisions) == active_after(
            main,
            issues,
        ).map_values(|a: AdrView| settled_adr(a)),
        adrs_in(cleanup_of(state, main, archive, issues, existing, day).decisions).filter(
            is_stale(),
        ).len() == 0,
{
    let kept = active_after(main, issues);
    lemma_active_after(main, issues);
    assert forall|i: int| 0 <= i < kept.len() implies readable_adr(#[trigger] kept[i]) by {
        assert(main.contains(kept[i]));
        let k = choose|k: int| 0 <= k < main.len() && main[k] == kept[i];
        assert(readable_adr(main[k]));
    }
    law_noted_adrs_read_back(kept, stale_after(archive, issues).len() > 0);
    lemma_filter_all(kept, is_active());
    let read = kept.map_values(|a: AdrView| settled_adr(a));
    assert forall|i: int| 0 <= i < read.len() implies (#[trigger] read[i]).status.active() by {
        assert(read[i] == settled_adr(kept[i]));
    }
    lemma_filter_none(read, is_stale());
}

/// What stays in `decisions.md` was there, is active and is not to be superseded.
proof fn lemma_active_after(main: Seq<AdrView>, issues: CleanupIssuesView)
    ensures
        forall|i: int|
            0 <= i < active_after(main, issues).len() ==> {
                let a = #[trigger] active_after(main, issues)[i];
                main.contains(a) && a.status.active() && !to_supersede(
                    issues.duplicate_pairs,
                ).contains(a)
            },
{
    let superseded = to_supersede(issues.duplicate_pairs);
    let keep = |a: AdrView| !superseded.contains(a);
    let active = main.filter(is_active());
    assert forall|i: int| 0 <= i < active_after(main, issues).len() implies {
        let a = #[trigger] active_after(main, issues)[i];
        main.contains(a) && a.status.active() && !superseded.contains(a)
    } by {
        lemma_filter_from(active, keep, i);
        let a = active_after(main, issues)[i];
        let k = choose|k: int| 0 <= k < active.len() && active[k] == a;
        lemma_filter_from(main, is_active(), k);
    }
}

proof fn lemma_filter_all<A>(s: Seq<A>, keep: spec_fn(A) -> bool)
    requires
        forall|i: int| 0 <= i < s.len() ==> keep(#[trigger] s[i]),
    ensures
        s.filter(keep) == s,
    decreases s.len(),
{
    reveal(Seq::filter);
    if s.len() > 0 {
        let rest = s.drop_last();
        assert forall|i: int| 0 <= i < rest.len() implies keep(#[trigger] rest[i]) by {
            assert(rest[i] == s[i]);
        }
        lemma_filter_all(rest, keep);
        assert(keep(s[s.len() - 1]));
        assert(rest.push(s.last()) =~= s);
    } else {
        assert(s.filter(keep) =~= s);
    }
}

proof fn lemma_filter_none<A>(s: Seq<A>, keep: spec_fn(A) -> bool)
    requires
        forall|i: int| 0 <= i < s.len() ==> !keep(#[trigger] s[i]),
    ensures
        s.filter(keep).len() == 0,
    decreases s.len(),
{
    reveal(Seq::filter);
    if s.len() > 0 {
        let rest = s.drop_last();
        assert forall|i: int| 0 <= i < rest.len() implies !keep(#[trigger] rest[i]) by {
            assert(rest[i] == s[i]);
        }
        lemma_filter_none(rest, keep);
        assert(!keep(s[s.len() - 1]));
    }
}

/// The texts of the memory files that a cleanup reads and writes; a missing file
/// counts as empty.
#[verifier::ext_equal]
pub struct MemoryTexts {
    pub context: Seq<char>,
    pub decisions: Seq<char>,
    pub decisions_archive: Seq<char>,
    pub tasks_archive: Seq<char>,
}

/// What is amiss in the memory files.
pub open spec fn issues_of(files: MemoryTexts) -> CleanupIssuesView {
    issues_in(
        state_in(files.context)->0,
        adrs_in(files.decisions),
        adrs_in(files.decisions_archive),
    )
}

/// The memory files after a cleanup on the given day, with the user's answer where
/// there is one. Only where changes are made is any file written.
pub open spec fn after_cleanup(
    files: MemoryTexts,
    dry_run: bool,
    no_backup: bool,
    answer: Option<bool>,
    day: Seq<char>,
) -> MemoryTexts {
    match (state_in(files.context), course_of(dry_run, no_backup, issues_of(files), answer)) {
        (Some(state), Course::Apply { .. }) => {
            let plan = cleanup_of(
                state,
                adrs_in(files.decisions),
                adrs_in(files.decisions_archive),
                issues_of(files),
                files.tasks_archive,
                day,
            );
            MemoryTexts {
                context: plan.context,
                decisions: plan.decisions,
                decisions_archive: match plan.decisions_archive {
                    Some(text) => text,
                    None => files.decisions_archive,
                },
                tasks_archive: match plan.tasks_archive {
                    Some(text) => text,
                    None => files.tasks_archive,
                },
            }
        },
        _ => files,
    }
}

/// Whether no two ADRs of different ids say the same.
pub open spec fn no_twins(adrs: Seq<AdrView>) -> bool {
    forall|i: int, j: int|
        0 <= i < j < adrs.len() && (#[trigger] adrs[i]).id != (#[trigger] adrs[j]).id
            ==> !same_content(adrs[i], adrs[j])
}

proof fn lemma_none_picked<B>(
    all: Seq<AdrView>,
    f: spec_fn(AdrView, AdrView) -> Option<B>,
    i: int,
    j: int,
)
    requires
        0 <= i < j,
        forall|p: int, q: int|
            0 <= p < q < all.len() ==> f(#[trigger] all[p], #[trigger] all[q]) is None,
    ensures
        picked_pairs(all, f, i, j) == Seq::<B>::empty(),
    decreases all.len() - i, all.len() - j,
{
    if i >= all.len() {
    } else if j >= all.len() {
        lemma_none_picked(all, f, i + 1, i + 2);
    } else {
        lemma_none_picked(all, f, i, j + 1);
        assert(f(all[i], all[j]) is None);
    }
}

proof fn lemma_no_twins_no_pairs(all: Seq<AdrView>)
    requires
        no_twins(all),
    ensures
        picked_pairs(all, duplicates(), 0, 1) == Seq::<(AdrView, AdrView)>::empty(),
        picked_pairs(all, twins(), 0, 1) == Seq::<Seq<char>>::empty(),
{
    lemma_none_picked(all, duplicates(), 0, 1);
    lemma_none_picked(all, twins(), 0, 1);
}

/// After a confirmed cleanup, whatever the files held, a second one finds no finished
/// task and no stale ADR in `decisions.md`.
pub proof fn law_second_cleanup_finds_nothing_finished_or_stale(
    files: MemoryTexts,
    no_backup: bool,
    day: Seq<char>,
)
    requires
        state_in(files.context) is Some,
    ensures
        ({
            let once = after_cleanup(files, false, no_backup, Some(true), day);
            &&& state_in(once.context) is Some
            &&& issues_of(once).completed_tasks.len() == 0
            &&& issues_of(once).stale_adrs_in_main.len() == 0
        }),
{
    let once = after_cleanup(files, false, no_backup, Some(true), day);
    let issues = issues_of(files);
    if issues != no_issues() {
        let state = state_in(files.context)->0;
        let main = adrs_in(files.decisions);
        let archive = adrs_in(files.decisions_archive);
        let clean = cleaned(state);
        law_read_state_is_one_line(files.context);
        assert forall|i: int| 0 <= i < clean.active_tasks.len() implies one_line_task(
            #[trigger] clean.active_tasks[i],
        ) by {
            lemma_filter_from(state.active_tasks, is_open(), i);
        }
        law_rewritten_context_is_open(clean);
        let again = state_in(once.context)->0;
        lemma_filter_none(again.active_tasks, is_finished());
        law_read_adrs_can_be_written(files.decisions);
        assert forall|i: int| 0 <= i < main.len() implies readable_adr(#[trigger] main[i]) by {
            assert(read_adr(main[i]));
        }
        law_main_file_holds_active_adrs(state, main, archive, issues, files.tasks_archive, day);
    }
}

/// A second cleanup writes no file: nothing is archived twice and no finished task
/// comes back. Only ADRs of different ids that say the same are reported again;
/// where the files hold none, a second cleanup finds nothing.
pub proof fn law_second_cleanup_changes_nothing(
    files: MemoryTexts,
    no_backup: bool,
    day: Seq<char>,
    later: Seq<char>,
)
    requires
        state_in(files.context) is Some,
        ({
            let once = after_cleanup(files, false, no_backup, Some(true), day);
            no_twins(adrs_in(once.decisions) + adrs_in(once.decisions_archive))
        }),
    ensures
        ({
            let once = after_cleanup(files, false, no_backup, Some(true), day);
            &&& state_in(once.context) is Some
            &&& issues_of(once) == no_issues()
            &&& after_cleanup(once, false, no_backup, Some(true), later) == once
        }),
{
    let once = after_cleanup(files, false, no_backup, Some(true), day);
    law_second_cleanup_finds_nothing_finished_or_stale(files, no_backup, day);
    lemma_no_twins_no_pairs(adrs_in(once.decisions) + adrs_in(once.decisions_archive));
    assert(issues_of(once) =~= no_issues());
}

/// Where no two ADRs of different ids say the same, a cleanup moves stale ADRs to
/// the archive and leaves all as they are, so that this still holds afterwards.
pub proof fn law_cleanup_brings_no_twins(files: MemoryTexts, no_backup: bool, day: Seq<char>)
    requires
        state_in(files.context) is Some,
        no_twins(adrs_in(files.decisions) + adrs_in(files.decisions_archive)),
    ensures
        ({
            let once = after_cleanup(files, false, no_backup, Some(true), day);
            no_twins(adrs_in(once.decisions) + adrs_in(once.decisions_archive))
        }),
{
    let once = after_cleanup(files, false, no_backup, Some(true), day);
    let issues = issues_of(files);
    if issues != no_issues() {
        let state = state_in(files.context)->0;
        let main = adrs_in(files.decisions);
        let archive = adrs_in(files.decisions_archive);
        let all = main + archive;
        lemma_no_twins_no_pairs(all);
        law_read_adrs_can_be_written(files.decisions);
        law_read_adrs_can_be_written(files.decisions_archive);
        assert forall|i: int| 0 <= i < main.len() implies readable_adr(#[trigger] main[i]) by {
            assert(read_adr(main[i]));
        }
        law_main_file_holds_active_adrs(state, main, archive, issues, files.tasks_archive, day);
        let superseded = to_supersede(issues.duplicate_pairs);
        assert(superseded =~= Seq::<AdrView>::empty());
        let kept = active_after(main, issues);
        lemma_active_after(main, issues);
        assert forall|i: int| 0 <= i < kept.len() implies read_adr(#[trigger] kept[i]) by {
            let k = choose|k: int| 0 <= k < main.len() && main[k] == kept[i];
            assert(read_adr(main[k]));
        }
        lemma_settled_all(kept);
        let stale = stale_after(archive, issues);
        let keep = |a: AdrView| !listed(superseded, a.id, a.title);
        lemma_filter_all(archive, keep);
        assert(stale == main.filter(is_stale()) + archive);
        assert forall|i: int| 0 <= i < stale.len() implies read_adr(#[trigger] stale[i])
            && all.contains(stale[i]) by {
            let n = main.filter(is_stale()).len() as int;
            if i < n {
                lemma_filter_from(main, is_stale(), i);
                let k = choose|k: int| 0 <= k < main.len() && main[k] == stale[i];
                assert(read_adr(main[k]));
                assert(all[k] == stale[i]);
            } else {
                assert(read_adr(archive[i - n]));
                assert(all[main.len() + i - n] == stale[i]);
            }
        }
        assert forall|i: int| 0 <= i < stale.len() implies readable_adr(#[trigger] stale[i]) by {
            assert(read_adr(stale[i]));
        }
        law_adrs_read_back(stale);
        lemma_settled_all(stale);
        assert(adrs_in(once.decisions_archive) =~= stale) by {
            if stale.len() == 0 {
                assert(archive.len() == 0);
            }
        }
        let then = kept + stale;
        assert forall|i: int, j: int|
            0 <= i < j < then.len() && (#[trigger] then[i]).id != (
            #[trigger] then[j]).id implies !same_content(then[i], then[j]) by {
            assert forall|k: int| 0 <= k < then.len() implies all.contains(#[trigger] then[k]) by {
                if k < kept.len() {
                    let q = choose|q: int| 0 <= q < main.len() && main[q] == kept[k];
                    assert(all[q] == then[k]);
                } else {
                    assert(all.contains(stale[k - kept.len()]));
                }
            }
            assert(all.contains(then[i]) && all.contains(then[j]));
            let p = choose|p: int| 0 <= p < all.len() && all[p] == then[i];
            let q = choose|q: int| 0 <= q < all.len() && all[q] == then[j];
            if p < q {
                assert(!same_content(all[p], all[q]));
            } else {
                assert(p != q);
                assert(!same_content(all[q], all[p]));
            }
        }
    }
}

/// A cleanup loses no decision: an active ADR of `decisions.md` stays in it, or
/// moves to the archive as superseded while one of the same title and decision is
/// kept; a stale one moves to the archive, and an archived one stays there under its
/// id and title.
pub proof fn law_no_adr_is_lost(
    state: RuntimeStateView,
    main: Seq<AdrView>,
    archive: Seq<AdrView>,
    a: AdrView,
)
    requires
        main.contains(a) || archive.contains(a),
    ensures
        ({
            let issues = issues_in(state, main, archive);
            let superseded = to_supersede(issues.duplicate_pairs).contains(a);
            main.contains(a) && a.status.active() ==> {
                &&& !superseded ==> active_after(main, issues).contains(a)
                &&& superseded ==> {
                    &&& !active_after(main, issues).contains(a)
                    &&& listed(stale_after(archive, issues), a.id, a.title)
                    &&& exists|keep: AdrView|
                        #[trigger] (main + archive).contains(keep) && keep.title == a.title
                            && keep.decision == a.decision && keep.id != a.id
                }
            }
        }),
        main.contains(a) && !a.status.active() ==> stale_after(
            archive,
            issues_in(state, main, archive),
        ).contains(a),
        archive.contains(a) ==> listed(
            stale_after(archive, issues_in(state, main, archive)),
            a.id,
            a.title,
        ),
{
    let issues = issues_in(state, main, archive);
    let superseded = to_supersede(issues.duplicate_pairs);
    let keep = |x: AdrView| !listed(superseded, x.id, x.title);
    let base = issues.stale_adrs_in_main + archive.filter(keep);
    lemma_add_superseded_keeps(base, superseded);
    let r = add_superseded(base, superseded);
    if main.contains(a) {
        if a.status.active() {
            lemma_filter_has(main, is_active(), a);
            if superseded.contains(a) {
                let k = choose|k: int| 0 <= k < superseded.len() && superseded[k] == a;
                lemma_add_superseded_lists(base, superseded, k);
                let pair = issues.duplicate_pairs[k];
                assert(issues.duplicate_pairs.contains(pair));
                law_duplicates_reported(state, main, archive, pair.0, pair.1);
                let i = choose|i: int|
                    0 <= i < (main + archive).len() && #[trigger] (main + archive)[i] == pair.0;
                assert((main + archive).contains(pair.0));
                lemma_active_after(main, issues);
            } else {
                lemma_filter_has(main.filter(is_active()), |x: AdrView| !superseded.contains(x), a);
            }
        } else {
            lemma_filter_has(main, is_stale(), a);
            let k = choose|k: int|
                0 <= k < issues.stale_adrs_in_main.len() && issues.stale_adrs_in_main[k] == a;
            assert(r[k] == base[k] && base[k] == a);
        }
    }
    if archive.contains(a) {
        if keep(a) {
            lemma_filter_has(archive, keep, a);
            let k = choose|k: int|
                0 <= k < archive.filter(keep).len() && archive.filter(keep)[k] == a;
            let n = issues.stale_adrs_in_main.len() as int;
            assert(base[n + k] == a);
            assert(r[n + k] == a);
        } else {
            let k = choose|k: int|
                0 <= k < superseded.len() && (#[trigger] superseded[k]).id == a.id
                    && superseded[k].title == a.title;
            lemma_add_superseded_lists(base, superseded, k);
        }
    }
}

/// Adding superseded ADRs leaves those before them in place.
proof fn lemma_add_superseded_keeps(stale: Seq<AdrView>, more: Seq<AdrView>)
    ensures
        add_superseded(stale, more).len() >= stale.len(),
        forall|k: int|
            0 <= k < stale.len() ==> #[trigger] add_superseded(stale, more)[k] == stale[k],
    decreases more.len(),
{
    if more.len() > 0 {
        lemma_add_superseded_keeps(stale, more.drop_last());
    }
}

/// Each of the superseded ADRs is listed afterwards.
proof fn lemma_add_superseded_lists(stale: Seq<AdrView>, more: Seq<AdrView>, k: int)
    requires
        0 <= k < more.len(),
    ensures
        listed(add_superseded(stale, more), more[k].id, more[k].title),
    decreases more.len(),
{
    let so_far = add_superseded(stale, more.drop_last());
    let r = add_superseded(stale, more);
    if k < more.len() - 1 {
        lemma_add_superseded_lists(stale, more.drop_last(), k);
        let q = choose|q: int|
            0 <= q < so_far.len() && (#[trigger] so_far[q]).id == more[k].id && so_far[q].title
                == more[k].title;
        assert(r[q] == so_far[q]);
    } else if !listed(so_far, more[k].id, more[k].title) {
        assert(r[so_far.len() as int].id == more[k].id);
    }
}

} // verus!
