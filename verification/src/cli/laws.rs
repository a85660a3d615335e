//! What a cleanup reports and changes, told task by task and ADR by ADR.
use vstd::prelude::*;

use crate::cli::cleanup::{
    active_after, add_superseded, after_cleanup, args_from, cleaned, cleanup_of, concat, confirms,
    count_line, course_of, duplicates, found_text, issues_in, issues_of, law_duplicates_reported,
    listed, move_line, no_issues, picked_pairs, report_text, stale_after, suggested_text,
    supersede_line, to_supersede, warning_line, warnings_text, CleanupArgs, CleanupArgsView,
    CleanupIssues, CleanupIssuesView, CleanupPlan, Course, MemoryTexts,
};
use crate::engine::persistence::status_priority;
use crate::engine::projection::archive::archive_after;
use crate::engine::projection::context::{context_text, state_in};
use crate::engine::projection::decisions::{
    adrs_in, adrs_text, decisions_file_text, is_active, is_stale, law_adrs_read_back,
    law_read_adrs_can_be_written, lemma_filter_from, lemma_filter_has, lemma_settled_all, read_adr,
    readable_adr,
};
use crate::foreign::lowercase;
use crate::models::{AdrStatus, AdrView, RuntimeStateView, TaskView};
use crate::search::laws::stands_in;
use crate::text::{decimal, trim};

verus! {

// ── Issues ─────────────────────────────────────────────────────────────────

/// The finished tasks that are reported are those active tasks that are Done,
/// Superseded or Cancelled, each as it is and in order.
pub proof fn law_finished_tasks_are_reported(
    state: RuntimeStateView,
    t: TaskView,
    main: Seq<AdrView>,
    archive: Seq<AdrView>,
)
    ensures
        ({
            let more = RuntimeStateView { active_tasks: state.active_tasks.push(t), ..state };
            let before = issues_in(state, main, archive).completed_tasks;
            let after = issues_in(more, main, archive).completed_tasks;
            &&& state.active_tasks.len() == 0 ==> before.len() == 0
            &&& after == if t.status is Done || t.status is Superseded || t.status is Cancelled {
                before.push(t)
            } else {
                before
            }
        }),
{
    reveal(Seq::filter);
    assert(state.active_tasks.push(t).drop_last() =~= state.active_tasks);
}

/// The stale ADRs that are reported are those of `decisions.md` that are superseded,
/// rejected or archived, each as it is and in order.
pub proof fn law_stale_adrs_are_reported(
    state: RuntimeStateView,
    main: Seq<AdrView>,
    a: AdrView,
    archive: Seq<AdrView>,
)
    ensures
        ({
            let before = issues_in(state, main, archive).stale_adrs_in_main;
            let after = issues_in(state, main.push(a), archive).stale_adrs_in_main;
            &&& main.len() == 0 ==> before.len() == 0
            &&& after == if a.status is Superseded || a.status is Rejected || a.status is Archived {
                before.push(a)
            } else {
                before
            }
        }),
{
    reveal(Seq::filter);
    assert(main.push(a).drop_last() =~= main);
}

/// An accepted ADR counts for more than a proposed one, that for more than a rejected
/// one, that for more than a superseded one, and that for more than an archived one.
pub proof fn law_statuses_are_graded()
    ensures
        status_priority(AdrStatus::Accepted) > status_priority(AdrStatus::Proposed),
        status_priority(AdrStatus::Proposed) > status_priority(AdrStatus::Rejected),
        status_priority(AdrStatus::Rejected) > status_priority(AdrStatus::Superseded),
        status_priority(AdrStatus::Superseded) > status_priority(AdrStatus::Archived),
{
}

/// Two ADRs of different ids but the same title and decision are reported: where both
/// have the same status the later one is to be superseded and the earlier one kept,
/// and where one of them only is accepted that one is kept.
pub proof fn law_later_duplicate_is_superseded(
    state: RuntimeStateView,
    main: Seq<AdrView>,
    archive: Seq<AdrView>,
    i: int,
    j: int,
)
    requires
        0 <= i < j < (main + archive).len(),
        (main + archive)[i].id != (main + archive)[j].id,
        (main + archive)[i].title == (main + archive)[j].title,
        (main + archive)[i].decision == (main + archive)[j].decision,
    ensures
        ({
            let a = (main + archive)[i];
            let b = (main + archive)[j];
            let pairs = issues_in(state, main, archive).duplicate_pairs;
            &&& a.status == b.status ==> pairs.contains((a, b))
            &&& a.status is Accepted ==> pairs.contains((a, b))
            &&& b.status is Accepted && !(a.status is Accepted) ==> pairs.contains((b, a))
            &&& a.status is Proposed && !(b.status is Accepted) ==> pairs.contains((a, b))
            &&& pairs.contains((a, b)) || pairs.contains((b, a))
        }),
{
    let a = (main + archive)[i];
    let b = (main + archive)[j];
    law_duplicates_reported(state, main, archive, a, b);
    law_duplicates_reported(state, main, archive, b, a);
}

/// What is reported as a pair of duplicates are two ADRs of the files with the same
/// title and decision and different ids.
pub proof fn law_only_duplicates_are_reported(
    state: RuntimeStateView,
    main: Seq<AdrView>,
    archive: Seq<AdrView>,
    keep: AdrView,
    supersede: AdrView,
)
    requires
        issues_in(state, main, archive).duplicate_pairs.contains((keep, supersede)),
    ensures
        keep.title == supersede.title,
        keep.decision == supersede.decision,
        keep.id != supersede.id,
        main.contains(keep) || archive.contains(keep),
        main.contains(supersede) || archive.contains(supersede),
{
    law_duplicates_reported(state, main, archive, keep, supersede);
    let all = main + archive;
    let (i, j) = choose|i: int, j: int|
        #![trigger all[i], all[j]]
        0 <= i < all.len() && 0 <= j < all.len() && all[i] == keep && all[j] == supersede;
    if i < main.len() {
        assert(main[i] == keep);
    } else {
        assert(archive[i - main.len()] == keep);
    }
    if j < main.len() {
        assert(main[j] == supersede);
    } else {
        assert(archive[j - main.len()] == supersede);
    }
}

/// One pair is looked at after the other, the earlier ADR first: with two ADRs there
/// is one pair, and it is reported at most once.
pub proof fn law_one_pair_of_two(state: RuntimeStateView, a: AdrView, b: AdrView)
    ensures
        ({
            let issues = issues_in(state, seq![a], seq![b]);
            let same = a.title == b.title && a.decision == b.decision && a.id != b.id;
            let twin = a.id != b.id && lowercase(trim(a.title)) == lowercase(trim(b.title))
                && lowercase(trim(a.decision)) == lowercase(trim(b.decision));
            &&& issues.duplicate_pairs.len() == if same {
                1int
            } else {
                0
            }
            &&& issues.content_hash_warnings.len() == if twin {
                1int
            } else {
                0
            }
            &&& twin ==> issues.content_hash_warnings[0] == "ADR "@ + a.id + " and "@ + b.id
                + " have identical content_hash"@
        }),
{
    let all = seq![a] + seq![b];
    reveal_with_fuel(picked_pairs, 5);
    assert(all[0] == a && all[1] == b);
}

// ── The report ─────────────────────────────────────────────────────────────

proof fn lemma_in_concat(parts: Seq<Seq<char>>, k: int)
    requires
        0 <= k < parts.len(),
    ensures
        stands_in(parts[k], concat(parts)),
    decreases parts.len(),
{
    let rest = parts.drop_last();
    if k < rest.len() {
        lemma_in_concat(rest, k);
        let (a, b) = choose|a: Seq<char>, b: Seq<char>|
            concat(rest) == #[trigger] (a + rest[k] + b);
        assert(concat(parts) =~= a + parts[k] + (b + parts.last()));
    } else {
        assert(concat(parts) =~= concat(rest) + parts[k] + Seq::<char>::empty());
    }
}

proof fn lemma_stands_deeper(x: Seq<char>, y: Seq<char>, front: Seq<char>, back: Seq<char>)
    requires
        stands_in(x, y),
    ensures
        stands_in(x, front + y + back),
{
    let (a, b) = choose|a: Seq<char>, b: Seq<char>| y == #[trigger] (a + x + b);
    assert(front + y + back =~= (front + a) + x + (b + back));
}

/// The report tells of each pair of duplicates which ADR to supersede and which to
/// keep, of each stale ADR that it is to be moved, and every warning.
pub proof fn law_report_names_each_issue(issues: CleanupIssuesView, k: int)
    requires
        issues != no_issues(),
    ensures
        0 <= k < issues.duplicate_pairs.len() ==> stands_in(
            "  Supersede "@ + issues.duplicate_pairs[k].1.id + " (keep "@
                + issues.duplicate_pairs[k].0.id + ")\n"@,
            report_text(issues),
        ),
        0 <= k < issues.stale_adrs_in_main.len() ==> stands_in(
            "  Move "@ + issues.stale_adrs_in_main[k].id + " to archive\n"@,
            report_text(issues),
        ),
        0 <= k < issues.content_hash_warnings.len() ==> stands_in(
            "  "@ + issues.content_hash_warnings[k] + "\n"@,
            report_text(issues),
        ),
{
    let none = Seq::<char>::empty();
    let found = found_text(issues);
    let warned = warnings_text(issues.content_hash_warnings);
    let count = count_line(
        "  Archive "@,
        issues.completed_tasks.len(),
        " completed task"@,
        "\n"@,
    );
    let pairs = issues.duplicate_pairs.map_values(supersede_line());
    let moves = issues.stale_adrs_in_main.map_values(move_line());
    let warnings = issues.content_hash_warnings.map_values(warning_line());
    let head = found + warned + ("\nSuggested:\n"@ + count);
    let report = report_text(issues);
    assert(report =~= head + concat(pairs) + concat(moves));
    if 0 <= k < issues.duplicate_pairs.len() {
        lemma_in_concat(pairs, k);
        lemma_stands_deeper(pairs[k], concat(pairs), head, concat(moves));
    }
    if 0 <= k < issues.stale_adrs_in_main.len() {
        lemma_in_concat(moves, k);
        lemma_stands_deeper(moves[k], concat(moves), head + concat(pairs), none);
        assert(head + concat(pairs) + concat(moves) + none =~= report);
    }
    if 0 <= k < issues.content_hash_warnings.len() {
        lemma_in_concat(warnings, k);
        lemma_stands_deeper(
            warnings[k],
            concat(warnings),
            found + "\nWarnings:\n"@,
            suggested_text(issues),
        );
        assert(found + "\nWarnings:\n"@ + concat(warnings) + suggested_text(issues) =~= report);
    }
}

/// The report counts the finished tasks, the duplicates and the stale ADRs, each where
/// there are any, with an `s` unless there is one; without any issue it says so.
pub proof fn law_report_counts_issues(issues: CleanupIssuesView)
    ensures
        ({
            let report = report_text(issues);
            let tasks = issues.completed_tasks.len();
            let pairs = issues.duplicate_pairs.len();
            let stale = issues.stale_adrs_in_main.len();
            &&& tasks == 1 ==> stands_in("  1 completed task\n"@, report)
            &&& tasks > 1 ==> stands_in("  "@ + decimal(tasks) + " completed tasks\n"@, report)
            &&& pairs == 1 ==> stands_in("  1 duplicate ADR\n"@, report)
            &&& pairs > 1 ==> stands_in("  "@ + decimal(pairs) + " duplicate ADRs\n"@, report)
            &&& stale == 1 ==> stands_in("  1 stale ADR in decisions.md\n"@, report)
            &&& stale > 1 ==> stands_in(
                "  "@ + decimal(stale) + " stale ADRs in decisions.md\n"@,
                report,
            )
            &&& issues == no_issues() ==> report == "Found:\n"@ + "  No issues found.\n"@
        }),
{
    reveal_strlit("  ");
    reveal_strlit("s");
    reveal_strlit("");
    reveal_strlit("\n");
    reveal_strlit("Found:\n");
    reveal_strlit(" completed task");
    reveal_strlit(" completed tasks\n");
    reveal_strlit("  1 completed task\n");
    reveal_strlit(" duplicate ADR");
    reveal_strlit(" duplicate ADRs\n");
    reveal_strlit("  1 duplicate ADR\n");
    reveal_strlit(" stale ADR");
    reveal_strlit(" in decisions.md\n");
    reveal_strlit(" stale ADRs in decisions.md\n");
    reveal_strlit("  1 stale ADR in decisions.md\n");
    let tasks = issues.completed_tasks.len();
    let pairs = issues.duplicate_pairs.len();
    let stale = issues.stale_adrs_in_main.len();
    let a = count_line("  "@, tasks, " completed task"@, "\n"@);
    let b = count_line("  "@, pairs, " duplicate ADR"@, "\n"@);
    let c = count_line("  "@, stale, " stale ADR"@, " in decisions.md\n"@);
    let more = if issues == no_issues() {
        "  No issues found.\n"@
    } else {
        warnings_text(issues.content_hash_warnings) + suggested_text(issues)
    };
    let report = report_text(issues);
    let f = "Found:\n"@;
    assert(decimal(1) =~= seq!['1']);
    assert(report =~= f + a + (b + c + more));
    assert(report =~= f + a + b + (c + more));
    assert(report =~= (f + a + b) + c + more);
    if tasks == 1 {
        assert(a =~= "  1 completed task\n"@);
    } else if tasks > 1 {
        assert(a =~= "  "@ + decimal(tasks) + " completed tasks\n"@);
    }
    if pairs == 1 {
        assert(b =~= "  1 duplicate ADR\n"@);
    } else if pairs > 1 {
        assert(b =~= "  "@ + decimal(pairs) + " duplicate ADRs\n"@);
    }
    if stale == 1 {
        assert(c =~= "  1 stale ADR in decisions.md\n"@);
    } else if stale > 1 {
        assert(c =~= "  "@ + decimal(stale) + " stale ADRs in decisions.md\n"@);
    }
    if issues == no_issues() {
        assert(report =~= f + "  No issues found.\n"@);
    }
}

// ── What is written ────────────────────────────────────────────────────────

/// What stays in `decisions.md`, in order: each accepted or proposed ADR that is not
/// to be superseded, as it is.
pub proof fn law_active_adrs_stay_in_order(
    main: Seq<AdrView>,
    a: AdrView,
    issues: CleanupIssuesView,
)
    ensures
        main.len() == 0 ==> active_after(main, issues).len() == 0,
        active_after(main.push(a), issues) == if (a.status is Accepted || a.status is Proposed)
            && forall|k: int|
            0 <= k < issues.duplicate_pairs.len() ==> (#[trigger] issues.duplicate_pairs[k]).1
                != a {
            active_after(main, issues).push(a)
        } else {
            active_after(main, issues)
        },
{
    reveal(Seq::filter);
    let superseded = to_supersede(issues.duplicate_pairs);
    let active = main.filter(is_active());
    assert(main.push(a).drop_last() =~= main);
    assert(active.push(a).drop_last() =~= active);
    if superseded.contains(a) {
        let k = choose|k: int| 0 <= k < superseded.len() && superseded[k] == a;
        assert(issues.duplicate_pairs[k].1 == a);
    } else {
        assert forall|k: int| 0 <= k < issues.duplicate_pairs.len() implies (
        #[trigger] issues.duplicate_pairs[k]).1 != a by {
            assert(superseded[k] == issues.duplicate_pairs[k].1);
        }
    }
}

proof fn lemma_added(stale: Seq<AdrView>, more: Seq<AdrView>)
    ensures
        add_superseded(stale, more).len() >= stale.len(),
        forall|k: int|
            0 <= k < stale.len() ==> #[trigger] add_superseded(stale, more)[k] == stale[k],
    decreases more.len(),
{
    if more.len() > 0 {
        lemma_added(stale, more.drop_last());
    }
}

proof fn lemma_added_from(stale: Seq<AdrView>, more: Seq<AdrView>, q: int)
    requires
        stale.len() <= q < add_superseded(stale, more).len(),
    ensures
        exists|k: int|
            0 <= k < more.len() && add_superseded(stale, more)[q] == (AdrView {
                status: AdrStatus::Superseded,
                ..#[trigger] more[k]
            }),
    decreases more.len(),
{
    if more.len() > 0 {
        let rest = more.drop_last();
        let so_far = add_superseded(stale, rest);
        if q < so_far.len() {
            lemma_added_from(stale, rest, q);
            let k = choose|k: int|
                0 <= k < rest.len() && so_far[q] == (AdrView {
                    status: AdrStatus::Superseded,
                    ..#[trigger] rest[k]
                });
            assert(more[k] == rest[k]);
        } else {
            let last = more[more.len() - 1];
            assert(add_superseded(stale, more)[q] == (AdrView {
                status: AdrStatus::Superseded,
                ..last
            }));
        }
    }
}

/// The first of `more` with its id and title, where `stale` has none such, is added as
/// superseded and otherwise as it is.
proof fn lemma_first_added(stale: Seq<AdrView>, more: Seq<AdrView>, k: int)
    requires
        0 <= k < more.len(),
        forall|q: int|
            0 <= q < stale.len() ==> !((#[trigger] stale[q]).id == more[k].id && stale[q].title
                == more[k].title),
        forall|l: int|
            0 <= l < k ==> !((#[trigger] more[l]).id == more[k].id && more[l].title
                == more[k].title),
    ensures
        add_superseded(stale, more).contains(
            (AdrView { status: AdrStatus::Superseded, ..more[k] }),
        ),
    decreases more.len(),
{
    let rest = more.drop_last();
    let so_far = add_superseded(stale, rest);
    let all = add_superseded(stale, more);
    let want = AdrView { status: AdrStatus::Superseded, ..more[k] };
    if k < rest.len() {
        assert(rest[k] == more[k]);
        assert forall|l: int| 0 <= l < k implies !((#[trigger] rest[l]).id == rest[k].id
            && rest[l].title == rest[k].title) by {
            assert(rest[l] == more[l]);
        }
        lemma_first_added(stale, rest, k);
        let q = choose|q: int| 0 <= q < so_far.len() && so_far[q] == want;
        assert(all[q] == want);
    } else {
        assert(!listed(so_far, more[k].id, more[k].title)) by {
            if listed(so_far, more[k].id, more[k].title) {
                let q = choose|q: int|
                    0 <= q < so_far.len() && (#[trigger] so_far[q]).id == more[k].id
                        && so_far[q].title == more[k].title;
                lemma_added(stale, rest);
                if q < stale.len() {
                    assert(so_far[q] == stale[q]);
                } else {
                    lemma_added_from(stale, rest, q);
                    let l = choose|l: int|
                        0 <= l < rest.len() && so_far[q] == (AdrView {
                            status: AdrStatus::Superseded,
                            ..#[trigger] rest[l]
                        });
                    assert(more[l] == rest[l]);
                }
            }
        }
        assert(all[so_far.len() as int] == want);
    }
}

/// Each ADR that a cleanup supersedes is in the archive afterwards with the id, title,
/// context, decision and tags that it had; only its status differs, which is
/// Superseded. This holds of the first such ADR of its id and title, where no stale
/// ADR of `decisions.md` has them.
pub proof fn law_superseded_duplicate_keeps_its_text(
    archive: Seq<AdrView>,
    issues: CleanupIssuesView,
    k: int,
)
    requires
        0 <= k < issues.duplicate_pairs.len(),
        forall|q: int|
            0 <= q < issues.stale_adrs_in_main.len() ==> !((
            #[trigger] issues.stale_adrs_in_main[q]).id == issues.duplicate_pairs[k].1.id
                && issues.stale_adrs_in_main[q].title == issues.duplicate_pairs[k].1.title),
        forall|l: int|
            0 <= l < k ==> !((#[trigger] issues.duplicate_pairs[l]).1.id
                == issues.duplicate_pairs[k].1.id && issues.duplicate_pairs[l].1.title
                == issues.duplicate_pairs[k].1.title),
    ensures
        ({
            let had = issues.duplicate_pairs[k].1;
            exists|q: int|
                0 <= q < stale_after(archive, issues).len() && {
                    let kept = #[trigger] stale_after(archive, issues)[q];
                    &&& kept.id == had.id
                    &&& kept.title == had.title
                    &&& kept.context == had.context
                    &&& kept.decision == had.decision
                    &&& kept.tags == had.tags
                    &&& kept.status is Superseded
                }
        }),
{
    let more = to_supersede(issues.duplicate_pairs);
    let keep = |a: AdrView| !listed(more, a.id, a.title);
    let old_ones = archive.filter(keep);
    let base = issues.stale_adrs_in_main + old_ones;
    let had = issues.duplicate_pairs[k].1;
    assert(more[k] == had);
    assert forall|q: int| 0 <= q < base.len() implies !((#[trigger] base[q]).id == more[k].id
        && base[q].title == more[k].title) by {
        let n = issues.stale_adrs_in_main.len() as int;
        if q < n {
            assert(base[q] == issues.stale_adrs_in_main[q]);
        } else {
            lemma_filter_from(archive, keep, q - n);
            assert(base[q] == old_ones[q - n]);
            if base[q].id == more[k].id && base[q].title == more[k].title {
                assert(listed(more, base[q].id, base[q].title));
            }
        }
    }
    assert forall|l: int| 0 <= l < k implies !((#[trigger] more[l]).id == more[k].id
        && more[l].title == more[k].title) by {
        assert(more[l] == issues.duplicate_pairs[l].1);
    }
    lemma_first_added(base, more, k);
    let all = stale_after(archive, issues);
    let want = AdrView { status: AdrStatus::Superseded, ..had };
    let q = choose|q: int| 0 <= q < all.len() && all[q] == want;
    assert(all[q].decision == had.decision);
}

/// The archive begins with the stale ADRs of `decisions.md`, as they are and in order.
/// Every other ADR in it was in the archive and is as it was, or is one that is to be
/// superseded, with its text as it was.
pub proof fn law_archive_holds_what_was_there(
    archive: Seq<AdrView>,
    issues: CleanupIssuesView,
    q: int,
)
    requires
        0 <= q < stale_after(archive, issues).len(),
    ensures
        ({
            let all = stale_after(archive, issues);
            let n = issues.stale_adrs_in_main.len() as int;
            &&& n <= all.len()
            &&& q < n ==> all[q] == issues.stale_adrs_in_main[q]
            &&& q >= n ==> archive.contains(all[q]) || exists|k: int|
                0 <= k < issues.duplicate_pairs.len() && {
                    let had = (#[trigger] issues.duplicate_pairs[k]).1;
                    &&& all[q].id == had.id
                    &&& all[q].title == had.title
                    &&& all[q].context == had.context
                    &&& all[q].decision == had.decision
                    &&& all[q].tags == had.tags
                    &&& all[q].status is Superseded
                }
        }),
{
    let more = to_supersede(issues.duplicate_pairs);
    let keep = |a: AdrView| !listed(more, a.id, a.title);
    let old_ones = archive.filter(keep);
    let base = issues.stale_adrs_in_main + old_ones;
    let n = issues.stale_adrs_in_main.len() as int;
    let all = stale_after(archive, issues);
    lemma_added(base, more);
    if q < n {
        assert(all[q] == base[q]);
    } else if q < base.len() {
        assert(all[q] == base[q]);
        lemma_filter_from(archive, keep, q - n);
        assert(base[q] == old_ones[q - n]);
    } else {
        lemma_added_from(base, more, q);
        let k = choose|k: int|
            0 <= k < more.len() && all[q] == (AdrView {
                status: AdrStatus::Superseded,
                ..#[trigger] more[k]
            });
        assert(issues.duplicate_pairs[k].1 == more[k]);
    }
}

/// An archived ADR whose id and title none has that is to be superseded stays in the
/// archive as it is.
pub proof fn law_other_archived_adrs_stay(
    archive: Seq<AdrView>,
    issues: CleanupIssuesView,
    a: AdrView,
)
    requires
        archive.contains(a),
        forall|k: int|
            0 <= k < issues.duplicate_pairs.len() ==> !((
            #[trigger] issues.duplicate_pairs[k]).1.id == a.id
                && issues.duplicate_pairs[k].1.title == a.title),
    ensures
        stale_after(archive, issues).contains(a),
{
    let more = to_supersede(issues.duplicate_pairs);
    let keep = |x: AdrView| !listed(more, x.id, x.title);
    let old_ones = archive.filter(keep);
    let base = issues.stale_adrs_in_main + old_ones;
    if listed(more, a.id, a.title) {
        let k = choose|k: int|
            0 <= k < more.len() && (#[trigger] more[k]).id == a.id && more[k].title == a.title;
        assert(issues.duplicate_pairs[k].1 == more[k]);
    }
    lemma_filter_has(archive, keep, a);
    let k = choose|k: int| 0 <= k < old_ones.len() && old_ones[k] == a;
    let n = issues.stale_adrs_in_main.len() as int;
    assert(base[n + k] == a);
    lemma_added(base, more);
    assert(stale_after(archive, issues)[n + k] == a);
}

/// A cleanup drops the Done tasks from the context and keeps every other task, in
/// order, and the phase and the constraints.
pub proof fn law_cleaned_state_drops_done_tasks(state: RuntimeStateView, t: TaskView)
    ensures
        ({
            let more = RuntimeStateView { active_tasks: state.active_tasks.push(t), ..state };
            &&& state.active_tasks.len() == 0 ==> cleaned(state).active_tasks.len() == 0
            &&& cleaned(more).active_tasks == if t.status is Done {
                cleaned(state).active_tasks
            } else {
                cleaned(state).active_tasks.push(t)
            }
            &&& cleaned(state).current_phase == state.current_phase
            &&& cleaned(state).constraints == state.constraints
            &&& cleaned(state).done_tasks.len() == 0
        }),
{
    reveal(Seq::filter);
    assert(state.active_tasks.push(t).drop_last() =~= state.active_tasks);
}

/// What a cleanup writes: the context of the cleaned state; the archive of tasks,
/// where a task is finished; the decisions that stay; and the archive of decisions,
/// where there is any to archive.
pub proof fn law_plan_writes_what_is_kept(
    state: RuntimeStateView,
    main: Seq<AdrView>,
    archive: Seq<AdrView>,
    issues: CleanupIssuesView,
    existing: Seq<char>,
    day: Seq<char>,
)
    ensures
        ({
            let plan = cleanup_of(state, main, archive, issues, existing, day);
            let stale = stale_after(archive, issues);
            &&& plan.context == context_text(cleaned(state))
            &&& issues.completed_tasks.len() == 0 <==> plan.tasks_archive is None
            &&& plan.tasks_archive matches Some(text) ==> text == archive_after(
                existing,
                issues.completed_tasks,
                day,
            )
            &&& plan.decisions == decisions_file_text(active_after(main, issues), stale.len() > 0)
            &&& stale.len() == 0 <==> plan.decisions_archive is None
            &&& plan.decisions_archive matches Some(text) ==> text == adrs_text(stale)
        }),
{
}

/// A superseded duplicate can be read in `decisions_archive.md` after a confirmed
/// cleanup, with the text that it had in `decisions.md`.
pub proof fn law_superseded_duplicate_is_read_in_the_archive(
    files: MemoryTexts,
    no_backup: bool,
    day: Seq<char>,
    k: int,
)
    requires
        state_in(files.context) is Some,
        0 <= k < issues_of(files).duplicate_pairs.len(),
        forall|q: int|
            0 <= q < issues_of(files).stale_adrs_in_main.len() ==> !((
            #[trigger] issues_of(files).stale_adrs_in_main[q]).id == issues_of(
                files,
            ).duplicate_pairs[k].1.id && issues_of(files).stale_adrs_in_main[q].title == issues_of(
                files,
            ).duplicate_pairs[k].1.title),
        forall|l: int|
            0 <= l < k ==> !((#[trigger] issues_of(files).duplicate_pairs[l]).1.id == issues_of(
                files,
            ).duplicate_pairs[k].1.id && issues_of(files).duplicate_pairs[l].1.title == issues_of(
                files,
            ).duplicate_pairs[k].1.title),
    ensures
        ({
            let once = after_cleanup(files, false, no_backup, Some(true), day);
            let had = issues_of(files).duplicate_pairs[k].1;
            exists|q: int|
                0 <= q < adrs_in(once.decisions_archive).len() && {
                    let kept = #[trigger] adrs_in(once.decisions_archive)[q];
                    &&& kept.id == had.id
                    &&& kept.title == had.title
                    &&& kept.context == had.context
                    &&& kept.decision == had.decision
                    &&& kept.tags == had.tags
                    &&& kept.status is Superseded
                }
        }),
{
    let once = after_cleanup(files, false, no_backup, Some(true), day);
    let issues = issues_of(files);
    let main = adrs_in(files.decisions);
    let archive = adrs_in(files.decisions_archive);
    let state = state_in(files.context)->0;
    law_superseded_duplicate_keeps_its_text(archive, issues, k);
    let stale = stale_after(archive, issues);
    law_read_adrs_can_be_written(files.decisions);
    law_read_adrs_can_be_written(files.decisions_archive);
    assert forall|q: int| 0 <= q < stale.len() implies read_adr(#[trigger] stale[q]) by {
        law_archive_holds_what_was_there(archive, issues, q);
        let n = issues.stale_adrs_in_main.len() as int;
        if q < n {
            lemma_filter_from(main, is_stale(), q);
            let p = choose|p: int| 0 <= p < main.len() && main[p] == stale[q];
            assert(read_adr(main[p]));
        } else if archive.contains(stale[q]) {
            let p = choose|p: int| 0 <= p < archive.len() && archive[p] == stale[q];
            assert(read_adr(archive[p]));
        } else {
            let l = choose|l: int|
                0 <= l < issues.duplicate_pairs.len() && {
                    let had = (#[trigger] issues.duplicate_pairs[l]).1;
                    &&& stale[q].id == had.id
                    &&& stale[q].title == had.title
                    &&& stale[q].context == had.context
                    &&& stale[q].decision == had.decision
                    &&& stale[q].tags == had.tags
                    &&& stale[q].status is Superseded
                };
            let pair = issues.duplicate_pairs[l];
            assert(issues.duplicate_pairs.contains((pair.0, pair.1)));
            law_only_duplicates_are_reported(state, main, archive, pair.0, pair.1);
            if main.contains(pair.1) {
                let p = choose|p: int| 0 <= p < main.len() && main[p] == pair.1;
                assert(read_adr(main[p]));
            } else {
                let p = choose|p: int| 0 <= p < archive.len() && archive[p] == pair.1;
                assert(read_adr(archive[p]));
            }
            assert(read_adr(pair.1));
        }
    }
    assert forall|q: int| 0 <= q < stale.len() implies readable_adr(#[trigger] stale[q]) by {
        assert(read_adr(stale[q]));
    }
    law_adrs_read_back(stale);
    lemma_settled_all(stale);
    assert(adrs_in(once.decisions_archive) == stale);
}

// ── The course of a cleanup ────────────────────────────────────────────────

/// A dry run, a refused one and one that finds nothing change no file.
pub proof fn law_unconfirmed_cleanup_changes_nothing(
    files: MemoryTexts,
    no_backup: bool,
    answer: Option<bool>,
    day: Seq<char>,
)
    ensures
        after_cleanup(files, true, no_backup, answer, day) == files,
        after_cleanup(files, false, no_backup, Some(false), day) == files,
        after_cleanup(files, false, no_backup, None, day) == files,
        issues_of(files) == no_issues() ==> after_cleanup(files, false, no_backup, answer, day)
            == files,
{
}

/// A confirmed cleanup of something amiss leaves the files as its plan tells: a file for
/// which the plan has no text stays as it was.
pub proof fn law_cleanup_writes_its_plan(files: MemoryTexts, no_backup: bool, day: Seq<char>)
    requires
        state_in(files.context) is Some,
        issues_of(files) != no_issues(),
    ensures
        ({
            let plan = cleanup_of(
                state_in(files.context)->0,
                adrs_in(files.decisions),
                adrs_in(files.decisions_archive),
                issues_of(files),
                files.tasks_archive,
                day,
            );
            let once = after_cleanup(files, false, no_backup, Some(true), day);
            &&& once.context == plan.context
            &&& once.decisions == plan.decisions
            &&& plan.decisions_archive matches Some(text) ==> once.decisions_archive == text
            &&& plan.decisions_archive is None ==> once.decisions_archive
                == files.decisions_archive
            &&& plan.tasks_archive matches Some(text) ==> once.tasks_archive == text
            &&& plan.tasks_archive is None ==> once.tasks_archive == files.tasks_archive
        }),
{
}

/// A confirmed cleanup of something amiss makes its changes, after a backup unless
/// none is wanted; without an answer the user is asked.
pub proof fn law_confirmed_cleanup_applies(no_backup: bool, issues: CleanupIssuesView)
    requires
        issues != no_issues(),
    ensures
        course_of(false, no_backup, issues, Some(true)) == (Course::Apply { backup: !no_backup }),
        course_of(false, no_backup, issues, None) == Course::Ask,
        course_of(false, no_backup, issues, Some(false)) == Course::Cancelled,
        course_of(true, no_backup, issues, Some(true)) == Course::DryRun,
        course_of(false, no_backup, no_issues(), Some(true)) == Course::RebuildOnly,
{
}

// ── Arguments ──────────────────────────────────────────────────────────────

/// An argument sets what it names and leaves the rest: `--dry-run` the dry run,
/// `--no-backup` that there is no backup, and `--project-root` the root to the argument
/// after it. Another argument sets nothing.
pub proof fn law_each_argument_sets_its_own(
    args: Seq<Seq<char>>,
    i: int,
    so_far: CleanupArgsView,
)
    requires
        0 <= i < args.len(),
    ensures
        args[i] == "--dry-run"@ ==> args_from(args, i, so_far) == args_from(
            args,
            i + 1,
            (CleanupArgsView { dry_run: true, ..so_far }),
        ),
        args[i] == "--no-backup"@ ==> args_from(args, i, so_far) == args_from(
            args,
            i + 1,
            (CleanupArgsView { no_backup: true, ..so_far }),
        ),
        args[i] == "--project-root"@ && i + 1 < args.len() ==> args_from(args, i, so_far)
            == args_from(
            args,
            i + 2,
            (CleanupArgsView { project_root: args[i + 1], ..so_far }),
        ),
        args[i] != "--dry-run"@ && args[i] != "--no-backup"@ && args[i] != "--project-root"@
            ==> args_from(args, i, so_far) == args_from(args, i + 1, so_far),
        args_from(args, args.len() as int, so_far) == so_far,
{
    reveal_strlit("--dry-run");
    reveal_strlit("--no-backup");
    reveal_strlit("--project-root");
    assert("--dry-run"@[2] == 'd' && "--no-backup"@[2] == 'n' && "--project-root"@[2] == 'p');
}

/// A cleanup is confirmed by `y` or `yes`, whatever the case and the white space round
/// it, and by nothing else.
pub proof fn law_yes_confirms(input: Seq<char>)
    ensures
        confirms(input) <==> lowercase(trim(input)) == seq!['y'] || lowercase(trim(input)) == seq![
            'y',
            'e',
            's',
        ],
{
    reveal_strlit("y");
    reveal_strlit("yes");
    assert("y"@ =~= seq!['y']);
    assert("yes"@ =~= seq!['y', 'e', 's']);
}

/// The views of the arguments, the issues and the plan tell all that is in them.
pub proof fn law_views_tell_the_cleanup(
    args: CleanupArgs,
    issues: CleanupIssues,
    plan: CleanupPlan,
    k: int,
)
    ensures
        args@.dry_run == args.dry_run,
        args@.project_root == args.project_root@,
        args@.no_backup == args.no_backup,
        issues@.completed_tasks.len() == issues.completed_tasks@.len(),
        issues@.duplicate_pairs.len() == issues.duplicate_pairs@.len(),
        issues@.stale_adrs_in_main.len() == issues.stale_adrs_in_main@.len(),
        issues@.content_hash_warnings.len() == issues.content_hash_warnings@.len(),
        0 <= k < issues.completed_tasks@.len() ==> issues@.completed_tasks[k]
            == issues.completed_tasks@[k]@,
        0 <= k < issues.duplicate_pairs@.len() ==> issues@.duplicate_pairs[k] == (
            issues.duplicate_pairs@[k].0@,
            issues.duplicate_pairs@[k].1@,
        ),
        0 <= k < issues.stale_adrs_in_main@.len() ==> issues@.stale_adrs_in_main[k]
            == issues.stale_adrs_in_main@[k]@,
        0 <= k < issues.content_hash_warnings@.len() ==> issues@.content_hash_warnings[k]
            == issues.content_hash_warnings@[k]@,
        plan@.context == plan.context@,
        plan@.decisions == plan.decisions@,
        plan@.tasks_archive is Some <==> plan.tasks_archive is Some,
        plan.tasks_archive matches Some(text) ==> plan@.tasks_archive == Some(text@),
        plan@.decisions_archive is Some <==> plan.decisions_archive is Some,
        plan.decisions_archive matches Some(text) ==> plan@.decisions_archive == Some(text@),
{
}

} // verus!
