//! What the memory files tell, told line by line and field by field.
use vstd::prelude::*;

use crate::engine::projection::archive::{
    add_all_archived, add_archived, archive_after, archive_in, archive_lines, archived,
    archived_text, unarchived, ArchiveSection, ArchiveView,
};
use crate::engine::projection::context::{
    after_title, constraint_on_line, constraint_titles, context_of, context_sections, context_text,
    is_open, law_context_reads_back, law_new_id_is_the_first_free, phase_titles, readable_state,
    section_body, state_in, stated_ids, task_ids, task_on_line, task_titles, tasks_numbered,
    tasks_on_lines, without_marker,
};
use crate::engine::projection::decisions::{
    adr_step, close_adr, lemma_filter_from, lemma_filter_has, AdrScan,
};
use crate::engine::projection::phase::canonical_phase;
use crate::foreign::{
    after_open_bracket, bracketed_word, bullet_line_groups, checkbox_line_groups, task_line_groups,
    task_line_words,
};
use crate::lines::{
    lemma_filter_map_concat, lemma_lines_concat, lemma_lines_cons, lemma_lines_one,
    lemma_nonblank_one, lemma_trim_chomp, lemma_trim_ends, no_break,
};
use crate::models::{adr_status_of, AdrView, ReferenceView, RuntimeStateView, TaskStatus, TaskView};
use crate::search::laws::stands_in;
use crate::text::{
    has_prefix, is_blank, join, law_pieces_join_to_the_text, lemma_index_of_at, lemma_join_push,
    lemma_trim_start_char_at, lines, nonblank, occurs_in, padded, solid_lines, split, trim,
};

verus! {

// ── The context file ───────────────────────────────────────────────────────

/// A state reads back from its context file: each task that is not done, in order and
/// with its id and status, the description trimmed; each constraint, in order and
/// trimmed; and the canonical name of the phase. Nothing is told of done tasks.
pub proof fn law_context_tells_each_task(st: RuntimeStateView, k: int)
    requires
        readable_state(st),
        forall|i: int|
            0 <= i < st.active_tasks.len() ==> !((#[trigger] st.active_tasks[i]).status is Done),
    ensures
        state_in(context_text(st)) matches Some(told) && {
            &&& told.current_phase == canonical_phase(st.current_phase)
            &&& told.done_tasks.len() == 0
            &&& told.active_tasks.len() == st.active_tasks.len()
            &&& 0 <= k < st.active_tasks.len() ==> {
                &&& told.active_tasks[k].id == st.active_tasks[k].id
                &&& told.active_tasks[k].status == st.active_tasks[k].status
                &&& told.active_tasks[k].description == trim(st.active_tasks[k].description)
                &&& told.active_tasks[k].superseded_by is None
            }
            &&& told.constraints.len() == st.constraints.len()
            &&& 0 <= k < st.constraints.len() ==> told.constraints[k] == trim(st.constraints[k])
        },
{
    law_context_reads_back(st);
    lemma_all_open(st.active_tasks);
}

proof fn lemma_all_open(ts: Seq<TaskView>)
    requires
        forall|i: int| 0 <= i < ts.len() ==> !((#[trigger] ts[i]).status is Done),
    ensures
        ts.filter(is_open()) == ts,
    decreases ts.len(),
{
    reveal(Seq::filter);
    if ts.len() > 0 {
        let rest = ts.drop_last();
        assert forall|i: int| 0 <= i < rest.len() implies !((#[trigger] rest[i]).status
            is Done) by {
            assert(rest[i] == ts[i]);
        }
        lemma_all_open(rest);
        assert(ts[ts.len() - 1].status !is Done);
        assert(rest.push(ts.last()) =~= ts);
    }
}

/// A done task makes no difference to the context file, and every other task does.
pub proof fn law_context_leaves_done_tasks_out(st: RuntimeStateView, t: TaskView)
    ensures
        ({
            let more = RuntimeStateView { active_tasks: st.active_tasks.push(t), ..st };
            &&& t.status is Done ==> context_text(more) == context_text(st)
            &&& !(t.status is Done) ==> context_text(more).len() > context_text(st).len()
        }),
{
    reveal_strlit("- [");
    assert(st.active_tasks.push(t).drop_last() =~= st.active_tasks);
}

/// The sections of a file, joined again by what parts them, are the file: its
/// first-level headings, else its second-level ones.
pub proof fn law_sections_make_up_the_file(md: Seq<char>)
    ensures
        split(md, "\n# "@).len() > 1 ==> join(context_sections(md), "\n# "@) == md,
        split(md, "\n# "@).len() == 1 && split(md, "\n## "@).len() > 1 ==> join(
            context_sections(md),
            "\n## "@,
        ) == md && context_sections(md).len() > 1,
        split(md, "\n# "@).len() == 1 && split(md, "\n## "@).len() == 1 ==> context_sections(md)
            == seq![md],
{
    law_pieces_join_to_the_text(md, "\n# "@);
    law_pieces_join_to_the_text(md, "\n## "@);
}

/// A state is told by a file if and only if one of its sections tells the phase; then
/// it has the tasks and the constraints of the file, and no done tasks.
pub proof fn law_phase_makes_a_state(md: Seq<char>)
    ensures
        ({
            let c = context_of(context_sections(md));
            &&& state_in(md) is Some <==> c.phase is Some
            &&& state_in(md) matches Some(st) ==> {
                &&& st.current_phase == c.phase->0
                &&& st.active_tasks == c.tasks
                &&& st.constraints == c.constraints
                &&& st.done_tasks.len() == 0
            }
        }),
{
}

/// The headings under which a file tells the phase.
pub open spec fn names_phase(title: Seq<char>) -> bool {
    title == "Current Phase"@ || title == "当前阶段"@ || title == "阶段"@
}

/// The headings under which a file tells the tasks.
pub open spec fn names_tasks(title: Seq<char>) -> bool {
    title == "Active Tasks"@ || title == "关键任务"@ || title == "当前任务"@ || title == "任务"@
}

/// The headings under which a file tells the constraints.
pub open spec fn names_constraints(title: Seq<char>) -> bool {
    title == "Constraints"@ || title == "当前约束"@ || title == "约束条件"@ || title == "约束"@
}

proof fn lemma_titles()
    ensures
        "Current Phase"@.len() == 13 && "Current Phase"@[0] == 'C' && "Current Phase"@[1] == 'u',
        "当前阶段"@.len() == 4 && "当前阶段"@[0] == '当' && "当前阶段"@[2] == '阶',
        "阶段"@.len() == 2 && "阶段"@[0] == '阶',
        "Active Tasks"@.len() == 12 && "Active Tasks"@[0] == 'A',
        "关键任务"@.len() == 4 && "关键任务"@[0] == '关',
        "当前任务"@.len() == 4 && "当前任务"@[0] == '当' && "当前任务"@[2] == '任',
        "任务"@.len() == 2 && "任务"@[0] == '任',
        "Constraints"@.len() == 11 && "Constraints"@[0] == 'C' && "Constraints"@[1] == 'o',
        "当前约束"@.len() == 4 && "当前约束"@[0] == '当' && "当前约束"@[2] == '约',
        "约束条件"@.len() == 4 && "约束条件"@[0] == '约' && "约束条件"@[2] == '条',
        "约束"@.len() == 2 && "约束"@[0] == '约',
{
    reveal_strlit("Current Phase");
    reveal_strlit("当前阶段");
    reveal_strlit("阶段");
    reveal_strlit("Active Tasks");
    reveal_strlit("关键任务");
    reveal_strlit("当前任务");
    reveal_strlit("任务");
    reveal_strlit("Constraints");
    reveal_strlit("当前约束");
    reveal_strlit("约束条件");
    reveal_strlit("约束");
}

proof fn lemma_begins(title: Seq<char>, rest: Seq<char>, x: Seq<char>)
    requires
        names_phase(title) || names_tasks(title) || names_constraints(title),
        names_phase(x) || names_tasks(x) || names_constraints(x),
        rest.len() == 0 || rest[0] == '\n',
    ensures
        title == x ==> has_prefix(title + rest, x) && (title + rest).skip(x.len() as int) == rest,
        title != x && !(title == "约束条件"@ && x == "约束"@) ==> !has_prefix(title + rest, x),
{
    lemma_titles();
    let s = title + rest;
    if title == x {
        assert(s.take(x.len() as int) =~= x);
        assert(s.skip(x.len() as int) =~= rest);
    } else if has_prefix(s, x) {
        let y = s.take(x.len() as int);
        assert(y[0] == s[0] && s[0] == title[0]);
        if x.len() > 2 {
            assert(y[1] == s[1]);
            assert(y[2] == s[2]);
            if title.len() > 2 {
                assert(s[1] == title[1] && s[2] == title[2]);
            } else {
                assert(s[2] == rest[0]);
            }
        }
    }
}

proof fn lemma_after_titles(title: Seq<char>, rest: Seq<char>)
    requires
        names_phase(title) || names_tasks(title) || names_constraints(title),
        rest.len() == 0 || rest[0] == '\n',
    ensures
        after_title(title + rest, phase_titles()) == if names_phase(title) {
            Some(rest)
        } else {
            None
        },
        after_title(title + rest, task_titles()) == if names_tasks(title) {
            Some(rest)
        } else {
            None
        },
        after_title(title + rest, constraint_titles()) == if names_constraints(title) {
            Some(rest)
        } else {
            None
        },
{
    lemma_titles();
    reveal_with_fuel(after_title, 6);
    lemma_begins(title, rest, "Current Phase"@);
    lemma_begins(title, rest, "当前阶段"@);
    lemma_begins(title, rest, "阶段"@);
    lemma_begins(title, rest, "Active Tasks"@);
    lemma_begins(title, rest, "关键任务"@);
    lemma_begins(title, rest, "当前任务"@);
    lemma_begins(title, rest, "任务"@);
    lemma_begins(title, rest, "Constraints"@);
    lemma_begins(title, rest, "当前约束"@);
    lemma_begins(title, rest, "约束条件"@);
    lemma_begins(title, rest, "约束"@);
    let p = phase_titles();
    let t = task_titles();
    let c = constraint_titles();
    assert(p[0] == "Current Phase"@ && p.drop_first()[0] == "当前阶段"@
        && p.drop_first().drop_first()[0] == "阶段"@);
    assert(t[0] == "Active Tasks"@ && t.drop_first()[0] == "关键任务"@
        && t.drop_first().drop_first()[0] == "当前任务"@
        && t.drop_first().drop_first().drop_first()[0] == "任务"@);
    assert(c[0] == "Constraints"@ && c.drop_first()[0] == "当前约束"@
        && c.drop_first().drop_first()[0] == "约束条件"@
        && c.drop_first().drop_first().drop_first()[0] == "约束"@);
}

/// A section is known by its heading, in English or Chinese and of the first or the
/// second level, and tells what stands below: the phase in its canonical name, the
/// tasks or the constraints on its lines that are not blank. What the sections before it
/// told of anything else stays.
pub proof fn law_section_is_known_by_its_heading(
    sections: Seq<Seq<char>>,
    section: Seq<char>,
    marker: Seq<char>,
    title: Seq<char>,
    rest: Seq<char>,
)
    requires
        trim(section) == marker + title + rest,
        marker == "# "@ || marker == "## "@ || marker.len() == 0,
        rest.len() == 0 || rest[0] == '\n',
    ensures
        ({
            let before = context_of(sections);
            let after = context_of(sections.push(section));
            &&& names_phase(title) ==> {
                &&& after.phase == Some(canonical_phase(section_body(rest)))
                &&& after.tasks == before.tasks
                &&& after.constraints == before.constraints
            }
            &&& names_tasks(title) ==> {
                &&& after.phase == before.phase
                &&& after.tasks == tasks_on_lines(solid_lines(rest))
                &&& after.constraints == before.constraints
            }
            &&& names_constraints(title) ==> {
                &&& after.phase == before.phase
                &&& after.tasks == before.tasks
                &&& after.constraints == solid_lines(rest).map_values(constraint_on_line())
            }
        }),
{
    if names_phase(title) || names_tasks(title) || names_constraints(title) {
        reveal_strlit("# ");
        reveal_strlit("## ");
        lemma_titles();
        assert(sections.push(section).drop_last() =~= sections);
        let s = trim(section);
        assert(s.skip(marker.len() as int) =~= title + rest);
        assert(without_marker(s) == title + rest) by {
            if marker == "## "@ {
                assert(s.take(3) =~= "## "@);
            } else if marker == "# "@ {
                assert(s.take(2) =~= "# "@);
                if has_prefix(s, "## "@) {
                    assert(s.take(3)[1] == s[1]);
                }
            } else {
                assert(s =~= title + rest);
                assert(s[0] == title[0]);
                if has_prefix(s, "## "@) {
                    assert(s.take(3)[0] == s[0]);
                }
                if has_prefix(s, "# "@) {
                    assert(s.take(2)[0] == s[0]);
                }
            }
        }
        lemma_after_titles(title, rest);
    }
}

/// What stands below a heading is one text: its lines that are not blank, trimmed and
/// joined by single blanks.
pub proof fn law_phase_is_what_stands_below(h: Seq<char>, body: Seq<char>, l: Seq<char>)
    requires
        no_break(h),
        no_break(l),
        body.len() == 0 || body.last() == '\n',
    ensures
        ({
            let before = section_body(h + "\n"@ + body);
            let after = section_body(h + "\n"@ + (body + l + "\n"@));
            &&& body.len() == 0 ==> before.len() == 0
            &&& trim(l).len() == 0 ==> after == before
            &&& trim(l).len() > 0 ==> after == trim(l) || after == before + " "@ + trim(l)
            &&& trim(l).len() > 0 && before.len() > 0 ==> after == before + " "@ + trim(l)
            &&& trim(l).len() > 0 && body.len() == 0 ==> after == trim(l)
        }),
{
    let all = body + l + "\n"@;
    lemma_lines_cons(h, body);
    lemma_lines_cons(h, all);
    lemma_lines_concat(body, l + "\n"@);
    assert(body + (l + "\n"@) =~= all);
    lemma_lines_one(l);
    lemma_trim_chomp(l);
    let x = lines(body);
    let y = lines(l + "\n"@);
    let one = y[0];
    assert((seq![crate::text::chomp(h)] + x).drop_first() =~= x);
    assert((seq![crate::text::chomp(h)] + (x + y)).drop_first() =~= x + y);
    lemma_filter_map_concat(x, y, nonblank());
    lemma_nonblank_one(one);
    let kept = x.filter_map(nonblank());
    if trim(l).len() > 0 {
        assert(kept + seq![trim(l)] =~= kept.push(trim(l)));
        lemma_join_push(kept, trim(l), " "@);
    } else {
        assert(kept + Seq::<Seq<char>>::empty() =~= kept);
    }
    if body.len() == 0 {
        assert(x.len() == 0);
        reveal(Seq::filter_map);
        assert(kept.len() == 0);
    }
}

proof fn lemma_word_of(u: Seq<char>, words: Seq<Seq<char>>)
    ensures
        bracketed_word(u, words) matches Some(w) ==> words.contains(w),
    decreases words.len(),
{
    if words.len() > 0 {
        let rest = words.drop_first();
        lemma_word_of(u, rest);
        if let Some(w) = bracketed_word(u, words) {
            if w == words[0] {
                assert(words.contains(w));
            } else {
                let k = choose|k: int| 0 <= k < rest.len() && rest[k] == w;
                assert(words[k + 1] == w);
            }
        }
    }
}

/// A line with a status in brackets tells a task of that status, with the id that the
/// line states or else a new one, and with the rest of the line as its description.
pub proof fn law_line_tells_a_task_of_its_status(
    line: Seq<char>,
    fresh: Seq<char>,
    g: Seq<Option<Seq<char>>>,
)
    requires
        task_line_groups(line) == Some(g),
    ensures
        task_on_line(line, fresh) matches Some(t) && {
            &&& t.id == if g[2] is Some {
                g[2]->0
            } else {
                fresh
            }
            &&& t.status.name() == g[1]->0
            &&& t.description == trim(g[3]->0)
            &&& t.superseded_by is None
        },
{
    let u = after_open_bracket(line)->0;
    lemma_word_of(u, task_line_words());
    let w = bracketed_word(u, task_line_words())->0;
    let k = choose|k: int| 0 <= k < task_line_words().len() && task_line_words()[k] == w;
    reveal_strlit("Todo");
    reveal_strlit("InProgress");
    reveal_strlit("Done");
    reveal_strlit("Blocked");
    assert("Todo"@[0] == 'T' && "InProgress"@[0] == 'I' && "Done"@[0] == 'D' && "Blocked"@[0]
        == 'B');
    assert(g[1]->0 == w);
}

/// A line with an empty box or only a dash tells a Todo task with a new id and the rest
/// of the line as its description, unless the rest is blank. Any other line tells none.
pub proof fn law_line_without_status_tells_a_todo(line: Seq<char>, fresh: Seq<char>)
    requires
        task_line_groups(line) is None,
    ensures
        ({
            let g = if checkbox_line_groups(line) is Some {
                checkbox_line_groups(line)
            } else {
                bullet_line_groups(line)
            };
            &&& task_on_line(line, fresh) is Some <==> g is Some && trim(g->0[1]->0).len() > 0
            &&& task_on_line(line, fresh) matches Some(t) ==> {
                &&& t.id == fresh
                &&& t.status is Todo
                &&& t.description == trim(g->0[1]->0)
                &&& t.superseded_by is None
            }
        }),
{
}

/// The tasks are told line by line, in order. One that states its id has that; any
/// other gets the first number from the number of tasks before it on that no task has.
pub proof fn law_tasks_are_told_line_by_line(
    ls: Seq<Seq<char>>,
    l: Seq<char>,
    stated: Seq<Seq<char>>,
) -> (k: nat)
    ensures
        ({
            let before = tasks_numbered(ls, stated);
            let after = tasks_numbered(ls.push(l), stated);
            let id = "TASK-"@ + padded(k, 3);
            &&& ls.len() == 0 ==> before.len() == 0
            &&& after == match task_on_line(l, id) {
                Some(t) => before.push(t),
                None => before,
            }
            &&& before.len() <= k
            &&& !stated.contains(id)
            &&& forall|i: int| 0 <= i < before.len() ==> (#[trigger] before[i]).id != id
            &&& forall|m: nat|
                before.len() <= m < k ==> {
                    let other = "TASK-"@ + #[trigger] padded(m, 3);
                    stated.contains(other) || exists|i: int|
                        0 <= i < before.len() && (#[trigger] before[i]).id == other
                }
        }),
{
    let before = tasks_numbered(ls, stated);
    let ids = task_ids(before);
    let taken = stated + ids;
    let k = law_new_id_is_the_first_free(taken, before.len());
    let id = "TASK-"@ + padded(k, 3);
    assert(ls.push(l).drop_last() =~= ls);
    if stated.contains(id) {
        let i = choose|i: int| 0 <= i < stated.len() && stated[i] == id;
        assert(taken[i] == id);
    }
    assert forall|i: int| 0 <= i < before.len() implies (#[trigger] before[i]).id != id by {
        if before[i].id == id {
            assert(taken[stated.len() + i] == id);
        }
    }
    assert forall|m: nat| before.len() <= m < k implies ({
        let other = "TASK-"@ + #[trigger] padded(m, 3);
        stated.contains(other) || exists|i: int|
            0 <= i < before.len() && (#[trigger] before[i]).id == other
    }) by {
        let other = "TASK-"@ + padded(m, 3);
        assert(taken.contains(other));
        let i = choose|i: int| 0 <= i < taken.len() && taken[i] == other;
        if i < stated.len() {
            assert(stated[i] == other);
        } else {
            assert(before[i - stated.len()].id == other);
        }
    }
    k
}

/// The ids that are stated are those of the lines that tell a task by one.
pub proof fn law_stated_ids_are_those_of_the_lines(ls: Seq<Seq<char>>, l: Seq<char>)
    ensures
        tasks_on_lines(ls) == tasks_numbered(ls, stated_ids(ls)),
        stated_ids(ls.push(l)) == match task_line_groups(l) {
            Some(g) => if g[2] is Some {
                stated_ids(ls).push(g[2]->0)
            } else {
                stated_ids(ls)
            },
            None => stated_ids(ls),
        },
{
    reveal(Seq::filter_map);
    assert(ls.push(l).drop_last() =~= ls);
}

/// A constraint is its line without the dashes before it, trimmed.
pub proof fn law_constraint_is_its_line_without_dashes(dashes: Seq<char>, text: Seq<char>)
    requires
        forall|i: int| 0 <= i < dashes.len() ==> dashes[i] == '-',
        text.len() == 0 || text[0] != '-',
    ensures
        constraint_on_line()(dashes + text) == trim(text),
{
    lemma_trim_start_char_at(dashes + text, '-', dashes.len() as int);
    assert((dashes + text).skip(dashes.len() as int) =~= text);
}

// ── The decisions ──────────────────────────────────────────────────────────

/// A status line whose words are no status counts as Proposed, any other as the status
/// that it names; beside it only white space is taken from the ends of the two texts.
pub proof fn law_unknown_status_counts_as_proposed(a: AdrView, status: Seq<char>)
    ensures
        adr_status_of(status) is Some ==> close_adr(a, status).status == adr_status_of(status)->0,
        adr_status_of(status) is None ==> close_adr(a, status).status is Proposed,
        close_adr(a, status).id == a.id,
        close_adr(a, status).title == a.title,
        close_adr(a, status).context == trim(a.context),
        close_adr(a, status).decision == trim(a.decision),
        close_adr(a, status).tags == a.tags,
{
}

// ── The archive of tasks ───────────────────────────────────────────────────

/// The entry of a finished task: its status, id and description, and what it gave way to
/// and why, where that is known.
pub open spec fn is_entry(t: TaskView, entry: Seq<char>) -> bool {
    let label = if t.status is Superseded {
        "Superseded"@
    } else if t.status is Cancelled {
        "Cancelled"@
    } else {
        "Done"@
    };
    let line = "- ["@ + label + "] ["@ + t.id + "] "@ + t.description + "\n"@;
    match t.superseded_by {
        None => entry == line,
        Some(info) => {
            let by = match info.reference {
                ReferenceView::Adr(id) => "  Superseded by: "@ + id + "\n"@,
                ReferenceView::Task(id) => "  Superseded by: "@ + ("Task "@ + id) + "\n"@,
            };
            if info.reason.len() > 0 {
                entry == line + (by + ("  Reason: "@ + info.reason + "\n"@))
            } else {
                entry == line + by
            }
        },
    }
}

/// The part of the archive in which a task of that status is entered.
pub open spec fn part_for(archive: ArchiveView, status: TaskStatus) -> Seq<char> {
    if status is Superseded {
        archive.superseded
    } else if status is Cancelled {
        archive.cancelled
    } else {
        archive.completed
    }
}

proof fn lemma_is_entry(t: TaskView)
    ensures
        is_entry(t, archived_text(t)),
{
    let none = Seq::<char>::empty();
    let text = archived_text(t);
    match t.superseded_by {
        None => {
            let label = if t.status is Superseded {
                "Superseded"@
            } else if t.status is Cancelled {
                "Cancelled"@
            } else {
                "Done"@
            };
            assert(text =~= "- ["@ + label + "] ["@ + t.id + "] "@ + t.description + "\n"@);
        },
        Some(info) => {
            let by = match info.reference {
                ReferenceView::Adr(id) => "  Superseded by: "@ + id + "\n"@,
                ReferenceView::Task(id) => "  Superseded by: "@ + ("Task "@ + id) + "\n"@,
            };
            assert(by + none =~= by);
        },
    }
}

/// A finished task is entered at the end of the part for its status, below a heading
/// with the day, which is made where it is not there; the other parts stay as they are.
pub proof fn law_task_is_entered_by_status_and_day(
    archive: ArchiveView,
    t: TaskView,
    date: Seq<char>,
)
    ensures
        ({
            let after = add_archived(archive, t, date);
            let part = part_for(archive, t.status);
            let now = part_for(after, t.status);
            let entry = archived_text(t);
            &&& is_entry(t, entry)
            &&& occurs_in("### "@ + date, part) ==> now == part + entry
            &&& !occurs_in("### "@ + date, part) ==> now == part + ("\n### "@ + date + "\n"@
                + entry)
            &&& !(t.status is Superseded) ==> after.superseded == archive.superseded
            &&& !(t.status is Cancelled) ==> after.cancelled == archive.cancelled
            &&& t.status is Superseded || t.status is Cancelled ==> after.completed
                == archive.completed
        }),
{
    lemma_is_entry(t);
}

proof fn lemma_entered(archive: ArchiveView, ts: Seq<TaskView>, date: Seq<char>, k: int)
    requires
        0 <= k < ts.len(),
    ensures
        stands_in(
            archived_text(ts[k]),
            part_for(add_all_archived(archive, ts, date), ts[k].status),
        ),
    decreases ts.len(),
{
    let rest = ts.drop_last();
    let last = ts[ts.len() - 1];
    let before = add_all_archived(archive, rest, date);
    let after = add_all_archived(archive, ts, date);
    let none = Seq::<char>::empty();
    law_task_is_entered_by_status_and_day(before, last, date);
    if k < rest.len() {
        lemma_entered(archive, rest, date, k);
        let t = ts[k];
        let was = part_for(before, t.status);
        let now = part_for(after, t.status);
        let (a, b) = choose|a: Seq<char>, b: Seq<char>|
            was == #[trigger] (a + archived_text(t) + b);
        assert(has_prefix(now, was)) by {
            assert(now.take(was.len() as int) =~= was);
        }
        let more = now.skip(was.len() as int);
        assert(now =~= was + more);
        assert(now =~= a + archived_text(t) + (b + more));
    } else {
        let was = part_for(before, last.status);
        let now = part_for(after, last.status);
        let front = now.take(now.len() - archived_text(last).len());
        assert(now =~= front + archived_text(last) + none);
    }
}

/// Whether `text` is the archive file with these three parts: each under its heading,
/// or left out where it is blank.
pub open spec fn file_of_parts(
    text: Seq<char>,
    completed: Seq<char>,
    superseded: Seq<char>,
    cancelled: Seq<char>,
) -> bool {
    text == "# Archived Tasks\n\n"@ + (if is_blank(completed) {
        Seq::empty()
    } else {
        "## Completed\n"@ + completed + "\n"@
    }) + (if is_blank(superseded) {
        Seq::empty()
    } else {
        "## Superseded\n"@ + superseded + "\n"@
    }) + (if is_blank(cancelled) {
        Seq::empty()
    } else {
        "## Cancelled\n"@ + cancelled + "\n"@
    })
}

/// Every finished task that the file does not record yet is entered in it, in the part
/// for its status.
pub proof fn law_finished_task_is_entered(
    existing: Seq<char>,
    ts: Seq<TaskView>,
    date: Seq<char>,
    t: TaskView,
)
    requires
        ts.contains(t),
        !archived(existing, t.id),
    ensures
        exists|completed: Seq<char>, superseded: Seq<char>, cancelled: Seq<char>, entry: Seq<char>|
            #![trigger file_of_parts(archive_after(existing, ts, date), completed, superseded, cancelled), is_entry(t, entry)]
            {
                &&& file_of_parts(
                    archive_after(existing, ts, date),
                    completed,
                    superseded,
                    cancelled,
                )
                &&& is_entry(t, entry)
                &&& stands_in(
                    entry,
                    if t.status is Superseded {
                        superseded
                    } else if t.status is Cancelled {
                        cancelled
                    } else {
                        completed
                    },
                )
            },
{
    let added = ts.filter(unarchived(existing));
    lemma_filter_has(ts, unarchived(existing), t);
    let k = choose|k: int| 0 <= k < added.len() && added[k] == t;
    let after = add_all_archived(archive_in(existing), added, date);
    lemma_entered(archive_in(existing), added, date, k);
    lemma_is_entry(t);
    assert(file_of_parts(
        archive_after(existing, ts, date),
        after.completed,
        after.superseded,
        after.cancelled,
    ));
    assert(is_entry(t, archived_text(t)));
}

/// Where the file records every one of the tasks already it stays as it is.
pub proof fn law_recorded_tasks_are_not_entered_again(
    existing: Seq<char>,
    ts: Seq<TaskView>,
    date: Seq<char>,
)
    requires
        existing.len() > 0,
        forall|i: int| 0 <= i < ts.len() ==> archived(existing, (#[trigger] ts[i]).id),
    ensures
        archive_after(existing, ts, date) == existing,
{
    let added = ts.filter(unarchived(existing));
    if added.len() > 0 {
        lemma_filter_from(ts, unarchived(existing), 0);
        let i = choose|i: int| 0 <= i < ts.len() && ts[i] == added[0];
        assert(archived(existing, ts[i].id));
    }
}

/// A file in the older layout, without parts, is all about completed tasks; a blank one
/// is about none.
pub proof fn law_flat_archive_is_completed(existing: Seq<char>)
    ensures
        is_blank(existing) ==> archive_in(existing).completed.len() == 0,
        !occurs_in("## Completed"@, existing) && !is_blank(existing) ==> archive_in(
            existing,
        ).completed == existing,
        !occurs_in("## Completed"@, existing) || is_blank(existing) ==> archive_in(
            existing,
        ).superseded.len() == 0 && archive_in(existing).cancelled.len() == 0,
{
}

/// A line of the archive belongs to the part whose heading was read last.
pub proof fn law_archive_lines_go_to_their_part(
    archive: ArchiveView,
    current: Option<ArchiveSection>,
    l: Seq<char>,
    rest: Seq<Seq<char>>,
)
    ensures
        ({
            let read = archive_lines(archive, current, seq![l] + rest);
            let heading = trim(l) == "## Completed"@ || trim(l) == "## Superseded"@ || trim(l)
                == "## Cancelled"@;
            &&& trim(l) == "## Completed"@ ==> read == archive_lines(
                archive,
                Some(ArchiveSection::Completed),
                rest,
            )
            &&& trim(l) == "## Superseded"@ ==> read == archive_lines(
                archive,
                Some(ArchiveSection::Superseded),
                rest,
            )
            &&& trim(l) == "## Cancelled"@ ==> read == archive_lines(
                archive,
                Some(ArchiveSection::Cancelled),
                rest,
            )
            &&& !heading && current is None ==> read == archive_lines(archive, current, rest)
            &&& !heading && current == Some(ArchiveSection::Completed) ==> read == archive_lines(
                (ArchiveView { completed: archive.completed + (l + "\n"@), ..archive }),
                current,
                rest,
            )
            &&& !heading && current == Some(ArchiveSection::Superseded) ==> read == archive_lines(
                (ArchiveView { superseded: archive.superseded + (l + "\n"@), ..archive }),
                current,
                rest,
            )
            &&& !heading && current == Some(ArchiveSection::Cancelled) ==> read == archive_lines(
                (ArchiveView { cancelled: archive.cancelled + (l + "\n"@), ..archive }),
                current,
                rest,
            )
        }),
{
    reveal_strlit("## Completed");
    reveal_strlit("## Superseded");
    reveal_strlit("## Cancelled");
    assert("## Completed"@[3] == 'C' && "## Superseded"@[3] == 'S' && "## Cancelled"@[3] == 'C'
        && "## Completed"@[4] == 'o' && "## Cancelled"@[4] == 'a');
    let ls = seq![l] + rest;
    assert(ls[0] == l);
    assert(ls.drop_first() =~= rest);
}

/// A file of decisions is read line by line: a heading ends the ADR before it and opens
/// one with the id before its first colon and the title after it.
pub proof fn law_heading_opens_an_adr(
    scan: AdrScan,
    raw: Seq<char>,
    id: Seq<char>,
    title: Seq<char>,
)
    requires
        trim(raw) == "## "@ + (id + ":"@ + title),
        has_prefix(id, "ADR-"@),
        !id.contains(':'),
        trim(id + ":"@ + title) == id + ":"@ + title,
    ensures
        ({
            let after = adr_step(scan, raw);
            &&& scan.open is None ==> after.adrs == scan.adrs
            &&& scan.open matches Some(a) ==> after.adrs == scan.adrs.push(
                close_adr(a, scan.status),
            )
            &&& after.open matches Some(a) && a.id == trim(id) && a.title == trim(title)
                && a.context.len() == 0 && a.decision.len() == 0 && a.tags.len() == 0
            &&& after.section is Header
            &&& after.status == scan.status
        }),
{
    reveal_strlit("## ");
    reveal_strlit("ADR-");
    reveal_strlit("## ADR-");
    reveal_strlit(":");
    let line = trim(raw);
    let header = id + ":"@ + title;
    assert(id.take(4) == "ADR-"@);
    assert(line.take(7) =~= "## ADR-"@) by {
        assert forall|i: int| 0 <= i < 7 implies line.take(7)[i] == "## ADR-"@[i] by {
            if i >= 3 {
                assert(line[i] == id[i - 3]);
                assert(id.take(4)[i - 3] == "ADR-"@[i - 3]);
            }
        }
    }
    assert(line.skip(3) =~= header);
    assert forall|i: int| 0 <= i < id.len() implies header[i] != ':' by {
        assert(id.contains(id[i]));
    }
    lemma_index_of_at(header, ':', id.len() as int);
    assert(header.take(id.len() as int) =~= id);
    assert(header.skip(id.len() as int + 1) =~= title);
}

/// A heading without a colon ends the ADR before it and opens none.
pub proof fn law_heading_without_colon_opens_none(scan: AdrScan, raw: Seq<char>)
    requires
        has_prefix(trim(raw), "## ADR-"@),
        !trim(raw).contains(':'),
    ensures
        ({
            let after = adr_step(scan, raw);
            &&& after.open is None
            &&& scan.open is None ==> after.adrs == scan.adrs
            &&& scan.open matches Some(a) ==> after.adrs == scan.adrs.push(
                close_adr(a, scan.status),
            )
        }),
{
    reveal_strlit("## ");
    reveal_strlit("## ADR-");
    let line = trim(raw);
    let rest = line.skip(3);
    let header = trim(rest);
    lemma_trim_ends(rest);
    assert forall|i: int| 0 <= i < header.len() implies header[i] != ':' by {
        assert(rest.contains(header[i]));
        let k = choose|k: int| 0 <= k < rest.len() && rest[k] == header[i];
        assert(line[k + 3] == header[i]);
    }
    lemma_index_of_at(header, ':', header.len() as int);
}

} // verus!
