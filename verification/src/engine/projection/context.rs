//! `context.md` and the runtime state it holds.
//!
//! ```markdown
//! # Current Phase
//! {phase}
//!
//! # Active Tasks
//! - [Todo] [TASK-XXX] {description}
//! - [InProgress|Blocked] [TASK-XXX] {description}
//!
//! # Constraints
//! - {constraint}
//! ```
//!
//! An older layout with Chinese second-level headings under one outer heading is
//! read as well; what is written is always the layout above.
use vstd::prelude::*;

use crate::engine::projection::phase::{canonical_phase, canonicalize_phase};
use crate::engine::projection::ParseError;
use crate::engine::state_manager::unique_ids;
use crate::foreign::{
    after_open_bracket, bracketed_word, bullet_line_groups, captures, checkbox_line_groups,
    groups_view, has_task_id, is_digit, task_line_groups, task_line_words, unicode_digit,
    BULLET_LINE, CHECKBOX_LINE, TASK_LINE,
};
use crate::lines::{
    ends_line, is_core, lemma_core_exists, lemma_filter_map_concat, lemma_lines_cons, lemma_nonblank_one, lemma_solid_blank,
    lemma_solid_concat, lemma_solid_no_break, lemma_solid_one, lemma_solid_pad,
    lemma_trim_after_word, lemma_trim_blank, lemma_trim_end_pad, lemma_trim_end_split,
    lemma_trim_ends, lemma_trim_is_core, lemma_trim_lacks, lemma_trim_pad, lemma_trim_start_pad,
    lemma_trim_start_past, lemma_trim_start_split, no_break,
};
use crate::models::{task_views, RuntimeState, RuntimeStateView, Task, TaskStatus, TaskView};
use crate::text::{
    after_literal, chomp, contents, decimal, has_prefix, holds_text, is_blank, is_white_space, join, joined,
    lemma_find_at, lemma_find_none, lemma_index_of_at, lemma_padded_differ, lemma_trim_end_at, lemma_trim_start_char_at,
    lines, lines_of, nonblank, padded, padded_decimal, same_text, solid_lines, solid_lines_of,
    split, split_on, string_of, texts, to_chars, trim, trim_end, trim_start, trim_start_char,
    trimmed, without_leading,
};

verus! {

// ── What a context file means ──────────────────────────────────────────────

/// The sections of a file: split at first-level headings, or, where there is
/// none after the first line, at second-level ones.
pub open spec fn context_sections(md: Seq<char>) -> Seq<Seq<char>> {
    let h1 = split(md, "\n# "@);
    let h2 = split(md, "\n## "@);
    if h1.len() > 1 {
        h1
    } else if h2.len() > 1 {
        h2
    } else {
        seq![md]
    }
}

/// A section without the marker of its heading.
pub open spec fn without_marker(section: Seq<char>) -> Seq<char> {
    if has_prefix(section, "## "@) {
        section.skip(3)
    } else if has_prefix(section, "# "@) {
        section.skip(2)
    } else {
        section
    }
}

/// What follows the first of `titles` that `s` begins with.
pub open spec fn after_title(s: Seq<char>, titles: Seq<Seq<char>>) -> Option<Seq<char>>
    decreases titles.len(),
{
    if titles.len() == 0 {
        None
    } else if has_prefix(s, titles[0]) {
        Some(s.skip(titles[0].len() as int))
    } else {
        after_title(s, titles.drop_first())
    }
}

pub open spec fn phase_titles() -> Seq<Seq<char>> {
    seq!["Current Phase"@, "当前阶段"@, "阶段"@]
}

pub open spec fn task_titles() -> Seq<Seq<char>> {
    seq!["Active Tasks"@, "关键任务"@, "当前任务"@, "任务"@]
}

pub open spec fn constraint_titles() -> Seq<Seq<char>> {
    seq!["Constraints"@, "当前约束"@, "约束条件"@, "约束"@]
}

/// The text below a heading, its lines joined by single spaces.
pub open spec fn section_body(rest: Seq<char>) -> Seq<char> {
    let ls = lines(rest);
    if ls.len() == 0 {
        Seq::empty()
    } else {
        join(ls.drop_first().filter_map(nonblank()), " "@)
    }
}

/// The id that a task gets by a number.
pub open spec fn generated_id(n: nat) -> Seq<char> {
    "TASK-"@ + padded(n, 3)
}

/// Whether `k` is the first number from `n` on whose id is not `taken`.
pub open spec fn first_free(taken: Seq<Seq<char>>, n: nat, k: nat) -> bool {
    &&& n <= k
    &&& !taken.contains(generated_id(k))
    &&& forall|m: nat| n <= m < k ==> taken.contains(#[trigger] generated_id(m))
}

/// The id of a task that came without one, after `n` other tasks: that of the
/// first free number from `n` on.
pub open spec fn free_id(taken: Seq<Seq<char>>, n: nat) -> Seq<char> {
    generated_id(choose|k: nat| first_free(taken, n, k))
}

/// The status that a task line names.
pub open spec fn status_named(word: Seq<char>) -> TaskStatus {
    if word == "InProgress"@ {
        TaskStatus::InProgress
    } else if word == "Done"@ {
        TaskStatus::Done
    } else if word == "Blocked"@ {
        TaskStatus::Blocked
    } else {
        TaskStatus::Todo
    }
}

pub open spec fn read_task(id: Seq<char>, description: Seq<char>, status: TaskStatus) -> TaskView {
    TaskView { id, description, status, superseded_by: None }
}

/// The task that a line without a status holds, if it holds any text.
pub open spec fn legacy_task(description: Seq<char>, fresh: Seq<char>) -> Option<TaskView> {
    if trim(description).len() > 0 {
        Some(read_task(fresh, trim(description), TaskStatus::Todo))
    } else {
        None
    }
}

/// The task on a (trimmed) line: `- [Status] [TASK-XXX] text`, or without the id
/// `- [Status] text`, `- [ ] text` or `- text`, which gets the id `fresh`.
pub open spec fn task_on_line(line: Seq<char>, fresh: Seq<char>) -> Option<TaskView> {
    match (task_line_groups(line), checkbox_line_groups(line), bullet_line_groups(line)) {
        (Some(g), _, _) => Some(
            read_task(
                match g[2] {
                    Some(id) => id,
                    None => fresh,
                },
                trim(g[3]->0),
                status_named(g[1]->0),
            ),
        ),
        (None, Some(g), _) => legacy_task(g[1]->0, fresh),
        (None, None, Some(g)) => legacy_task(g[1]->0, fresh),
        (None, None, None) => None,
    }
}

/// The id that a (trimmed) line states, if it states one.
pub open spec fn stated_id() -> spec_fn(Seq<char>) -> Option<Seq<char>> {
    |line: Seq<char>|
        match task_line_groups(line) {
            Some(g) => g[2],
            None => None,
        }
}

/// The ids that the (trimmed) lines `ls` state.
pub open spec fn stated_ids(ls: Seq<Seq<char>>) -> Seq<Seq<char>> {
    ls.filter_map(stated_id())
}

pub open spec fn task_ids(ts: Seq<TaskView>) -> Seq<Seq<char>> {
    ts.map_values(|t: TaskView| t.id)
}

/// The tasks on the (trimmed) lines `ls`, where the ids `stated` are not given
/// to other tasks.
pub open spec fn tasks_numbered(ls: Seq<Seq<char>>, stated: Seq<Seq<char>>) -> Seq<TaskView>
    decreases ls.len(),
{
    if ls.len() == 0 {
        Seq::empty()
    } else {
        let before = tasks_numbered(ls.drop_last(), stated);
        match task_on_line(ls.last(), free_id(stated + task_ids(before), before.len())) {
            Some(t) => before.push(t),
            None => before,
        }
    }
}

/// The tasks on the (trimmed) lines `ls`.
pub open spec fn tasks_on_lines(ls: Seq<Seq<char>>) -> Seq<TaskView> {
    tasks_numbered(ls, stated_ids(ls))
}

/// The constraint on a (trimmed) line.
pub open spec fn constraint_on_line() -> spec_fn(Seq<char>) -> Seq<char> {
    |line: Seq<char>| trim(trim_start_char(line, '-'))
}

/// What the sections read so far say. The last section of a kind counts.
#[verifier::ext_equal]
pub struct ContextView {
    pub phase: Option<Seq<char>>,
    pub tasks: Seq<TaskView>,
    pub constraints: Seq<Seq<char>>,
}

pub open spec fn context_step(c: ContextView, section: Seq<char>) -> ContextView {
    let s = without_marker(trim(section));
    match (
        after_title(s, phase_titles()),
        after_title(s, task_titles()),
        after_title(s, constraint_titles()),
    ) {
        (Some(rest), _, _) => ContextView {
            phase: Some(canonical_phase(section_body(rest))),
            ..c
        },
        (None, Some(rest), _) => ContextView { tasks: tasks_on_lines(solid_lines(rest)), ..c },
        (None, None, Some(rest)) => ContextView {
            constraints: solid_lines(rest).map_values(constraint_on_line()),
            ..c
        },
        (None, None, None) => c,
    }
}

pub open spec fn context_of(sections: Seq<Seq<char>>) -> ContextView
    decreases sections.len(),
{
    if sections.len() == 0 {
        ContextView { phase: None, tasks: Seq::empty(), constraints: Seq::empty() }
    } else {
        context_step(context_of(sections.drop_last()), sections.last())
    }
}

/// The state that a context file describes; one without a phase describes none.
pub open spec fn state_in(md: Seq<char>) -> Option<RuntimeStateView> {
    let c = context_of(context_sections(md));
    match c.phase {
        Some(phase) => Some(
            RuntimeStateView {
                current_phase: phase,
                active_tasks: c.tasks,
                done_tasks: Seq::empty(),
                constraints: c.constraints,
            },
        ),
        None => None,
    }
}

/// The line of one task.
pub open spec fn task_line(t: TaskView) -> Seq<char> {
    "- ["@ + t.status.name() + "] ["@ + t.id + "] "@ + t.description + "\n"@
}

/// The lines of the tasks that are not done.
pub open spec fn task_lines(ts: Seq<TaskView>) -> Seq<char>
    decreases ts.len(),
{
    if ts.len() == 0 {
        Seq::empty()
    } else if ts.last().status is Done {
        task_lines(ts.drop_last())
    } else {
        task_lines(ts.drop_last()) + task_line(ts.last())
    }
}

/// The lines of the constraints.
pub open spec fn constraint_lines(cs: Seq<Seq<char>>) -> Seq<char>
    decreases cs.len(),
{
    if cs.len() == 0 {
        Seq::empty()
    } else {
        constraint_lines(cs.drop_last()) + ("- "@ + cs.last() + "\n"@)
    }
}

/// The context file of a state.
pub open spec fn context_text(st: RuntimeStateView) -> Seq<char> {
    "# Current Phase\n"@ + st.current_phase + "\n\n# Active Tasks\n"@ + task_lines(st.active_tasks)
        + "\n# Constraints\n"@ + constraint_lines(st.constraints) + "\n"@
}

// ── Reading ────────────────────────────────────────────────────────────────

/// What follows the heading of a section, where it is one of `titles`.
fn match_section_title<'a>(section: &'a [char], titles: &Vec<&str>) -> (r: Option<&'a [char]>)
    ensures
        match r {
            Some(rest) => after_title(
                without_marker(section@),
                titles@.map_values(|t: &str| t@),
            ) == Some(rest@),
            None => after_title(without_marker(section@), titles@.map_values(|t: &str| t@)) is None,
        },
{
    proof {
        reveal_strlit("## ");
        reveal_strlit("# ");
    }
    let body = match after_literal(section, "## ") {
        Some(rest) => rest,
        None => match after_literal(section, "# ") {
            Some(rest) => rest,
            None => section,
        },
    };
    let ghost all = titles@.map_values(|t: &str| t@);
    assert(body@ == without_marker(section@));
    let mut i: usize = 0;
    assert(all.skip(0) =~= all);
    while i < titles.len()
        invariant
            i <= titles@.len(),
            all == titles@.map_values(|t: &str| t@),
            body@ == without_marker(section@),
            after_title(body@, all) == after_title(body@, all.skip(i as int)),
        decreases titles@.len() - i,
    {
        assert(all.skip(i as int)[0] == titles@[i as int]@);
        assert(all.skip(i as int).drop_first() =~= all.skip(i + 1));
        if let Some(rest) = after_literal(body, titles[i]) {
            return Some(rest);
        }
        i = i + 1;
    }
    None
}

/// Extract the body text after a section header.
fn extract_section_body(rest: &[char]) -> (r: String)
    ensures
        r@ == section_body(rest@),
{
    let ls = lines_of(rest);
    let ghost all = lines(rest@);
    let mut parts: Vec<String> = Vec::new();
    if ls.len() == 0 {
        return String::new();
    }
    let ghost tail = all.drop_first();
    let mut i: usize = 1;
    assert(texts(parts@) =~= tail.take(0).filter_map(nonblank()));
    while i < ls.len()
        invariant
            1 <= i <= ls@.len(),
            all == contents(ls@),
            tail == all.drop_first(),
            texts(parts@) == tail.take(i - 1).filter_map(nonblank()),
        decreases ls@.len() - i,
    {
        assert(tail.take(i as int).drop_last() =~= tail.take(i - 1));
        assert(tail.take(i as int).last() == ls@[i as int]@);
        let line = trimmed(ls[i]);
        if line.len() > 0 {
            let ghost before = parts@;
            parts.push(string_of(line));
            assert(texts(parts@) =~= texts(before) + seq![line@]);
        }
        i = i + 1;
    }
    assert(tail.take(i - 1) =~= tail);
    joined(&parts, " ")
}

proof fn lemma_generated_differ(a: nat, b: nat)
    requires
        generated_id(a) == generated_id(b),
    ensures
        a == b,
{
    let p = "TASK-"@;
    assert((p + padded(a, 3)).skip(p.len() as int) =~= padded(a, 3));
    assert((p + padded(b, 3)).skip(p.len() as int) =~= padded(b, 3));
    lemma_padded_differ(a, b, 3);
}

/// No more numbers are taken than there are ids.
proof fn lemma_taken_bound(taken: Seq<Seq<char>>, n: nat, k: nat)
    requires
        n <= k,
        forall|m: nat| n <= m < k ==> taken.contains(#[trigger] generated_id(m)),
    ensures
        k - n <= taken.len(),
    decreases k - n,
{
    if n < k {
        let last = (k - 1) as nat;
        assert(taken.contains(generated_id(last)));
        let j = choose|j: int| 0 <= j < taken.len() && taken[j] == generated_id(last);
        let rest = taken.remove(j);
        assert forall|m: nat| n <= m < last implies rest.contains(#[trigger] generated_id(m)) by {
            let i = choose|i: int| 0 <= i < taken.len() && taken[i] == generated_id(m);
            if i == j {
                lemma_generated_differ(m, last);
            }
            assert(rest[if i < j { i } else { i - 1 }] == generated_id(m));
        }
        lemma_taken_bound(rest, n, last);
    }
}

proof fn lemma_free_number(taken: Seq<Seq<char>>, n: nat, k: nat)
    requires
        first_free(taken, n, k),
    ensures
        free_id(taken, n) == generated_id(k),
{
    let other = choose|i: nat| first_free(taken, n, i);
    assert(first_free(taken, n, other));
    if other < k {
        assert(taken.contains(generated_id(other)));
    } else if k < other {
        assert(taken.contains(generated_id(k)));
    }
}

/// There is a free number.
proof fn lemma_some_free(taken: Seq<Seq<char>>, n: nat, k: nat)
    requires
        n <= k,
        forall|m: nat| n <= m < k ==> taken.contains(#[trigger] generated_id(m)),
    ensures
        !taken.contains(free_id(taken, n)),
    decreases n + taken.len() - k,
{
    lemma_taken_bound(taken, n, k);
    if taken.contains(generated_id(k)) {
        lemma_taken_bound(taken, n, k + 1);
        lemma_some_free(taken, n, k + 1);
    } else {
        lemma_free_number(taken, n, k);
    }
}

fn generate_id(n: u128) -> (r: String)
    ensures
        r@ == generated_id(n as nat),
{
    let mut id = "TASK-".to_owned();
    let digits = padded_decimal(n, 3);
    id.append(digits.as_str());
    id
}

/// The first free id from the number `n` on.
fn choose_id(taken: &Vec<String>, n: usize) -> (r: String)
    ensures
        r@ == free_id(texts(taken@), n as nat),
{
    let ghost ids = texts(taken@);
    let mut k: u128 = n as u128;
    loop
        invariant
            n <= k,
            ids == texts(taken@),
            forall|m: nat| n <= m < k ==> ids.contains(#[trigger] generated_id(m)),
        decreases n + ids.len() - k,
    {
        let id = generate_id(k);
        proof {
            lemma_taken_bound(ids, n as nat, k as nat);
        }
        if !holds_text(taken, &id) {
            proof {
                lemma_free_number(ids, n as nat, k as nat);
            }
            return id;
        }
        assert(ids.len() == taken.len());
        proof {
            lemma_taken_bound(ids, n as nat, k as nat + 1);
        }
        k = k + 1;
    }
}

fn read_status(word: &str) -> (r: TaskStatus)
    ensures
        r == status_named(word@),
{
    if same_text(word, "InProgress") {
        TaskStatus::InProgress
    } else if same_text(word, "Done") {
        TaskStatus::Done
    } else if same_text(word, "Blocked") {
        TaskStatus::Blocked
    } else {
        TaskStatus::Todo
    }
}

fn trimmed_text(s: &str) -> (r: String)
    ensures
        r@ == trim(s@),
{
    let chars = to_chars(s);
    string_of(trimmed(chars.as_slice()))
}

fn read_legacy_task(text: &str, fresh: String) -> (r: Option<Task>)
    ensures
        match r {
            Some(t) => legacy_task(text@, fresh@) == Some(t@),
            None => legacy_task(text@, fresh@) is None,
        },
{
    let description = trimmed_text(text);
    if description.as_str().is_empty() {
        None
    } else {
        Some(
            Task {
                id: fresh,
                description,
                status: TaskStatus::Todo,
                superseded_by: None,
            },
        )
    }
}

/// The text of one group of a match.
fn group_text(groups: &Vec<Option<String>>, i: usize) -> (r: String)
    requires
        i < groups@.len(),
        groups@[i as int] is Some,
    ensures
        r@ == groups@[i as int]->0@,
{
    match &groups[i] {
        Some(s) => s.clone(),
        None => String::new(),
    }
}

fn read_task_line(line: &str, fresh: String) -> (r: Option<Task>)
    requires
        !line@.contains('\n'),
    ensures
        match r {
            Some(t) => task_on_line(line@, fresh@) == Some(t@),
            None => task_on_line(line@, fresh@) is None,
        },
{
    let found = captures(TASK_LINE, line);
    if let Some(groups) = found {
        let ghost g = groups_view(found)->0;
        assert(g.len() == groups@.len());
        assert(g[1] is Some && g[3] is Some);
        assert(groups@[1] is Some && groups@[3] is Some);
        let word = group_text(&groups, 1);
        let text = group_text(&groups, 3);
        assert(g[2] == match groups@[2] {
            Some(s) => Some(s@),
            None => None,
        });
        let id = match &groups[2] {
            Some(id) => id.clone(),
            None => fresh,
        };
        return Some(
            Task {
                id,
                description: trimmed_text(text.as_str()),
                status: read_status(word.as_str()),
                superseded_by: None,
            },
        );
    }
    let found = captures(CHECKBOX_LINE, line);
    if let Some(groups) = found {
        let ghost g = groups_view(found)->0;
        assert(g.len() == groups@.len());
        assert(g[1] is Some);
        assert(groups@[1] is Some);
        let text = group_text(&groups, 1);
        return read_legacy_task(text.as_str(), fresh);
    }
    let found = captures(BULLET_LINE, line);
    if let Some(groups) = found {
        let ghost g = groups_view(found)->0;
        assert(g.len() == groups@.len());
        assert(g[1] is Some);
        assert(groups@[1] is Some);
        let text = group_text(&groups, 1);
        return read_legacy_task(text.as_str(), fresh);
    }
    None
}

fn read_stated_id(line: &str) -> (r: Option<String>)
    requires
        !line@.contains('\n'),
    ensures
        match r {
            Some(id) => stated_id()(line@) == Some(id@),
            None => stated_id()(line@) is None,
        },
{
    let found = captures(TASK_LINE, line);
    match &found {
        Some(groups) => {
            let ghost g = groups_view(found)->0;
            assert(g.len() == groups@.len());
            assert(g[2] == match groups@[2] {
                Some(s) => Some(s@),
                None => None,
            });
            match &groups[2] {
                Some(id) => Some(id.clone()),
                None => None,
            }
        },
        None => None,
    }
}

/// The ids that the lines below a heading state.
fn read_stated_ids(rest: &[char]) -> (r: Vec<String>)
    ensures
        texts(r@) == stated_ids(solid_lines(rest@)),
{
    let ls = solid_lines_of(rest);
    let ghost all = solid_lines(rest@);
    let mut ids: Vec<String> = Vec::new();
    let mut i: usize = 0;
    assert(texts(ids@) =~= stated_ids(all.take(0)));
    while i < ls.len()
        invariant
            i <= ls@.len(),
            all == contents(ls@),
            all == solid_lines(rest@),
            texts(ids@) == stated_ids(all.take(i as int)),
        decreases ls@.len() - i,
    {
        assert(all.take(i + 1).drop_last() =~= all.take(i as int));
        assert(all.take(i + 1).last() == ls@[i as int]@);
        proof {
            lemma_solid_no_break(rest@, i as int);
        }
        let line = string_of(ls[i]);
        if let Some(id) = read_stated_id(line.as_str()) {
            let ghost before = ids@;
            ids.push(id);
            assert(texts(ids@) =~= texts(before) + seq![id@]);
        }
        i = i + 1;
    }
    assert(all.take(i as int) =~= all);
    ids
}

/// Parse task lines.
///
/// Task ids are taken from the lines where they are present, otherwise
/// generated sequentially, past the numbers that are taken. Lines without an
/// explicit status give `Todo` tasks.
pub fn parse_task_lines(rest: &str) -> (r: Vec<Task>)
    ensures
        task_views(r@) == tasks_on_lines(solid_lines(rest@)),
        stated_ids(solid_lines(rest@)).no_duplicates() ==> unique_ids(task_views(r@)),
{
    proof {
        if stated_ids(solid_lines(rest@)).no_duplicates() {
            law_read_ids_unique(solid_lines(rest@));
        }
    }
    let chars = to_chars(rest);
    read_tasks(chars.as_slice())
}

fn read_tasks(rest: &[char]) -> (r: Vec<Task>)
    ensures
        task_views(r@) == tasks_on_lines(solid_lines(rest@)),
{
    let ls = solid_lines_of(rest);
    let ghost all = solid_lines(rest@);
    let mut taken = read_stated_ids(rest);
    let ghost stated = texts(taken@);
    let mut tasks: Vec<Task> = Vec::new();
    let mut i: usize = 0;
    assert(task_views(tasks@) =~= tasks_numbered(all.take(0), stated));
    assert(texts(taken@) =~= stated + task_ids(task_views(tasks@)));
    while i < ls.len()
        invariant
            i <= ls@.len(),
            all == contents(ls@),
            all == solid_lines(rest@),
            task_views(tasks@) == tasks_numbered(all.take(i as int), stated),
            texts(taken@) == stated + task_ids(task_views(tasks@)),
        decreases ls@.len() - i,
    {
        assert(all.take(i + 1).drop_last() =~= all.take(i as int));
        assert(all.take(i + 1).last() == ls@[i as int]@);
        assert(task_views(tasks@).len() == tasks@.len());
        proof {
            lemma_solid_no_break(rest@, i as int);
        }
        let line = string_of(ls[i]);
        let fresh = choose_id(&taken, tasks.len());
        if let Some(t) = read_task_line(line.as_str(), fresh) {
            let ghost before = tasks@;
            let ghost ids = taken@;
            taken.push(t.id.clone());
            tasks.push(t);
            assert(task_views(tasks@) =~= task_views(before).push(t@));
            assert(texts(taken@) =~= texts(ids).push(t.id@));
            assert(texts(taken@) =~= stated + task_ids(task_views(tasks@)));
        }
        i = i + 1;
    }
    assert(all.take(i as int) =~= all);
    tasks
}

/// Parse bullet-list lines.
fn parse_bullet_list(rest: &[char]) -> (r: Vec<String>)
    ensures
        texts(r@) == solid_lines(rest@).map_values(constraint_on_line()),
{
    let ls = solid_lines_of(rest);
    let mut out: Vec<String> = Vec::new();
    let mut i: usize = 0;
    while i < ls.len()
        invariant
            i <= ls@.len(),
            out@.len() == i,
            forall|j: int|
                0 <= j < i ==> (#[trigger] out@[j])@ == trim(trim_start_char(ls@[j]@, '-')),
        decreases ls@.len() - i,
    {
        out.push(string_of(trimmed(without_leading(ls[i], '-'))));
        i = i + 1;
    }
    assert(texts(out@) =~= contents(ls@).map_values(constraint_on_line()));
    out
}

/// Parse context.md content.
///
/// Supports both the layout with English first-level headings and the older one
/// with Chinese second-level headings under an outer heading. A file without a
/// phase is refused.
pub fn parse_context(md: &str) -> (r: Result<RuntimeState, ParseError>)
    ensures
        match r {
            Ok(state) => state_in(md@) == Some(state@),
            Err(e) => state_in(md@) is None && e.message@
                == "Missing 'Current Phase' / '当前阶段' section in context.md"@,
        },
{
    let chars = to_chars(md);
    let h1 = to_chars("\n# ");
    let h2 = to_chars("\n## ");
    proof {
        reveal_strlit("\n# ");
        reveal_strlit("\n## ");
    }
    let mut sections = split_on(chars.as_slice(), h1.as_slice());
    assert(contents(sections@).len() == sections@.len());
    if sections.len() <= 1 {
        sections = split_on(chars.as_slice(), h2.as_slice());
        assert(contents(sections@).len() == sections@.len());
        if sections.len() <= 1 {
            sections = Vec::new();
            sections.push(chars.as_slice());
            assert(contents(sections@) =~= seq![md@]);
        }
    }
    let ghost all = context_sections(md@);
    assert(contents(sections@) == all);
    let mut phase_names: Vec<&str> = Vec::new();
    phase_names.push("Current Phase");
    phase_names.push("当前阶段");
    phase_names.push("阶段");
    let mut task_names: Vec<&str> = Vec::new();
    task_names.push("Active Tasks");
    task_names.push("关键任务");
    task_names.push("当前任务");
    task_names.push("任务");
    let mut constraint_names: Vec<&str> = Vec::new();
    constraint_names.push("Constraints");
    constraint_names.push("当前约束");
    constraint_names.push("约束条件");
    constraint_names.push("约束");
    assert(phase_names@.map_values(|t: &str| t@) =~= phase_titles());
    assert(task_names@.map_values(|t: &str| t@) =~= task_titles());
    assert(constraint_names@.map_values(|t: &str| t@) =~= constraint_titles());
    let mut phase: Option<String> = None;
    let mut tasks: Vec<Task> = Vec::new();
    let mut constraints: Vec<String> = Vec::new();
    let mut i: usize = 0;
    assert(task_views(tasks@) =~= Seq::<TaskView>::empty());
    assert(texts(constraints@) =~= Seq::<Seq<char>>::empty());
    while i < sections.len()
        invariant
            i <= sections@.len(),
            all == contents(sections@),
            phase_names@.map_values(|t: &str| t@) == phase_titles(),
            task_names@.map_values(|t: &str| t@) == task_titles(),
            constraint_names@.map_values(|t: &str| t@) == constraint_titles(),
            context_of(all.take(i as int)) == (ContextView {
                phase: match phase {
                    Some(p) => Some(p@),
                    None => None,
                },
                tasks: task_views(tasks@),
                constraints: texts(constraints@),
            }),
        decreases sections@.len() - i,
    {
        assert(all.take(i + 1).drop_last() =~= all.take(i as int));
        assert(all.take(i + 1).last() == sections@[i as int]@);
        let section = trimmed(sections[i]);
        if let Some(rest) = match_section_title(section, &phase_names) {
            let body = extract_section_body(rest);
            phase = Some(canonicalize_phase(body.as_str()));
        } else if let Some(rest) = match_section_title(section, &task_names) {
            tasks = read_tasks(rest);
        } else if let Some(rest) = match_section_title(section, &constraint_names) {
            constraints = parse_bullet_list(rest);
        }
        i = i + 1;
    }
    assert(all.take(i as int) =~= all);
    match phase {
        Some(current_phase) => {
            let state = RuntimeState {
                current_phase,
                active_tasks: tasks,
                done_tasks: Vec::new(),
                constraints,
            };
            assert(state@.done_tasks =~= Seq::<TaskView>::empty());
            Ok(state)
        },
        None => Err(
            ParseError {
                message: "Missing 'Current Phase' / '当前阶段' section in context.md".to_owned(),
            },
        ),
    }
}

// ── Writing ────────────────────────────────────────────────────────────────

/// Render a state to context.md. Done tasks are left out.
pub fn render_context(state: &RuntimeState) -> (r: String)
    ensures
        r@ == context_text(state@),
{
    let mut md = "# Current Phase\n".to_owned();
    md.append(state.current_phase.as_str());
    md.append("\n\n# Active Tasks\n");
    let ghost head = md@;
    let ghost tasks = state@.active_tasks;
    let mut i: usize = 0;
    assert(md@ =~= head + task_lines(tasks.take(0)));
    while i < state.active_tasks.len()
        invariant
            i <= state.active_tasks@.len(),
            tasks == task_views(state.active_tasks@),
            md@ == head + task_lines(tasks.take(i as int)),
        decreases state.active_tasks@.len() - i,
    {
        let task = &state.active_tasks[i];
        assert(tasks.take(i + 1).drop_last() =~= tasks.take(i as int));
        assert(tasks.take(i + 1).last() == task@);
        if task.status != TaskStatus::Done {
            let ghost before = md@;
            md.append("- [");
            md.append(task.status.label());
            md.append("] [");
            md.append(task.id.as_str());
            md.append("] ");
            md.append(task.description.as_str());
            md.append("\n");
            assert(md@ =~= before + task_line(task@));
            assert(md@ =~= head + task_lines(tasks.take(i + 1)));
        }
        i = i + 1;
    }
    assert(tasks.take(i as int) =~= tasks);
    md.append("\n# Constraints\n");
    let ghost head = md@;
    let ghost cs = state@.constraints;
    let mut i: usize = 0;
    assert(md@ =~= head + constraint_lines(cs.take(0)));
    while i < state.constraints.len()
        invariant
            i <= state.constraints@.len(),
            cs == texts(state.constraints@),
            md@ == head + constraint_lines(cs.take(i as int)),
        decreases state.constraints@.len() - i,
    {
        assert(cs.take(i + 1).drop_last() =~= cs.take(i as int));
        assert(cs.take(i + 1).last() == state.constraints@[i as int]@);
        let ghost before = md@;
        md.append("- ");
        md.append(state.constraints[i].as_str());
        md.append("\n");
        assert(md@ =~= before + ("- "@ + state.constraints@[i as int]@ + "\n"@));
        assert(md@ =~= head + constraint_lines(cs.take(i + 1)));
        i = i + 1;
    }
    assert(cs.take(i as int) =~= cs);
    md.append("\n");
    assert(md@ =~= context_text(state@));
    md
}

// ── Reading back what was written ──────────────────────────────────────────

/// `TASK-` and three digits, of whatever script.
pub open spec fn standard_task_id(id: Seq<char>) -> bool {
    &&& id.len() == 8
    &&& id.take(5) == "TASK-"@
    &&& forall|i: int| 5 <= i < 8 ==> is_digit(#[trigger] id[i], |c: char| unicode_digit(c))
}

/// The tasks whose line can be read back: open ones with a standard id and a
/// one-line description, and done ones, which have no line.
pub open spec fn readable_task(t: TaskView) -> bool {
    t.status is Done || {
        &&& t.status is Todo || t.status is InProgress || t.status is Blocked
        &&& standard_task_id(t.id)
        &&& no_break(t.description)
    }
}

/// The states whose context file can be read back: phase and constraints are one
/// line each, and the phase does not look like a heading.
pub open spec fn readable_state(st: RuntimeStateView) -> bool {
    &&& no_break(st.current_phase)
    &&& !has_prefix(st.current_phase, "# "@)
    &&& forall|i: int| 0 <= i < st.active_tasks.len() ==> readable_task(#[trigger] st.active_tasks[i])
    &&& forall|i: int| 0 <= i < st.constraints.len() ==> no_break(#[trigger] st.constraints[i])
}

pub open spec fn is_open() -> spec_fn(TaskView) -> bool {
    |t: TaskView| !(t.status is Done)
}

/// `t` as its line tells it.
pub open spec fn retold_task() -> spec_fn(TaskView) -> TaskView {
    |t: TaskView| read_task(t.id, trim(t.description), t.status)
}

pub open spec fn trimmed_line() -> spec_fn(Seq<char>) -> Seq<char> {
    |s: Seq<char>| trim(s)
}

/// `st` as its context file tells it: the phase canonical, done tasks gone, and
/// descriptions and constraints trimmed.
pub open spec fn retold_state(st: RuntimeStateView) -> RuntimeStateView {
    RuntimeStateView {
        current_phase: canonical_phase(st.current_phase),
        active_tasks: st.active_tasks.filter(is_open()).map_values(retold_task()),
        done_tasks: Seq::empty(),
        constraints: st.constraints.map_values(trimmed_line()),
    }
}

/// No line of `s` but the first begins with `# `.
spec fn heading_free(s: Seq<char>) -> bool {
    forall|i: int|
        0 <= i < s.len() - 2 && #[trigger] s[i] == '\n' ==> !(s[i + 1] == '#' && s[i + 2] == ' ')
}

proof fn lemma_heading_sep()
    ensures
        "\n# "@ == seq!['\n', '#', ' '],
{
    reveal_strlit("\n# ");
    assert("\n# "@ =~= seq!['\n', '#', ' ']);
}

proof fn lemma_no_heading_at(x: Seq<char>, i: int)
    requires
        0 <= i <= x.len(),
        has_prefix(x.skip(i), "\n# "@),
    ensures
        i < x.len() - 2,
        x[i] == '\n',
        x[i + 1] == '#',
        x[i + 2] == ' ',
{
    lemma_heading_sep();
    let y = x.skip(i);
    assert(y.take(3)[0] == y[0] && y.take(3)[1] == y[1] && y.take(3)[2] == y[2]);
}

proof fn lemma_split_heading(a: Seq<char>, b: Seq<char>)
    requires
        heading_free(a),
    ensures
        split(a + "\n# "@ + b, "\n# "@) == seq![a] + split(b, "\n# "@),
{
    lemma_heading_sep();
    let sep = "\n# "@;
    let x = a + sep + b;
    let n = a.len() as int;
    assert(has_prefix(x.skip(n), sep)) by {
        assert(x.skip(n).take(3) =~= sep);
    }
    assert forall|i: int| 0 <= i < n implies !has_prefix(#[trigger] x.skip(i), sep) by {
        if has_prefix(x.skip(i), sep) {
            lemma_no_heading_at(x, i);
            assert(x[i] == a[i]);
            if i + 1 < n {
                assert(x[i + 1] == a[i + 1]);
            }
            if i + 2 < n {
                assert(x[i + 2] == a[i + 2]);
            }
        }
    }
    lemma_find_at(x, sep, n);
    assert(x.take(n) =~= a);
    assert(x.skip(n + 3) =~= b);
}

proof fn lemma_split_whole(a: Seq<char>)
    requires
        heading_free(a),
    ensures
        split(a, "\n# "@) == seq![a],
{
    lemma_heading_sep();
    assert forall|i: int| 0 <= i <= a.len() implies !has_prefix(#[trigger] a.skip(i), "\n# "@) by {
        if has_prefix(a.skip(i), "\n# "@) {
            lemma_no_heading_at(a, i);
        }
    }
    lemma_find_none(a, "\n# "@);
}

/// A list line at the end of a text.
proof fn lemma_heading_free_line(a: Seq<char>, l: Seq<char>)
    requires
        heading_free(a),
        ends_line(a),
        no_break(l),
        l.len() > 0,
        l[0] != '#',
    ensures
        heading_free(a + (l + "\n"@)),
        ends_line(a + (l + "\n"@)),
{
    reveal_strlit("\n");
    let x = a + (l + "\n"@);
    let n = a.len() as int;
    assert forall|i: int| 0 <= i < x.len() - 2 && #[trigger] x[i] == '\n' implies !(x[i + 1] == '#'
        && x[i + 2] == ' ') by {
        if i < n {
            assert(x[i] == a[i]);
            if i + 2 < n {
                assert(x[i + 1] == a[i + 1] && x[i + 2] == a[i + 2]);
            } else if i + 1 < n {
                assert(x[i + 1] == a[n - 1]);
            } else {
                assert(x[i + 1] == l[0]);
            }
        } else {
            assert(x[i] == l[i - n]);
            assert(l.contains(l[i - n]));
        }
    }
    assert(x.last() == '\n');
}

spec fn bare_task_line(t: TaskView) -> Seq<char> {
    "- ["@ + t.status.name() + "] ["@ + t.id + "]"@
}

/// The line of a task, trimmed, gives the task back.
proof fn lemma_task_line_read(t: TaskView, fresh: Seq<char>)
    requires
        readable_task(t),
        !(t.status is Done),
    ensures
        task_on_line(trim(bare_task_line(t) + (" "@ + t.description)), fresh) == Some(
            read_task(t.id, trim(t.description), t.status),
        ),
{
    reveal_strlit("- [");
    reveal_strlit("] [");
    reveal_strlit("]");
    reveal_strlit(" ");
    reveal_strlit("Todo");
    reveal_strlit("InProgress");
    reveal_strlit("Done");
    reveal_strlit("Blocked");
    reveal_strlit("[TASK-");
    reveal_strlit("TASK-");
    let w = t.status.name();
    let p = bare_task_line(t);
    let d = " "@ + t.description;
    assert(p[0] == '-' && p.last() == ']');
    lemma_trim_after_word(p, d);
    let tail = trim_end(d);
    let line = trim(p + d);
    assert(line == p + tail);
    let r = seq!['['] + t.id + seq![']'] + tail;
    let u = w + seq![']'] + (seq![' '] + r);
    assert(line.skip(1) =~= seq![' '] + (seq!['['] + u));
    assert(is_blank(seq![' ']));
    lemma_trim_start_past(seq![' '], seq!['['] + u);
    assert((seq!['['] + u).skip(1) =~= u);
    assert(after_open_bracket(line) == Some(u));
    lemma_task_word(u, w);
    assert(u.skip(w.len() as int + 1) =~= seq![' '] + r);
    lemma_trim_start_past(seq![' '], r);
    let other = |c: char| unicode_digit(c);
    assert(has_task_id(r, other)) by {
        assert(r.take(6) =~= seq!['['] + t.id.take(5));
        assert("[TASK-"@ =~= seq!['['] + "TASK-"@);
        assert(r[6] == t.id[5] && r[7] == t.id[6] && r[8] == t.id[7] && r[9] == ']');
    }
    assert(r.subrange(1, 9) =~= t.id);
    assert(r.skip(10) =~= tail);
    let b = lemma_trim_end_split(d);
    let k = lemma_trim_start_split(tail);
    let front = tail.take(k);
    assert(is_blank(front)) by {
        assert forall|i: int| 0 <= i < front.len() implies is_white_space(#[trigger] front[i]) by {
            assert(front[i] == tail[i]);
        }
    }
    assert(tail =~= front + trim_start(tail));
    lemma_trim_start_pad(front, trim_start(tail));
    lemma_trim_end_pad(tail, b);
    assert(is_blank(" "@));
    lemma_trim_start_pad(" "@, t.description);
    assert(status_named(w) == t.status) by {
        assert("Todo"@[0] == 'T' && "InProgress"@[0] == 'I' && "Done"@[0] == 'D' && "Blocked"@[0]
            == 'B');
    }
}

proof fn lemma_task_word(u: Seq<char>, w: Seq<char>)
    requires
        w == "Todo"@ || w == "InProgress"@ || w == "Blocked"@,
        has_prefix(u, w + seq![']']) || exists|x: Seq<char>| u == #[trigger] (w + seq![']'] + x),
    ensures
        bracketed_word(u, task_line_words()) == Some(w),
{
    reveal_strlit("Todo");
    reveal_strlit("InProgress");
    reveal_strlit("Done");
    reveal_strlit("Blocked");
    let n = w.len() as int + 1;
    if !has_prefix(u, w + seq![']']) {
        let x = choose|x: Seq<char>| u == #[trigger] (w + seq![']'] + x);
        assert(u.take(n) =~= w + seq![']']);
    }
    let ws = task_line_words();
    reveal_with_fuel(bracketed_word, 5);
    assert(ws.drop_first() =~= seq!["InProgress"@, "Done"@, "Blocked"@]);
    assert(ws.drop_first().drop_first() =~= seq!["Done"@, "Blocked"@]);
    assert(ws.drop_first().drop_first().drop_first() =~= seq!["Blocked"@]);
    assert(u[0] == w[0]) by {
        assert(u.take(n)[0] == u[0]);
        assert((w + seq![']'])[0] == w[0]);
    }
    assert forall|v: Seq<char>|
        v.len() > 0 && v[0] != w[0] implies !#[trigger] has_prefix(u, v + seq![']']) by {
        let y = v + seq![']'];
        if has_prefix(u, y) {
            assert(u.take(y.len() as int)[0] == u[0]);
            assert(y[0] == v[0]);
        }
    }
}

proof fn lemma_bare_task_line(t: TaskView)
    requires
        readable_task(t),
        !(t.status is Done),
    ensures
        ({
            let l = bare_task_line(t) + (" "@ + t.description);
            &&& task_line(t) == l + "\n"@
            &&& no_break(l)
            &&& l.len() > 0
            &&& l[0] == '-'
        }),
{
    reveal_strlit("- [");
    reveal_strlit("] [");
    reveal_strlit("] ");
    reveal_strlit("]");
    reveal_strlit(" ");
    reveal_strlit("Todo");
    reveal_strlit("InProgress");
    reveal_strlit("Blocked");
    reveal_strlit("TASK-");
    let w = t.status.name();
    let l = bare_task_line(t) + (" "@ + t.description);
    assert(task_line(t) =~= l + "\n"@);
    let n = w.len() as int;
    assert forall|k: int| 0 <= k < l.len() implies l[k] != '\n' by {
        if k < 3 {
        } else if k < 3 + n {
            assert(l[k] == w[k - 3]);
        } else if k < 6 + n {
            assert(l[k] == "] ["@[k - 3 - n]);
        } else if k < 14 + n {
            let i = k - 6 - n;
            assert(l[k] == t.id[i]);
            if i < 5 {
                assert(t.id.take(5)[i] == t.id[i]);
            }
        } else if k < 16 + n {
        } else {
            assert(t.description.contains(t.description[k - 16 - n]));
        }
    }
}

/// The task lines, as they are read.
proof fn lemma_task_lines_read(head: Seq<char>, ts: Seq<TaskView>, stated: Seq<Seq<char>>)
    requires
        heading_free(head),
        ends_line(head),
        forall|i: int| 0 <= i < ts.len() ==> readable_task(#[trigger] ts[i]),
    ensures
        heading_free(head + task_lines(ts)),
        ends_line(head + task_lines(ts)),
        ends_line(task_lines(ts)),
        tasks_numbered(solid_lines(task_lines(ts)), stated) == ts.filter(is_open()).map_values(
            retold_task(),
        ),
    decreases ts.len(),
{
    reveal(Seq::filter);
    if ts.len() == 0 {
        assert(head + task_lines(ts) =~= head);
        lemma_solid_blank(task_lines(ts));
        assert(ts.filter(is_open()).map_values(retold_task()) =~= Seq::<TaskView>::empty());
    } else {
        let rest = ts.drop_last();
        let t = ts.last();
        assert forall|i: int| 0 <= i < rest.len() implies readable_task(#[trigger] rest[i]) by {
            assert(rest[i] == ts[i]);
        }
        lemma_task_lines_read(head, rest, stated);
        assert(readable_task(ts[ts.len() - 1]));
        if !(t.status is Done) {
            let l = bare_task_line(t) + (" "@ + t.description);
            lemma_bare_task_line(t);
            let before = task_lines(rest);
            lemma_heading_free_line(head + before, l);
            assert(head + (before + (l + "\n"@)) =~= head + before + (l + "\n"@));
            lemma_solid_concat(before, l + "\n"@);
            lemma_solid_one(l);
            let known = tasks_numbered(solid_lines(before), stated);
            lemma_task_line_read(t, free_id(stated + task_ids(known), known.len()));
            lemma_trim_blank(l);
            assert(!is_white_space(l[0]));
            let ls = solid_lines(before);
            assert(solid_lines(task_lines(ts)) == ls + seq![trim(l)]);
            assert((ls + seq![trim(l)]).drop_last() =~= ls);
            assert((ls + seq![trim(l)]).last() == trim(l));
            assert(rest.filter(is_open()).push(t).map_values(retold_task()) =~= rest.filter(
                is_open(),
            ).map_values(retold_task()).push(read_task(t.id, trim(t.description), t.status)));
            assert(ends_line(task_lines(ts))) by {
                reveal_strlit("\n");
                assert((before + (l + "\n"@)).last() == '\n');
            }
        }
    }
}

/// The constraint lines, as they are read.
proof fn lemma_constraint_lines_read(head: Seq<char>, cs: Seq<Seq<char>>)
    requires
        heading_free(head),
        ends_line(head),
        forall|i: int| 0 <= i < cs.len() ==> no_break(#[trigger] cs[i]),
    ensures
        heading_free(head + constraint_lines(cs)),
        ends_line(head + constraint_lines(cs)),
        ends_line(constraint_lines(cs)),
        solid_lines(constraint_lines(cs)).map_values(constraint_on_line()) == cs.map_values(
            trimmed_line(),
        ),
    decreases cs.len(),
{
    if cs.len() == 0 {
        assert(head + constraint_lines(cs) =~= head);
        lemma_solid_blank(constraint_lines(cs));
        assert(solid_lines(constraint_lines(cs)).map_values(constraint_on_line())
            =~= cs.map_values(trimmed_line()));
    } else {
        let rest = cs.drop_last();
        let c = cs.last();
        assert forall|i: int| 0 <= i < rest.len() implies no_break(#[trigger] rest[i]) by {
            assert(rest[i] == cs[i]);
        }
        lemma_constraint_lines_read(head, rest);
        assert(no_break(cs[cs.len() - 1]));
        reveal_strlit("- ");
        reveal_strlit("\n");
        let l = "- "@ + c;
        assert(no_break(l)) by {
            assert forall|k: int| 0 <= k < l.len() implies l[k] != '\n' by {
                if k >= 2 {
                    assert(c.contains(c[k - 2]));
                }
            }
        }
        let before = constraint_lines(rest);
        lemma_heading_free_line(head + before, l);
        assert(constraint_lines(cs) =~= before + (l + "\n"@));
        assert(head + (before + (l + "\n"@)) =~= head + before + (l + "\n"@));
        lemma_solid_concat(before, l + "\n"@);
        lemma_solid_one(l);
        let dash = seq!['-'];
        let d = seq![' '] + c;
        assert(l =~= dash + d);
        lemma_trim_after_word(dash, d);
        let q = trim(l);
        let tail = trim_end(d);
        assert(q == dash + tail);
        assert(tail.len() > 0 ==> tail[0] == ' ') by {
            let b = lemma_trim_end_split(d);
            assert(tail.len() > 0 ==> d[0] == tail[0]);
        }
        lemma_trim_start_char_at(q, '-', 1);
        assert(q.skip(1) =~= tail);
        assert(is_blank(seq![' ']));
        lemma_trim_start_pad(seq![' '], c);
        let ls = solid_lines(before);
        assert((ls + seq![q]).map_values(constraint_on_line()) =~= ls.map_values(
            constraint_on_line(),
        ).push(trim(c)));
        assert(cs.map_values(trimmed_line()) =~= rest.map_values(trimmed_line()).push(trim(c)));
        assert((before + (l + "\n"@)).last() == '\n');
    }
}

/// The phase section, as it is read.
proof fn lemma_phase_read(phase: Seq<char>, c: ContextView)
    requires
        no_break(phase),
    ensures
        context_step(c, "# Current Phase\n"@ + phase + "\n"@) == (ContextView {
            phase: Some(canonical_phase(phase)),
            ..c
        }),
{
    reveal_strlit("# Current Phase\n");
    reveal_strlit("# Current Phase");
    reveal_strlit("Current Phase");
    reveal_strlit("# ");
    reveal_strlit("## ");
    reveal_strlit("\n");
    let nl = "\n"@;
    let p = "# Current Phase"@;
    let d = nl + phase + nl;
    let section = "# Current Phase\n"@ + phase + nl;
    assert("# Current Phase\n"@ =~= p + nl);
    assert(section =~= p + d);
    lemma_trim_after_word(p, d);
    let tail = trim_end(d);
    let t = trim(section);
    assert(t == p + tail);
    assert(!has_prefix(t, "## "@)) by {
        assert(t[1] == ' ');
        assert(t.take(3)[1] == t[1]);
    }
    assert(has_prefix(t, "# "@)) by {
        assert(t.take(2) =~= "# "@);
    }
    let s = t.skip(2);
    assert(s =~= "Current Phase"@ + tail);
    assert(s.take(13) =~= "Current Phase"@);
    assert(phase_titles()[0] == "Current Phase"@);
    assert(s.skip(13) =~= tail);
    let b = lemma_trim_end_split(d);
    assert(section_body(tail) == trim(phase)) by {
        lemma_trim_blank(phase);
        lemma_trim_pad(nl, phase, nl);
        if is_blank(phase) {
            assert(is_blank(d)) by {
                assert forall|k: int| 0 <= k < d.len() implies is_white_space(#[trigger] d[k]) by {
                    if 0 < k < d.len() - 1 {
                        assert(d[k] == phase[k - 1]);
                    }
                }
            }
            lemma_trim_end_at(d, 0);
            assert(tail =~= Seq::<char>::empty());
            assert(lines(tail) =~= Seq::<Seq<char>>::empty());
            assert(trim(phase) =~= section_body(tail));
        } else {
            let (i, j) = lemma_core_exists(phase);
            lemma_trim_is_core(phase, i, j);
            assert(i < j);
            assert forall|k: int| j + 1 <= k < d.len() implies is_white_space(#[trigger] d[k]) by {
                if k < d.len() - 1 {
                    assert(d[k] == phase[k - 1]);
                }
            }
            assert(d[j] == phase[j - 1]);
            lemma_trim_end_at(d, j + 1);
            let q = phase.take(j);
            assert(tail =~= nl + q);
            assert(no_break(q)) by {
                assert forall|k: int| 0 <= k < q.len() implies q[k] != '\n' by {
                    assert(phase.contains(phase[k]));
                }
            }
            let e = Seq::<char>::empty();
            lemma_lines_cons(e, q);
            assert(e + nl + q =~= tail);
            assert forall|k: int| 0 <= k < q.len() implies q[k] != '\n' by {
                assert(q.contains(q[k]));
            }
            lemma_index_of_at(q, '\n', q.len() as int);
            assert(lines(q) == seq![q]);
            let ls = lines(tail);
            assert(ls == seq![chomp(e)] + seq![q]);
            assert(ls.drop_first() =~= seq![q]);
            lemma_nonblank_one(q);
            assert(q.last() == phase[j - 1]);
            assert(is_core(q, i, j)) by {
                assert forall|k: int| 0 <= k < i implies is_white_space(#[trigger] q[k]) by {
                    assert(q[k] == phase[k]);
                }
            }
            lemma_trim_is_core(q, i, j);
            assert(q.subrange(i, j) =~= phase.subrange(i, j));
        }
    }
    lemma_trim_ends(phase);
}

/// The section of tasks, as it is read.
proof fn lemma_tasks_read(body: Seq<char>, c: ContextView)
    ensures
        context_step(c, "Active Tasks\n"@ + body) == (ContextView {
            tasks: tasks_on_lines(solid_lines(body)),
            ..c
        }),
{
    reveal_strlit("Active Tasks\n");
    reveal_strlit("Active Tasks");
    reveal_strlit("Current Phase");
    reveal_strlit("当前阶段");
    reveal_strlit("阶段");
    reveal_strlit("# ");
    reveal_strlit("## ");
    reveal_strlit("\n");
    let nl = "\n"@;
    let p = "Active Tasks"@;
    let d = nl + body;
    let section = "Active Tasks\n"@ + body;
    assert("Active Tasks\n"@ =~= p + nl);
    assert(section =~= p + d);
    lemma_trim_after_word(p, d);
    let tail = trim_end(d);
    let t = trim(section);
    assert(t == p + tail);
    assert(t[0] == 'A');
    assert(!has_prefix(t, "## "@) && !has_prefix(t, "# "@)) by {
        assert(t.take(3)[0] == t[0]);
        assert(t.take(2)[0] == t[0]);
    }
    lemma_no_title(t, phase_titles());
    assert(t.take(12) =~= p);
    assert(task_titles()[0] == p);
    assert(t.skip(12) =~= tail);
    lemma_section_lines(d, body);
}

/// The section of constraints, as it is read.
proof fn lemma_constraints_read(body: Seq<char>, c: ContextView)
    ensures
        context_step(c, "Constraints\n"@ + body) == (ContextView {
            constraints: solid_lines(body).map_values(constraint_on_line()),
            ..c
        }),
{
    reveal_strlit("Constraints\n");
    reveal_strlit("Constraints");
    reveal_strlit("Current Phase");
    reveal_strlit("Active Tasks");
    reveal_strlit("当前阶段");
    reveal_strlit("阶段");
    reveal_strlit("关键任务");
    reveal_strlit("当前任务");
    reveal_strlit("任务");
    reveal_strlit("# ");
    reveal_strlit("## ");
    reveal_strlit("\n");
    let nl = "\n"@;
    let p = "Constraints"@;
    let d = nl + body;
    let section = "Constraints\n"@ + body;
    assert("Constraints\n"@ =~= p + nl);
    assert(section =~= p + d);
    lemma_trim_after_word(p, d);
    let tail = trim_end(d);
    let t = trim(section);
    assert(t == p + tail);
    assert(t[0] == 'C' && t[1] == 'o');
    assert(!has_prefix(t, "## "@) && !has_prefix(t, "# "@)) by {
        assert(t.take(3)[0] == t[0]);
        assert(t.take(2)[0] == t[0]);
    }
    lemma_no_title(t, phase_titles());
    lemma_no_title(t, task_titles());
    assert(t.take(11) =~= p);
    assert(constraint_titles()[0] == p);
    assert(t.skip(11) =~= tail);
    lemma_section_lines(d, body);
}

/// A text that differs from every title in one of its first two characters.
proof fn lemma_no_title(t: Seq<char>, titles: Seq<Seq<char>>)
    requires
        t.len() >= 2,
        forall|i: int|
            0 <= i < titles.len() ==> (#[trigger] titles[i]).len() >= 2 && (titles[i][0] != t[0]
                || titles[i][1] != t[1]),
    ensures
        after_title(t, titles) is None,
    decreases titles.len(),
{
    if titles.len() > 0 {
        let x = titles[0];
        if has_prefix(t, x) {
            assert(t.take(x.len() as int)[0] == t[0]);
            assert(t.take(x.len() as int)[1] == t[1]);
        }
        let rest = titles.drop_first();
        assert forall|i: int| 0 <= i < rest.len() implies (#[trigger] rest[i]).len() >= 2 && (
        rest[i][0] != t[0] || rest[i][1] != t[1]) by {
            assert(rest[i] == titles[i + 1]);
        }
        lemma_no_title(t, rest);
    }
}

/// Neither the end of the heading line nor blank text at the end matters to the
/// lines of a section.
proof fn lemma_section_lines(d: Seq<char>, body: Seq<char>)
    requires
        d == "\n"@ + body,
    ensures
        solid_lines(trim_end(d)) == solid_lines(body),
{
    reveal_strlit("\n");
    let b = lemma_trim_end_split(d);
    lemma_solid_pad(trim_end(d), b);
    lemma_solid_concat("\n"@, body);
    lemma_solid_blank("\n"@);
    assert(Seq::<Seq<char>>::empty() + solid_lines(body) =~= solid_lines(body));
}

/// The sections of a written context file.
proof fn lemma_context_sections(st: RuntimeStateView)
    requires
        readable_state(st),
    ensures
        context_sections(context_text(st)) == seq![
            "# Current Phase\n"@ + st.current_phase + "\n"@,
            "Active Tasks\n"@ + task_lines(st.active_tasks),
            "Constraints\n"@ + (constraint_lines(st.constraints) + "\n"@),
        ],
{
    reveal_strlit("# Current Phase\n");
    reveal_strlit("\n\n# Active Tasks\n");
    reveal_strlit("\n# Constraints\n");
    reveal_strlit("Active Tasks\n");
    reveal_strlit("Constraints\n");
    reveal_strlit("\n");
    reveal_strlit("# ");
    lemma_heading_sep();
    let sep = "\n# "@;
    let phase = st.current_phase;
    let p1 = "# Current Phase\n"@ + phase + "\n"@;
    let p2 = "Active Tasks\n"@ + task_lines(st.active_tasks);
    let cl = constraint_lines(st.constraints);
    let p3 = "Constraints\n"@ + (cl + "\n"@);
    assert("\n\n# Active Tasks\n"@ =~= "\n"@ + sep + "Active Tasks\n"@);
    assert("\n# Constraints\n"@ =~= sep + "Constraints\n"@);
    assert(context_text(st) =~= p1 + sep + (p2 + sep + p3));
    assert(heading_free(p1)) by {
        assert forall|i: int|
            0 <= i < p1.len() - 2 && #[trigger] p1[i] == '\n' implies !(p1[i + 1] == '#' && p1[i
            + 2] == ' ') by {
            if i > 15 {
                assert(p1[i] == phase[i - 16]);
                assert(phase.contains(phase[i - 16]));
            }
            assert(i == 15);
            if p1[16] == '#' && p1[17] == ' ' {
                assert(phase.len() >= 2);
                assert(phase.take(2) =~= "# "@);
            }
        }
    }
    assert(heading_free("Active Tasks\n"@));
    assert(heading_free("Constraints\n"@));
    lemma_task_lines_read(
        "Active Tasks\n"@,
        st.active_tasks,
        stated_ids(solid_lines(task_lines(st.active_tasks))),
    );
    lemma_constraint_lines_read("Constraints\n"@, st.constraints);
    let q = "Constraints\n"@ + cl;
    assert(p3 =~= q + "\n"@);
    assert(heading_free(p3)) by {
        assert forall|i: int|
            0 <= i < p3.len() - 2 && #[trigger] p3[i] == '\n' implies !(p3[i + 1] == '#' && p3[i
            + 2] == ' ') by {
            assert(p3[i] == q[i]);
            if i + 2 < q.len() {
                assert(p3[i + 1] == q[i + 1] && p3[i + 2] == q[i + 2]);
            }
        }
    }
    lemma_split_heading(p1, p2 + sep + p3);
    lemma_split_heading(p2, p3);
    lemma_split_whole(p3);
    assert(seq![p1] + (seq![p2] + seq![p3]) =~= seq![p1, p2, p3]);
}

/// Reading back a written context file gives the state as the file tells it.
pub proof fn law_context_reads_back(st: RuntimeStateView)
    requires
        readable_state(st),
    ensures
        state_in(context_text(st)) == Some(retold_state(st)),
{
    reveal_strlit("Active Tasks\n");
    reveal_strlit("Constraints\n");
    reveal_strlit("\n");
    let p1 = "# Current Phase\n"@ + st.current_phase + "\n"@;
    let p2 = "Active Tasks\n"@ + task_lines(st.active_tasks);
    let cl = constraint_lines(st.constraints);
    let p3 = "Constraints\n"@ + (cl + "\n"@);
    lemma_context_sections(st);
    let all = seq![p1, p2, p3];
    let c0 = context_of(Seq::<Seq<char>>::empty());
    reveal_with_fuel(context_of, 4);
    assert(all.drop_last() =~= seq![p1, p2]);
    assert(all.drop_last().drop_last() =~= seq![p1]);
    assert(all.drop_last().drop_last().drop_last() =~= Seq::<Seq<char>>::empty());
    lemma_phase_read(st.current_phase, c0);
    let c1 = context_step(c0, p1);
    lemma_tasks_read(task_lines(st.active_tasks), c1);
    let c2 = context_step(c1, p2);
    lemma_constraints_read(cl + "\n"@, c2);
    lemma_task_lines_read(
        "Active Tasks\n"@,
        st.active_tasks,
        stated_ids(solid_lines(task_lines(st.active_tasks))),
    );
    lemma_constraint_lines_read("Constraints\n"@, st.constraints);
    assert(is_blank("\n"@));
    lemma_solid_pad(cl, "\n"@);
}

/// Every task that is read gets an id of its own, where the lines do not state
/// one id twice.
pub proof fn law_read_ids_unique(ls: Seq<Seq<char>>)
    requires
        stated_ids(ls).no_duplicates(),
    ensures
        unique_ids(tasks_on_lines(ls)),
{
    lemma_numbered_unique(ls, Seq::empty());
    assert(ls + Seq::<Seq<char>>::empty() =~= ls);
}

proof fn lemma_numbered_unique(ls: Seq<Seq<char>>, after: Seq<Seq<char>>)
    requires
        stated_ids(ls + after).no_duplicates(),
    ensures
        unique_ids(tasks_numbered(ls, stated_ids(ls + after))),
        forall|i: int|
            0 <= i < tasks_numbered(ls, stated_ids(ls + after)).len() ==> stated_ids(ls).contains(
                (#[trigger] tasks_numbered(ls, stated_ids(ls + after))[i]).id,
            ) || !stated_ids(ls + after).contains(
                tasks_numbered(ls, stated_ids(ls + after))[i].id,
            ),
    decreases ls.len(),
{
    let stated = stated_ids(ls + after);
    if ls.len() > 0 {
        let rest = ls.drop_last();
        let line = ls.last();
        assert(rest + (seq![line] + after) =~= ls + after);
        assert(rest + seq![line] =~= ls);
        lemma_numbered_unique(rest, seq![line] + after);
        let before = tasks_numbered(rest, stated);
        let all = tasks_numbered(ls, stated);
        let taken = stated + task_ids(before);
        let fresh = free_id(taken, before.len());
        lemma_some_free(taken, before.len(), before.len());
        let early = stated_ids(rest);
        lemma_filter_map_concat(rest, seq![line], stated_id());
        lemma_filter_map_concat(ls, after, stated_id());
        assert(seq![line].drop_last() =~= Seq::<Seq<char>>::empty());
        assert(seq![line].filter_map(stated_id()) == match stated_id()(line) {
            Some(id) => Seq::<Seq<char>>::empty() + seq![id],
            None => Seq::<Seq<char>>::empty(),
        });
        assert(stated == stated_ids(ls) + stated_ids(after));
        assert forall|i: int| 0 <= i < before.len() implies stated_ids(ls).contains(
            (#[trigger] before[i]).id,
        ) || !stated.contains(before[i].id) by {
            if early.contains(before[i].id) {
                let k = choose|k: int| 0 <= k < early.len() && early[k] == before[i].id;
                assert(stated_ids(ls)[k] == early[k]);
            }
        }
        if let Some(t) = task_on_line(line, fresh) {
            assert(all == before.push(t));
            if let Some(id) = stated_id()(line) {
                let at = early.len() as int;
                assert(stated_ids(ls)[at] == id);
                assert(stated[at] == id);
                assert(t.id == id);
                assert forall|i: int| 0 <= i < before.len() implies (#[trigger] before[i]).id
                    != id by {
                    if before[i].id == id {
                        assert(stated.contains(id));
                        let k = choose|k: int| 0 <= k < early.len() && early[k] == id;
                        assert(stated[k] == id);
                    }
                }
            } else {
                assert(t.id == fresh);
                assert forall|i: int| 0 <= i < before.len() implies (#[trigger] before[i]).id
                    != fresh by {
                    assert(taken[stated.len() + i] == before[i].id);
                }
                if stated.contains(fresh) {
                    let k = choose|k: int| 0 <= k < stated.len() && stated[k] == fresh;
                    assert(taken[k] == fresh);
                }
            }
        }
    }
}

/// Whether no list of tasks in a context file states one id twice.
pub open spec fn ids_stated_once(md: Seq<char>) -> bool {
    forall|i: int|
        0 <= i < context_sections(md).len() ==> section_states_once(
            #[trigger] context_sections(md)[i],
        )
}

pub open spec fn section_states_once(section: Seq<char>) -> bool {
    match after_title(without_marker(trim(section)), task_titles()) {
        Some(rest) => stated_ids(solid_lines(rest)).no_duplicates(),
        None => true,
    }
}

/// Every active task of a context file that is read has a unique id, where the
/// file does not state one id twice.
pub proof fn law_context_ids_unique(md: Seq<char>)
    requires
        ids_stated_once(md),
        state_in(md) is Some,
    ensures
        unique_ids(state_in(md)->0.active_tasks),
{
    lemma_section_ids_unique(context_sections(md));
}

proof fn lemma_section_ids_unique(sections: Seq<Seq<char>>)
    requires
        forall|i: int| 0 <= i < sections.len() ==> section_states_once(#[trigger] sections[i]),
    ensures
        unique_ids(context_of(sections).tasks),
    decreases sections.len(),
{
    if sections.len() > 0 {
        let rest = sections.drop_last();
        assert forall|i: int| 0 <= i < rest.len() implies section_states_once(
            #[trigger] rest[i],
        ) by {
            assert(rest[i] == sections[i]);
        }
        lemma_section_ids_unique(rest);
        let last = sections[sections.len() - 1];
        assert(section_states_once(last));
        if let Some(below) = after_title(without_marker(trim(last)), task_titles()) {
            law_read_ids_unique(solid_lines(below));
        }
    }
}

// ── What is read can be written again ──────────────────────────────────────

/// What holds of every task that is read: id and description are one line each, and
/// the status is one that a line can name.
pub open spec fn one_line_task(t: TaskView) -> bool {
    &&& no_break(t.id)
    &&& no_break(t.description)
    &&& !(t.status is Superseded || t.status is Cancelled)
}

/// What holds of every state that is read: tasks and constraints are one line each.
pub open spec fn one_line_state(st: RuntimeStateView) -> bool {
    &&& forall|i: int| 0 <= i < st.active_tasks.len() ==> one_line_task(#[trigger] st.active_tasks[i])
    &&& forall|i: int| 0 <= i < st.constraints.len() ==> no_break(#[trigger] st.constraints[i])
}

proof fn lemma_decimal_digits(n: nat)
    ensures
        no_break(decimal(n)),
    decreases n,
{
    if n >= 10 {
        lemma_decimal_digits(n / 10);
        let d = decimal(n / 10);
        assert forall|k: int| 0 <= k < decimal(n).len() implies decimal(n)[k] != '\n' by {
            if k < d.len() {
                assert(d.contains(d[k]));
            }
        }
    }
}

proof fn lemma_generated_one_line(n: nat)
    ensures
        no_break(generated_id(n)),
{
    reveal_strlit("TASK-");
    lemma_decimal_digits(n);
    let d = decimal(n);
    let p = padded(n, 3);
    assert forall|k: int| 0 <= k < p.len() implies p[k] != '\n' by {
        if d.len() < 3 {
            if k >= 3 - d.len() {
                assert(d.contains(d[k - (3 - d.len())]));
            }
        } else {
            assert(d.contains(d[k]));
        }
    }
    assert forall|k: int| 0 <= k < generated_id(n).len() implies generated_id(n)[k] != '\n' by {
        if k >= 5 {
            assert(generated_id(n)[k] == p[k - 5]);
        }
    }
}

/// A part of a line is on one line.
proof fn lemma_part_one_line(line: Seq<char>, i: int, j: int)
    requires
        no_break(line),
        0 <= i <= j <= line.len(),
    ensures
        no_break(line.subrange(i, j)),
{
    let part = line.subrange(i, j);
    assert forall|k: int| 0 <= k < part.len() implies part[k] != '\n' by {
        assert(line.contains(line[i + k]));
    }
}

proof fn lemma_trim_start_one_line(s: Seq<char>)
    requires
        no_break(s),
    ensures
        no_break(trim_start(s)),
{
    let k = lemma_trim_start_split(s);
    lemma_part_one_line(s, k, s.len() as int);
    assert(s.subrange(k, s.len() as int) =~= trim_start(s));
}

proof fn lemma_skip_one_line(s: Seq<char>, k: int)
    requires
        no_break(s),
        0 <= k <= s.len(),
    ensures
        no_break(s.skip(k)),
{
    lemma_part_one_line(s, k, s.len() as int);
    assert(s.subrange(k, s.len() as int) =~= s.skip(k));
}

proof fn lemma_bracketed_len(u: Seq<char>, words: Seq<Seq<char>>)
    ensures
        bracketed_word(u, words) matches Some(w) ==> w.len() + 1 <= u.len(),
    decreases words.len(),
{
    if words.len() > 0 {
        lemma_bracketed_len(u, words.drop_first());
        if has_prefix(u, words[0] + seq![']']) {
            assert((words[0] + seq![']']).len() == words[0].len() + 1);
        }
    }
}

proof fn lemma_line_task_one_line(line: Seq<char>, fresh: Seq<char>)
    requires
        no_break(line),
        no_break(fresh),
    ensures
        task_on_line(line, fresh) matches Some(t) ==> one_line_task(t),
{
    if line.len() > 0 {
        let cut = line.skip(1);
        lemma_skip_one_line(line, 1);
        lemma_trim_start_one_line(cut);
        if let Some(g) = task_line_groups(line) {
            let u = after_open_bracket(line)->0;
            lemma_skip_one_line(trim_start(cut), 1);
            lemma_bracketed_len(u, task_line_words());
            let w = bracketed_word(u, task_line_words())->0;
            let x = u.skip(w.len() as int + 1);
            lemma_skip_one_line(u, w.len() as int + 1);
            lemma_trim_start_one_line(x);
            let r = trim_start(x);
            lemma_trim_lacks(r, '\n');
            if has_task_id(r, |c: char| unicode_digit(c)) {
                lemma_part_one_line(r, 1, 9);
                lemma_skip_one_line(r, 10);
                lemma_trim_start_one_line(r.skip(10));
                lemma_trim_lacks(trim_start(r.skip(10)), '\n');
            }
        } else if let Some(g) = checkbox_line_groups(line) {
            let u = after_open_bracket(line)->0;
            lemma_skip_one_line(trim_start(cut), 1);
            lemma_trim_start_one_line(u);
            let v = trim_start(u);
            lemma_skip_one_line(v, 1);
            lemma_trim_start_one_line(v.skip(1));
            lemma_trim_lacks(trim_start(v.skip(1)), '\n');
        } else {
            lemma_trim_lacks(trim_start(cut), '\n');
        }
    }
}

proof fn lemma_numbered_one_line(ls: Seq<Seq<char>>, stated: Seq<Seq<char>>)
    requires
        forall|i: int| 0 <= i < ls.len() ==> no_break(#[trigger] ls[i]),
    ensures
        forall|i: int|
            0 <= i < tasks_numbered(ls, stated).len() ==> one_line_task(
                #[trigger] tasks_numbered(ls, stated)[i],
            ),
    decreases ls.len(),
{
    if ls.len() > 0 {
        let rest = ls.drop_last();
        assert forall|i: int| 0 <= i < rest.len() implies no_break(#[trigger] rest[i]) by {
            assert(rest[i] == ls[i]);
        }
        lemma_numbered_one_line(rest, stated);
        let before = tasks_numbered(rest, stated);
        let taken = stated + task_ids(before);
        lemma_generated_one_line(choose|k: nat| first_free(taken, before.len(), k));
        assert(no_break(ls[ls.len() - 1]));
        lemma_line_task_one_line(ls.last(), free_id(taken, before.len()));
    }
}

proof fn lemma_sections_one_line(sections: Seq<Seq<char>>)
    ensures
        ({
            let c = context_of(sections);
            &&& forall|i: int| 0 <= i < c.tasks.len() ==> one_line_task(#[trigger] c.tasks[i])
            &&& forall|i: int| 0 <= i < c.constraints.len() ==> no_break(
                #[trigger] c.constraints[i],
            )
        }),
    decreases sections.len(),
{
    if sections.len() > 0 {
        lemma_sections_one_line(sections.drop_last());
        let s = without_marker(trim(sections.last()));
        if let Some(rest) = after_title(s, task_titles()) {
            assert forall|i: int| 0 <= i < solid_lines(rest).len() implies no_break(
                #[trigger] solid_lines(rest)[i],
            ) by {
                lemma_solid_no_break(rest, i);
            }
            lemma_numbered_one_line(solid_lines(rest), stated_ids(solid_lines(rest)));
        }
        if let Some(rest) = after_title(s, constraint_titles()) {
            let cs = solid_lines(rest).map_values(constraint_on_line());
            assert forall|i: int| 0 <= i < cs.len() implies no_break(#[trigger] cs[i]) by {
                let l = solid_lines(rest)[i];
                lemma_solid_no_break(rest, i);
                lemma_undashed_one_line(l);
                lemma_trim_lacks(trim_start_char(l, '-'), '\n');
                assert(cs[i] == trim(trim_start_char(l, '-')));
            }
        }
    }
}

proof fn lemma_undashed_one_line(s: Seq<char>)
    requires
        no_break(s),
    ensures
        no_break(trim_start_char(s, '-')),
    decreases s.len(),
{
    if s.len() > 0 && s[0] == '-' {
        lemma_skip_one_line(s, 1);
        assert(s.skip(1) =~= s.drop_first());
        lemma_undashed_one_line(s.drop_first());
    }
}

/// Whatever a context file holds, the tasks and constraints that are read from it
/// are one line each.
pub proof fn law_read_state_is_one_line(md: Seq<char>)
    requires
        state_in(md) is Some,
    ensures
        one_line_state(state_in(md)->0),
{
    lemma_sections_one_line(context_sections(md));
}

/// The line of an open task, trimmed, is read as a task of that status.
proof fn lemma_task_line_status(t: TaskView, fresh: Seq<char>)
    requires
        one_line_task(t),
        !(t.status is Done),
    ensures
        ({
            let l = bare_task_line(t) + (" "@ + t.description);
            &&& task_line(t) == l + "\n"@
            &&& no_break(l)
            &&& l.len() > 0
            &&& l[0] == '-'
            &&& task_on_line(trim(l), fresh) matches Some(x) && x.status == t.status
        }),
{
    reveal_strlit("- [");
    reveal_strlit("] [");
    reveal_strlit("] ");
    reveal_strlit("]");
    reveal_strlit(" ");
    reveal_strlit("Todo");
    reveal_strlit("InProgress");
    reveal_strlit("Done");
    reveal_strlit("Blocked");
    let w = t.status.name();
    let p = bare_task_line(t);
    let d = " "@ + t.description;
    let l = p + d;
    assert(task_line(t) =~= l + "\n"@);
    let n = w.len() as int;
    let m = t.id.len() as int;
    assert forall|k: int| 0 <= k < l.len() implies l[k] != '\n' by {
        if k < 3 {
        } else if k < 3 + n {
            assert(l[k] == w[k - 3]);
        } else if k < 6 + n {
            assert(l[k] == "] ["@[k - 3 - n]);
        } else if k < 6 + n + m {
            assert(t.id.contains(t.id[k - 6 - n]));
        } else if k < 8 + n + m {
        } else {
            assert(t.description.contains(t.description[k - 8 - n - m]));
        }
    }
    assert(p[0] == '-' && p.last() == ']');
    lemma_trim_after_word(p, d);
    let tail = trim_end(d);
    let line = trim(l);
    assert(line == p + tail);
    let r = seq!['['] + t.id + seq![']'] + tail;
    let u = w + seq![']'] + (seq![' '] + r);
    assert(line.skip(1) =~= seq![' '] + (seq!['['] + u));
    assert(is_blank(seq![' ']));
    lemma_trim_start_past(seq![' '], seq!['['] + u);
    assert((seq!['['] + u).skip(1) =~= u);
    assert(after_open_bracket(line) == Some(u));
    lemma_task_word(u, w);
    assert(status_named(w) == t.status) by {
        assert("Todo"@[0] == 'T' && "InProgress"@[0] == 'I' && "Done"@[0] == 'D' && "Blocked"@[0]
            == 'B');
    }
}

/// The task lines of a state give open tasks.
proof fn lemma_task_lines_open(head: Seq<char>, ts: Seq<TaskView>, stated: Seq<Seq<char>>)
    requires
        heading_free(head),
        ends_line(head),
        forall|i: int| 0 <= i < ts.len() ==> one_line_task(#[trigger] ts[i]),
    ensures
        heading_free(head + task_lines(ts)),
        ends_line(head + task_lines(ts)),
        ends_line(task_lines(ts)),
        forall|i: int|
            0 <= i < tasks_numbered(solid_lines(task_lines(ts)), stated).len() ==> !(
            #[trigger] tasks_numbered(solid_lines(task_lines(ts)), stated)[i]).status.terminal(),
    decreases ts.len(),
{
    if ts.len() == 0 {
        assert(head + task_lines(ts) =~= head);
        lemma_solid_blank(task_lines(ts));
    } else {
        let rest = ts.drop_last();
        let t = ts.last();
        assert forall|i: int| 0 <= i < rest.len() implies one_line_task(#[trigger] rest[i]) by {
            assert(rest[i] == ts[i]);
        }
        lemma_task_lines_open(head, rest, stated);
        assert(one_line_task(ts[ts.len() - 1]));
        if !(t.status is Done) {
            let l = bare_task_line(t) + (" "@ + t.description);
            let before = task_lines(rest);
            let known = tasks_numbered(solid_lines(before), stated);
            lemma_task_line_status(t, free_id(stated + task_ids(known), known.len()));
            lemma_heading_free_line(head + before, l);
            assert(head + (before + (l + "\n"@)) =~= head + before + (l + "\n"@));
            lemma_solid_concat(before, l + "\n"@);
            lemma_solid_one(l);
            lemma_trim_blank(l);
            assert(!is_white_space(l[0]));
            let ls = solid_lines(before);
            assert(solid_lines(task_lines(ts)) == ls + seq![trim(l)]);
            assert((ls + seq![trim(l)]).drop_last() =~= ls);
            assert((ls + seq![trim(l)]).last() == trim(l));
            assert(ends_line(task_lines(ts))) by {
                reveal_strlit("\n");
                assert((before + (l + "\n"@)).last() == '\n');
            }
        }
    }
}

/// Text before a first-level heading is split apart from what follows it.
proof fn lemma_split_before_heading(a: Seq<char>, b: Seq<char>)
    ensures
        split(a + "\n# "@ + b, "\n# "@) == split(a, "\n# "@) + split(b, "\n# "@),
    decreases a.len(),
{
    lemma_heading_sep();
    let sep = "\n# "@;
    if heading_free(a) {
        lemma_split_heading(a, b);
        lemma_split_whole(a);
    } else {
        let i = lemma_first_heading(a);
        let front = a.take(i);
        let rest = a.skip(i + 3);
        assert(a =~= front + sep + rest);
        lemma_split_heading(front, rest);
        lemma_split_heading(front, rest + sep + b);
        assert(a + sep + b =~= front + sep + (rest + sep + b));
        lemma_split_before_heading(rest, b);
        assert(seq![front] + (split(rest, sep) + split(b, sep)) =~= seq![front] + split(rest, sep)
            + split(b, sep));
    }
}

/// Where the first heading of a text begins.
proof fn lemma_first_heading(a: Seq<char>) -> (i: int)
    requires
        !heading_free(a),
    ensures
        0 <= i < a.len() - 2,
        a[i] == '\n',
        a[i + 1] == '#',
        a[i + 2] == ' ',
        heading_free(a.take(i)),
    decreases a.len(),
{
    let k = choose|k: int|
        0 <= k < a.len() - 2 && #[trigger] a[k] == '\n' && a[k + 1] == '#' && a[k + 2] == ' ';
    let front = a.take(k);
    if heading_free(front) {
        k
    } else {
        let i = lemma_first_heading(front);
        assert(front.take(i) =~= a.take(i));
        i
    }
}

proof fn lemma_phase_stays(sections: Seq<Seq<char>>, more: Seq<Seq<char>>)
    requires
        context_of(sections).phase is Some,
    ensures
        context_of(sections + more).phase is Some,
    decreases more.len(),
{
    if more.len() == 0 {
        assert(sections + more =~= sections);
    } else {
        lemma_phase_stays(sections, more.drop_last());
        assert((sections + more).drop_last() =~= sections + more.drop_last());
    }
}

/// A text that begins with the heading of the phase tells a phase.
proof fn lemma_phase_told(p1: Seq<char>)
    requires
        has_prefix(p1, "# Current Phase"@),
    ensures
        context_of(split(p1, "\n# "@)).phase is Some,
{
    reveal_strlit("# Current Phase");
    reveal_strlit("Current Phase");
    reveal_strlit("# ");
    reveal_strlit("## ");
    lemma_heading_sep();
    let sep = "\n# "@;
    let h = "# Current Phase"@;
    let parts = split(p1, sep);
    assert(p1.take(15) =~= h);
    if !heading_free(p1) {
        let i = lemma_first_heading(p1);
        assert(i >= 15) by {
            if i < 15 {
                assert(p1.take(15)[i] == h[i]);
            }
        }
        assert(p1 =~= p1.take(i) + sep + p1.skip(i + 3));
        lemma_split_heading(p1.take(i), p1.skip(i + 3));
        assert(p1.take(i).take(15) =~= h);
    } else {
        lemma_split_whole(p1);
    }
    let first = parts[0];
    assert(first.take(15) =~= h);
    let d = first.skip(15);
    assert(first =~= h + d);
    lemma_trim_after_word(h, d);
    let t = trim(first);
    assert(t[0] == '#' && t[1] == ' ');
    assert(t.take(2) =~= "# "@);
    assert(!has_prefix(t, "## "@)) by {
        assert(t.take(3)[1] == t[1]);
    }
    let s = t.skip(2);
    assert(s.take(13) =~= "Current Phase"@) by {
        assert forall|k: int| 0 <= k < 13 implies s.take(13)[k] == "Current Phase"@[k] by {
            assert(h[k + 2] == "Current Phase"@[k]);
        }
    }
    assert(phase_titles()[0] == "Current Phase"@);
    let one = seq![first];
    assert(one.drop_last() =~= Seq::<Seq<char>>::empty());
    assert(context_of(one).phase is Some);
    assert(parts =~= one + parts.drop_first());
    lemma_phase_stays(one, parts.drop_first());
}

/// The context file of a state that was read can be read again, and tells of no
/// finished task.
pub proof fn law_rewritten_context_is_open(st: RuntimeStateView)
    requires
        one_line_state(st),
    ensures
        state_in(context_text(st)) matches Some(again) && forall|i: int|
            0 <= i < again.active_tasks.len() ==> !(
            #[trigger] again.active_tasks[i]).status.terminal(),
{
    reveal_strlit("# Current Phase\n");
    reveal_strlit("# Current Phase");
    reveal_strlit("\n\n# Active Tasks\n");
    reveal_strlit("\n# Constraints\n");
    reveal_strlit("Active Tasks\n");
    reveal_strlit("Constraints\n");
    reveal_strlit("\n");
    lemma_heading_sep();
    let sep = "\n# "@;
    let p1 = "# Current Phase\n"@ + st.current_phase + "\n"@;
    let tl = task_lines(st.active_tasks);
    let p2 = "Active Tasks\n"@ + tl;
    let cl = constraint_lines(st.constraints);
    let p3 = "Constraints\n"@ + (cl + "\n"@);
    let stated = stated_ids(solid_lines(tl));
    assert("\n\n# Active Tasks\n"@ =~= "\n"@ + sep + "Active Tasks\n"@);
    assert("\n# Constraints\n"@ =~= sep + "Constraints\n"@);
    assert(context_text(st) =~= p1 + sep + (p2 + sep + p3));
    assert(heading_free("Active Tasks\n"@));
    assert(heading_free("Constraints\n"@));
    lemma_task_lines_open("Active Tasks\n"@, st.active_tasks, stated);
    lemma_constraint_lines_read("Constraints\n"@, st.constraints);
    let q = "Constraints\n"@ + cl;
    assert(p3 =~= q + "\n"@);
    assert(heading_free(p3)) by {
        assert forall|i: int|
            0 <= i < p3.len() - 2 && #[trigger] p3[i] == '\n' implies !(p3[i + 1] == '#' && p3[i
            + 2] == ' ') by {
            assert(p3[i] == q[i]);
            if i + 2 < q.len() {
                assert(p3[i + 1] == q[i + 1] && p3[i + 2] == q[i + 2]);
            }
        }
    }
    lemma_split_before_heading(p1, p2 + sep + p3);
    lemma_split_heading(p2, p3);
    lemma_split_whole(p3);
    let first = split(p1, sep);
    let all = first + (seq![p2] + seq![p3]);
    assert(context_sections(context_text(st)) == all);
    assert(p1.take(15) =~= "# Current Phase"@);
    lemma_phase_told(p1);
    assert(all.drop_last() =~= first + seq![p2]);
    assert(all.drop_last().drop_last() =~= first);
    let c1 = context_of(first);
    lemma_tasks_read(tl, c1);
    let c2 = context_step(c1, p2);
    lemma_constraints_read(cl + "\n"@, c2);
    assert(all.last() == p3);
    assert(all.drop_last().last() == p2);
    assert(context_of(all.drop_last()) == c2);
    assert(context_of(all) == context_step(c2, p3));
}

/// Done tasks are never written: the file is that of the state without them.
pub proof fn law_done_tasks_not_written(st: RuntimeStateView)
    ensures
        context_text(st) == context_text(
            RuntimeStateView { active_tasks: st.active_tasks.filter(is_open()), ..st },
        ),
{
    lemma_open_task_lines(st.active_tasks);
}

proof fn lemma_open_task_lines(ts: Seq<TaskView>)
    ensures
        task_lines(ts) == task_lines(ts.filter(is_open())),
    decreases ts.len(),
{
    reveal(Seq::filter);
    if ts.len() > 0 {
        lemma_open_task_lines(ts.drop_last());
        if !(ts.last().status is Done) {
            let kept = ts.drop_last().filter(is_open());
            assert(kept.push(ts.last()).drop_last() =~= kept);
        }
    }
}

/// A task that came without an id gets the first number, from the number of tasks before
/// it on, whose id no task of the file has: `TASK-` and at least three digits.
pub proof fn law_new_id_is_the_first_free(taken: Seq<Seq<char>>, n: nat) -> (k: nat)
    ensures
        n <= k,
        free_id(taken, n) == "TASK-"@ + padded(k, 3),
        !taken.contains("TASK-"@ + padded(k, 3)),
        forall|m: nat| n <= m < k ==> taken.contains("TASK-"@ + #[trigger] padded(m, 3)),
{
    let k = lemma_find_free(taken, n, n);
    lemma_free_number(taken, n, k);
    assert forall|m: nat| n <= m < k implies taken.contains("TASK-"@ + #[trigger] padded(m, 3)) by {
        assert(taken.contains(generated_id(m)));
    }
    k
}

proof fn lemma_find_free(taken: Seq<Seq<char>>, n: nat, k: nat) -> (r: nat)
    requires
        n <= k,
        forall|m: nat| n <= m < k ==> taken.contains(#[trigger] generated_id(m)),
    ensures
        first_free(taken, n, r),
    decreases n + taken.len() - k,
{
    lemma_taken_bound(taken, n, k);
    if taken.contains(generated_id(k)) {
        lemma_taken_bound(taken, n, k + 1);
        lemma_find_free(taken, n, k + 1)
    } else {
        k
    }
}

} // verus!
