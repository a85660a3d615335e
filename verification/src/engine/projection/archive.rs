//! `tasks_archive.md`, where finished tasks end up.
//!
//! ```markdown
//! # Archived Tasks
//!
//! ## Completed
//! ### 2026-06-02
//! - [Done] [TASK-001] desc
//!
//! ## Superseded
//! ### 2026-06-02
//! - [Superseded] [TASK-011] desc
//!   Superseded by: ADR-053
//!   Reason: Ground Truth generation redesigned
//!
//! ## Cancelled
//! ### 2026-06-02
//! - [Cancelled] [TASK-028] desc
//! ```
use vstd::prelude::*;

use crate::engine::projection::decisions::lemma_filter_from;
use crate::foreign::{
    after_open_bracket, archived_line_id, archived_line_words, bracketed_word, captures, id_len,
    is_id_char, ARCHIVED_LINE,
};
use crate::lines::{
    ends_line, lemma_core_exists, lemma_line_no_break, lemma_lines_concat, lemma_lines_ended,
    lemma_lines_one, lemma_trim_is_core, lemma_trim_same, lemma_trim_start_past,
    lemma_trim_start_split, no_break,
};
use crate::models::{
    task_views, Reference, ReferenceView, SupersededInfoView, Task, TaskStatus, TaskView,
};
use crate::text::{
    chomp, contains_text, contents, has_prefix, holds_text, index_of, is_blank, is_literal,
    is_white_space, lemma_index_of, lines, lines_of, occurs_in, string_of, texts, to_chars, trim, trim_start,
    trimmed,
};

verus! {

// ── What the archive means ─────────────────────────────────────────────────

/// The sections of the archive, as raw text.
#[verifier::ext_equal]
pub struct ArchiveView {
    pub completed: Seq<char>,
    pub superseded: Seq<char>,
    pub cancelled: Seq<char>,
}

#[derive(Debug, Clone, Copy, PartialEq, Eq, Structural)]
pub enum ArchiveSection {
    Completed,
    Superseded,
    Cancelled,
}

pub open spec fn empty_archive() -> ArchiveView {
    ArchiveView { completed: Seq::empty(), superseded: Seq::empty(), cancelled: Seq::empty() }
}

/// The section that a (trimmed) line opens.
pub open spec fn archive_heading(line: Seq<char>) -> Option<ArchiveSection> {
    if line == "## Completed"@ {
        Some(ArchiveSection::Completed)
    } else if line == "## Superseded"@ {
        Some(ArchiveSection::Superseded)
    } else if line == "## Cancelled"@ {
        Some(ArchiveSection::Cancelled)
    } else {
        None
    }
}

impl ArchiveView {
    pub open spec fn part(self, section: ArchiveSection) -> Seq<char> {
        match section {
            ArchiveSection::Completed => self.completed,
            ArchiveSection::Superseded => self.superseded,
            ArchiveSection::Cancelled => self.cancelled,
        }
    }

    /// The archive with `more` at the end of one section.
    pub open spec fn extend(self, section: ArchiveSection, more: Seq<char>) -> ArchiveView {
        match section {
            ArchiveSection::Completed => ArchiveView { completed: self.completed + more, ..self },
            ArchiveSection::Superseded => ArchiveView {
                superseded: self.superseded + more,
                ..self
            },
            ArchiveSection::Cancelled => ArchiveView { cancelled: self.cancelled + more, ..self },
        }
    }
}

/// The sections of a text: each line goes to the section that was opened last.
pub open spec fn archive_lines(
    archive: ArchiveView,
    current: Option<ArchiveSection>,
    ls: Seq<Seq<char>>,
) -> ArchiveView
    decreases ls.len(),
{
    if ls.len() == 0 {
        archive
    } else {
        match (archive_heading(trim(ls[0])), current) {
            (Some(section), _) => archive_lines(archive, Some(section), ls.drop_first()),
            (None, Some(section)) => archive_lines(
                archive.extend(section, ls[0] + "\n"@),
                current,
                ls.drop_first(),
            ),
            (None, None) => archive_lines(archive, current, ls.drop_first()),
        }
    }
}

/// Whether the text has the sectioned layout.
pub open spec fn sectioned(existing: Seq<char>) -> bool {
    occurs_in("## Completed"@, existing)
}

/// The sections of an existing file. A file in the older, flat layout counts as
/// completed tasks throughout.
pub open spec fn archive_in(existing: Seq<char>) -> ArchiveView {
    if is_blank(existing) {
        empty_archive()
    } else if sectioned(existing) {
        archive_lines(empty_archive(), None, lines(existing))
    } else {
        ArchiveView { completed: existing, ..empty_archive() }
    }
}

/// Whether some line of the file records a finished task with this id.
pub open spec fn archived(md: Seq<char>, id: Seq<char>) -> bool {
    exists|i: int|
        0 <= i < lines(md).len() && archived_line_id(#[trigger] lines(md)[i]) == Some(id)
}

/// The section a task belongs to.
pub open spec fn section_of(status: TaskStatus) -> ArchiveSection {
    match status {
        TaskStatus::Superseded => ArchiveSection::Superseded,
        TaskStatus::Cancelled => ArchiveSection::Cancelled,
        _ => ArchiveSection::Completed,
    }
}

pub open spec fn archive_label(status: TaskStatus) -> Seq<char> {
    match status {
        TaskStatus::Superseded => "Superseded"@,
        TaskStatus::Cancelled => "Cancelled"@,
        _ => "Done"@,
    }
}

pub open spec fn reference_text(reference: ReferenceView) -> Seq<char> {
    match reference {
        ReferenceView::Task(id) => "Task "@ + id,
        ReferenceView::Adr(id) => id,
    }
}

pub open spec fn superseded_text(info: Option<SupersededInfoView>) -> Seq<char> {
    match info {
        None => Seq::empty(),
        Some(info) => "  Superseded by: "@ + reference_text(info.reference) + "\n"@ + if
            info.reason.len() == 0 {
            Seq::empty()
        } else {
            "  Reason: "@ + info.reason + "\n"@
        },
    }
}

/// The entry of one task.
pub open spec fn archived_text(t: TaskView) -> Seq<char> {
    "- ["@ + archive_label(t.status) + "] ["@ + t.id + "] "@ + t.description + "\n"@
        + superseded_text(t.superseded_by)
}

/// The archive with one more task, under a heading for the day.
pub open spec fn add_archived(archive: ArchiveView, t: TaskView, date: Seq<char>) -> ArchiveView {
    let section = section_of(t.status);
    if occurs_in("### "@ + date, archive.part(section)) {
        archive.extend(section, archived_text(t))
    } else {
        archive.extend(section, "\n### "@ + date + "\n"@ + archived_text(t))
    }
}

/// The archive with the tasks `ts` added in turn.
pub open spec fn add_all_archived(
    archive: ArchiveView,
    ts: Seq<TaskView>,
    date: Seq<char>,
) -> ArchiveView
    decreases ts.len(),
{
    if ts.len() == 0 {
        archive
    } else {
        add_archived(add_all_archived(archive, ts.drop_last(), date), ts.last(), date)
    }
}

/// A section under its heading, unless it is blank.
pub open spec fn archive_block(heading: Seq<char>, part: Seq<char>) -> Seq<char> {
    if is_blank(part) {
        Seq::empty()
    } else {
        heading + part + "\n"@
    }
}

pub open spec fn archive_text(archive: ArchiveView) -> Seq<char> {
    "# Archived Tasks\n\n"@ + archive_block("## Completed\n"@, archive.completed) + archive_block(
        "## Superseded\n"@,
        archive.superseded,
    ) + archive_block("## Cancelled\n"@, archive.cancelled)
}

/// The tasks whose id the file does not record yet.
pub open spec fn unarchived(existing: Seq<char>) -> spec_fn(TaskView) -> bool {
    |t: TaskView| !archived(existing, t.id)
}

/// The archive file after the tasks `ts` finished on the day `date`.
pub open spec fn archive_after(
    existing: Seq<char>,
    ts: Seq<TaskView>,
    date: Seq<char>,
) -> Seq<char> {
    let added = ts.filter(unarchived(existing));
    if added.len() == 0 && existing.len() > 0 {
        existing
    } else {
        archive_text(add_all_archived(archive_in(existing), added, date))
    }
}

// ── Writing the archive ────────────────────────────────────────────────────

struct Archive {
    completed: String,
    superseded: String,
    cancelled: String,
}

impl Archive {
    spec fn model(self) -> ArchiveView {
        ArchiveView {
            completed: self.completed@,
            superseded: self.superseded@,
            cancelled: self.cancelled@,
        }
    }

    fn extend(&mut self, section: ArchiveSection, more: &str)
        ensures
            final(self).model() == old(self).model().extend(section, more@),
    {
        match section {
            ArchiveSection::Completed => self.completed.append(more),
            ArchiveSection::Superseded => self.superseded.append(more),
            ArchiveSection::Cancelled => self.cancelled.append(more),
        }
    }

    fn part(&self, section: ArchiveSection) -> (r: &String)
        ensures
            r@ == self.model().part(section),
    {
        match section {
            ArchiveSection::Completed => &self.completed,
            ArchiveSection::Superseded => &self.superseded,
            ArchiveSection::Cancelled => &self.cancelled,
        }
    }
}

fn blank(s: &str) -> (r: bool)
    ensures
        r == is_blank(s@),
{
    let chars = to_chars(s);
    proof {
        crate::lines::lemma_trim_blank(s@);
    }
    trimmed(chars.as_slice()).len() == 0
}

fn contains_str(s: &str, p: &str) -> (r: bool)
    ensures
        r == occurs_in(p@, s@),
{
    let a = to_chars(s);
    let b = to_chars(p);
    contains_text(a.as_slice(), b.as_slice())
}

/// The ids of the tasks that the file records, in the order of its lines.
fn extract_task_ids(md: &str) -> (r: Vec<String>)
    ensures
        forall|id: Seq<char>| #[trigger] texts(r@).contains(id) <==> archived(md@, id),
{
    let chars = to_chars(md);
    let ls = lines_of(chars.as_slice());
    let ghost all = lines(md@);
    let mut ids: Vec<String> = Vec::new();
    let mut i: usize = 0;
    while i < ls.len()
        invariant
            i <= ls@.len(),
            all == contents(ls@),
            all == lines(md@),
            forall|k: int|
                0 <= k < ids@.len() ==> exists|j: int|
                    0 <= j < i && archived_line_id(#[trigger] all[j]) == Some(
                        (#[trigger] ids@[k])@,
                    ),
            forall|j: int|
                0 <= j < i && archived_line_id(#[trigger] all[j]) is Some ==> texts(ids@).contains(
                    archived_line_id(all[j])->0,
                ),
        decreases ls@.len() - i,
    {
        let ghost before = ids@;
        proof {
            lemma_line_no_break(md@, i as int);
        }
        let line = string_of(ls[i]);
        match captures(ARCHIVED_LINE, line.as_str()) {
            Some(mut groups) => {
                let id = groups.swap_remove(2);
                match id {
                    Some(id) => {
                        ids.push(id);
                        assert(texts(ids@) =~= texts(before).push(id@));
                        assert(archived_line_id(all[i as int]) == Some(id@));
                        assert(texts(ids@)[before.len() as int] == id@);
                    },
                    None => {},
                }
            },
            None => {},
        }
        proof {
            assert forall|j: int|
                0 <= j < i + 1 && archived_line_id(#[trigger] all[j]) is Some implies texts(
                ids@,
            ).contains(archived_line_id(all[j])->0) by {
                if j < i {
                    let id = archived_line_id(all[j])->0;
                    let k = choose|k: int| 0 <= k < texts(before).len() && texts(before)[k] == id;
                    assert(texts(ids@)[k] == id);
                }
            }
        }
        i = i + 1;
    }
    proof {
        assert forall|id: Seq<char>| #[trigger] texts(ids@).contains(id) <==> archived(
            md@,
            id,
        ) by {
            if texts(ids@).contains(id) {
                let k = choose|k: int| 0 <= k < texts(ids@).len() && texts(ids@)[k] == id;
                assert(ids@[k]@ == id);
            }
        }
    }
    ids
}

/// Render a single archived task entry.
fn render_archived_task(t: &Task) -> (r: String)
    ensures
        r@ == archived_text(t@),
{
    let mut out = String::new();
    out.append("- [");
    out.append(
        match t.status {
            TaskStatus::Superseded => "Superseded",
            TaskStatus::Cancelled => "Cancelled",
            _ => "Done",
        },
    );
    out.append("] [");
    out.append(t.id.as_str());
    out.append("] ");
    out.append(t.description.as_str());
    out.append("\n");
    match &t.superseded_by {
        None => {},
        Some(info) => {
            out.append("  Superseded by: ");
            match &info.reference {
                Reference::Task(id) => {
                    out.append("Task ");
                    out.append(id.as_str());
                },
                Reference::Adr(id) => {
                    out.append(id.as_str());
                },
            }
            out.append("\n");
            if !info.reason.as_str().is_empty() {
                out.append("  Reason: ");
                out.append(info.reason.as_str());
                out.append("\n");
            }
        },
    }
    assert(out@ =~= archived_text(t@));
    out
}

fn archive_section(status: TaskStatus) -> (r: ArchiveSection)
    ensures
        r == section_of(status),
{
    match status {
        TaskStatus::Superseded => ArchiveSection::Superseded,
        TaskStatus::Cancelled => ArchiveSection::Cancelled,
        _ => ArchiveSection::Completed,
    }
}

/// The sections of an existing archive file.
fn read_archive(existing: &str) -> (r: Archive)
    ensures
        r.model() == archive_in(existing@),
{
    let mut archive = Archive {
        completed: String::new(),
        superseded: String::new(),
        cancelled: String::new(),
    };
    assert(archive.model() =~= empty_archive());
    if blank(existing) {
        return archive;
    }
    if !contains_str(existing, "## Completed") {
        archive.completed = existing.to_owned();
        return archive;
    }
    let chars = to_chars(existing);
    let ls = lines_of(chars.as_slice());
    let ghost all = lines(existing@);
    let mut current: Option<ArchiveSection> = None;
    let mut i: usize = 0;
    assert(all.skip(0) =~= all);
    while i < ls.len()
        invariant
            i <= ls@.len(),
            all == contents(ls@),
            archive_lines(archive.model(), current, all.skip(i as int)) == archive_lines(
                empty_archive(),
                None,
                all,
            ),
        decreases ls@.len() - i,
    {
        assert(all.skip(i as int)[0] == ls@[i as int]@);
        assert(all.skip(i as int).drop_first() =~= all.skip(i + 1));
        let line = trimmed(ls[i]);
        if is_literal(line, "## Completed") {
            current = Some(ArchiveSection::Completed);
        } else if is_literal(line, "## Superseded") {
            current = Some(ArchiveSection::Superseded);
        } else if is_literal(line, "## Cancelled") {
            current = Some(ArchiveSection::Cancelled);
        } else {
            match current {
                Some(section) => {
                    let mut text = string_of(ls[i]);
                    text.append("\n");
                    archive.extend(section, text.as_str());
                },
                None => {},
            }
        }
        i = i + 1;
    }
    archive
}

fn append_block(out: &mut String, heading: &str, part: &str)
    ensures
        final(out)@ == old(out)@ + archive_block(heading@, part@),
{
    let ghost before = out@;
    if !blank(part) {
        out.append(heading);
        out.append(part);
        out.append("\n");
    }
    assert(out@ =~= before + archive_block(heading@, part@));
}

/// Append finished tasks to the archive file, each in its section under the
/// heading of the day.
///
/// A task whose id the file already records, in any section, is left out; with
/// nothing to add, the file stays as it is. A file in the flat layout is moved
/// to the sectioned one by the first task that is added.
pub fn append_tasks_archive(existing: &str, new_tasks: &[Task], today_date: &str) -> (r: String)
    ensures
        r@ == archive_after(existing@, task_views(new_tasks@), today_date@),
{
    let ids = extract_task_ids(existing);
    let ghost all = task_views(new_tasks@);
    let ghost keep = unarchived(existing@);
    let ghost start = archive_in(existing@);
    let mut archive = read_archive(existing);
    let mut heading = "### ".to_owned();
    heading.append(today_date);
    let mut added: usize = 0;
    let mut i: usize = 0;
    proof {
        reveal(Seq::filter);
        assert(all.take(0).filter(keep) =~= Seq::<TaskView>::empty());
    }
    while i < new_tasks.len()
        invariant
            i <= new_tasks@.len(),
            all == task_views(new_tasks@),
            keep == unarchived(existing@),
            forall|id: Seq<char>|
                #[trigger] texts(ids@).contains(id) <==> archived(existing@, id),
            heading@ == "### "@ + today_date@,
            added == all.take(i as int).filter(keep).len(),
            added <= i,
            archive.model() == add_all_archived(
                start,
                all.take(i as int).filter(keep),
                today_date@,
            ),
        decreases new_tasks@.len() - i,
    {
        let t = &new_tasks[i];
        proof {
            reveal(Seq::filter);
            assert(all.take(i + 1).drop_last() =~= all.take(i as int));
            assert(all.take(i + 1).last() == t@);
        }
        if !holds_text(&ids, &t.id) {
            let ghost sofar = all.take(i as int).filter(keep);
            assert(sofar.push(t@).drop_last() =~= sofar);
            let section = archive_section(t.status);
            let entry = render_archived_task(t);
            let mut more = String::new();
            if !contains_str(archive.part(section).as_str(), heading.as_str()) {
                more.append("\n### ");
                more.append(today_date);
                more.append("\n");
            }
            more.append(entry.as_str());
            assert(more@ =~= if occurs_in("### "@ + today_date@, archive.model().part(section)) {
                archived_text(t@)
            } else {
                "\n### "@ + today_date@ + "\n"@ + archived_text(t@)
            });
            archive.extend(section, more.as_str());
            added = added + 1;
        }
        i = i + 1;
    }
    assert(all.take(i as int) =~= all);
    if added == 0 && !existing.is_empty() {
        return existing.to_owned();
    }
    let mut out = "# Archived Tasks\n\n".to_owned();
    append_block(&mut out, "## Completed\n", archive.completed.as_str());
    append_block(&mut out, "## Superseded\n", archive.superseded.as_str());
    append_block(&mut out, "## Cancelled\n", archive.cancelled.as_str());
    out
}

// ── What an archive records ────────────────────────────────────────────────

/// An id that the archive can record: letters, digits, `_` and `-`.
pub open spec fn archivable_id(id: Seq<char>) -> bool {
    id.len() > 0 && forall|i: int| 0 <= i < id.len() ==> is_id_char(#[trigger] id[i])
}

/// The line `-`, `w1`, `[word]`, `w2`, `[id]` and `rest`.
spec fn record(
    w1: Seq<char>,
    word: Seq<char>,
    w2: Seq<char>,
    id: Seq<char>,
    rest: Seq<char>,
) -> Seq<char> {
    seq!['-'] + (w1 + (seq!['['] + (word + seq![']'] + (w2 + (seq!['['] + (id + (seq![']']
        + rest)))))))
}

proof fn lemma_words()
    ensures
        forall|w: Seq<char>| #[trigger]
            archived_line_words().contains(w) <==> w == "Done"@ || w == "Superseded"@ || w
                == "Cancelled"@,
        "Done"@.len() == 4,
        "Superseded"@.len() == 10,
        "Cancelled"@.len() == 9,
        "Done"@[0] == 'D',
        "Superseded"@[0] == 'S',
        "Cancelled"@[0] == 'C',
{
    reveal_strlit("Done");
    reveal_strlit("Superseded");
    reveal_strlit("Cancelled");
    let ws = archived_line_words();
    assert forall|w: Seq<char>| #[trigger] ws.contains(w) <==> w == "Done"@ || w == "Superseded"@
        || w == "Cancelled"@ by {
        assert(ws[0] == "Done"@ && ws[1] == "Superseded"@ && ws[2] == "Cancelled"@);
    }
}

proof fn lemma_bracketed_word(u: Seq<char>, w: Seq<char>)
    requires
        archived_line_words().contains(w),
        has_prefix(u, w + seq![']']),
    ensures
        bracketed_word(u, archived_line_words()) == Some(w),
{
    lemma_words();
    let ws = archived_line_words();
    reveal_with_fuel(bracketed_word, 4);
    assert(ws.drop_first() =~= seq!["Superseded"@, "Cancelled"@]);
    assert(ws.drop_first().drop_first() =~= seq!["Cancelled"@]);
    let x = w + seq![']'];
    assert(u[0] == x[0]) by {
        assert(u.take(x.len() as int)[0] == u[0]);
    }
    assert(w.len() > 0 && x[0] == w[0]);
    assert forall|v: Seq<char>|
        v.len() > 0 && v[0] != w[0] implies !#[trigger] has_prefix(u, v + seq![']']) by {
        let y = v + seq![']'];
        if has_prefix(u, y) {
            assert(u.take(y.len() as int)[0] == u[0]);
            assert(y[0] == v[0]);
        }
    }
}

proof fn lemma_bracketed_word_rev(u: Seq<char>, w: Seq<char>)
    requires
        bracketed_word(u, archived_line_words()) == Some(w),
    ensures
        archived_line_words().contains(w),
        has_prefix(u, w + seq![']']),
{
    lemma_words();
    let ws = archived_line_words();
    reveal_with_fuel(bracketed_word, 4);
    assert(ws.drop_first() =~= seq!["Superseded"@, "Cancelled"@]);
    assert(ws.drop_first().drop_first() =~= seq!["Cancelled"@]);
}

proof fn lemma_id_len(id: Seq<char>, rest: Seq<char>)
    requires
        forall|i: int| 0 <= i < id.len() ==> is_id_char(#[trigger] id[i]),
        rest.len() > 0,
        !is_id_char(rest[0]),
    ensures
        id_len(id + rest) == id.len(),
    decreases id.len(),
{
    if id.len() == 0 {
        assert(id + rest =~= rest);
    } else {
        let tail = id.drop_first();
        assert((id + rest).drop_first() =~= tail + rest);
        assert forall|i: int| 0 <= i < tail.len() implies is_id_char(#[trigger] tail[i]) by {
            assert(tail[i] == id[i + 1]);
        }
        lemma_id_len(tail, rest);
    }
}

proof fn lemma_id_run(s: Seq<char>)
    ensures
        0 <= id_len(s) <= s.len(),
        forall|i: int| 0 <= i < id_len(s) ==> is_id_char(#[trigger] s[i]),
    decreases s.len(),
{
    if s.len() > 0 && is_id_char(s[0]) {
        let t = s.drop_first();
        lemma_id_run(t);
        assert forall|i: int| 0 <= i < id_len(s) implies is_id_char(#[trigger] s[i]) by {
            if i > 0 {
                assert(t[i - 1] == s[i]);
            }
        }
    }
}

proof fn lemma_record_id(
    w1: Seq<char>,
    word: Seq<char>,
    w2: Seq<char>,
    id: Seq<char>,
    rest: Seq<char>,
)
    requires
        is_blank(w1),
        is_blank(w2),
        archived_line_words().contains(word),
        archivable_id(id),
    ensures
        archived_line_id(record(w1, word, w2, id, rest)) == Some(id),
{
    let l = record(w1, word, w2, id, rest);
    let r = seq!['['] + (id + (seq![']'] + rest));
    let u = word + seq![']'] + (w2 + r);
    assert(l.skip(1) =~= w1 + (seq!['['] + u));
    lemma_trim_start_past(w1, seq!['['] + u);
    assert((seq!['['] + u).skip(1) =~= u);
    assert(u.take(word.len() as int + 1) =~= word + seq![']']);
    lemma_bracketed_word(u, word);
    assert(u.skip(word.len() as int + 1) =~= w2 + r);
    lemma_trim_start_past(w2, r);
    let tail = id + (seq![']'] + rest);
    assert(r.skip(1) =~= tail);
    lemma_id_len(id, seq![']'] + rest);
    assert(tail.take(id.len() as int) =~= id);
}

/// White space and an opening bracket at the start of a text.
proof fn lemma_open_bracket(x: Seq<char>) -> (w: Seq<char>)
    requires
        trim_start(x).len() > 0,
        trim_start(x)[0] == '[',
    ensures
        is_blank(w),
        x == w + (seq!['['] + trim_start(x).skip(1)),
{
    let k = lemma_trim_start_split(x);
    let w = x.take(k);
    let v = trim_start(x);
    assert forall|i: int| 0 <= i < w.len() implies is_white_space(#[trigger] w[i]) by {
        assert(w[i] == x[i]);
    }
    assert(x =~= w + v);
    assert(v =~= seq!['['] + v.skip(1));
    w
}

/// A run of id characters and a closing bracket at the start of a text.
proof fn lemma_closed_id(tail: Seq<char>)
    requires
        0 < id_len(tail) < tail.len(),
        tail[id_len(tail)] == ']',
    ensures
        archivable_id(tail.take(id_len(tail))),
        tail == tail.take(id_len(tail)) + (seq![']'] + tail.skip(id_len(tail) + 1)),
{
    let m = id_len(tail);
    lemma_id_run(tail);
    let id = tail.take(m);
    assert forall|i: int| 0 <= i < id.len() implies is_id_char(#[trigger] id[i]) by {
        assert(id[i] == tail[i]);
    }
    assert(tail =~= id + (seq![']'] + tail.skip(m + 1)));
}

proof fn lemma_record_parts(l: Seq<char>) -> (r: (Seq<char>, Seq<char>, Seq<char>, Seq<char>))
    requires
        archived_line_id(l) is Some,
    ensures
        is_blank(r.0),
        archived_line_words().contains(r.1),
        is_blank(r.2),
        archivable_id(archived_line_id(l)->0),
        l == record(r.0, r.1, r.2, archived_line_id(l)->0, r.3),
{
    let u = after_open_bracket(l)->0;
    let w1 = lemma_open_bracket(l.skip(1));
    assert(l =~= seq!['-'] + l.skip(1));
    let word = bracketed_word(u, archived_line_words())->0;
    lemma_bracketed_word_rev(u, word);
    let n = word.len() as int + 1;
    let x = u.skip(n);
    assert(u =~= u.take(n) + x);
    let w2 = lemma_open_bracket(x);
    let tail = trim_start(x).skip(1);
    lemma_closed_id(tail);
    (w1, word, w2, tail.skip(id_len(tail) + 1))
}

/// The carriage return at the end of a line does not matter to what it records.
proof fn lemma_chomped_id(l: Seq<char>)
    requires
        archived_line_id(l) is Some,
    ensures
        archived_line_id(chomp(l)) == archived_line_id(l),
{
    let id = archived_line_id(l)->0;
    let (w1, word, w2, rest) = lemma_record_parts(l);
    if l.last() == '\r' {
        if rest.len() == 0 {
            assert(l.last() == ']');
        }
        assert(rest.last() == l.last());
        assert(l.drop_last() =~= record(w1, word, w2, id, rest.drop_last()));
        lemma_record_id(w1, word, w2, id, rest.drop_last());
    }
}

/// Whether some line of the text is as `p` tells.
pub open spec fn has_line(md: Seq<char>, p: spec_fn(Seq<char>) -> bool) -> bool {
    exists|i: int| 0 <= i < lines(md).len() && p(#[trigger] lines(md)[i])
}

/// Whether `p` speaks of lines that begin with a dash, and a carriage return at
/// their end does not matter to it.
#[verifier::opaque]
spec fn steady(p: spec_fn(Seq<char>) -> bool) -> bool {
    forall|l: Seq<char>| #[trigger] p(l) ==> l.len() > 0 && l[0] == '-' && p(chomp(l))
}

proof fn lemma_steady(p: spec_fn(Seq<char>) -> bool, l: Seq<char>)
    requires
        steady(p),
        p(l),
    ensures
        l.len() > 0,
        l[0] == '-',
        p(chomp(l)),
{
    reveal(steady);
}

/// The lines that record the task with this id.
spec fn records(id: Seq<char>) -> spec_fn(Seq<char>) -> bool {
    |l: Seq<char>| archived_line_id(l) == Some(id)
}

proof fn lemma_records(id: Seq<char>)
    ensures
        steady(records(id)),
        forall|md: Seq<char>| #[trigger] has_line(md, records(id)) == archived(md, id),
{
    let p = records(id);
    assert forall|l: Seq<char>| #[trigger] p(l) implies l.len() > 0 && l[0] == '-' && p(
        chomp(l),
    ) by {
        lemma_chomped_id(l);
    }
    reveal(steady);
    assert forall|md: Seq<char>| #[trigger] has_line(md, p) == archived(md, id) by {
        if has_line(md, p) {
            let i = choose|i: int| 0 <= i < lines(md).len() && p(#[trigger] lines(md)[i]);
            assert(archived_line_id(lines(md)[i]) == Some(id));
        }
        if archived(md, id) {
            let i = choose|i: int|
                0 <= i < lines(md).len() && archived_line_id(#[trigger] lines(md)[i]) == Some(id);
            assert(p(lines(md)[i]));
        }
    }
}

/// A line that begins with a dash is no heading.
proof fn lemma_dash_no_heading(l: Seq<char>)
    requires
        l.len() > 0,
        l[0] == '-',
    ensures
        archive_heading(trim(l)) is None,
        !is_blank(l),
{
    reveal_strlit("## Completed");
    reveal_strlit("## Superseded");
    reveal_strlit("## Cancelled");
    let (i, j) = lemma_core_exists(l);
    lemma_trim_is_core(l, i, j);
    assert(i == 0 && j > 0);
    assert(trim(l)[0] == '-');
}

proof fn lemma_line_left(x: Seq<char>, y: Seq<char>, p: spec_fn(Seq<char>) -> bool)
    requires
        has_line(x, p),
        ends_line(x),
    ensures
        has_line(x + y, p),
{
    lemma_lines_concat(x, y);
    let i = choose|i: int| 0 <= i < lines(x).len() && p(#[trigger] lines(x)[i]);
    assert(lines(x + y)[i] == lines(x)[i]);
}

proof fn lemma_line_right(x: Seq<char>, y: Seq<char>, p: spec_fn(Seq<char>) -> bool)
    requires
        has_line(y, p),
        ends_line(x),
    ensures
        has_line(x + y, p),
{
    lemma_lines_concat(x, y);
    let i = choose|i: int| 0 <= i < lines(y).len() && p(#[trigger] lines(y)[i]);
    assert(lines(x + y)[lines(x).len() + i] == lines(y)[i]);
}

proof fn lemma_line_ended(x: Seq<char>, p: spec_fn(Seq<char>) -> bool)
    requires
        steady(p),
        has_line(x, p),
    ensures
        has_line(x + "\n"@, p),
        ends_line(x + "\n"@),
{
    reveal_strlit("\n");
    assert((x + "\n"@).last() == '\n');
    if ends_line(x) {
        lemma_line_left(x, "\n"@, p);
    } else {
        lemma_lines_ended(x);
        let i = choose|i: int|
            0 <= i < lines(x).len() && p(#[trigger] lines(x)[i]);
        lemma_steady(p, lines(x)[i]);
        assert(p(lines(x + "\n"@)[i]));
    }
}

/// Text with such a line in it is not blank.
proof fn lemma_line_not_blank(x: Seq<char>, p: spec_fn(Seq<char>) -> bool)
    requires
        steady(p),
        has_line(x, p),
    ensures
        !is_blank(x),
    decreases x.len(),
{
    let i = choose|i: int| 0 <= i < lines(x).len() && p(#[trigger] lines(x)[i]);
    lemma_steady(p, lines(x)[i]);
    lemma_index_of(x, '\n');
    let k = index_of(x, '\n');
    if k < x.len() {
        let l = x.take(k);
        let rest = x.skip(k + 1);
        if i == 0 {
            assert(lines(x)[0] == chomp(l));
            lemma_dash_no_heading(chomp(l));
            assert(chomp(l)[0] == x[0]);
            assert(chomp(l)[0] == '-');
            assert(!is_white_space(x[0]));
        } else {
            assert(lines(x)[i] == lines(rest)[i - 1]);
            lemma_line_not_blank(rest, p);
            let j = choose|j: int| 0 <= j < rest.len() && !is_white_space(#[trigger] rest[j]);
            assert(!is_white_space(x[j + k + 1]));
        }
    } else {
        assert(lines(x)[0] == x);
        lemma_dash_no_heading(x);
    }
}

/// Whether some section has such a line.
spec fn holds(a: ArchiveView, p: spec_fn(Seq<char>) -> bool) -> bool {
    has_line(a.completed, p) || has_line(a.superseded, p) || has_line(a.cancelled, p)
}

/// Whether adding to a section starts on a new line: the section ends one, or
/// there is no heading for the day yet.
spec fn ready(a: ArchiveView, date: Seq<char>) -> bool {
    forall|section: ArchiveSection|
        ends_line(#[trigger] a.part(section)) || !occurs_in("### "@ + date, a.part(section))
}

spec fn ended(a: ArchiveView) -> bool {
    ends_line(a.completed) && ends_line(a.superseded) && ends_line(a.cancelled)
}

proof fn lemma_block(h: Seq<char>, part: Seq<char>, p: spec_fn(Seq<char>) -> bool)
    requires
        steady(p),
        ends_line(h),
    ensures
        ends_line(archive_block(h, part)),
        has_line(part, p) ==> has_line(archive_block(h, part), p),
{
    reveal_strlit("\n");
    if has_line(part, p) {
        lemma_line_not_blank(part, p);
        lemma_line_ended(part, p);
        lemma_line_right(h, part + "\n"@, p);
        assert(h + (part + "\n"@) =~= h + part + "\n"@);
    }
    if !is_blank(part) {
        assert((h + part + "\n"@).last() == '\n');
    }
}

proof fn lemma_text_holds(a: ArchiveView, p: spec_fn(Seq<char>) -> bool)
    requires
        steady(p),
        holds(a, p),
    ensures
        has_line(archive_text(a), p),
{
    reveal_strlit("# Archived Tasks\n\n");
    reveal_strlit("## Completed\n");
    reveal_strlit("## Superseded\n");
    reveal_strlit("## Cancelled\n");
    let h = "# Archived Tasks\n\n"@;
    let b1 = archive_block("## Completed\n"@, a.completed);
    let b2 = archive_block("## Superseded\n"@, a.superseded);
    let b3 = archive_block("## Cancelled\n"@, a.cancelled);
    lemma_block("## Completed\n"@, a.completed, p);
    lemma_block("## Superseded\n"@, a.superseded, p);
    lemma_block("## Cancelled\n"@, a.cancelled, p);
    assert(ends_line(h));
    lemma_ends_concat(h, b1);
    lemma_ends_concat(h + b1, b2);
    if has_line(b1, p) {
        lemma_line_right(h, b1, p);
        lemma_line_left(h + b1, b2, p);
        lemma_line_left(h + b1 + b2, b3, p);
    } else if has_line(b2, p) {
        lemma_line_right(h + b1, b2, p);
        lemma_line_left(h + b1 + b2, b3, p);
    } else {
        lemma_line_right(h + b1 + b2, b3, p);
    }
}

proof fn lemma_ends_concat(x: Seq<char>, y: Seq<char>)
    requires
        ends_line(x),
        ends_line(y),
    ensures
        ends_line(x + y),
{
    if y.len() == 0 {
        assert(x + y =~= x);
    } else {
        assert((x + y).last() == y.last());
    }
}

/// The text of an entry up to its description.
spec fn entry_head(label: Seq<char>, id: Seq<char>) -> Seq<char> {
    "- ["@ + label + "] ["@ + id + "] "@
}

proof fn lemma_entry_head(status: TaskStatus, id: Seq<char>)
    requires
        archivable_id(id),
    ensures
        ({
            let label = archive_label(status);
            &&& archived_line_words().contains(label)
            &&& entry_head(label, id) == record(seq![' '], label, seq![' '], id, seq![' '])
            &&& no_break(entry_head(label, id))
        }),
{
    lemma_words();
    reveal_strlit("- [");
    reveal_strlit("] [");
    reveal_strlit("] ");
    reveal_strlit("Done");
    reveal_strlit("Superseded");
    reveal_strlit("Cancelled");
    let label = archive_label(status);
    let head = entry_head(label, id);
    let blank = seq![' '];
    assert(head =~= record(blank, label, blank, id, blank));
    let i = 3 + label.len() as int;
    assert forall|k: int| 0 <= k < head.len() implies head[k] != '\n' by {
        if k < 3 {
        } else if k < i {
            assert(head[k] == label[k - 3]);
        } else if k < i + 3 {
            assert(head[k] == "] ["@[k - i]);
        } else if k < i + 3 + id.len() {
            assert(is_id_char(id[k - i - 3]));
        } else {
            assert(head[k] == "] "@[k - i - 3 - id.len()]);
        }
    }
}

proof fn lemma_entry_recorded(t: TaskView)
    requires
        archivable_id(t.id),
    ensures
        archived(archived_text(t), t.id),
{
    let x = archived_text(t);
    let label = archive_label(t.status);
    let head = entry_head(label, t.id);
    lemma_entry_head(t.status, t.id);
    let n = head.len() as int;
    let tail = t.description + "\n"@ + superseded_text(t.superseded_by);
    assert(x =~= head + tail);
    let m = n + t.description.len();
    assert(m < x.len() && x[m] == '\n') by {
        reveal_strlit("\n");
    }
    lemma_index_of(x, '\n');
    let k = index_of(x, '\n');
    assert(k <= m);
    assert(k >= n) by {
        if k < n {
            assert(head.contains(head[k]));
        }
    }
    let blank = seq![' '];
    let q = x.subrange(n, k);
    assert(x.take(k) =~= head + q);
    lemma_record_longer(blank, label, blank, t.id, blank, q);
    lemma_record_id(blank, label, blank, t.id, blank + q);
    lemma_chomped_id(x.take(k));
    assert(lines(x)[0] == chomp(x.take(k)));
}

proof fn lemma_record_longer(
    w1: Seq<char>,
    word: Seq<char>,
    w2: Seq<char>,
    id: Seq<char>,
    rest: Seq<char>,
    more: Seq<char>,
)
    ensures
        record(w1, word, w2, id, rest) + more == record(w1, word, w2, id, rest + more),
{
    assert(record(w1, word, w2, id, rest) + more =~= record(w1, word, w2, id, rest + more));
}

proof fn lemma_add_archived(
    a: ArchiveView,
    t: TaskView,
    date: Seq<char>,
    p: spec_fn(Seq<char>) -> bool,
)
    requires
        steady(p),
        ready(a, date),
    ensures
        ready(add_archived(a, t, date), date),
        holds(a, p) ==> holds(add_archived(a, t, date), p),
        has_line(archived_text(t), p) ==> holds(add_archived(a, t, date), p),
{
    reveal_strlit("\n");
    reveal_strlit("\n### ");
    let section = section_of(t.status);
    let part = a.part(section);
    let b = add_archived(a, t, date);
    let entry = archived_text(t);
    let fresh = !occurs_in("### "@ + date, part);
    let front = if fresh { part + ("\n### "@ + date + "\n"@) } else { part };
    assert(b.part(section) =~= front + entry);
    assert(ends_line(front)) by {
        if fresh {
            assert(front.last() == '\n');
        } else {
            assert(ends_line(a.part(section)));
        }
    }
    assert(ends_line(entry)) by {
        lemma_entry_ends(t);
    }
    lemma_ends_concat(front, entry);
    assert(ready(b, date)) by {
        assert forall|s: ArchiveSection|
            ends_line(#[trigger] b.part(s)) || !occurs_in("### "@ + date, b.part(s)) by {
            if s == section {
                assert(ends_line(b.part(section)));
            } else {
                assert(b.part(s) == a.part(s));
            }
        }
    }
    if holds(a, p) {
        if has_line(part, p) {
            if fresh {
                lemma_line_ended(part, p);
                let more = "\n### "@.skip(1) + date + "\n"@;
                assert("\n### "@ =~= "\n"@ + "\n### "@.skip(1));
                lemma_line_left(part + "\n"@, more, p);
                assert(part + "\n"@ + more =~= front);
            }
            lemma_line_left(front, entry, p);
        }
        assert(has_line(b.part(section), p) || has_line(a.part(section), p) || holds(b, p));
    }
    if has_line(entry, p) {
        lemma_line_right(front, entry, p);
    }
}

proof fn lemma_entry_ends(t: TaskView)
    ensures
        ends_line(archived_text(t)),
{
    reveal_strlit("\n");
    let x = archived_text(t);
    match t.superseded_by {
        None => {
            assert(x.last() == '\n');
        },
        Some(info) => {
            assert(superseded_text(t.superseded_by).last() == '\n');
            assert(x.last() == superseded_text(t.superseded_by).last());
        },
    }
}

proof fn lemma_add_all(
    a: ArchiveView,
    ts: Seq<TaskView>,
    date: Seq<char>,
    p: spec_fn(Seq<char>) -> bool,
)
    requires
        steady(p),
        ready(a, date),
    ensures
        ready(add_all_archived(a, ts, date), date),
        holds(a, p) ==> holds(add_all_archived(a, ts, date), p),
        forall|i: int|
            0 <= i < ts.len() && has_line(archived_text(#[trigger] ts[i]), p) ==> holds(
                add_all_archived(a, ts, date),
                p,
            ),
    decreases ts.len(),
{
    if ts.len() > 0 {
        let rest = ts.drop_last();
        lemma_add_all(a, rest, date, p);
        lemma_add_archived(add_all_archived(a, rest, date), ts.last(), date, p);
        assert forall|i: int|
            0 <= i < ts.len() && has_line(archived_text(#[trigger] ts[i]), p) implies holds(
            add_all_archived(a, ts, date),
            p,
        ) by {
            if i < rest.len() {
                assert(rest[i] == ts[i]);
            }
        }
    }
}

/// Whether every entry of a sectioned file, that is every line that begins with
/// a dash, stands in a section.
pub open spec fn entries_in_sections(existing: Seq<char>) -> bool {
    sectioned(existing) ==> forall|i: int|
        0 <= i < lines(existing).len() && has_prefix(#[trigger] lines(existing)[i], seq!['-'])
            ==> exists|k: int|
            0 <= k < i && archive_heading(trim(#[trigger] lines(existing)[k])) is Some
}

/// Whether a flat file that has a heading for the day ends with a line break.
pub open spec fn flat_file_ended(existing: Seq<char>, date: Seq<char>) -> bool {
    !sectioned(existing) ==> ends_line(existing) || !occurs_in("### "@ + date, existing)
}

proof fn lemma_lines_kept(
    a: ArchiveView,
    current: Option<ArchiveSection>,
    ls: Seq<Seq<char>>,
    p: spec_fn(Seq<char>) -> bool,
)
    requires
        steady(p),
        ended(a),
        forall|i: int| 0 <= i < ls.len() ==> !(#[trigger] ls[i]).contains('\n'),
        holds(a, p) || exists|i: int|
            0 <= i < ls.len() && p(#[trigger] ls[i]) && (current is Some
                || exists|k: int| 0 <= k < i && archive_heading(trim(#[trigger] ls[k])) is Some),
    ensures
        ended(archive_lines(a, current, ls)),
        holds(archive_lines(a, current, ls), p),
    decreases ls.len(),
{
    reveal_strlit("\n");
    if ls.len() == 0 {
    } else {
        let l = ls[0];
        let rest = ls.drop_first();
        assert forall|i: int| 0 <= i < rest.len() implies !(#[trigger] rest[i]).contains('\n') by {
            assert(rest[i] == ls[i + 1]);
        }
        let heading = archive_heading(trim(l));
        let (b, next) = match (heading, current) {
            (Some(section), _) => (a, Some(section)),
            (None, Some(section)) => (a.extend(section, l + "\n"@), current),
            (None, None) => (a, current),
        };
        assert(archive_lines(a, current, ls) == archive_lines(b, next, rest));
        assert(ended(b) && (holds(a, p) ==> holds(b, p)) && (heading is None && current is Some
            && p(l) ==> holds(b, p))) by {
            if heading is None && current is Some {
                let section = current->0;
                let part = a.part(section);
                let more = l + "\n"@;
                assert(b.part(section) == part + more);
                assert(more.last() == '\n');
                lemma_ends_concat(part, more);
                if has_line(part, p) {
                    lemma_line_left(part, more, p);
                }
                if p(l) {
                    lemma_lines_one(l);
                    lemma_steady(p, l);
                    assert(p(lines(more)[0]));
                    lemma_line_right(part, more, p);
                }
            }
        }
        if !holds(b, p) {
            let i = choose|i: int|
                0 <= i < ls.len() && p(#[trigger] ls[i]) && (current
                    is Some || exists|k: int|
                    0 <= k < i && archive_heading(trim(#[trigger] ls[k])) is Some);
            lemma_steady(p, ls[i]);
            if i == 0 {
                lemma_dash_no_heading(l);
                assert(false);
            }
            assert(rest[i - 1] == ls[i]);
            if !(next is Some) {
                let k = choose|k: int|
                    0 <= k < i && archive_heading(trim(#[trigger] ls[k])) is Some;
                assert(k > 0);
                assert(rest[k - 1] == ls[k]);
            }
        }
        lemma_lines_kept(b, next, rest, p);
    }
}

proof fn lemma_lines_ended_parts(
    a: ArchiveView,
    current: Option<ArchiveSection>,
    ls: Seq<Seq<char>>,
)
    requires
        ended(a),
    ensures
        ended(archive_lines(a, current, ls)),
    decreases ls.len(),
{
    reveal_strlit("\n");
    if ls.len() > 0 {
        let l = ls[0];
        let rest = ls.drop_first();
        match (archive_heading(trim(l)), current) {
            (Some(section), _) => lemma_lines_ended_parts(a, Some(section), rest),
            (None, Some(section)) => {
                let more = l + "\n"@;
                assert(more.last() == '\n');
                lemma_ends_concat(a.part(section), more);
                lemma_lines_ended_parts(a.extend(section, more), current, rest);
            },
            (None, None) => lemma_lines_ended_parts(a, current, rest),
        }
    }
}

proof fn lemma_archive_in(existing: Seq<char>, date: Seq<char>, p: spec_fn(Seq<char>) -> bool)
    requires
        steady(p),
        flat_file_ended(existing, date),
    ensures
        ready(archive_in(existing), date),
        entries_in_sections(existing) && has_line(existing, p) ==> holds(archive_in(existing), p),
{
    let a = archive_in(existing);
    let e = empty_archive();
    if is_blank(existing) {
        if has_line(existing, p) {
            lemma_line_not_blank(existing, p);
        }
        assert(ended(a));
    } else if sectioned(existing) {
        lemma_lines_ended_parts(e, None, lines(existing));
        if entries_in_sections(existing) && has_line(existing, p) {
            assert forall|i: int| 0 <= i < lines(existing).len() implies !(
            #[trigger] lines(existing)[i]).contains('\n') by {
                lemma_line_no_break(existing, i);
            }
            let i = choose|i: int|
                0 <= i < lines(existing).len() && p(#[trigger] lines(existing)[i]);
            lemma_steady(p, lines(existing)[i]);
            assert(lines(existing)[i].take(1) =~= seq!['-']);
            assert(has_prefix(lines(existing)[i], seq!['-']));
            lemma_lines_kept(e, None, lines(existing), p);
        }
    }
    assert forall|section: ArchiveSection|
        ends_line(#[trigger] a.part(section)) || !occurs_in("### "@ + date, a.part(section)) by {
        match section {
            ArchiveSection::Completed => {},
            ArchiveSection::Superseded => {},
            ArchiveSection::Cancelled => {},
        }
    }
}

// ── Laws ───────────────────────────────────────────────────────────────────

/// What an archive records, it still records after more tasks were appended.
pub proof fn law_archive_keeps_records(
    existing: Seq<char>,
    ts: Seq<TaskView>,
    date: Seq<char>,
    id: Seq<char>,
)
    requires
        entries_in_sections(existing),
        flat_file_ended(existing, date),
        archived(existing, id),
    ensures
        archived(archive_after(existing, ts, date), id),
{
    lemma_records(id);
    lemma_line_stays(existing, ts, date, records(id));
}

/// A line of the archive that is as `p` tells stays.
proof fn lemma_line_stays(
    existing: Seq<char>,
    ts: Seq<TaskView>,
    date: Seq<char>,
    p: spec_fn(Seq<char>) -> bool,
)
    requires
        steady(p),
        entries_in_sections(existing),
        flat_file_ended(existing, date),
        has_line(existing, p),
    ensures
        has_line(archive_after(existing, ts, date), p),
{
    let added = ts.filter(unarchived(existing));
    if !(added.len() == 0 && existing.len() > 0) {
        lemma_archive_in(existing, date, p);
        lemma_add_all(archive_in(existing), added, date, p);
        lemma_text_holds(add_all_archived(archive_in(existing), added, date), p);
    }
}

/// The entries of an archive stay, line by line, when more tasks are appended.
/// Only a line that ends with a carriage return loses it.
pub proof fn law_archive_keeps_lines(
    existing: Seq<char>,
    ts: Seq<TaskView>,
    date: Seq<char>,
    l: Seq<char>,
)
    requires
        entries_in_sections(existing),
        flat_file_ended(existing, date),
        lines(existing).contains(l),
        has_prefix(l, seq!['-']),
        l.last() != '\r',
    ensures
        lines(archive_after(existing, ts, date)).contains(l),
{
    let p = |x: Seq<char>| x == l;
    assert(l.take(1)[0] == '-');
    assert(steady(p)) by {
        reveal(steady);
    }
    let i = choose|i: int| 0 <= i < lines(existing).len() && lines(existing)[i] == l;
    assert(p(lines(existing)[i]));
    lemma_line_stays(existing, ts, date, p);
}

/// Every appended task with an archivable id is recorded afterwards.
pub proof fn law_archive_records_tasks(
    existing: Seq<char>,
    ts: Seq<TaskView>,
    date: Seq<char>,
    i: int,
)
    requires
        entries_in_sections(existing),
        flat_file_ended(existing, date),
        0 <= i < ts.len(),
        archivable_id(ts[i].id),
    ensures
        archived(archive_after(existing, ts, date), ts[i].id),
{
    let id = ts[i].id;
    let keep = unarchived(existing);
    let added = ts.filter(keep);
    if archived(existing, id) {
        law_archive_keeps_records(existing, ts, date, id);
    } else {
        assert(added.contains(ts[i])) by {
            assert(keep(ts[i]));
            ts.lemma_filter_contains(keep, i);
        }
        let k = choose|k: int| 0 <= k < added.len() && added[k] == ts[i];
        let p = records(id);
        lemma_records(id);
        lemma_archive_in(existing, date, p);
        lemma_add_all(archive_in(existing), added, date, p);
        lemma_entry_recorded(added[k]);
        assert(has_line(archived_text(added[k]), p));
        lemma_text_holds(add_all_archived(archive_in(existing), added, date), p);
    }
}

/// Appending the same tasks again, on any day, changes nothing.
pub proof fn law_archive_append_idempotent(
    existing: Seq<char>,
    ts: Seq<TaskView>,
    date: Seq<char>,
    later: Seq<char>,
)
    requires
        entries_in_sections(existing),
        flat_file_ended(existing, date),
        forall|i: int| 0 <= i < ts.len() ==> archivable_id((#[trigger] ts[i]).id),
    ensures
        archive_after(archive_after(existing, ts, date), ts, later) == archive_after(
            existing,
            ts,
            date,
        ),
{
    let after = archive_after(existing, ts, date);
    let keep = unarchived(after);
    let added = ts.filter(keep);
    if added.len() > 0 {
        lemma_filter_from(ts, keep, 0);
        let i = choose|i: int| 0 <= i < ts.len() && ts[i] == added[0];
        law_archive_records_tasks(existing, ts, date, i);
        assert(false);
    }
    reveal_strlit("# Archived Tasks\n\n");
    assert(after.len() > 0);
}

/// An archive that appending keeps in order: its entries stand in sections, and
/// its last line is ended. An empty one is in order.
pub open spec fn archive_in_order(md: Seq<char>) -> bool {
    entries_in_sections(md) && ends_line(md)
}

/// Appending tasks to an archive in order, an empty one too, leaves it in order,
/// and what was written anew is in order whatever was there.
pub proof fn law_archive_stays_in_order(existing: Seq<char>, ts: Seq<TaskView>, date: Seq<char>)
    ensures
        archive_in_order(Seq::empty()),
        archive_in_order(existing) ==> archive_in_order(archive_after(existing, ts, date)),
        archive_after(existing, ts, date) != existing ==> archive_in_order(
            archive_after(existing, ts, date),
        ),
{
    let added = ts.filter(unarchived(existing));
    assert(lines(Seq::<char>::empty()) =~= Seq::<Seq<char>>::empty());
    lemma_text_in_order(add_all_archived(archive_in(existing), added, date));
}

proof fn lemma_text_in_order(a: ArchiveView)
    ensures
        archive_in_order(archive_text(a)),
{
    reveal_strlit("# Archived Tasks\n\n");
    reveal_strlit("# Archived Tasks");
    reveal_strlit("## Completed");
    reveal_strlit("## Superseded");
    reveal_strlit("## Cancelled");
    reveal_strlit("## Completed\n");
    reveal_strlit("## Superseded\n");
    reveal_strlit("## Cancelled\n");
    reveal_strlit("\n");
    let h1 = "# Archived Tasks"@;
    let nl = "\n"@;
    let h = "# Archived Tasks\n\n"@;
    let b1 = archive_block("## Completed\n"@, a.completed);
    let b2 = archive_block("## Superseded\n"@, a.superseded);
    let b3 = archive_block("## Cancelled\n"@, a.cancelled);
    let x = archive_text(a);
    let rest = b1 + b2 + b3;
    assert(x =~= h + rest);
    assert(h =~= h1 + nl + nl);
    assert("## Completed\n"@ =~= "## Completed"@ + nl);
    assert("## Superseded\n"@ =~= "## Superseded"@ + nl);
    assert("## Cancelled\n"@ =~= "## Cancelled"@ + nl);
    lemma_block_opens("## Completed"@, "## Completed\n"@, a.completed, b2 + b3);
    lemma_block_opens("## Superseded"@, "## Superseded\n"@, a.superseded, b3);
    lemma_block_opens("## Cancelled"@, "## Cancelled\n"@, a.cancelled, Seq::empty());
    assert(b3 + Seq::<char>::empty() =~= b3);
    assert(rest =~= b1 + (b2 + b3));
    assert(ends_line(rest)) by {
        lemma_ends_concat(b1, b2);
        lemma_ends_concat(b1 + b2, b3);
    }
    lemma_ends_concat(h, rest);
    assert(!h1.contains('\n')) by {
        assert forall|i: int| 0 <= i < h1.len() implies h1[i] != '\n' by {}
    }
    lemma_lines_one(h1);
    lemma_lines_one(Seq::empty());
    assert(Seq::<char>::empty() + nl =~= nl);
    lemma_lines_concat(h1 + nl, nl);
    lemma_lines_concat(h, rest);
    assert(h1 + nl + nl =~= h);
    assert(chomp(h1) == h1);
    assert(lines(h) =~= seq![h1, Seq::empty()]);
    assert(lines(x) == lines(h) + lines(rest));
    assert forall|i: int|
        0 <= i < lines(x).len() && has_prefix(
            #[trigger] lines(x)[i],
            seq!['-'],
        ) implies exists|k: int|
        0 <= k < i && archive_heading(trim(#[trigger] lines(x)[k])) is Some by {
        let l = lines(x)[i];
        assert(l.take(1)[0] == '-');
        assert(i != 0 && i != 1);
        assert(lines(rest).len() > 0);
        assert(archive_heading(trim(lines(x)[2])) is Some) by {
            assert(lines(x)[2] == lines(rest)[0]);
            assert(rest.len() > 0) by {
                if rest.len() == 0 {
                    assert(lines(rest) =~= Seq::<Seq<char>>::empty());
                }
            }
        }
        if i == 2 {
            lemma_dash_no_heading(l);
        }
    }
}

/// A section that is written begins with its heading.
proof fn lemma_block_opens(title: Seq<char>, h: Seq<char>, part: Seq<char>, after: Seq<char>)
    requires
        h == title + "\n"@,
        title == "## Completed"@ || title == "## Superseded"@ || title == "## Cancelled"@,
    ensures
        ends_line(archive_block(h, part)),
        archive_block(h, part).len() > 0 ==> lines(archive_block(h, part) + after).len() > 0
            && archive_heading(trim(lines(archive_block(h, part) + after)[0])) is Some,
        archive_block(h, part).len() == 0 ==> archive_block(h, part) + after == after,
{
    reveal_strlit("\n");
    reveal_strlit("## Completed");
    reveal_strlit("## Superseded");
    reveal_strlit("## Cancelled");
    let block = archive_block(h, part);
    if is_blank(part) {
        assert(block + after =~= after);
    } else {
        assert(block.last() == '\n');
        let more = part + "\n"@ + after;
        assert(block + after =~= title + "\n"@ + more);
        assert(!title.contains('\n')) by {
            assert forall|i: int| 0 <= i < title.len() implies title[i] != '\n' by {}
        }
        lemma_lines_one(title);
        lemma_lines_concat(title + "\n"@, more);
        assert(chomp(title) == title);
        lemma_trim_same(title);
    }
}

/// The archive after batches of tasks, each finished on its day, were appended in
/// turn to an empty one.
pub open spec fn archive_of(batches: Seq<(Seq<TaskView>, Seq<char>)>) -> Seq<char>
    decreases batches.len(),
{
    if batches.len() == 0 {
        Seq::empty()
    } else {
        let (ts, date) = batches.last();
        archive_after(archive_of(batches.drop_last()), ts, date)
    }
}

/// An archive that grew from an empty one, by whatever tasks: appending tasks
/// again, on any day, changes nothing, and no entry is lost. Only a line that ends
/// with a carriage return loses it.
pub proof fn law_grown_archive(
    batches: Seq<(Seq<TaskView>, Seq<char>)>,
    ts: Seq<TaskView>,
    date: Seq<char>,
    later: Seq<char>,
)
    ensures
        archive_in_order(archive_of(batches)),
        (forall|i: int| 0 <= i < ts.len() ==> archivable_id((#[trigger] ts[i]).id))
            ==> archive_after(archive_after(archive_of(batches), ts, date), ts, later)
            == archive_after(archive_of(batches), ts, date),
        forall|l: Seq<char>|
            lines(archive_of(batches)).contains(l) && has_prefix(l, seq!['-']) && l.last() != '\r'
                ==> #[trigger] lines(archive_after(archive_of(batches), ts, date)).contains(l),
    decreases batches.len(),
{
    let existing = archive_of(batches);
    law_archive_stays_in_order(Seq::empty(), ts, date);
    if batches.len() > 0 {
        let (before, day) = batches.last();
        law_grown_archive(batches.drop_last(), before, day, day);
        law_archive_stays_in_order(archive_of(batches.drop_last()), before, day);
    }
    if forall|i: int| 0 <= i < ts.len() ==> archivable_id((#[trigger] ts[i]).id) {
        law_archive_append_idempotent(existing, ts, date, later);
    }
    assert forall|l: Seq<char>|
        lines(existing).contains(l) && has_prefix(l, seq!['-']) && l.last()
            != '\r' implies #[trigger] lines(archive_after(existing, ts, date)).contains(l) by {
        law_archive_keeps_lines(existing, ts, date, l);
    }
}

} // verus!
