//! What events do to the memory, told task by task and field by field.
use vstd::prelude::*;

use crate::engine::state_manager::{applied, next_statuses, ManagerView};
use crate::engine::validator::{outcome, ValidationError};
use crate::engine::validators::adr_active_conflict::adr_active_conflict_verdict;
use crate::engine::validators::adr_invalid_transition::{
    adr_invalid_transition_verdict, terminal_adr,
};
use crate::engine::validators::adr_rejected_repeat::adr_rejected_repeat_verdict;
use crate::engine::validators::duplicate_task_id::duplicate_task_id_verdict;
use crate::engine::validators::empty_task_id::empty_task_id_verdict;
use crate::engine::validators::superseded_by_required::{has_adr, superseded_by_required_verdict};
use crate::engine::validators::task_terminal_transition::{
    task_index, task_terminal_transition_verdict,
};
use crate::engine::validators::{accepted_adr, same_content};
use crate::foreign::{lowercase, shown_as_is};
use crate::models::{
    AdrStatus, AdrView, ReferenceView, RuntimeEventView, SupersededInfoView, TaskStatus, TaskView,
    TrapView,
};
use crate::search::laws::stands_in;
use crate::text::{is_white_space, trim};

verus! {

// ── Tasks ──────────────────────────────────────────────────────────────────

/// Whether the first task of that id stands at position `i`.
pub open spec fn first_with_id(tasks: Seq<TaskView>, id: Seq<char>, i: int) -> bool {
    &&& 0 <= i < tasks.len()
    &&& tasks[i].id == id
    &&& forall|j: int| 0 <= j < i ==> (#[trigger] tasks[j]).id != id
}

/// Whether some task has that id.
pub open spec fn some_task(tasks: Seq<TaskView>, id: Seq<char>) -> bool {
    exists|i: int| 0 <= i < tasks.len() && (#[trigger] tasks[i]).id == id
}

proof fn lemma_task_index(tasks: Seq<TaskView>, id: Seq<char>)
    ensures
        0 <= task_index(tasks, id) <= tasks.len(),
        task_index(tasks, id) < tasks.len() ==> first_with_id(tasks, id, task_index(tasks, id)),
        task_index(tasks, id) == tasks.len() ==> !some_task(tasks, id),
    decreases tasks.len(),
{
    if tasks.len() > 0 && tasks[0].id != id {
        let rest = tasks.drop_first();
        lemma_task_index(rest, id);
        let k = task_index(rest, id);
        if k < rest.len() {
            assert(tasks[k + 1] == rest[k]);
            assert forall|j: int| 0 <= j < k + 1 implies (#[trigger] tasks[j]).id != id by {
                if j > 0 {
                    assert(rest[j - 1] == tasks[j]);
                }
            }
        } else if some_task(tasks, id) {
            let i = choose|i: int| 0 <= i < tasks.len() && (#[trigger] tasks[i]).id == id;
            assert(rest[i - 1] == tasks[i]);
        }
    }
}

proof fn lemma_first_is_index(tasks: Seq<TaskView>, id: Seq<char>, i: int)
    requires
        first_with_id(tasks, id, i),
    ensures
        task_index(tasks, id) == i,
{
    lemma_task_index(tasks, id);
    assert(tasks[i].id == id);
    let k = task_index(tasks, id);
    if k < i {
        assert(tasks[k].id == id);
    } else if i < k {
        assert(tasks[i].id != id);
    }
}

/// A task is created if and only if its id is not empty and no active task has it.
pub proof fn law_task_created_iff_id_is_free(m: ManagerView, task: TaskView)
    ensures
        applied(m, RuntimeEventView::TaskCreated(task)) is Ok <==> task.id.len() > 0 && forall|
            i: int,
        |
            0 <= i < m.state.active_tasks.len() ==> (#[trigger] m.state.active_tasks[i]).id
                != task.id,
{
}

/// A created task is the last of the active ones, with the id and description that
/// were given, and is Todo whatever was given; nothing else changes but that the
/// context may be written.
pub proof fn law_created_task_is_last(m: ManagerView, task: TaskView)
    requires
        applied(m, RuntimeEventView::TaskCreated(task)) is Ok,
    ensures
        ({
            let after = applied(m, RuntimeEventView::TaskCreated(task))->Ok_0;
            let n = m.state.active_tasks.len() as int;
            &&& after.state.active_tasks.len() == n + 1
            &&& forall|i: int|
                0 <= i < n ==> #[trigger] after.state.active_tasks[i] == m.state.active_tasks[i]
            &&& after.state.active_tasks[n].id == task.id
            &&& after.state.active_tasks[n].description == task.description
            &&& after.state.active_tasks[n].superseded_by == task.superseded_by
            &&& after.state.active_tasks[n].status is Todo
            &&& after.state.done_tasks == m.state.done_tasks
            &&& after.state.current_phase == m.state.current_phase
            &&& after.state.constraints == m.state.constraints
            &&& after.decisions == m.decisions
            &&& after.traps == m.traps
            &&& after.context_ok
            &&& after.decisions_ok == m.decisions_ok
            &&& after.traps_ok == m.traps_ok
        }),
{
}

/// Whether a task can be marked as superseded with this information: there is a
/// reason that is not blank, and what is referred to exists.
pub open spec fn good_reason(m: ManagerView, info: Option<SupersededInfoView>) -> bool {
    info matches Some(given) && (exists|k: int|
        0 <= k < given.reason.len() && !is_white_space(#[trigger] given.reason[k]))
        && match given.reference {
        ReferenceView::Adr(id) => exists|i: int|
            0 <= i < m.decisions.len() && (#[trigger] m.decisions[i]).id == id,
        ReferenceView::Task(id) => some_task(m.state.active_tasks, id) || some_task(
            m.state.done_tasks,
            id,
        ),
    }
}

/// An update is accepted if and only if the id names an active task, that task is
/// not finished, and, where it is to be superseded, it is told well by what.
pub proof fn law_task_updated_iff_open(
    m: ManagerView,
    task_id: Seq<char>,
    new_status: TaskStatus,
    superseded_by: Option<SupersededInfoView>,
)
    ensures
        applied(m, RuntimeEventView::TaskUpdated { task_id, new_status, superseded_by }) is Ok <==> {
            &&& exists|i: int| #[trigger]
                first_with_id(m.state.active_tasks, task_id, i) && (
                m.state.active_tasks[i].status is Todo || m.state.active_tasks[i].status
                    is InProgress || m.state.active_tasks[i].status is Blocked)
            &&& new_status is Superseded ==> good_reason(m, superseded_by)
        },
{
    let tasks = m.state.active_tasks;
    lemma_task_index(tasks, task_id);
    lemma_task_index(m.state.done_tasks, task_id);
    let open = exists|i: int| #[trigger]
        first_with_id(tasks, task_id, i) && (tasks[i].status is Todo || tasks[i].status
            is InProgress || tasks[i].status is Blocked);
    if open {
        let i = choose|i: int| #[trigger]
            first_with_id(tasks, task_id, i) && (tasks[i].status is Todo || tasks[i].status
                is InProgress || tasks[i].status is Blocked);
        lemma_first_is_index(tasks, task_id, i);
    }
    let event = RuntimeEventView::TaskUpdated { task_id, new_status, superseded_by };
    if let Some(given) = superseded_by {
        if let ReferenceView::Adr(id) = given.reference {
            assert(has_adr(m.decisions, id) == exists|i: int|
                0 <= i < m.decisions.len() && (#[trigger] m.decisions[i]).id == id);
        }
    }
    if applied(m, event) is Ok {
        assert(first_with_id(tasks, task_id, task_index(tasks, task_id)));
    }
}

/// After an accepted update the task of that id has exactly the new status: in its
/// place among the active ones where it is Todo, InProgress or Blocked, else as the
/// last of the done ones; its id and description are as before, and no other task
/// changes.
pub proof fn law_updated_task_has_the_new_status(
    m: ManagerView,
    task_id: Seq<char>,
    new_status: TaskStatus,
    superseded_by: Option<SupersededInfoView>,
    i: int,
)
    requires
        applied(m, RuntimeEventView::TaskUpdated { task_id, new_status, superseded_by }) is Ok,
        first_with_id(m.state.active_tasks, task_id, i),
    ensures
        ({
            let after = applied(
                m,
                RuntimeEventView::TaskUpdated { task_id, new_status, superseded_by },
            )->Ok_0;
            let was = m.state.active_tasks;
            let done = m.state.done_tasks;
            let now = after.state.active_tasks;
            if new_status is Todo || new_status is InProgress || new_status is Blocked {
                &&& now.len() == was.len()
                &&& now[i].id == task_id
                &&& now[i].status == new_status
                &&& now[i].description == was[i].description
                &&& now[i].superseded_by == was[i].superseded_by
                &&& forall|j: int| 0 <= j < was.len() && j != i ==> #[trigger] now[j] == was[j]
                &&& after.state.done_tasks == done
            } else {
                let moved = after.state.done_tasks[done.len() as int];
                &&& now.len() == was.len() - 1
                &&& forall|j: int| 0 <= j < i ==> #[trigger] now[j] == was[j]
                &&& forall|j: int| i <= j < now.len() ==> #[trigger] now[j] == was[j + 1]
                &&& after.state.done_tasks.len() == done.len() + 1
                &&& forall|j: int|
                    0 <= j < done.len() ==> #[trigger] after.state.done_tasks[j] == done[j]
                &&& moved.id == task_id
                &&& moved.status == new_status
                &&& moved.description == was[i].description
                &&& moved.superseded_by == if superseded_by is Some {
                    superseded_by
                } else {
                    was[i].superseded_by
                }
            }
        }),
        ({
            let after = applied(
                m,
                RuntimeEventView::TaskUpdated { task_id, new_status, superseded_by },
            )->Ok_0;
            &&& after.state.current_phase == m.state.current_phase
            &&& after.state.constraints == m.state.constraints
            &&& after.decisions == m.decisions
            &&& after.traps == m.traps
            &&& after.context_ok == m.context_ok
            &&& after.decisions_ok == m.decisions_ok
            &&& after.traps_ok == m.traps_ok
        }),
{
    lemma_first_is_index(m.state.active_tasks, task_id, i);
}

/// An update of an id that no active or done task has is refused, and the refusal
/// names the id.
pub proof fn law_unknown_task_is_named(
    m: ManagerView,
    task_id: Seq<char>,
    new_status: TaskStatus,
    superseded_by: Option<SupersededInfoView>,
)
    requires
        !some_task(m.state.active_tasks, task_id),
        !some_task(m.state.done_tasks, task_id),
        !(new_status is Superseded),
    ensures
        applied(m, RuntimeEventView::TaskUpdated { task_id, new_status, superseded_by }) == Err::<
            ManagerView,
            Seq<char>,
        >("Task not found: "@ + task_id),
{
    lemma_task_index(m.state.active_tasks, task_id);
    lemma_task_index(m.state.done_tasks, task_id);
    let i = task_index(m.state.active_tasks, task_id);
    let j = task_index(m.state.done_tasks, task_id);
    if i < m.state.active_tasks.len() {
        assert(m.state.active_tasks[i].id == task_id);
    }
    if j < m.state.done_tasks.len() {
        assert(m.state.done_tasks[j].id == task_id);
    }
}

// ── Decisions ──────────────────────────────────────────────────────────────

/// Whether two ADRs agree in title and decision, case and outer white space aside.
pub open spec fn say_the_same(a: AdrView, b: AdrView) -> bool {
    &&& lowercase(trim(a.title)) == lowercase(trim(b.title))
    &&& lowercase(trim(a.decision)) == lowercase(trim(b.decision))
}

/// Whether the first accepted ADR of that id stands at position `i`.
pub open spec fn first_accepted(decisions: Seq<AdrView>, id: Seq<char>, i: int) -> bool {
    &&& 0 <= i < decisions.len()
    &&& decisions[i].id == id
    &&& decisions[i].status is Accepted
    &&& forall|j: int|
        0 <= j < i && (#[trigger] decisions[j]).id == id ==> !(decisions[j].status is Accepted)
}

proof fn lemma_accepted(decisions: Seq<AdrView>, id: Seq<char>)
    ensures
        accepted_adr(decisions, id) is Some <==> exists|i: int| #[trigger]
            first_accepted(decisions, id, i),
        forall|i: int| #[trigger]
            first_accepted(decisions, id, i) ==> accepted_adr(decisions, id) == Some(decisions[i]),
    decreases decisions.len(),
{
    if decisions.len() > 0 {
        let rest = decisions.drop_first();
        lemma_accepted(rest, id);
        if decisions[0].id == id && decisions[0].status is Accepted {
            assert(first_accepted(decisions, id, 0));
        } else {
            assert forall|i: int| #[trigger] first_accepted(decisions, id, i) implies accepted_adr(
                decisions,
                id,
            ) == Some(decisions[i]) by {
                assert(rest[i - 1] == decisions[i]);
                assert forall|j: int|
                    0 <= j < i - 1 && (#[trigger] rest[j]).id == id implies !(rest[j].status
                    is Accepted) by {
                    assert(rest[j] == decisions[j + 1]);
                }
                assert(first_accepted(rest, id, i - 1));
            }
            if accepted_adr(rest, id) is Some {
                let i = choose|i: int| #[trigger] first_accepted(rest, id, i);
                assert(decisions[i + 1] == rest[i]);
                assert forall|j: int|
                    0 <= j < i + 1 && (#[trigger] decisions[j]).id == id implies !(
                decisions[j].status is Accepted) by {
                    if j > 0 {
                        assert(rest[j - 1] == decisions[j]);
                    }
                }
                assert(first_accepted(decisions, id, i + 1));
            }
        }
    }
}

proof fn lemma_terminal(decisions: Seq<AdrView>, id: Seq<char>)
    ensures
        terminal_adr(decisions, id) is Some <==> exists|i: int|
            0 <= i < decisions.len() && (#[trigger] decisions[i]).id == id && (decisions[i].status
                is Superseded || decisions[i].status is Archived),
    decreases decisions.len(),
{
    if decisions.len() > 0 {
        let rest = decisions.drop_first();
        lemma_terminal(rest, id);
        if exists|i: int|
            0 <= i < rest.len() && (#[trigger] rest[i]).id == id && (rest[i].status is Superseded
                || rest[i].status is Archived) {
            let i = choose|i: int|
                0 <= i < rest.len() && (#[trigger] rest[i]).id == id && (rest[i].status
                    is Superseded || rest[i].status is Archived);
            assert(decisions[i + 1] == rest[i]);
        }
        if exists|i: int|
            0 <= i < decisions.len() && (#[trigger] decisions[i]).id == id && (decisions[i].status
                is Superseded || decisions[i].status is Archived) {
            let i = choose|i: int|
                0 <= i < decisions.len() && (#[trigger] decisions[i]).id == id && (
                decisions[i].status is Superseded || decisions[i].status is Archived);
            if i > 0 {
                assert(rest[i - 1] == decisions[i]);
            }
        }
    }
}

/// An ADR is committed if and only if no accepted ADR of its id says something else,
/// none of its id was rejected that says the same, and none of its id is superseded
/// or archived.
pub proof fn law_adr_committed_iff_no_conflict(m: ManagerView, adr: AdrView)
    ensures
        applied(m, RuntimeEventView::AdrCommitted(adr)) is Ok <==> {
            &&& forall|i: int| #[trigger]
                first_accepted(m.decisions, adr.id, i) ==> say_the_same(m.decisions[i], adr)
            &&& forall|i: int|
                0 <= i < m.decisions.len() && (#[trigger] m.decisions[i]).id == adr.id ==> !(
                m.decisions[i].status is Superseded) && !(m.decisions[i].status is Archived) && !(
                m.decisions[i].status is Rejected && say_the_same(m.decisions[i], adr))
        },
{
    lemma_accepted(m.decisions, adr.id);
    lemma_terminal(m.decisions, adr.id);
    assert forall|i: int| 0 <= i < m.decisions.len() implies say_the_same(
        #[trigger] m.decisions[i],
        adr,
    ) == same_content(m.decisions[i], adr) by {}
}

/// A committed ADR that was not held already is the last decision, with the id,
/// title, context, decision and tags that were given, and accepted whatever status
/// was given. Every earlier version of its id is superseded and otherwise as it was;
/// no other decision changes.
pub proof fn law_committed_adr_is_last_as_given(m: ManagerView, adr: AdrView)
    requires
        applied(m, RuntimeEventView::AdrCommitted(adr)) is Ok,
        forall|i: int|
            0 <= i < m.decisions.len() && (#[trigger] m.decisions[i]).id == adr.id ==> !(
            m.decisions[i].status is Accepted),
    ensures
        ({
            let after = applied(m, RuntimeEventView::AdrCommitted(adr))->Ok_0;
            let n = m.decisions.len() as int;
            &&& after.decisions.len() == n + 1
            &&& after.decisions[n].id == adr.id
            &&& after.decisions[n].title == adr.title
            &&& after.decisions[n].context == adr.context
            &&& after.decisions[n].decision == adr.decision
            &&& after.decisions[n].tags == adr.tags
            &&& after.decisions[n].status is Accepted
            &&& forall|i: int|
                0 <= i < n ==> {
                    let was = m.decisions[i];
                    let now = #[trigger] after.decisions[i];
                    &&& now.id == was.id
                    &&& now.title == was.title
                    &&& now.context == was.context
                    &&& now.decision == was.decision
                    &&& now.tags == was.tags
                    &&& now.status == if was.id == adr.id {
                        AdrStatus::Superseded
                    } else {
                        was.status
                    }
                }
            &&& after.state == m.state
            &&& after.traps == m.traps
            &&& after.decisions_ok
            &&& after.context_ok == m.context_ok
            &&& after.traps_ok == m.traps_ok
        }),
{
    lemma_accepted(m.decisions, adr.id);
    if accepted_adr(m.decisions, adr.id) is Some {
        let i = choose|i: int| #[trigger] first_accepted(m.decisions, adr.id, i);
        assert(m.decisions[i].status is Accepted);
    }
}

/// Where an accepted ADR of that id says the same already, a commit changes nothing.
pub proof fn law_held_adr_changes_nothing(m: ManagerView, adr: AdrView, i: int)
    requires
        applied(m, RuntimeEventView::AdrCommitted(adr)) is Ok,
        0 <= i < m.decisions.len(),
        m.decisions[i].id == adr.id,
        m.decisions[i].status is Accepted,
    ensures
        applied(m, RuntimeEventView::AdrCommitted(adr))->Ok_0 == m,
    decreases i,
{
    lemma_accepted(m.decisions, adr.id);
    if !first_accepted(m.decisions, adr.id, i) {
        let j = choose|j: int|
            0 <= j < i && (#[trigger] m.decisions[j]).id == adr.id && m.decisions[j].status
                is Accepted;
        law_held_adr_changes_nothing(m, adr, j);
    }
}

// ── Traps and phases ───────────────────────────────────────────────────────

/// A trap is always recorded, as the last one and as it was given; nothing else
/// changes but that the traps may be written.
pub proof fn law_recorded_trap_is_last_as_given(m: ManagerView, trap: TrapView)
    ensures
        applied(m, RuntimeEventView::TrapRecorded(trap)) matches Ok(after) && {
            let n = m.traps.len() as int;
            &&& after.traps.len() == n + 1
            &&& forall|i: int| 0 <= i < n ==> #[trigger] after.traps[i] == m.traps[i]
            &&& after.traps[n].error_signature == trap.error_signature
            &&& after.traps[n].context == trap.context
            &&& after.traps[n].root_cause == trap.root_cause
            &&& after.traps[n].solution == trap.solution
            &&& after.traps[n].prevention == trap.prevention
            &&& after.state == m.state
            &&& after.decisions == m.decisions
            &&& after.traps_ok
            &&& after.context_ok == m.context_ok
            &&& after.decisions_ok == m.decisions_ok
        },
{
}

/// A change of phase is always applied, and the phase is as it was given; nothing
/// else changes but that the context may be written.
pub proof fn law_changed_phase_is_as_given(m: ManagerView, phase: Seq<char>)
    ensures
        applied(m, RuntimeEventView::PhaseChanged(phase)) matches Ok(after) && {
            &&& after.state.current_phase == phase
            &&& after.state.active_tasks == m.state.active_tasks
            &&& after.state.done_tasks == m.state.done_tasks
            &&& after.state.constraints == m.state.constraints
            &&& after.decisions == m.decisions
            &&& after.traps == m.traps
            &&& after.context_ok
            &&& after.decisions_ok == m.decisions_ok
            &&& after.traps_ok == m.traps_ok
        },
{
}

// ── Validators ─────────────────────────────────────────────────────────────

/// The statuses that may follow each other in the life of an ADR.
pub proof fn law_life_of_an_adr(from: AdrStatus, to: AdrStatus)
    ensures
        next_statuses(from).contains(to) <==> {
            ||| from is Proposed && (to is Accepted || to is Rejected)
            ||| from is Accepted && (to is Superseded || to is Archived)
            ||| from is Rejected && to is Proposed
        },
{
    let next = next_statuses(from);
    if from is Proposed {
        assert(next[0] is Accepted && next[1] is Rejected);
    } else if from is Accepted {
        assert(next[0] is Superseded && next[1] is Archived);
    } else if from is Rejected {
        assert(next[0] is Proposed);
    }
}

/// The validators of new tasks: an empty id is refused, and one that an active task has.
/// The refusal of the latter names the id.
pub proof fn law_new_task_is_checked(m: ManagerView, task: TaskView)
    ensures
        ({
            let event = RuntimeEventView::TaskCreated(task);
            &&& empty_task_id_verdict(event) is Some <==> task.id.len() == 0
            &&& duplicate_task_id_verdict(event, m.state) is Some <==> some_task(
                m.state.active_tasks,
                task.id,
            )
            &&& duplicate_task_id_verdict(event, m.state) matches Some(failure) ==> stands_in(
                task.id,
                failure.message,
            )
            &&& adr_active_conflict_verdict(event, m.decisions) is None
            &&& adr_rejected_repeat_verdict(event, m.decisions) is None
            &&& adr_invalid_transition_verdict(event, m.decisions) is None
            &&& task_terminal_transition_verdict(event, m.state) is None
            &&& superseded_by_required_verdict(event, m.state, m.decisions) is None
        }),
{
    let event = RuntimeEventView::TaskCreated(task);
    if let Some(failure) = duplicate_task_id_verdict(event, m.state) {
        let front = "Task with id '"@;
        assert(failure.message == front + task.id + "' already exists."@);
    }
}

/// The validators of updates: one of a finished task is refused, and the refusal names
/// the task, the status it has and the one it was to get; one that supersedes without
/// telling well by what is refused, and the refusal names the task.
pub proof fn law_update_is_checked(
    m: ManagerView,
    task_id: Seq<char>,
    new_status: TaskStatus,
    superseded_by: Option<SupersededInfoView>,
)
    ensures
        ({
            let event = RuntimeEventView::TaskUpdated { task_id, new_status, superseded_by };
            &&& empty_task_id_verdict(event) is None
            &&& duplicate_task_id_verdict(event, m.state) is None
            &&& adr_active_conflict_verdict(event, m.decisions) is None
            &&& adr_rejected_repeat_verdict(event, m.decisions) is None
            &&& adr_invalid_transition_verdict(event, m.decisions) is None
            &&& superseded_by_required_verdict(event, m.state, m.decisions) is Some <==> new_status
                is Superseded && !good_reason(m, superseded_by)
            &&& forall|i: int| #[trigger]
                first_with_id(m.state.active_tasks, task_id, i) ==> {
                    let has = m.state.active_tasks[i].status;
                    &&& task_terminal_transition_verdict(event, m.state) is Some <==> has is Done
                        || has is Superseded || has is Cancelled
                    &&& task_terminal_transition_verdict(event, m.state) matches Some(failure)
                        ==> failure.message == "Task "@ + task_id
                        + " is already in terminal status "@ + has.name()
                        + " and cannot be transitioned to "@ + new_status.name()
                }
            &&& forall|i: int|
                !some_task(m.state.active_tasks, task_id) && #[trigger] first_with_id(
                    m.state.done_tasks,
                    task_id,
                    i,
                ) ==> {
                    let has = m.state.done_tasks[i].status;
                    &&& task_terminal_transition_verdict(event, m.state) is Some <==> has is Done
                        || has is Superseded || has is Cancelled
                    &&& task_terminal_transition_verdict(event, m.state) matches Some(failure)
                        ==> failure.message == "Task "@ + task_id
                        + " is already in terminal status "@ + has.name()
                        + " and cannot be transitioned to "@ + new_status.name()
                }
            &&& superseded_by_required_verdict(event, m.state, m.decisions) matches Some(failure)
                ==> stands_in(task_id, failure.message)
        }),
{
    let event = RuntimeEventView::TaskUpdated { task_id, new_status, superseded_by };
    lemma_task_index(m.state.active_tasks, task_id);
    lemma_task_index(m.state.done_tasks, task_id);
    assert forall|i: int| #[trigger] first_with_id(m.state.active_tasks, task_id, i) implies
        task_index(m.state.active_tasks, task_id) == i by {
        lemma_first_is_index(m.state.active_tasks, task_id, i);
    }
    assert forall|i: int| #[trigger] first_with_id(m.state.done_tasks, task_id, i) implies
        task_index(m.state.done_tasks, task_id) == i by {
        lemma_first_is_index(m.state.done_tasks, task_id, i);
    }
    let k = task_index(m.state.active_tasks, task_id);
    if k < m.state.active_tasks.len() {
        assert(m.state.active_tasks[k].id == task_id);
    }
    if let Some(given) = superseded_by {
        if let ReferenceView::Adr(id) = given.reference {
            assert(has_adr(m.decisions, id) == exists|i: int|
                0 <= i < m.decisions.len() && (#[trigger] m.decisions[i]).id == id);
        }
    }
    if let Some(failure) = superseded_by_required_verdict(event, m.state, m.decisions) {
        let front = "Task "@;
        let rest = failure.message.skip((front + task_id).len() as int);
        assert(failure.message =~= front + task_id + rest);
    }
}

/// The validators of ADRs: one that says something else than the first accepted one of
/// its id, one that says the same as a rejected one of its id, and one whose id has a
/// superseded or archived version. Each refusal names the id.
pub proof fn law_adr_is_checked(m: ManagerView, adr: AdrView)
    ensures
        ({
            let event = RuntimeEventView::AdrCommitted(adr);
            let conflict = adr_active_conflict_verdict(event, m.decisions);
            let repeat = adr_rejected_repeat_verdict(event, m.decisions);
            let ended = adr_invalid_transition_verdict(event, m.decisions);
            &&& conflict is Some <==> exists|i: int| #[trigger]
                first_accepted(m.decisions, adr.id, i) && !say_the_same(m.decisions[i], adr)
            &&& repeat is Some <==> exists|i: int|
                0 <= i < m.decisions.len() && (#[trigger] m.decisions[i]).id == adr.id
                    && m.decisions[i].status is Rejected && say_the_same(m.decisions[i], adr)
            &&& ended is Some <==> exists|i: int|
                0 <= i < m.decisions.len() && (#[trigger] m.decisions[i]).id == adr.id && (
                m.decisions[i].status is Superseded || m.decisions[i].status is Archived)
            &&& conflict matches Some(failure) ==> stands_in(adr.id, failure.message)
            &&& repeat matches Some(failure) ==> stands_in(adr.id, failure.message)
            &&& ended matches Some(failure) ==> stands_in(adr.id, failure.message)
        }),
{
    let event = RuntimeEventView::AdrCommitted(adr);
    lemma_accepted(m.decisions, adr.id);
    lemma_terminal(m.decisions, adr.id);
    assert forall|i: int| 0 <= i < m.decisions.len() implies say_the_same(
        #[trigger] m.decisions[i],
        adr,
    ) == same_content(m.decisions[i], adr) by {}
    if accepted_adr(m.decisions, adr.id) is Some {
        let i = choose|i: int| #[trigger] first_accepted(m.decisions, adr.id, i);
        assert(accepted_adr(m.decisions, adr.id) == Some(m.decisions[i]));
    }
    let front = "[CONFLICT] ADR "@;
    if let Some(failure) = adr_active_conflict_verdict(event, m.decisions) {
        let rest = failure.message.skip((front + adr.id).len() as int);
        assert(failure.message =~= front + adr.id + rest);
    }
    if let Some(failure) = adr_rejected_repeat_verdict(event, m.decisions) {
        let rest = failure.message.skip((front + adr.id).len() as int);
        assert(failure.message =~= front + adr.id + rest);
    }
    if let Some(failure) = adr_invalid_transition_verdict(event, m.decisions) {
        let start = "[INVALID TRANSITION] ADR "@;
        let rest = failure.message.skip((start + adr.id).len() as int);
        assert(failure.message =~= start + adr.id + rest);
    }
}

/// A refused event is answered with the message of the validator that refuses it; of a
/// new task the empty id is told first, and of an ADR the conflict with the accepted one.
pub proof fn law_first_refusal_is_told(m: ManagerView, task: TaskView, adr: AdrView)
    ensures
        task.id.len() == 0 ==> applied(m, RuntimeEventView::TaskCreated(task)) == Err::<
            ManagerView,
            Seq<char>,
        >(empty_task_id_verdict(RuntimeEventView::TaskCreated(task))->0.message),
        adr_active_conflict_verdict(
            RuntimeEventView::AdrCommitted(adr),
            m.decisions,
        ) matches Some(failure) ==> applied(m, RuntimeEventView::AdrCommitted(adr)) == Err::<
            ManagerView,
            Seq<char>,
        >(failure.message),
{
}

/// The outcome of a validation is its failure, field by field, and none where it passed.
pub proof fn law_outcome_tells_the_failure(r: Result<(), ValidationError>)
    ensures
        r is Ok <==> outcome(r) is None,
        r matches Err(e) ==> (outcome(r) matches Some(failure) && failure.validator_name
            == e.validator_name@ && failure.message == e.message@ && failure.suggestion
            == e.suggestion@),
{
}

/// Where the reason is blank the refusal shows what was referred to: whether it is a
/// task or an ADR, and its id in quotation marks.
pub proof fn law_blank_reason_is_told(
    m: ManagerView,
    task_id: Seq<char>,
    id: Seq<char>,
    reason: Seq<char>,
)
    requires
        forall|i: int| 0 <= i < reason.len() ==> is_white_space(#[trigger] reason[i]),
        forall|i: int| 0 <= i < id.len() ==> shown_as_is(#[trigger] id[i]),
    ensures
        ({
            let by_task = RuntimeEventView::TaskUpdated {
                task_id,
                new_status: TaskStatus::Superseded,
                superseded_by: Some(
                    SupersededInfoView { reference: ReferenceView::Task(id), reason },
                ),
            };
            let by_adr = RuntimeEventView::TaskUpdated {
                task_id,
                new_status: TaskStatus::Superseded,
                superseded_by: Some(
                    SupersededInfoView { reference: ReferenceView::Adr(id), reason },
                ),
            };
            let shown = seq!['"'] + id + seq!['"'];
            &&& superseded_by_required_verdict(by_task, m.state, m.decisions) matches Some(failure)
                && failure.message == "Task "@ + task_id + " Superseded by "@ + ("Task("@ + shown
                + ")"@) + " but reason is empty"@
            &&& superseded_by_required_verdict(by_adr, m.state, m.decisions) matches Some(failure)
                && failure.message == "Task "@ + task_id + " Superseded by "@ + ("Adr("@ + shown
                + ")"@) + " but reason is empty"@
        }),
{
}

} // verus!
