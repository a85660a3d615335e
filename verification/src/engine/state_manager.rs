//! The state machine of the runtime: the memory state and how events change it.
use vstd::prelude::*;

use crate::engine::validator::{
    first_failure, Registered, ValidationErrorView, Validator, ValidatorRegistry,
};
use crate::engine::validators::adr_active_conflict::{adr_active_conflict_verdict, find_accepted};
use crate::engine::validators::adr_invalid_transition::{
    adr_invalid_transition_verdict, find_terminal, terminal_adr,
};
use crate::engine::validators::adr_rejected_repeat::{adr_rejected_repeat_verdict, was_rejected};
use crate::engine::validators::duplicate_task_id::{duplicate_task_id_verdict, has_task};
use crate::engine::validators::empty_task_id::empty_task_id_verdict;
use crate::engine::validators::superseded_by_required::superseded_by_required_verdict;
use crate::engine::validators::task_terminal_transition::{
    find_task, known_task, task_index, task_terminal_transition_verdict,
};
use crate::engine::validators::{
    accepted_adr, has_same_content, same_content, AdrActiveConflict, AdrInvalidTransition,
    AdrRejectedRepeat, DuplicateTaskId, EmptyTaskId, SupersededByRequired, TaskTerminalTransition,
};
use crate::models::{
    adr_views, info_view, task_views, trap_views, AdrStatus, AdrView, RuntimeEvent,
    RuntimeEventView, RuntimeState, RuntimeStateView, SupersededInfo, SupersededInfoView, Task,
    TaskStatus, TaskView, Trap, TrapView, ADR,
};
use crate::text::{join, joined, texts};

verus! {

// ── The life of an ADR ─────────────────────────────────────────────────────

/// The statuses that may follow a status:
///
/// - Proposed: Accepted or Rejected
/// - Accepted: Superseded or Archived
/// - Rejected: Proposed (resubmission with material changes)
/// - Superseded, Archived: none
pub open spec fn next_statuses(status: AdrStatus) -> Seq<AdrStatus> {
    match status {
        AdrStatus::Proposed => seq![AdrStatus::Accepted, AdrStatus::Rejected],
        AdrStatus::Accepted => seq![AdrStatus::Superseded, AdrStatus::Archived],
        AdrStatus::Rejected => seq![AdrStatus::Proposed],
        AdrStatus::Superseded => Seq::empty(),
        AdrStatus::Archived => Seq::empty(),
    }
}

/// Return the valid next states for a given ADR status.
pub fn valid_transitions(status: &AdrStatus) -> (r: Vec<AdrStatus>)
    ensures
        r@ == next_statuses(*status),
{
    let mut next: Vec<AdrStatus> = Vec::new();
    match status {
        AdrStatus::Proposed => {
            next.push(AdrStatus::Accepted);
            next.push(AdrStatus::Rejected);
        },
        AdrStatus::Accepted => {
            next.push(AdrStatus::Superseded);
            next.push(AdrStatus::Archived);
        },
        AdrStatus::Rejected => {
            next.push(AdrStatus::Proposed);
        },
        AdrStatus::Superseded => {},
        AdrStatus::Archived => {},
    }
    assert(next@ =~= next_statuses(*status));
    next
}

/// Structured error variants for state machine validation.
#[derive(Debug)]
pub enum AdrError {
    InvalidTransition { id: String, current_status: AdrStatus, valid_next: Vec<AdrStatus> },
}

pub open spec fn status_names(statuses: Seq<AdrStatus>) -> Seq<Seq<char>> {
    statuses.map_values(|s: AdrStatus| s.name())
}

impl AdrError {
    pub open spec fn message(self) -> Seq<char> {
        match self {
            AdrError::InvalidTransition { id, current_status, valid_next } => if valid_next@.len()
                == 0 {
                "[INVALID TRANSITION] ADR "@ + id@ + " is in terminal state "@
                    + current_status.name() + " and cannot transition further."@
            } else {
                "[INVALID TRANSITION] ADR "@ + id@ + " is "@ + current_status.name()
                    + " but can only transition to: "@ + join(status_names(valid_next@), ", "@)
                    + ". Current transition not allowed."@
            },
        }
    }

    pub fn to_string(&self) -> (r: String)
        ensures
            r@ == self.message(),
    {
        match self {
            AdrError::InvalidTransition { id, current_status, valid_next } => {
                let mut out = "[INVALID TRANSITION] ADR ".to_owned();
                out.append(id.as_str());
                if valid_next.len() == 0 {
                    out.append(" is in terminal state ");
                    out.append(current_status.label());
                    out.append(" and cannot transition further.");
                    return out;
                }
                let mut names: Vec<String> = Vec::new();
                let mut i: usize = 0;
                while i < valid_next.len()
                    invariant
                        i <= valid_next@.len(),
                        names@.len() == i,
                        forall|j: int| 0 <= j < i ==> (#[trigger] names@[j])@ == valid_next@[j].name(),
                    decreases valid_next@.len() - i,
                {
                    names.push(valid_next[i].to_string());
                    i = i + 1;
                }
                assert(texts(names@) =~= status_names(valid_next@));
                let list = joined(&names, ", ");
                out.append(" is ");
                out.append(current_status.label());
                out.append(" but can only transition to: ");
                out.append(list.as_str());
                out.append(". Current transition not allowed.");
                out
            },
        }
    }
}

/// The decisions with every version of `id` superseded.
pub open spec fn superseded_all(decisions: Seq<AdrView>, id: Seq<char>) -> Seq<AdrView> {
    decisions.map_values(
        |a: AdrView|
            if a.id == id {
                AdrView { status: AdrStatus::Superseded, ..a }
            } else {
                a
            },
    )
}

/// Whether the decisions hold `adr` already: there is an accepted ADR with its
/// id, and the first such has its content.
pub open spec fn already_accepted(decisions: Seq<AdrView>, adr: AdrView) -> bool {
    accepted_adr(decisions, adr.id) matches Some(a) && same_content(a, adr)
}

/// The decisions after `adr` was committed: it is accepted, and its earlier
/// versions are superseded.
pub open spec fn with_adr(decisions: Seq<AdrView>, adr: AdrView) -> Seq<AdrView> {
    superseded_all(decisions, adr.id).push(AdrView { status: AdrStatus::Accepted, ..adr })
}

/// Commit an ADR: `true` where the decisions changed, `false` where they held it
/// already. An ADR with a terminal version cannot be committed again.
pub fn commit_adr(decisions: &mut Vec<ADR>, adr: ADR) -> (r: Result<bool, AdrError>)
    ensures
        match r {
            Ok(true) => {
                &&& !already_accepted(adr_views(old(decisions)@), adr@)
                &&& terminal_adr(adr_views(old(decisions)@), adr@.id) is None
                &&& adr_views(final(decisions)@) == with_adr(adr_views(old(decisions)@), adr@)
            },
            Ok(false) => {
                &&& already_accepted(adr_views(old(decisions)@), adr@)
                &&& final(decisions)@ == old(decisions)@
            },
            Err(AdrError::InvalidTransition { id, current_status, valid_next }) => {
                &&& !already_accepted(adr_views(old(decisions)@), adr@)
                &&& terminal_adr(adr_views(old(decisions)@), adr@.id) matches Some(a)
                    && current_status == a.status
                &&& id@ == adr@.id
                &&& valid_next@ == next_statuses(current_status)
                &&& final(decisions)@ == old(decisions)@
            },
        },
{
    let ghost before = adr_views(decisions@);
    if let Some(i) = find_accepted(decisions.as_slice(), &adr.id) {
        if has_same_content(&decisions[i], &adr) {
            return Ok(false);
        }
    }
    if let Some(status) = find_terminal(decisions.as_slice(), &adr.id) {
        return Err(
            AdrError::InvalidTransition {
                id: adr.id.clone(),
                current_status: status,
                valid_next: valid_transitions(&status),
            },
        );
    }
    let ghost want = superseded_all(before, adr@.id);
    let mut i: usize = 0;
    while i < decisions.len()
        invariant
            i <= decisions@.len(),
            decisions@.len() == before.len(),
            want == superseded_all(before, adr@.id),
            forall|j: int| 0 <= j < i ==> (#[trigger] decisions@[j])@ == want[j],
            forall|j: int| i <= j < before.len() ==> (#[trigger] decisions@[j])@ == before[j],
        decreases decisions@.len() - i,
    {
        assert(decisions@[i as int]@ == before[i as int]);
        if decisions[i].id == adr.id {
            let ghost was = decisions@[i as int]@;
            decisions[i].status = AdrStatus::Superseded;
            assert(decisions@[i as int]@ =~= AdrView { status: AdrStatus::Superseded, ..was });
        }
        i = i + 1;
    }
    assert(adr_views(decisions@) =~= want);
    let ghost given = adr@;
    let mut adr = adr;
    adr.status = AdrStatus::Accepted;
    assert(adr@ =~= AdrView { status: AdrStatus::Accepted, ..given });
    let ghost mid = decisions@;
    decisions.push(adr);
    assert(adr_views(decisions@) =~= adr_views(mid).push(adr@));
    Ok(true)
}

// ── The memory state ───────────────────────────────────────────────────────

/// The in-memory state of a project, and which of its files it may replace.
///
/// While the flag of a file is false (the file was not understood), an empty
/// state does not overwrite it.
pub struct StateManager {
    pub state: RuntimeState,
    pub decisions: Vec<ADR>,
    pub traps: Vec<Trap>,
    pub context_ok: bool,
    pub decisions_ok: bool,
    pub traps_ok: bool,
    pub registry: ValidatorRegistry,
}

#[verifier::ext_equal]
pub struct ManagerView {
    pub state: RuntimeStateView,
    pub decisions: Seq<AdrView>,
    pub traps: Seq<TrapView>,
    pub context_ok: bool,
    pub decisions_ok: bool,
    pub traps_ok: bool,
}

impl View for StateManager {
    type V = ManagerView;

    open spec fn view(&self) -> ManagerView {
        ManagerView {
            state: self.state@,
            decisions: adr_views(self.decisions@),
            traps: trap_views(self.traps@),
            context_ok: self.context_ok,
            decisions_ok: self.decisions_ok,
            traps_ok: self.traps_ok,
        }
    }
}

pub open spec fn empty_state() -> RuntimeStateView {
    RuntimeStateView {
        current_phase: Seq::empty(),
        active_tasks: Seq::empty(),
        done_tasks: Seq::empty(),
        constraints: Seq::empty(),
    }
}

pub fn new_state() -> (r: RuntimeState)
    ensures
        r@ == empty_state(),
{
    let state = RuntimeState {
        current_phase: String::new(),
        active_tasks: Vec::new(),
        done_tasks: Vec::new(),
        constraints: Vec::new(),
    };
    assert(state@ =~= empty_state());
    state
}

/// The first failure among the seven standard validators.
pub open spec fn standard_verdict(
    event: RuntimeEventView,
    state: RuntimeStateView,
    decisions: Seq<AdrView>,
) -> Option<ValidationErrorView> {
    if empty_task_id_verdict(event) is Some {
        empty_task_id_verdict(event)
    } else if duplicate_task_id_verdict(event, state) is Some {
        duplicate_task_id_verdict(event, state)
    } else if adr_active_conflict_verdict(event, decisions) is Some {
        adr_active_conflict_verdict(event, decisions)
    } else if adr_rejected_repeat_verdict(event, decisions) is Some {
        adr_rejected_repeat_verdict(event, decisions)
    } else if adr_invalid_transition_verdict(event, decisions) is Some {
        adr_invalid_transition_verdict(event, decisions)
    } else if task_terminal_transition_verdict(event, state) is Some {
        task_terminal_transition_verdict(event, state)
    } else {
        superseded_by_required_verdict(event, state, decisions)
    }
}

/// Whether a registry decides as the standard validators do.
pub open spec fn decides_as_standard(validators: Seq<Registered<dyn Validator>>) -> bool {
    forall|
        event: RuntimeEventView,
        state: RuntimeStateView,
        decisions: Seq<AdrView>,
        traps: Seq<TrapView>,
    | #[trigger]
        first_failure(validators, event, state, decisions, traps) == standard_verdict(
            event,
            state,
            decisions,
        )
}

/// The registry of the standard validators.
pub fn standard_registry() -> (r: ValidatorRegistry)
    ensures
        decides_as_standard(r@),
        r@.len() == 7,
{
    let mut registry = ValidatorRegistry::new();
    registry.register(Box::new(EmptyTaskId));
    let ghost r1 = registry@;
    registry.register(Box::new(DuplicateTaskId));
    let ghost r2 = registry@;
    registry.register(Box::new(AdrActiveConflict));
    let ghost r3 = registry@;
    registry.register(Box::new(AdrRejectedRepeat));
    let ghost r4 = registry@;
    registry.register(Box::new(AdrInvalidTransition));
    let ghost r5 = registry@;
    registry.register(Box::new(TaskTerminalTransition));
    let ghost r6 = registry@;
    registry.register(Box::new(SupersededByRequired));
    let ghost r7 = registry@;
    proof {
        assert forall|
            event: RuntimeEventView,
            state: RuntimeStateView,
            decisions: Seq<AdrView>,
            traps: Seq<TrapView>,
        | #[trigger]
            first_failure(r7, event, state, decisions, traps) == standard_verdict(
                event,
                state,
                decisions,
            ) by {
            reveal_with_fuel(first_failure, 8);
            assert(r1.last().validator.verdict(event, state, decisions, traps)
                == empty_task_id_verdict(event));
            assert(r2.last().validator.verdict(event, state, decisions, traps)
                == duplicate_task_id_verdict(event, state));
            assert(r3.last().validator.verdict(event, state, decisions, traps)
                == adr_active_conflict_verdict(event, decisions));
            assert(r4.last().validator.verdict(event, state, decisions, traps)
                == adr_rejected_repeat_verdict(event, decisions));
            assert(r5.last().validator.verdict(event, state, decisions, traps)
                == adr_invalid_transition_verdict(event, decisions));
            assert(r6.last().validator.verdict(event, state, decisions, traps)
                == task_terminal_transition_verdict(event, state));
            assert(r7.last().validator.verdict(event, state, decisions, traps)
                == superseded_by_required_verdict(event, state, decisions));
        }
    }
    registry
}

// ── Events ─────────────────────────────────────────────────────────────────

/// `task` with a new status; `superseded_by` replaces what was there, if given.
pub open spec fn finished_task(
    task: TaskView,
    status: TaskStatus,
    superseded_by: Option<SupersededInfoView>,
) -> TaskView {
    TaskView {
        status,
        superseded_by: if superseded_by is Some {
            superseded_by
        } else {
            task.superseded_by
        },
        ..task
    }
}

/// The state after a task got a new status: a finished task moves to the done
/// ones, any other stays in its place.
pub open spec fn with_task_status(
    state: RuntimeStateView,
    i: int,
    status: TaskStatus,
    superseded_by: Option<SupersededInfoView>,
) -> RuntimeStateView {
    let task = state.active_tasks[i];
    if status.terminal() {
        RuntimeStateView {
            active_tasks: state.active_tasks.remove(i),
            done_tasks: state.done_tasks.push(finished_task(task, status, superseded_by)),
            ..state
        }
    } else {
        RuntimeStateView {
            active_tasks: state.active_tasks.update(i, TaskView { status, ..task }),
            ..state
        }
    }
}

/// What applying an event leads to: the new state, or the message of a refusal.
pub open spec fn applied(m: ManagerView, event: RuntimeEventView) -> Result<
    ManagerView,
    Seq<char>,
> {
    match standard_verdict(event, m.state, m.decisions) {
        Some(failure) => Err(failure.message),
        None => match event {
            RuntimeEventView::TaskCreated(task) => Ok(
                ManagerView {
                    state: RuntimeStateView {
                        active_tasks: m.state.active_tasks.push(
                            TaskView { status: TaskStatus::Todo, ..task },
                        ),
                        ..m.state
                    },
                    context_ok: true,
                    ..m
                },
            ),
            RuntimeEventView::TaskUpdated { task_id, new_status, superseded_by } => {
                let i = task_index(m.state.active_tasks, task_id);
                if 0 <= i < m.state.active_tasks.len() {
                    Ok(
                        ManagerView {
                            state: with_task_status(m.state, i, new_status, superseded_by),
                            ..m
                        },
                    )
                } else {
                    Err("Task not found: "@ + task_id)
                }
            },
            RuntimeEventView::AdrCommitted(adr) => if already_accepted(m.decisions, adr) {
                Ok(m)
            } else {
                Ok(ManagerView { decisions: with_adr(m.decisions, adr), decisions_ok: true, ..m })
            },
            RuntimeEventView::TrapRecorded(trap) => Ok(
                ManagerView { traps: m.traps.push(trap), traps_ok: true, ..m },
            ),
            RuntimeEventView::PhaseChanged(phase) => Ok(
                ManagerView {
                    state: RuntimeStateView { current_phase: phase, ..m.state },
                    context_ok: true,
                    ..m
                },
            ),
        },
    }
}

/// Why an event was refused.
#[derive(Debug)]
pub struct EventError {
    pub message: String,
}

impl EventError {
    pub fn to_string(&self) -> (r: String)
        ensures
            r@ == self.message@,
    {
        self.message.clone()
    }
}

impl StateManager {
    /// The registry decides as the standard validators do.
    pub open spec fn wf(&self) -> bool {
        decides_as_standard(self.registry@)
    }

    /// An empty memory state with the standard validators, whose files were not
    /// read yet.
    pub fn new() -> (r: Self)
        ensures
            r.wf(),
            r@ == (ManagerView {
                state: empty_state(),
                decisions: Seq::empty(),
                traps: Seq::empty(),
                context_ok: false,
                decisions_ok: false,
                traps_ok: false,
            }),
    {
        let manager = StateManager {
            state: new_state(),
            decisions: Vec::new(),
            traps: Vec::new(),
            context_ok: false,
            decisions_ok: false,
            traps_ok: false,
            registry: standard_registry(),
        };
        assert(manager@.decisions =~= Seq::<AdrView>::empty());
        assert(manager@.traps =~= Seq::<TrapView>::empty());
        manager
    }

    /// Apply an event after the validators have passed it. A refused event
    /// changes nothing.
    pub fn apply_event(&mut self, event: RuntimeEvent) -> (r: Result<(), EventError>)
        requires
            old(self).wf(),
        ensures
            final(self).wf(),
            match r {
                Ok(()) => applied(old(self)@, event@) == Ok::<ManagerView, Seq<char>>(
                    final(self)@,
                ),
                Err(e) => {
                    &&& applied(old(self)@, event@) == Err::<ManagerView, Seq<char>>(e.message@)
                    &&& final(self)@ == old(self)@
                },
            },
    {
        let ghost before = self@;
        match self.registry.validate_all(
            &event,
            &self.state,
            self.decisions.as_slice(),
            self.traps.as_slice(),
        ) {
            Ok(()) => {},
            Err(e) => {
                return Err(EventError { message: e.message });
            },
        }
        assert(standard_verdict(event@, before.state, before.decisions) is None);
        match event {
            RuntimeEvent::TaskUpdated { task_id, new_status, superseded_by } => {
                match find_task(&self.state.active_tasks, &task_id) {
                    Some(i) => {
                        self.set_task_status(i, new_status, superseded_by);
                    },
                    None => {
                        let mut message = "Task not found: ".to_owned();
                        message.append(task_id.as_str());
                        return Err(EventError { message });
                    },
                }
            },
            RuntimeEvent::TaskCreated(task) => {
                let ghost given = task@;
                let mut task = task;
                task.status = TaskStatus::Todo;
                assert(task@ =~= TaskView { status: TaskStatus::Todo, ..given });
                let ghost tasks = self.state.active_tasks@;
                self.state.active_tasks.push(task);
                assert(task_views(self.state.active_tasks@) =~= task_views(tasks).push(task@));
                self.context_ok = true;
            },
            RuntimeEvent::AdrCommitted(adr) => {
                match commit_adr(&mut self.decisions, adr) {
                    Ok(changed) => {
                        if changed {
                            self.decisions_ok = true;
                        }
                    },
                    Err(e) => {
                        return Err(EventError { message: e.to_string() });
                    },
                }
            },
            RuntimeEvent::TrapRecorded(trap) => {
                let ghost traps = self.traps@;
                self.traps.push(trap);
                assert(trap_views(self.traps@) =~= trap_views(traps).push(trap@));
                self.traps_ok = true;
            },
            RuntimeEvent::PhaseChanged(phase) => {
                self.state.current_phase = phase;
                self.context_ok = true;
            },
        }
        Ok(())
    }

    fn set_task_status(
        &mut self,
        i: usize,
        status: TaskStatus,
        superseded_by: Option<SupersededInfo>,
    )
        requires
            i < old(self).state.active_tasks@.len(),
        ensures
            final(self).wf() == old(self).wf(),
            final(self)@ == (ManagerView {
                state: with_task_status(
                    old(self)@.state,
                    i as int,
                    status,
                    info_view(superseded_by),
                ),
                ..old(self)@
            }),
    {
        let ghost before = self@.state;
        if status.is_terminal() {
            let ghost tasks = self.state.active_tasks@;
            let mut task = self.state.active_tasks.remove(i);
            assert(task_views(self.state.active_tasks@) =~= task_views(tasks).remove(i as int));
            let ghost was = task@;
            task.status = status;
            if superseded_by.is_some() {
                task.superseded_by = superseded_by;
            }
            assert(task@ =~= finished_task(was, status, info_view(superseded_by)));
            let ghost done = self.state.done_tasks@;
            self.state.done_tasks.push(task);
            assert(task_views(self.state.done_tasks@) =~= task_views(done).push(task@));
        } else {
            let ghost tasks = self.state.active_tasks@;
            self.state.active_tasks[i].status = status;
            assert(task_views(self.state.active_tasks@) =~= task_views(tasks).update(
                i as int,
                TaskView { status, ..before.active_tasks[i as int] },
            ));
        }
        assert(self@.state =~= with_task_status(before, i as int, status, info_view(superseded_by)));
    }
}

// ── Laws ───────────────────────────────────────────────────────────────────

/// No two tasks share an id.
pub open spec fn unique_ids(tasks: Seq<TaskView>) -> bool {
    forall|i: int, j: int|
        0 <= i < j < tasks.len() ==> (#[trigger] tasks[i]).id != (#[trigger] tasks[j]).id
}

/// No two accepted ADRs share an id.
pub open spec fn one_accepted_each(decisions: Seq<AdrView>) -> bool {
    forall|i: int, j: int|
        0 <= i < j < decisions.len() && (#[trigger] decisions[i]).id == (
        #[trigger] decisions[j]).id ==> !(decisions[i].status is Accepted && decisions[j].status
            is Accepted)
}

/// Active tasks are open and done tasks are finished.
pub open spec fn tasks_in_place(state: RuntimeStateView) -> bool {
    &&& forall|i: int|
        0 <= i < state.active_tasks.len() ==> !(#[trigger] state.active_tasks[i]).status.terminal()
    &&& forall|i: int|
        0 <= i < state.done_tasks.len() ==> (#[trigger] state.done_tasks[i]).status.terminal()
}

/// Every active task keeps a unique id, whatever event is applied.
pub proof fn law_active_ids_stay_unique(m: ManagerView, event: RuntimeEventView)
    requires
        unique_ids(m.state.active_tasks),
        applied(m, event) is Ok,
    ensures
        unique_ids(applied(m, event)->Ok_0.state.active_tasks),
{
    let before = m.state.active_tasks;
    let after = applied(m, event)->Ok_0.state.active_tasks;
    match event {
        RuntimeEventView::TaskCreated(task) => {
            assert(!has_task(before, task.id));
            assert forall|i: int, j: int| 0 <= i < j < after.len() implies (#[trigger] after[i]).id
                != (#[trigger] after[j]).id by {
                if j < before.len() {
                    assert(before[i].id != before[j].id);
                } else {
                    assert(before[i] == after[i]);
                }
            }
        },
        RuntimeEventView::TaskUpdated { task_id, new_status, superseded_by } => {
            let k = task_index(before, task_id);
            assert forall|i: int, j: int| 0 <= i < j < after.len() implies (#[trigger] after[i]).id
                != (#[trigger] after[j]).id by {
                if new_status.terminal() {
                    let i2 = if i < k { i } else { i + 1 };
                    let j2 = if j < k { j } else { j + 1 };
                    assert(after[i] == before[i2] && after[j] == before[j2]);
                    assert(before[i2].id != before[j2].id);
                } else {
                    assert(after[i].id == before[i].id && after[j].id == before[j].id);
                    assert(before[i].id != before[j].id);
                }
            }
        },
        _ => {},
    }
}

/// At most one version of an ADR is accepted, whatever event is applied.
pub proof fn law_one_accepted_version(m: ManagerView, event: RuntimeEventView)
    requires
        one_accepted_each(m.decisions),
        applied(m, event) is Ok,
    ensures
        one_accepted_each(applied(m, event)->Ok_0.decisions),
{
    let before = m.decisions;
    let after = applied(m, event)->Ok_0.decisions;
    if let RuntimeEventView::AdrCommitted(adr) = event {
        if !already_accepted(before, adr) {
            assert forall|i: int, j: int|
                0 <= i < j < after.len() && (#[trigger] after[i]).id == (
                #[trigger] after[j]).id implies !(after[i].status is Accepted && after[j].status
                is Accepted) by {
                if j < before.len() {
                    assert(before[i].id == before[j].id);
                }
            }
        }
    }
}

/// Open tasks stay among the active ones and finished tasks among the done ones.
pub proof fn law_tasks_stay_in_place(m: ManagerView, event: RuntimeEventView)
    requires
        tasks_in_place(m.state),
        applied(m, event) is Ok,
    ensures
        tasks_in_place(applied(m, event)->Ok_0.state),
{
    let before = m.state.active_tasks;
    let after = applied(m, event)->Ok_0.state;
    match event {
        RuntimeEventView::TaskUpdated { task_id, new_status, superseded_by } => {
            let k = task_index(before, task_id);
            assert forall|i: int| 0 <= i < after.active_tasks.len() implies !(
            #[trigger] after.active_tasks[i]).status.terminal() by {
                if new_status.terminal() {
                    let i2 = if i < k { i } else { i + 1 };
                    assert(after.active_tasks[i] == before[i2]);
                } else if i != k {
                    assert(after.active_tasks[i] == before[i]);
                }
            }
            assert forall|i: int| 0 <= i < after.done_tasks.len() implies (
            #[trigger] after.done_tasks[i]).status.terminal() by {
                if i < m.state.done_tasks.len() {
                    assert(after.done_tasks[i] == m.state.done_tasks[i]);
                }
            }
        },
        RuntimeEventView::TaskCreated(task) => {
            assert forall|i: int| 0 <= i < after.active_tasks.len() implies !(
            #[trigger] after.active_tasks[i]).status.terminal() by {
                if i < before.len() {
                    assert(after.active_tasks[i] == before[i]);
                }
            }
        },
        _ => {},
    }
}

/// A task in a terminal status is immutable: every update of it is refused.
pub proof fn law_finished_task_is_immutable(
    m: ManagerView,
    task_id: Seq<char>,
    new_status: TaskStatus,
    superseded_by: Option<SupersededInfoView>,
)
    requires
        known_task(m.state, task_id) matches Some(t) && t.status.terminal(),
    ensures
        applied(m, RuntimeEventView::TaskUpdated { task_id, new_status, superseded_by }) is Err,
{
}

/// What is done stays done: an event adds at most one done task, at the end.
pub proof fn law_done_tasks_only_grow(m: ManagerView, event: RuntimeEventView)
    requires
        applied(m, event) is Ok,
    ensures
        ({
            let before = m.state.done_tasks;
            let after = applied(m, event)->Ok_0.state.done_tasks;
            after == before || after.len() == before.len() + 1 && after.drop_last() == before
        }),
{
    let before = m.state.done_tasks;
    let after = applied(m, event)->Ok_0.state.done_tasks;
    if after != before {
        assert(after.drop_last() =~= before);
    }
}

/// Traps are only ever added, at the end.
pub proof fn law_traps_only_grow(m: ManagerView, event: RuntimeEventView)
    requires
        applied(m, event) is Ok,
    ensures
        ({
            let after = applied(m, event)->Ok_0.traps;
            after == m.traps || after.len() == m.traps.len() + 1 && after.drop_last() == m.traps
        }),
{
    let after = applied(m, event)->Ok_0.traps;
    if after != m.traps {
        assert(after.drop_last() =~= m.traps);
    }
}

/// Recorded ADRs are never lost or rewritten: an event keeps each as it is, or
/// supersedes it where its status is not terminal.
pub proof fn law_adrs_kept_or_superseded(m: ManagerView, event: RuntimeEventView, i: int)
    requires
        applied(m, event) is Ok,
        0 <= i < m.decisions.len(),
    ensures
        ({
            let a = m.decisions[i];
            let after = applied(m, event)->Ok_0.decisions;
            &&& i < after.len()
            &&& after[i] == a || after[i] == (AdrView { status: AdrStatus::Superseded, ..a })
                && next_statuses(a.status).len() > 0
        }),
{
    if let RuntimeEventView::AdrCommitted(adr) = event {
        if !already_accepted(m.decisions, adr) {
            lemma_no_terminal(m.decisions, adr.id);
            let after = applied(m, event)->Ok_0.decisions;
            assert(after[i] == superseded_all(m.decisions, adr.id)[i]);
        }
    }
}

proof fn lemma_no_terminal(decisions: Seq<AdrView>, id: Seq<char>)
    requires
        terminal_adr(decisions, id) is None,
    ensures
        forall|i: int|
            0 <= i < decisions.len() && (#[trigger] decisions[i]).id == id ==> next_statuses(
                decisions[i].status,
            ).len() > 0,
    decreases decisions.len(),
{
    if decisions.len() > 0 {
        let rest = decisions.drop_first();
        lemma_no_terminal(rest, id);
        assert forall|i: int|
            0 <= i < decisions.len() && (#[trigger] decisions[i]).id == id implies next_statuses(
            decisions[i].status,
        ).len() > 0 by {
            if i > 0 {
                assert(rest[i - 1] == decisions[i]);
            }
        }
    }
}

proof fn lemma_accepted_adr_at(decisions: Seq<AdrView>, id: Seq<char>, k: int)
    requires
        0 <= k < decisions.len(),
        decisions[k].id == id,
        decisions[k].status is Accepted,
        forall|i: int|
            0 <= i < k && (#[trigger] decisions[i]).id == id ==> !(decisions[i].status is Accepted),
    ensures
        accepted_adr(decisions, id) == Some(decisions[k]),
    decreases decisions.len(),
{
    if k > 0 {
        let rest = decisions.drop_first();
        assert(rest[k - 1] == decisions[k]);
        assert forall|i: int| 0 <= i < k - 1 && (#[trigger] rest[i]).id == id implies !(
        rest[i].status is Accepted) by {
            assert(rest[i] == decisions[i + 1]);
        }
        lemma_accepted_adr_at(rest, id, k - 1);
        assert(!(decisions[0].id == id && decisions[0].status is Accepted));
    }
}

/// The status of an ADR changes along the valid transitions only, where the ADR is
/// not an earlier proposed or rejected version of the one that is committed.
pub proof fn law_status_changes_are_transitions(m: ManagerView, event: RuntimeEventView, i: int)
    requires
        applied(m, event) is Ok,
        0 <= i < m.decisions.len(),
        event matches RuntimeEventView::AdrCommitted(adr) && m.decisions[i].id == adr.id ==> !(
        m.decisions[i].status is Proposed) && !(m.decisions[i].status is Rejected),
    ensures
        ({
            let before = m.decisions[i].status;
            let after = applied(m, event)->Ok_0.decisions[i].status;
            after == before || next_statuses(before).contains(after)
        }),
{
    law_adrs_kept_or_superseded(m, event, i);
    let before = m.decisions[i].status;
    if let RuntimeEventView::AdrCommitted(adr) = event {
        if !already_accepted(m.decisions, adr) {
            lemma_no_terminal(m.decisions, adr.id);
            if m.decisions[i].id == adr.id {
                assert(before is Accepted);
                assert(next_statuses(before)[0] == AdrStatus::Superseded);
            }
        }
    }
}

/// After an ADR was committed, the accepted ADR with its id has its content.
pub proof fn law_committed_adr_is_accepted(m: ManagerView, adr: AdrView)
    requires
        applied(m, RuntimeEventView::AdrCommitted(adr)) is Ok,
    ensures
        already_accepted(applied(m, RuntimeEventView::AdrCommitted(adr))->Ok_0.decisions, adr),
{
    let after = applied(m, RuntimeEventView::AdrCommitted(adr))->Ok_0.decisions;
    if !already_accepted(m.decisions, adr) {
        let k = m.decisions.len() as int;
        assert forall|i: int| 0 <= i < k && (#[trigger] after[i]).id == adr.id implies !(
        after[i].status is Accepted) by {
            assert(after[i] == superseded_all(m.decisions, adr.id)[i]);
        }
        lemma_accepted_adr_at(after, adr.id, k);
    }
}

/// Committing an ADR again with the same content changes nothing, unless an
/// earlier version of it was superseded or archived.
pub proof fn law_recommit_changes_nothing(m: ManagerView, adr: AdrView, again: AdrView)
    requires
        applied(m, RuntimeEventView::AdrCommitted(adr)) is Ok,
        again.id == adr.id,
        same_content(again, adr),
        terminal_adr(
            applied(m, RuntimeEventView::AdrCommitted(adr))->Ok_0.decisions,
            adr.id,
        ) is None,
    ensures
        ({
            let after = applied(m, RuntimeEventView::AdrCommitted(adr))->Ok_0;
            applied(after, RuntimeEventView::AdrCommitted(again)) == Ok::<ManagerView, Seq<char>>(
                after,
            )
        }),
{
    let after = applied(m, RuntimeEventView::AdrCommitted(adr))->Ok_0;
    law_committed_adr_is_accepted(m, adr);
    lemma_no_terminal(after.decisions, adr.id);
    assert(!was_rejected(after.decisions, again)) by {
        if was_rejected(after.decisions, again) {
            let i = choose|i: int|
                0 <= i < after.decisions.len() && (#[trigger] after.decisions[i]).id == again.id
                    && after.decisions[i].status is Rejected && same_content(
                    after.decisions[i],
                    again,
                );
            if already_accepted(m.decisions, adr) {
                assert(was_rejected(m.decisions, adr));
            } else if i < m.decisions.len() {
                assert(after.decisions[i] == superseded_all(m.decisions, adr.id)[i]);
            }
        }
    }
}

/// An accepted ADR cannot be overwritten: committing other content under its id
/// is refused as a conflict.
pub proof fn law_accepted_adr_not_overwritten(m: ManagerView, adr: AdrView)
    requires
        accepted_adr(m.decisions, adr.id) matches Some(a) && !same_content(a, adr),
    ensures
        applied(m, RuntimeEventView::AdrCommitted(adr)) == Err::<ManagerView, Seq<char>>(
            "[CONFLICT] ADR "@ + adr.id
                + " conflict: an active ADR with this id already exists with different content."@,
        ),
{
}

/// Each event touches its own part of the memory only.
pub proof fn law_event_touches_its_part(m: ManagerView, event: RuntimeEventView)
    requires
        applied(m, event) is Ok,
    ensures
        ({
            let after = applied(m, event)->Ok_0;
            match event {
                RuntimeEventView::TaskCreated(_) | RuntimeEventView::TaskUpdated { .. } => {
                    &&& after.decisions == m.decisions
                    &&& after.traps == m.traps
                    &&& after.state.current_phase == m.state.current_phase
                    &&& after.state.constraints == m.state.constraints
                },
                RuntimeEventView::AdrCommitted(_) => {
                    &&& after.state == m.state
                    &&& after.traps == m.traps
                },
                RuntimeEventView::TrapRecorded(_) => {
                    &&& after.state == m.state
                    &&& after.decisions == m.decisions
                },
                RuntimeEventView::PhaseChanged(_) => {
                    &&& after.decisions == m.decisions
                    &&& after.traps == m.traps
                    &&& after.state.active_tasks == m.state.active_tasks
                    &&& after.state.done_tasks == m.state.done_tasks
                    &&& after.state.constraints == m.state.constraints
                },
            }
        }),
{
}

/// Exactly the statuses Superseded and Archived have no next one.
pub proof fn law_terminal_statuses(status: AdrStatus)
    ensures
        next_statuses(status).len() == 0 <==> status is Superseded || status is Archived,
        !next_statuses(status).contains(status),
{
}

} // verus!
