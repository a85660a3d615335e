//! The domain: tasks, architecture decision records (ADRs), traps, the runtime
//! state and the events that change it, each with its mathematical view.
use vstd::prelude::*;

use crate::foreign::{lowercase, to_lower};
use crate::text::{same_text, texts};

verus! {

// ── Tasks ──────────────────────────────────────────────────────────────────

#[derive(Debug, Clone, Copy, PartialEq, Eq, Structural)]
pub enum TaskStatus {
    Todo,
    InProgress,
    Done,
    Blocked,
    Superseded,
    Cancelled,
}

impl TaskStatus {
    /// The name under which the status is written.
    pub open spec fn name(self) -> Seq<char> {
        match self {
            TaskStatus::Todo => "Todo"@,
            TaskStatus::InProgress => "InProgress"@,
            TaskStatus::Done => "Done"@,
            TaskStatus::Blocked => "Blocked"@,
            TaskStatus::Superseded => "Superseded"@,
            TaskStatus::Cancelled => "Cancelled"@,
        }
    }

    pub fn label(self) -> (r: &'static str)
        ensures
            r@ == self.name(),
    {
        match self {
            TaskStatus::Todo => "Todo",
            TaskStatus::InProgress => "InProgress",
            TaskStatus::Done => "Done",
            TaskStatus::Blocked => "Blocked",
            TaskStatus::Superseded => "Superseded",
            TaskStatus::Cancelled => "Cancelled",
        }
    }

    /// Done, Superseded and Cancelled tasks are finished for good.
    pub open spec fn terminal(self) -> bool {
        self is Done || self is Superseded || self is Cancelled
    }

    pub fn is_terminal(self) -> (r: bool)
        ensures
            r == self.terminal(),
    {
        matches!(self, TaskStatus::Done | TaskStatus::Superseded | TaskStatus::Cancelled)
    }
}

/// Reference to another project artifact, a task or an ADR.
#[derive(Debug, PartialEq)]
pub enum Reference {
    Task(String),
    Adr(String),
}

#[verifier::ext_equal]
pub enum ReferenceView {
    Task(Seq<char>),
    Adr(Seq<char>),
}

impl View for Reference {
    type V = ReferenceView;

    open spec fn view(&self) -> ReferenceView {
        match self {
            Reference::Task(id) => ReferenceView::Task(id@),
            Reference::Adr(id) => ReferenceView::Adr(id@),
        }
    }
}

impl Clone for Reference {
    fn clone(&self) -> (r: Self)
        ensures
            r == *self,
    {
        match self {
            Reference::Task(id) => Reference::Task(id.clone()),
            Reference::Adr(id) => Reference::Adr(id.clone()),
        }
    }
}

/// What a superseded task gave way to, and why.
#[derive(Debug, PartialEq)]
pub struct SupersededInfo {
    pub reference: Reference,
    pub reason: String,
}

#[verifier::ext_equal]
pub struct SupersededInfoView {
    pub reference: ReferenceView,
    pub reason: Seq<char>,
}

impl View for SupersededInfo {
    type V = SupersededInfoView;

    open spec fn view(&self) -> SupersededInfoView {
        SupersededInfoView { reference: self.reference@, reason: self.reason@ }
    }
}

impl Clone for SupersededInfo {
    fn clone(&self) -> (r: Self)
        ensures
            r == *self,
    {
        SupersededInfo { reference: self.reference.clone(), reason: self.reason.clone() }
    }
}

pub open spec fn info_view(info: Option<SupersededInfo>) -> Option<SupersededInfoView> {
    match info {
        Some(i) => Some(i@),
        None => None,
    }
}

pub fn clone_info(info: &Option<SupersededInfo>) -> (r: Option<SupersededInfo>)
    ensures
        r == *info,
{
    match info {
        Some(i) => Some(i.clone()),
        None => None,
    }
}

#[derive(Debug)]
pub struct Task {
    pub id: String,
    pub description: String,
    pub status: TaskStatus,
    pub superseded_by: Option<SupersededInfo>,
}

#[verifier::ext_equal]
pub struct TaskView {
    pub id: Seq<char>,
    pub description: Seq<char>,
    pub status: TaskStatus,
    pub superseded_by: Option<SupersededInfoView>,
}

impl View for Task {
    type V = TaskView;

    open spec fn view(&self) -> TaskView {
        TaskView {
            id: self.id@,
            description: self.description@,
            status: self.status,
            superseded_by: info_view(self.superseded_by),
        }
    }
}

impl Clone for Task {
    fn clone(&self) -> (r: Self)
        ensures
            r == *self,
    {
        Task {
            id: self.id.clone(),
            description: self.description.clone(),
            status: self.status,
            superseded_by: clone_info(&self.superseded_by),
        }
    }
}

pub open spec fn task_views(tasks: Seq<Task>) -> Seq<TaskView> {
    tasks.map_values(|t: Task| t@)
}

/// What a caller supplies to create a task. There is no status in it: every
/// new task starts as `Todo`.
#[derive(Debug)]
pub struct TaskCreatePayload {
    pub id: String,
    pub description: String,
}

impl TaskCreatePayload {
    pub open spec fn task(self) -> TaskView {
        TaskView {
            id: self.id@,
            description: self.description@,
            status: TaskStatus::Todo,
            superseded_by: None,
        }
    }

    pub fn into_task(self) -> (r: Task)
        ensures
            r@ == self.task(),
    {
        Task {
            id: self.id,
            description: self.description,
            status: TaskStatus::Todo,
            superseded_by: None,
        }
    }
}

impl Clone for TaskCreatePayload {
    fn clone(&self) -> (r: Self)
        ensures
            r == *self,
    {
        TaskCreatePayload { id: self.id.clone(), description: self.description.clone() }
    }
}

// ── Architecture decision records ──────────────────────────────────────────

#[derive(Debug, Clone, Copy, PartialEq, Eq, Structural)]
pub enum AdrStatus {
    Proposed,
    Accepted,
    Superseded,
    Rejected,
    Archived,
}

/// The status that a lower-case name stands for; `active` is an older name of
/// `accepted`.
pub open spec fn adr_status_named(lower: Seq<char>) -> Option<AdrStatus> {
    if lower == "active"@ || lower == "accepted"@ {
        Some(AdrStatus::Accepted)
    } else if lower == "proposed"@ {
        Some(AdrStatus::Proposed)
    } else if lower == "superseded"@ {
        Some(AdrStatus::Superseded)
    } else if lower == "rejected"@ {
        Some(AdrStatus::Rejected)
    } else if lower == "archived"@ {
        Some(AdrStatus::Archived)
    } else {
        None
    }
}

/// The status that `s` names, whatever its case.
pub open spec fn adr_status_of(s: Seq<char>) -> Option<AdrStatus> {
    adr_status_named(lowercase(s))
}

impl AdrStatus {
    /// The name under which the status is written.
    pub open spec fn name(self) -> Seq<char> {
        match self {
            AdrStatus::Proposed => "Proposed"@,
            AdrStatus::Accepted => "Accepted"@,
            AdrStatus::Superseded => "Superseded"@,
            AdrStatus::Rejected => "Rejected"@,
            AdrStatus::Archived => "Archived"@,
        }
    }

    pub fn label(self) -> (r: &'static str)
        ensures
            r@ == self.name(),
    {
        match self {
            AdrStatus::Proposed => "Proposed",
            AdrStatus::Accepted => "Accepted",
            AdrStatus::Superseded => "Superseded",
            AdrStatus::Rejected => "Rejected",
            AdrStatus::Archived => "Archived",
        }
    }

    pub fn to_string(&self) -> (r: String)
        ensures
            r@ == self.name(),
    {
        self.label().to_owned()
    }

    /// Reads a status name in any case.
    pub fn from_str(s: &str) -> (r: Result<AdrStatus, String>)
        ensures
            match r {
                Ok(status) => adr_status_of(s@) == Some(status),
                Err(message) => adr_status_of(s@) is None && message@ == "unknown ADR status: "@
                    + lowercase(s@),
            },
    {
        let lower = to_lower(s);
        let name = lower.as_str();
        if same_text(name, "active") || same_text(name, "accepted") {
            Ok(AdrStatus::Accepted)
        } else if same_text(name, "proposed") {
            Ok(AdrStatus::Proposed)
        } else if same_text(name, "superseded") {
            Ok(AdrStatus::Superseded)
        } else if same_text(name, "rejected") {
            Ok(AdrStatus::Rejected)
        } else if same_text(name, "archived") {
            Ok(AdrStatus::Archived)
        } else {
            let mut message = "unknown ADR status: ".to_owned();
            message.append(name);
            Err(message)
        }
    }

    /// Accepted and Proposed ADRs are the ones in force or under discussion.
    pub open spec fn active(self) -> bool {
        self is Accepted || self is Proposed
    }

    pub fn is_active(self) -> (r: bool)
        ensures
            r == self.active(),
    {
        matches!(self, AdrStatus::Accepted | AdrStatus::Proposed)
    }
}

#[derive(Debug)]
pub struct ADR {
    pub id: String,
    pub title: String,
    pub status: AdrStatus,
    pub context: String,
    pub decision: String,
    pub tags: Vec<String>,
}

#[verifier::ext_equal]
pub struct AdrView {
    pub id: Seq<char>,
    pub title: Seq<char>,
    pub status: AdrStatus,
    pub context: Seq<char>,
    pub decision: Seq<char>,
    pub tags: Seq<Seq<char>>,
}

impl View for ADR {
    type V = AdrView;

    open spec fn view(&self) -> AdrView {
        AdrView {
            id: self.id@,
            title: self.title@,
            status: self.status,
            context: self.context@,
            decision: self.decision@,
            tags: texts(self.tags@),
        }
    }
}

impl Clone for ADR {
    fn clone(&self) -> (r: Self)
        ensures
            r@ == self@,
    {
        let tags = clone_strings(&self.tags);
        ADR {
            id: self.id.clone(),
            title: self.title.clone(),
            status: self.status,
            context: self.context.clone(),
            decision: self.decision.clone(),
            tags,
        }
    }
}

pub open spec fn adr_views(adrs: Seq<ADR>) -> Seq<AdrView> {
    adrs.map_values(|a: ADR| a@)
}

// ── Traps ──────────────────────────────────────────────────────────────────

/// A recorded pitfall: how it shows, where, why, and what to do about it.
#[derive(Debug)]
pub struct Trap {
    pub error_signature: String,
    pub context: String,
    pub solution: String,
    pub root_cause: String,
    pub prevention: String,
}

#[verifier::ext_equal]
pub struct TrapView {
    pub error_signature: Seq<char>,
    pub context: Seq<char>,
    pub solution: Seq<char>,
    pub root_cause: Seq<char>,
    pub prevention: Seq<char>,
}

impl View for Trap {
    type V = TrapView;

    open spec fn view(&self) -> TrapView {
        TrapView {
            error_signature: self.error_signature@,
            context: self.context@,
            solution: self.solution@,
            root_cause: self.root_cause@,
            prevention: self.prevention@,
        }
    }
}

impl Clone for Trap {
    fn clone(&self) -> (r: Self)
        ensures
            r == *self,
    {
        Trap {
            error_signature: self.error_signature.clone(),
            context: self.context.clone(),
            solution: self.solution.clone(),
            root_cause: self.root_cause.clone(),
            prevention: self.prevention.clone(),
        }
    }
}

impl Default for Trap {
    fn default() -> (r: Self)
        ensures
            r@ == (TrapView {
                error_signature: Seq::empty(),
                context: Seq::empty(),
                solution: Seq::empty(),
                root_cause: Seq::empty(),
                prevention: Seq::empty(),
            }),
    {
        Trap {
            error_signature: String::new(),
            context: String::new(),
            solution: String::new(),
            root_cause: String::new(),
            prevention: String::new(),
        }
    }
}

pub open spec fn trap_views(traps: Seq<Trap>) -> Seq<TrapView> {
    traps.map_values(|t: Trap| t@)
}

// ── Runtime state and events ───────────────────────────────────────────────

#[derive(Debug)]
pub struct RuntimeState {
    pub current_phase: String,
    pub active_tasks: Vec<Task>,
    pub done_tasks: Vec<Task>,
    pub constraints: Vec<String>,
}

#[verifier::ext_equal]
pub struct RuntimeStateView {
    pub current_phase: Seq<char>,
    pub active_tasks: Seq<TaskView>,
    pub done_tasks: Seq<TaskView>,
    pub constraints: Seq<Seq<char>>,
}

impl View for RuntimeState {
    type V = RuntimeStateView;

    open spec fn view(&self) -> RuntimeStateView {
        RuntimeStateView {
            current_phase: self.current_phase@,
            active_tasks: task_views(self.active_tasks@),
            done_tasks: task_views(self.done_tasks@),
            constraints: texts(self.constraints@),
        }
    }
}

impl Clone for RuntimeState {
    fn clone(&self) -> (r: Self)
        ensures
            r@ == self@,
    {
        let active_tasks = clone_tasks(&self.active_tasks);
        let done_tasks = clone_tasks(&self.done_tasks);
        let constraints = clone_strings(&self.constraints);
        RuntimeState {
            current_phase: self.current_phase.clone(),
            active_tasks,
            done_tasks,
            constraints,
        }
    }
}

#[derive(Debug)]
pub enum RuntimeEvent {
    TaskCreated(Task),
    TaskUpdated {
        task_id: String,
        new_status: TaskStatus,
        superseded_by: Option<SupersededInfo>,
    },
    AdrCommitted(ADR),
    TrapRecorded(Trap),
    PhaseChanged(String),
}

#[verifier::ext_equal]
pub enum RuntimeEventView {
    TaskCreated(TaskView),
    TaskUpdated {
        task_id: Seq<char>,
        new_status: TaskStatus,
        superseded_by: Option<SupersededInfoView>,
    },
    AdrCommitted(AdrView),
    TrapRecorded(TrapView),
    PhaseChanged(Seq<char>),
}

impl View for RuntimeEvent {
    type V = RuntimeEventView;

    open spec fn view(&self) -> RuntimeEventView {
        match self {
            RuntimeEvent::TaskCreated(task) => RuntimeEventView::TaskCreated(task@),
            RuntimeEvent::TaskUpdated { task_id, new_status, superseded_by } => {
                RuntimeEventView::TaskUpdated {
                    task_id: task_id@,
                    new_status: *new_status,
                    superseded_by: info_view(*superseded_by),
                }
            },
            RuntimeEvent::AdrCommitted(adr) => RuntimeEventView::AdrCommitted(adr@),
            RuntimeEvent::TrapRecorded(trap) => RuntimeEventView::TrapRecorded(trap@),
            RuntimeEvent::PhaseChanged(phase) => RuntimeEventView::PhaseChanged(phase@),
        }
    }
}

impl Clone for RuntimeEvent {
    fn clone(&self) -> (r: Self)
        ensures
            r@ == self@,
    {
        match self {
            RuntimeEvent::TaskCreated(task) => RuntimeEvent::TaskCreated(task.clone()),
            RuntimeEvent::TaskUpdated { task_id, new_status, superseded_by } => {
                RuntimeEvent::TaskUpdated {
                    task_id: task_id.clone(),
                    new_status: *new_status,
                    superseded_by: clone_info(superseded_by),
                }
            },
            RuntimeEvent::AdrCommitted(adr) => RuntimeEvent::AdrCommitted(adr.clone()),
            RuntimeEvent::TrapRecorded(trap) => RuntimeEvent::TrapRecorded(trap.clone()),
            RuntimeEvent::PhaseChanged(phase) => RuntimeEvent::PhaseChanged(phase.clone()),
        }
    }
}

// ── Copies of vectors ──────────────────────────────────────────────────────

pub fn clone_strings(v: &Vec<String>) -> (r: Vec<String>)
    ensures
        r@ == v@,
{
    let mut out: Vec<String> = Vec::new();
    let mut i: usize = 0;
    while i < v.len()
        invariant
            i <= v@.len(),
            out@ == v@.take(i as int),
        decreases v@.len() - i,
    {
        out.push(v[i].clone());
        assert(v@.take(i + 1) =~= v@.take(i as int).push(v@[i as int]));
        i = i + 1;
    }
    assert(v@.take(i as int) =~= v@);
    out
}

pub fn clone_tasks(v: &Vec<Task>) -> (r: Vec<Task>)
    ensures
        r@ == v@,
{
    let mut out: Vec<Task> = Vec::new();
    let mut i: usize = 0;
    while i < v.len()
        invariant
            i <= v@.len(),
            out@ == v@.take(i as int),
        decreases v@.len() - i,
    {
        out.push(v[i].clone());
        assert(v@.take(i + 1) =~= v@.take(i as int).push(v@[i as int]));
        i = i + 1;
    }
    assert(v@.take(i as int) =~= v@);
    out
}

// ── Laws ───────────────────────────────────────────────────────────────────

/// Reading back the written name of a status gives that status.
pub proof fn law_adr_status_names_read_back(status: AdrStatus)
    ensures
        adr_status_of(status.name()) == Some(status),
{
    reveal_strlit("Proposed");
    reveal_strlit("Accepted");
    reveal_strlit("Superseded");
    reveal_strlit("Rejected");
    reveal_strlit("Archived");
    reveal_strlit("active");
    reveal_strlit("accepted");
    reveal_strlit("proposed");
    reveal_strlit("superseded");
    reveal_strlit("rejected");
    reveal_strlit("archived");
    let lower = lowercase(status.name());
    match status {
        AdrStatus::Proposed => {
            assert(lower =~= "proposed"@);
        },
        AdrStatus::Accepted => {
            assert(lower =~= "accepted"@);
        },
        AdrStatus::Superseded => {
            assert(lower =~= "superseded"@);
        },
        AdrStatus::Rejected => {
            assert(lower =~= "rejected"@);
        },
        AdrStatus::Archived => {
            assert(lower =~= "archived"@);
        },
    }
    assert("active"@.len() == 6);
    assert("accepted"@[0] == 'a' && "proposed"@[0] == 'p' && "superseded"@[0] == 's'
        && "rejected"@[0] == 'r' && "archived"@[1] == 'r' && "accepted"@[1] == 'c');
}

/// Case does not matter to the name of a status.
pub proof fn law_adr_status_case_ignored(a: Seq<char>, b: Seq<char>)
    requires
        lowercase(a) == lowercase(b),
    ensures
        adr_status_of(a) == adr_status_of(b),
{
}

/// The older name `active`, in any case, reads as `Accepted`.
pub proof fn law_active_reads_as_accepted(s: Seq<char>)
    requires
        lowercase(s) == "active"@,
    ensures
        adr_status_of(s) == Some(AdrStatus::Accepted),
{
}

/// The view of a task tells its id, description, status and what it gave way to.
pub proof fn law_view_tells_the_task(t: Task)
    ensures
        t@.id == t.id@,
        t@.description == t.description@,
        t@.status == t.status,
        t@.superseded_by is Some <==> t.superseded_by is Some,
        t.superseded_by matches Some(info) ==> t@.superseded_by->0.reason == info.reason@,
        t.superseded_by matches Some(info) ==> (info.reference matches Reference::Task(id)
            ==> t@.superseded_by->0.reference == ReferenceView::Task(id@)),
        t.superseded_by matches Some(info) ==> (info.reference matches Reference::Adr(id)
            ==> t@.superseded_by->0.reference == ReferenceView::Adr(id@)),
{
}

/// The view of an ADR tells all that is in it.
pub proof fn law_view_tells_the_adr(a: ADR, k: int)
    ensures
        a@.id == a.id@,
        a@.title == a.title@,
        a@.status == a.status,
        a@.context == a.context@,
        a@.decision == a.decision@,
        a@.tags.len() == a.tags@.len(),
        0 <= k < a.tags@.len() ==> a@.tags[k] == a.tags@[k]@,
{
}

/// The view of a trap tells all that is in it.
pub proof fn law_view_tells_the_trap(t: Trap)
    ensures
        t@.error_signature == t.error_signature@,
        t@.context == t.context@,
        t@.solution == t.solution@,
        t@.root_cause == t.root_cause@,
        t@.prevention == t.prevention@,
{
}

/// The view of a state tells its phase, every task and every constraint, in order.
pub proof fn law_view_tells_the_state(st: RuntimeState, k: int)
    ensures
        st@.current_phase == st.current_phase@,
        st@.active_tasks.len() == st.active_tasks@.len(),
        st@.done_tasks.len() == st.done_tasks@.len(),
        st@.constraints.len() == st.constraints@.len(),
        0 <= k < st.active_tasks@.len() ==> st@.active_tasks[k] == st.active_tasks@[k]@,
        0 <= k < st.done_tasks@.len() ==> st@.done_tasks[k] == st.done_tasks@[k]@,
        0 <= k < st.constraints@.len() ==> st@.constraints[k] == st.constraints@[k]@,
{
}

/// The view of an event tells its kind and all that is in it.
pub proof fn law_view_tells_the_event(e: RuntimeEvent)
    ensures
        e matches RuntimeEvent::TaskCreated(task) ==> e@ == RuntimeEventView::TaskCreated(task@),
        e matches RuntimeEvent::AdrCommitted(adr) ==> e@ == RuntimeEventView::AdrCommitted(adr@),
        e matches RuntimeEvent::TrapRecorded(trap) ==> e@ == RuntimeEventView::TrapRecorded(trap@),
        e matches RuntimeEvent::PhaseChanged(phase) ==> e@ == RuntimeEventView::PhaseChanged(
            phase@,
        ),
        e matches RuntimeEvent::TaskUpdated { task_id, new_status, superseded_by } ==> (
        e@ matches RuntimeEventView::TaskUpdated {
            task_id: id,
            new_status: status,
            superseded_by: info,
        } && id == task_id@ && status == new_status && (info is Some <==> superseded_by is Some)
            && (superseded_by is Some ==> info->0 == superseded_by->0@)),
{
}

/// A list of ADRs, of tasks or of traps is viewed entry by entry.
pub proof fn law_lists_are_viewed_entry_by_entry(
    adrs: Seq<ADR>,
    tasks: Seq<Task>,
    traps: Seq<Trap>,
    k: int,
)
    ensures
        adr_views(adrs).len() == adrs.len(),
        task_views(tasks).len() == tasks.len(),
        trap_views(traps).len() == traps.len(),
        0 <= k < adrs.len() ==> adr_views(adrs)[k] == adrs[k]@,
        0 <= k < tasks.len() ==> task_views(tasks)[k] == tasks[k]@,
        0 <= k < traps.len() ==> trap_views(traps)[k] == traps[k]@,
{
}

/// A task that is created has the id and description that were sent, is Todo, and gave
/// way to nothing.
pub proof fn law_created_task_starts_open(p: TaskCreatePayload)
    ensures
        p.task().id == p.id@,
        p.task().description == p.description@,
        p.task().status is Todo,
        p.task().superseded_by is None,
{
}

/// Exactly the statuses after which a task never changes are terminal: Done, Superseded
/// and Cancelled; exactly Accepted and Proposed ADRs are active.
pub proof fn law_statuses_are_open_or_final(t: TaskStatus, a: AdrStatus)
    ensures
        !t.terminal() <==> t is Todo || t is InProgress || t is Blocked,
        !a.active() <==> a is Superseded || a is Rejected || a is Archived,
{
}

/// No two statuses of a task have the same name.
pub proof fn law_task_status_names_differ(a: TaskStatus, b: TaskStatus)
    requires
        a.name() == b.name(),
    ensures
        a == b,
{
    reveal_strlit("Todo");
    reveal_strlit("InProgress");
    reveal_strlit("Done");
    reveal_strlit("Blocked");
    reveal_strlit("Superseded");
    reveal_strlit("Cancelled");
    assert("Todo"@[0] == 'T' && "InProgress"@[0] == 'I' && "Done"@[0] == 'D' && "Blocked"@[0]
        == 'B' && "Superseded"@[0] == 'S' && "Cancelled"@[0] == 'C');
}

/// A status is written by its own name.
pub proof fn law_statuses_are_written_by_name()
    ensures
        TaskStatus::Todo.name() == "Todo"@,
        TaskStatus::InProgress.name() == "InProgress"@,
        TaskStatus::Done.name() == "Done"@,
        TaskStatus::Blocked.name() == "Blocked"@,
        TaskStatus::Superseded.name() == "Superseded"@,
        TaskStatus::Cancelled.name() == "Cancelled"@,
        AdrStatus::Proposed.name() == "Proposed"@,
        AdrStatus::Accepted.name() == "Accepted"@,
        AdrStatus::Superseded.name() == "Superseded"@,
        AdrStatus::Rejected.name() == "Rejected"@,
        AdrStatus::Archived.name() == "Archived"@,
{
}

/// What is no name of a status, in any case, is read as none.
pub proof fn law_other_words_are_no_status(s: Seq<char>)
    ensures
        adr_status_of(s) is None <==> lowercase(s) != "active"@ && lowercase(s) != lowercase(
            "Accepted"@,
        ) && lowercase(s) != lowercase("Proposed"@) && lowercase(s) != lowercase("Superseded"@)
            && lowercase(s) != lowercase("Rejected"@) && lowercase(s) != lowercase("Archived"@),
{
    reveal_strlit("Proposed");
    reveal_strlit("Accepted");
    reveal_strlit("Superseded");
    reveal_strlit("Rejected");
    reveal_strlit("Archived");
    reveal_strlit("accepted");
    reveal_strlit("proposed");
    reveal_strlit("superseded");
    reveal_strlit("rejected");
    reveal_strlit("archived");
    assert(lowercase("Proposed"@) =~= "proposed"@);
    assert(lowercase("Accepted"@) =~= "accepted"@);
    assert(lowercase("Superseded"@) =~= "superseded"@);
    assert(lowercase("Rejected"@) =~= "rejected"@);
    assert(lowercase("Archived"@) =~= "archived"@);
}

} // verus!
