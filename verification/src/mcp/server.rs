//! The decisions of the server: how a line, a request and a tool call are read,
//! and what the answer is.
use vstd::prelude::*;

use crate::engine::projection::context::is_open;
use crate::engine::projection::decisions::{is_active, lemma_filter_from};
use crate::engine::projection::phase::{canonical_phase, canonicalize_phase};
use crate::engine::state_manager::{applied, EventError, ManagerView, StateManager};
use crate::engine::validators::adr_rejected_repeat::was_rejected;
use crate::engine::validators::{accepted_adr, same_content};
use crate::foreign::{lowercase, to_lower};
use crate::mcp::json::Json;
use crate::models::{
    adr_views, clone_strings, task_views, trap_views, AdrStatus, AdrView, RuntimeEvent,
    RuntimeEventView, Task, TaskCreatePayload, TaskStatus, TaskView, Trap, ADR,
};
use crate::search::index::{SearchItem, SearchItemView};
use crate::search::scorer::{truncate, truncated};
use crate::text::{after_literal, has_prefix, same_text, string_of, texts, to_chars, trim, trimmed};

verus! {

pub const PROTOCOL_VERSION: &'static str = "2024-11-05";

pub const SERVER_NAME: &'static str = "memguard-mcp";

pub const SERVER_VERSION: &'static str = "0.3.3";

// ── Errors ─────────────────────────────────────────────────────────────────

/// Why a request is not answered with a result.
#[derive(Debug)]
pub enum McpError {
    MethodNotFound(String),
    InvalidParams(String),
    Internal(String),
}

#[verifier::ext_equal]
pub enum McpErrorView {
    MethodNotFound(Seq<char>),
    InvalidParams(Seq<char>),
    Internal(Seq<char>),
}

impl View for McpError {
    type V = McpErrorView;

    open spec fn view(&self) -> McpErrorView {
        match self {
            McpError::MethodNotFound(m) => McpErrorView::MethodNotFound(m@),
            McpError::InvalidParams(m) => McpErrorView::InvalidParams(m@),
            McpError::Internal(m) => McpErrorView::Internal(m@),
        }
    }
}

impl McpErrorView {
    /// The error as the log shows it.
    pub open spec fn shown(self) -> Seq<char> {
        match self {
            McpErrorView::MethodNotFound(m) => "Method not found: "@ + m,
            McpErrorView::InvalidParams(m) => "Invalid params: "@ + m,
            McpErrorView::Internal(m) => "Internal error: "@ + m,
        }
    }

    /// The error as JSON-RPC 2.0 numbers it, and its message.
    pub open spec fn numbered(self) -> (int, Seq<char>) {
        match self {
            McpErrorView::MethodNotFound(m) => (-32601, m),
            McpErrorView::InvalidParams(m) => (-32602, m),
            McpErrorView::Internal(m) => (-32603, m),
        }
    }
}

/// The error object of a JSON-RPC 2.0 response.
#[derive(Debug)]
pub struct JsonRpcError {
    pub code: i32,
    pub message: String,
}

impl McpError {
    pub fn to_string(&self) -> (r: String)
        ensures
            r@ == self@.shown(),
    {
        let (head, m) = match self {
            McpError::MethodNotFound(m) => ("Method not found: ", m),
            McpError::InvalidParams(m) => ("Invalid params: ", m),
            McpError::Internal(m) => ("Internal error: ", m),
        };
        let mut out = head.to_owned();
        out.append(m.as_str());
        out
    }

    /// The error object that answers the request.
    pub fn into_rpc(self) -> (r: JsonRpcError)
        ensures
            (r.code as int, r.message@) == self@.numbered(),
    {
        match self {
            McpError::MethodNotFound(message) => JsonRpcError { code: -32601, message },
            McpError::InvalidParams(message) => JsonRpcError { code: -32602, message },
            McpError::Internal(message) => JsonRpcError { code: -32603, message },
        }
    }
}

fn invalid(message: &str) -> (r: McpError)
    ensures
        r@ == McpErrorView::InvalidParams(message@),
{
    McpError::InvalidParams(message.to_owned())
}

/// `a` followed by `b`.
fn phrase(a: &str, b: &str) -> (r: String)
    ensures
        r@ == a@ + b@,
{
    let mut out = a.to_owned();
    out.append(b);
    out
}

// ── Lines ──────────────────────────────────────────────────────────────────

/// The request on a line of input, if the line is not blank.
pub fn request_text(line: &str) -> (r: Option<String>)
    ensures
        match r {
            Some(s) => s@ == trim(line@) && s@.len() > 0,
            None => trim(line@).len() == 0,
        },
{
    let chars = to_chars(line);
    let core = trimmed(chars.as_slice());
    if core.len() == 0 {
        None
    } else {
        Some(string_of(core))
    }
}

/// Whether a line is a header that some transports send before each message.
pub open spec fn transport_header(line: Seq<char>) -> bool {
    has_prefix(line, "Content-Length:"@) || has_prefix(line, "Content-Type:"@)
}

/// The answer to a line that is not a JSON-RPC request, where `error` says why:
/// transport headers are passed over in silence.
pub fn unreadable_line(line: &str, error: &str) -> (r: Option<JsonRpcError>)
    ensures
        match r {
            Some(e) => !transport_header(line@) && e.code == -32700 && e.message@
                == "Parse error: "@ + error@,
            None => transport_header(line@),
        },
{
    let chars = to_chars(line);
    if after_literal(chars.as_slice(), "Content-Length:").is_some() || after_literal(
        chars.as_slice(),
        "Content-Type:",
    ).is_some() {
        return None;
    }
    Some(JsonRpcError { code: -32700, message: phrase("Parse error: ", error) })
}

/// What a request without an id asks for: nothing, but the end of the handshake is
/// noted.
pub fn ends_handshake(method: &str) -> (r: bool)
    ensures
        r == (method@ == "notifications/initialized"@),
{
    same_text(method, "notifications/initialized")
}

/// What is done with a request.
#[derive(Debug, Clone, Copy, PartialEq, Eq, Structural)]
pub enum RequestStep {
    /// It is handled, and answered.
    Handle,
    /// The end of the handshake is noted; no answer.
    NoteHandshake,
    /// Another notification: nothing is done.
    Ignore,
}

/// What is done with a request that has an id or has none: only one that has an id
/// is handled.
pub fn request_step(has_id: bool, method: &str) -> (r: RequestStep)
    ensures
        r == if has_id {
            RequestStep::Handle
        } else if method@ == "notifications/initialized"@ {
            RequestStep::NoteHandshake
        } else {
            RequestStep::Ignore
        },
{
    if has_id {
        RequestStep::Handle
    } else if ends_handshake(method) {
        RequestStep::NoteHandshake
    } else {
        RequestStep::Ignore
    }
}

/// What is sent back for a request.
pub struct Reply<T> {
    pub result: Option<T>,
    pub error: Option<JsonRpcError>,
}

/// The reply to a request with the given outcome: none where the request has no
/// id, else one that holds either the result or the error.
pub fn reply_to<T>(has_id: bool, outcome: Result<T, McpError>) -> (r: Option<Reply<T>>)
    ensures
        match r {
            None => !has_id,
            Some(reply) => has_id && match outcome {
                Ok(value) => reply.result == Some(value) && reply.error is None,
                Err(e) => reply.result is None && reply.error is Some && (
                    reply.error->0.code as int,
                    reply.error->0.message@,
                ) == e@.numbered(),
            },
        },
{
    if !has_id {
        return None;
    }
    match outcome {
        Ok(value) => Some(Reply { result: Some(value), error: None }),
        Err(e) => Some(Reply { result: None, error: Some(e.into_rpc()) }),
    }
}

// ── Routing ────────────────────────────────────────────────────────────────

#[derive(Debug, Clone, Copy, PartialEq, Eq, Structural)]
pub enum Method {
    Initialize,
    ToolsList,
    ToolsCall,
}

/// Route a method name to the correct handler.
pub fn dispatch(method: &str) -> (r: Result<Method, McpError>)
    ensures
        match r {
            Ok(m) => method@ == match m {
                Method::Initialize => "initialize"@,
                Method::ToolsList => "tools/list"@,
                Method::ToolsCall => "tools/call"@,
            },
            Err(e) => method@ != "initialize"@ && method@ != "tools/list"@ && method@
                != "tools/call"@ && e@ == McpErrorView::MethodNotFound(
                "Unknown method: "@ + method@,
            ),
        },
{
    if same_text(method, "initialize") {
        Ok(Method::Initialize)
    } else if same_text(method, "tools/list") {
        Ok(Method::ToolsList)
    } else if same_text(method, "tools/call") {
        Ok(Method::ToolsCall)
    } else {
        Err(McpError::MethodNotFound(phrase("Unknown method: ", method)))
    }
}

#[derive(Debug, Clone, Copy, PartialEq, Eq, Structural)]
pub enum Tool {
    Bootstrap,
    CommitEvent,
    QueryMemory,
}

impl Tool {
    pub open spec fn name(self) -> Seq<char> {
        match self {
            Tool::Bootstrap => "runtime_bootstrap"@,
            Tool::CommitEvent => "runtime_commit_event"@,
            Tool::QueryMemory => "runtime_query_memory"@,
        }
    }
}

/// The tool of a name.
pub open spec fn tool_named(name: Seq<char>) -> Option<Tool> {
    if name == Tool::Bootstrap.name() {
        Some(Tool::Bootstrap)
    } else if name == Tool::CommitEvent.name() {
        Some(Tool::CommitEvent)
    } else if name == Tool::QueryMemory.name() {
        Some(Tool::QueryMemory)
    } else {
        None
    }
}

/// The tool that the parameters of `tools/call` name, or why there is none.
pub open spec fn called_tool(params: Option<Json>) -> Result<Tool, McpErrorView> {
    match params {
        None => Err(McpErrorView::InvalidParams("Missing params"@)),
        Some(p) => match p.text_at("name"@) {
            None => Err(McpErrorView::InvalidParams("Missing tool name"@)),
            Some(name) => match tool_named(name) {
                Some(tool) => Ok(tool),
                None => Err(McpErrorView::MethodNotFound("Unknown tool: "@ + name)),
            },
        },
    }
}

/// Route tools/call to the appropriate tool implementation.
pub fn tools_call(params: Option<&Json>) -> (r: Result<Tool, McpError>)
    ensures
        match r {
            Ok(tool) => called_tool(
                match params {
                    Some(p) => Some(*p),
                    None => None,
                },
            ) == Ok::<Tool, McpErrorView>(tool),
            Err(e) => called_tool(
                match params {
                    Some(p) => Some(*p),
                    None => None,
                },
            ) == Err::<Tool, McpErrorView>(e@),
        },
{
    let p = match params {
        Some(p) => p,
        None => {
            return Err(invalid("Missing params"));
        },
    };
    let name = match p.get_str("name") {
        Some(name) => name,
        None => {
            return Err(invalid("Missing tool name"));
        },
    };
    if same_text(name, "runtime_bootstrap") {
        Ok(Tool::Bootstrap)
    } else if same_text(name, "runtime_commit_event") {
        Ok(Tool::CommitEvent)
    } else if same_text(name, "runtime_query_memory") {
        Ok(Tool::QueryMemory)
    } else {
        Err(McpError::MethodNotFound(phrase("Unknown tool: ", name)))
    }
}

// ── Initialize ─────────────────────────────────────────────────────────────

/// The workspace that the client names: the URI of the first of its
/// `workspaceFolders`, or else its `rootUri`.
pub open spec fn workspace_uri(params: Json) -> Option<Seq<char>> {
    let folder = match params.field("workspaceFolders"@) {
        Some(list) => match list.head() {
            Some(first) => first.text_at("uri"@),
            None => None,
        },
        None => None,
    };
    if folder is Some {
        folder
    } else {
        params.text_at("rootUri"@)
    }
}

/// The path of a `file:` URI; any other text is taken as a path.
pub open spec fn uri_path(uri: Seq<char>) -> Seq<char> {
    if has_prefix(uri, "file:///"@) {
        uri.skip("file:///"@.len() as int)
    } else if has_prefix(uri, "file://"@) {
        uri.skip("file://"@.len() as int)
    } else {
        uri
    }
}

fn strip_file_scheme(uri: &str) -> (r: String)
    ensures
        r@ == uri_path(uri@),
{
    let chars = to_chars(uri);
    match after_literal(chars.as_slice(), "file:///") {
        Some(rest) => string_of(rest),
        None => match after_literal(chars.as_slice(), "file://") {
            Some(rest) => string_of(rest),
            None => uri.to_owned(),
        },
    }
}

/// The path of the workspace that the client names in `initialize`, if it names
/// one.
pub fn workspace_path(params: Option<&Json>) -> (r: Option<String>)
    ensures
        match r {
            Some(path) => params matches Some(p) && workspace_uri(*p) matches Some(uri) && path@
                == uri_path(uri),
            None => params matches Some(p) ==> workspace_uri(*p) is None,
        },
{
    let p = match params {
        Some(p) => p,
        None => {
            return None;
        },
    };
    let mut uri: Option<&str> = None;
    if let Some(list) = p.get("workspaceFolders") {
        if let Some(first) = list.first() {
            uri = first.get_str("uri");
        }
    }
    if uri.is_none() {
        uri = p.get_str("rootUri");
    }
    match uri {
        Some(uri) => Some(strip_file_scheme(uri)),
        None => None,
    }
}

// ── runtime_bootstrap ──────────────────────────────────────────────────────

/// The project that `runtime_bootstrap` is to switch to, if one is named.
pub fn wanted_project(args: &Json) -> (r: Option<&str>)
    ensures
        match r {
            Some(root) => args.text_at("project_root"@) == Some(root@),
            None => args.text_at("project_root"@) is None,
        },
{
    args.get_str("project_root")
}

/// The answer where the named project does not exist, `error` saying why.
pub fn bad_project_root(root: &str, error: &str) -> (r: McpError)
    ensures
        r@ == McpErrorView::InvalidParams("Invalid project_root path '"@ + root@ + "': "@ + error@),
{
    let mut m = phrase("Invalid project_root path '", root);
    m.append("': ");
    m.append(error);
    McpError::InvalidParams(m)
}

/// The answer where the project cannot be switched, `error` saying why.
pub fn switch_failed(error: &str) -> (r: McpError)
    ensures
        r@ == McpErrorView::Internal("Project switch failed: "@ + error@),
{
    McpError::Internal(phrase("Project switch failed: ", error))
}

/// The latest ADR in force, as the summary shows it.
pub struct AdrHeadline {
    pub id: String,
    pub title: String,
    pub status: AdrStatus,
}

/// A task as the summary shows it.
pub struct TaskLine {
    pub id: String,
    pub description: String,
    pub status: String,
}

/// The compressed runtime summary, decisions and constraints before tasks.
pub struct BootstrapSummary {
    pub current_phase: String,
    pub constraints: Vec<String>,
    pub latest_adr: Option<AdrHeadline>,
    pub adr_count: usize,
    pub trap_count: usize,
    pub active_tasks: Vec<TaskLine>,
}

#[verifier::ext_equal]
pub struct SummaryView {
    pub current_phase: Seq<char>,
    pub constraints: Seq<Seq<char>>,
    pub latest_adr: Option<(Seq<char>, Seq<char>, AdrStatus)>,
    pub adr_count: nat,
    pub trap_count: nat,
    pub active_tasks: Seq<(Seq<char>, Seq<char>, Seq<char>)>,
}

pub open spec fn headline_view(h: Option<AdrHeadline>) -> Option<
    (Seq<char>, Seq<char>, AdrStatus),
> {
    match h {
        Some(h) => Some((h.id@, h.title@, h.status)),
        None => None,
    }
}

pub open spec fn task_line_views(tasks: Seq<TaskLine>) -> Seq<(Seq<char>, Seq<char>, Seq<char>)> {
    tasks.map_values(|t: TaskLine| (t.id@, t.description@, t.status@))
}

impl View for BootstrapSummary {
    type V = SummaryView;

    open spec fn view(&self) -> SummaryView {
        SummaryView {
            current_phase: self.current_phase@,
            constraints: texts(self.constraints@),
            latest_adr: headline_view(self.latest_adr),
            adr_count: self.adr_count as nat,
            trap_count: self.trap_count as nat,
            active_tasks: task_line_views(self.active_tasks@),
        }
    }
}

/// The last ADR that is accepted or proposed.
pub open spec fn latest_active(adrs: Seq<AdrView>) -> Option<(Seq<char>, Seq<char>, AdrStatus)>
    decreases adrs.len(),
{
    if adrs.len() == 0 {
        None
    } else if adrs.last().status.active() {
        Some((adrs.last().id, adrs.last().title, adrs.last().status))
    } else {
        latest_active(adrs.drop_last())
    }
}

pub open spec fn told_task() -> spec_fn(TaskView) -> (Seq<char>, Seq<char>, Seq<char>) {
    |t: TaskView| (t.id, t.description, t.status.name())
}

/// What `runtime_bootstrap` tells of a memory state. Done tasks are left out.
pub open spec fn summary_of(m: ManagerView) -> SummaryView {
    SummaryView {
        current_phase: m.state.current_phase,
        constraints: m.state.constraints,
        latest_adr: latest_active(m.decisions),
        adr_count: m.decisions.len(),
        trap_count: m.traps.len(),
        active_tasks: m.state.active_tasks.filter(is_open()).map_values(told_task()),
    }
}

fn find_latest(adrs: &Vec<ADR>) -> (r: Option<AdrHeadline>)
    ensures
        headline_view(r) == latest_active(adr_views(adrs@)),
{
    let ghost all = adr_views(adrs@);
    let mut i: usize = adrs.len();
    assert(all.take(i as int) =~= all);
    while i > 0
        invariant
            i <= adrs@.len(),
            all == adr_views(adrs@),
            latest_active(all) == latest_active(all.take(i as int)),
        decreases i,
    {
        let a = &adrs[i - 1];
        proof {
            assert(all.take(i as int).last() == a@);
            assert(all.take(i as int).drop_last() =~= all.take(i - 1));
        }
        if a.status.is_active() {
            return Some(
                AdrHeadline { id: a.id.clone(), title: a.title.clone(), status: a.status },
            );
        }
        i = i - 1;
    }
    None
}

fn open_task_lines(tasks: &Vec<Task>) -> (r: Vec<TaskLine>)
    ensures
        task_line_views(r@) == task_views(tasks@).filter(is_open()).map_values(told_task()),
{
    let ghost all = task_views(tasks@);
    let mut r: Vec<TaskLine> = Vec::new();
    let mut i: usize = 0;
    proof {
        reveal(Seq::filter);
        assert(all.take(0).filter(is_open()) =~= Seq::empty());
        assert(task_line_views(r@) =~= all.take(0).filter(is_open()).map_values(told_task()));
    }
    while i < tasks.len()
        invariant
            i <= tasks@.len(),
            all == task_views(tasks@),
            task_line_views(r@) == all.take(i as int).filter(is_open()).map_values(told_task()),
        decreases tasks@.len() - i,
    {
        let t = &tasks[i];
        let ghost before = r@;
        let ghost kept = all.take(i as int).filter(is_open());
        proof {
            reveal(Seq::filter);
            assert(all.take(i + 1).drop_last() =~= all.take(i as int));
            assert(all.take(i + 1).last() == t@);
        }
        if !matches!(t.status, TaskStatus::Done) {
            let line = TaskLine {
                id: t.id.clone(),
                description: t.description.clone(),
                status: t.status.label().to_owned(),
            };
            r.push(line);
            proof {
                let told = (line.id@, line.description@, line.status@);
                assert(task_line_views(r@) =~= task_line_views(before).push(told));
                assert(kept.push(t@).map_values(told_task()) =~= kept.map_values(told_task()).push(
                    told,
                ));
            }
        }
        i = i + 1;
    }
    assert(all.take(i as int) =~= all);
    r
}

/// runtime_bootstrap: the compressed runtime summary.
pub fn runtime_bootstrap(manager: &StateManager) -> (r: BootstrapSummary)
    ensures
        r@ == summary_of(manager@),
{
    let r = BootstrapSummary {
        current_phase: manager.state.current_phase.clone(),
        constraints: clone_strings(&manager.state.constraints),
        latest_adr: find_latest(&manager.decisions),
        adr_count: manager.decisions.len(),
        trap_count: manager.traps.len(),
        active_tasks: open_task_lines(&manager.state.active_tasks),
    };
    proof {
        assert(adr_views(manager.decisions@).len() == manager.decisions@.len());
        assert(trap_views(manager.traps@).len() == manager.traps@.len());
        assert(r@ =~= summary_of(manager@));
    }
    r
}

// ── runtime_commit_event ───────────────────────────────────────────────────

/// The kind and the payload of the event that `runtime_commit_event` is given.
pub fn commit_args(args: &Json) -> (r: Result<(&str, &Json), McpError>)
    ensures
        match r {
            Ok((kind, payload)) => args.text_at("event_type"@) == Some(kind@) && args.field(
                "payload"@,
            ) == Some(*payload),
            Err(e) => e@ == McpErrorView::InvalidParams(
                if args.text_at("event_type"@) is None {
                    "Missing event_type"@
                } else {
                    "Missing payload"@
                },
            ) && (args.text_at("event_type"@) is None || args.field("payload"@) is None),
        },
{
    let kind = match args.get_str("event_type") {
        Some(kind) => kind,
        None => {
            return Err(invalid("Missing event_type"));
        },
    };
    match args.get("payload") {
        Some(payload) => Ok((kind, payload)),
        None => Err(invalid("Missing payload")),
    }
}

/// What reading an event comes to: the event, a refusal, or the record that the
/// payload has to be decoded to.
pub enum EventStep {
    Ready(RuntimeEvent),
    Refused(McpError),
    DecodeTask,
    DecodeAdr,
    DecodeTrap,
}

#[verifier::ext_equal]
pub enum EventStepView {
    Ready(RuntimeEventView),
    Refused(McpErrorView),
    DecodeTask,
    DecodeAdr,
    DecodeTrap,
}

impl View for EventStep {
    type V = EventStepView;

    open spec fn view(&self) -> EventStepView {
        match self {
            EventStep::Ready(e) => EventStepView::Ready(e@),
            EventStep::Refused(e) => EventStepView::Refused(e@),
            EventStep::DecodeTask => EventStepView::DecodeTask,
            EventStep::DecodeAdr => EventStepView::DecodeAdr,
            EventStep::DecodeTrap => EventStepView::DecodeTrap,
        }
    }
}

/// The statuses that an update may give a task.
pub open spec fn update_status(name: Seq<char>) -> Option<TaskStatus> {
    if name == "Todo"@ {
        Some(TaskStatus::Todo)
    } else if name == "InProgress"@ {
        Some(TaskStatus::InProgress)
    } else if name == "Blocked"@ {
        Some(TaskStatus::Blocked)
    } else if name == "Done"@ {
        Some(TaskStatus::Done)
    } else {
        None
    }
}

pub open spec fn refused(message: Seq<char>) -> EventStepView {
    EventStepView::Refused(McpErrorView::InvalidParams(message))
}

/// The update of a task that a payload asks for.
pub open spec fn task_update(payload: Json) -> EventStepView {
    match payload.text_at("task_id"@) {
        None => refused("Missing task_id"@),
        Some(task_id) => match payload.text_at("new_status"@) {
            None => refused("Missing new_status"@),
            Some(name) => match update_status(name) {
                None => refused(
                    "Invalid task status: "@ + name
                        + " (expected Todo|InProgress|Blocked|Done)"@,
                ),
                Some(new_status) => EventStepView::Ready(
                    RuntimeEventView::TaskUpdated { task_id, new_status, superseded_by: None },
                ),
            },
        },
    }
}

/// The change of phase that a payload asks for; the payload may be the phase itself.
pub open spec fn phase_change(payload: Json) -> EventStepView {
    let phase = if payload.text_at("new_phase"@) is Some {
        payload.text_at("new_phase"@)
    } else {
        payload.text()
    };
    match phase {
        None => refused("Missing new_phase"@),
        Some(p) => EventStepView::Ready(RuntimeEventView::PhaseChanged(canonical_phase(p))),
    }
}

/// How an event of the given kind is read.
pub open spec fn event_step(kind: Seq<char>, payload: Json) -> EventStepView {
    if kind == "TaskUpdated"@ {
        task_update(payload)
    } else if kind == "AdrCommitted"@ {
        EventStepView::DecodeAdr
    } else if kind == "TrapRecorded"@ {
        EventStepView::DecodeTrap
    } else if kind == "PhaseChanged"@ {
        phase_change(payload)
    } else if kind == "TaskCreated"@ {
        EventStepView::DecodeTask
    } else {
        refused("Unknown event_type: "@ + kind)
    }
}

fn read_task_update(payload: &Json) -> (r: EventStep)
    ensures
        r@ == task_update(*payload),
{
    let task_id = match payload.get_str("task_id") {
        Some(id) => id,
        None => {
            return EventStep::Refused(invalid("Missing task_id"));
        },
    };
    let name = match payload.get_str("new_status") {
        Some(name) => name,
        None => {
            return EventStep::Refused(invalid("Missing new_status"));
        },
    };
    let new_status = if same_text(name, "Todo") {
        TaskStatus::Todo
    } else if same_text(name, "InProgress") {
        TaskStatus::InProgress
    } else if same_text(name, "Blocked") {
        TaskStatus::Blocked
    } else if same_text(name, "Done") {
        TaskStatus::Done
    } else {
        let mut m = phrase("Invalid task status: ", name);
        m.append(" (expected Todo|InProgress|Blocked|Done)");
        return EventStep::Refused(McpError::InvalidParams(m));
    };
    EventStep::Ready(
        RuntimeEvent::TaskUpdated { task_id: task_id.to_owned(), new_status, superseded_by: None },
    )
}

/// Parse an event kind and its payload into a runtime event, or say what the payload
/// has to be decoded to.
pub fn parse_event(kind: &str, payload: &Json) -> (r: EventStep)
    ensures
        r@ == event_step(kind@, *payload),
{
    if same_text(kind, "TaskUpdated") {
        read_task_update(payload)
    } else if same_text(kind, "AdrCommitted") {
        EventStep::DecodeAdr
    } else if same_text(kind, "TrapRecorded") {
        EventStep::DecodeTrap
    } else if same_text(kind, "PhaseChanged") {
        let mut phase = payload.get_str("new_phase");
        if phase.is_none() {
            phase = payload.as_str();
        }
        match phase {
            Some(p) => EventStep::Ready(RuntimeEvent::PhaseChanged(canonicalize_phase(p))),
            None => EventStep::Refused(invalid("Missing new_phase")),
        }
    } else if same_text(kind, "TaskCreated") {
        EventStep::DecodeTask
    } else {
        EventStep::Refused(McpError::InvalidParams(phrase("Unknown event_type: ", kind)))
    }
}

/// The event of a decoded task, which begins as Todo, or why it was not decoded.
pub fn task_event(decoded: Result<TaskCreatePayload, String>) -> (r: Result<RuntimeEvent, McpError>)
    ensures
        match decoded {
            Ok(task) => r matches Ok(e) && e@ == RuntimeEventView::TaskCreated(task.task()),
            Err(why) => r matches Err(e) && e@ == McpErrorView::InvalidParams(
                "Invalid Task payload: "@ + why@,
            ),
        },
{
    match decoded {
        Ok(task) => Ok(RuntimeEvent::TaskCreated(task.into_task())),
        Err(why) => Err(McpError::InvalidParams(phrase("Invalid Task payload: ", why.as_str()))),
    }
}

/// The event of a decoded ADR, or why it was not decoded.
pub fn adr_event(decoded: Result<ADR, String>) -> (r: Result<RuntimeEvent, McpError>)
    ensures
        match decoded {
            Ok(adr) => r matches Ok(e) && e@ == RuntimeEventView::AdrCommitted(adr@),
            Err(why) => r matches Err(e) && e@ == McpErrorView::InvalidParams(
                "Invalid ADR payload: "@ + why@,
            ),
        },
{
    match decoded {
        Ok(adr) => Ok(RuntimeEvent::AdrCommitted(adr)),
        Err(why) => Err(McpError::InvalidParams(phrase("Invalid ADR payload: ", why.as_str()))),
    }
}

/// The event of a decoded trap, or why it was not decoded.
pub fn trap_event(decoded: Result<Trap, String>) -> (r: Result<RuntimeEvent, McpError>)
    ensures
        match decoded {
            Ok(trap) => r matches Ok(e) && e@ == RuntimeEventView::TrapRecorded(trap@),
            Err(why) => r matches Err(e) && e@ == McpErrorView::InvalidParams(
                "Invalid Trap payload: "@ + why@,
            ),
        },
{
    match decoded {
        Ok(trap) => Ok(RuntimeEvent::TrapRecorded(trap)),
        Err(why) => Err(McpError::InvalidParams(phrase("Invalid Trap payload: ", why.as_str()))),
    }
}

/// The answer to an event that was handed to the state manager.
pub enum CommitReply {
    /// The text that confirms the event.
    Committed(String),
    /// A conflict, which is an answer of the tool and no error of the protocol.
    Conflict { message: String },
}

#[verifier::ext_equal]
pub enum CommitReplyView {
    Committed(Seq<char>),
    Conflict { message: Seq<char> },
}

impl View for CommitReply {
    type V = CommitReplyView;

    open spec fn view(&self) -> CommitReplyView {
        match self {
            CommitReply::Committed(text) => CommitReplyView::Committed(text@),
            CommitReply::Conflict { message } => CommitReplyView::Conflict { message: message@ },
        }
    }
}

/// What an applied or refused event is answered: a refusal that begins with
/// `[CONFLICT]` is told to the caller as such, any other is an internal error.
pub open spec fn commit_answer(refusal: Option<Seq<char>>) -> Result<
    CommitReplyView,
    McpErrorView,
> {
    match refusal {
        None => Ok(CommitReplyView::Committed("Event successfully committed to runtime state."@)),
        Some(message) => if has_prefix(message, "[CONFLICT]"@) {
            Ok(CommitReplyView::Conflict { message })
        } else {
            Err(McpErrorView::Internal("State update failed: "@ + message))
        },
    }
}

/// The answer to an event, given what the state manager made of it.
pub fn commit_reply(outcome: Result<(), EventError>) -> (r: Result<CommitReply, McpError>)
    ensures
        ({
            let refusal = match outcome {
                Ok(_) => None,
                Err(e) => Some(e.message@),
            };
            match r {
                Ok(reply) => commit_answer(refusal) == Ok::<CommitReplyView, McpErrorView>(reply@),
                Err(e) => commit_answer(refusal) == Err::<CommitReplyView, McpErrorView>(e@),
            }
        }),
{
    match outcome {
        Ok(()) => Ok(
            CommitReply::Committed("Event successfully committed to runtime state.".to_owned()),
        ),
        Err(e) => {
            let chars = to_chars(e.message.as_str());
            if after_literal(chars.as_slice(), "[CONFLICT]").is_some() {
                Ok(CommitReply::Conflict { message: e.message })
            } else {
                Err(McpError::Internal(phrase("State update failed: ", e.message.as_str())))
            }
        },
    }
}

/// runtime_commit_event: apply an event and answer the caller. A refused event
/// changes nothing.
pub fn runtime_commit_event(manager: &mut StateManager, event: RuntimeEvent) -> (r: Result<
    CommitReply,
    McpError,
>)
    requires
        old(manager).wf(),
    ensures
        final(manager).wf(),
        ({
            let refusal = match applied(old(manager)@, event@) {
                Ok(_) => None,
                Err(m) => Some(m),
            };
            match r {
                Ok(reply) => commit_answer(refusal) == Ok::<CommitReplyView, McpErrorView>(reply@),
                Err(e) => commit_answer(refusal) == Err::<CommitReplyView, McpErrorView>(e@),
            }
        }),
        match applied(old(manager)@, event@) {
            Ok(m) => final(manager)@ == m,
            Err(_) => final(manager)@ == old(manager)@,
        },
{
    let outcome = manager.apply_event(event);
    commit_reply(outcome)
}

// ── runtime_query_memory ───────────────────────────────────────────────────

/// What `runtime_query_memory` is asked.
pub struct QueryArgs {
    pub query: String,
    pub limit: usize,
    pub include_stale: bool,
}

/// The number of results: what is asked for, between one and twenty, or three.
pub open spec fn result_limit(args: Json) -> int {
    match args.field("limit"@) {
        Some(Json::Count(n)) => if n < 1 {
            1
        } else if n > 20 {
            20
        } else {
            n as int
        },
        _ => 3,
    }
}

/// Read the arguments of `runtime_query_memory`.
pub fn query_args(args: &Json) -> (r: Result<QueryArgs, McpError>)
    ensures
        match r {
            Ok(q) => {
                &&& args.text_at("query_intent"@) matches Some(intent) && q.query@ == lowercase(
                    intent,
                )
                &&& q.limit == result_limit(*args)
                &&& q.include_stale == (args.field("include_stale"@) matches Some(Json::Bool(b))
                    && b)
            },
            Err(e) => args.text_at("query_intent"@) is None && e@ == McpErrorView::InvalidParams(
                "Missing query_intent"@,
            ),
        },
{
    let query = match args.get_str("query_intent") {
        Some(intent) => to_lower(intent),
        None => {
            return Err(invalid("Missing query_intent"));
        },
    };
    let limit: usize = match args.get("limit") {
        Some(Json::Count(n)) => if *n < 1 {
            1
        } else if *n > 20 {
            20
        } else {
            *n as usize
        },
        _ => 3,
    };
    let include_stale = match args.get("include_stale") {
        Some(Json::Bool(b)) => *b,
        _ => false,
    };
    Ok(QueryArgs { query, limit, include_stale })
}

/// A search result as the answer shows it.
pub enum ResultItem {
    Adr { id: String, title: String, status: AdrStatus, summary: String, tags: Vec<String> },
    Trap { signature: String, solution: String, root_cause: String, prevention: String },
}

#[verifier::ext_equal]
pub enum ResultItemView {
    Adr {
        id: Seq<char>,
        title: Seq<char>,
        status: AdrStatus,
        summary: Seq<char>,
        tags: Seq<Seq<char>>,
    },
    Trap {
        signature: Seq<char>,
        solution: Seq<char>,
        root_cause: Seq<char>,
        prevention: Seq<char>,
    },
}

impl View for ResultItem {
    type V = ResultItemView;

    open spec fn view(&self) -> ResultItemView {
        match self {
            ResultItem::Adr { id, title, status, summary, tags } => ResultItemView::Adr {
                id: id@,
                title: title@,
                status: *status,
                summary: summary@,
                tags: texts(tags@),
            },
            ResultItem::Trap { signature, solution, root_cause, prevention } => {
                ResultItemView::Trap {
                    signature: signature@,
                    solution: solution@,
                    root_cause: root_cause@,
                    prevention: prevention@,
                }
            },
        }
    }
}

/// How a found item is shown: an ADR by its headline and the beginning of its
/// decision, a trap by its signature and what to do about it.
pub open spec fn shown_item(item: SearchItemView) -> ResultItemView {
    match item {
        SearchItemView::Adr(a) => ResultItemView::Adr {
            id: a.id,
            title: a.title,
            status: a.status,
            summary: truncated(a.decision, 200),
            tags: a.tags,
        },
        SearchItemView::Trap(t) => ResultItemView::Trap {
            signature: t.error_signature,
            solution: t.solution,
            root_cause: t.root_cause,
            prevention: t.prevention,
        },
    }
}

/// A found item as the answer shows it.
pub fn result_item(item: SearchItem) -> (r: ResultItem)
    ensures
        r@ == shown_item(item@),
{
    match item {
        SearchItem::Adr(a) => {
            let summary = truncate(a.decision.as_str(), 200);
            ResultItem::Adr { id: a.id, title: a.title, status: a.status, summary, tags: a.tags }
        },
        SearchItem::Trap(t) => ResultItem::Trap {
            signature: t.error_signature,
            solution: t.solution,
            root_cause: t.root_cause,
            prevention: t.prevention,
        },
    }
}

// ── Laws ───────────────────────────────────────────────────────────────────

/// A commit that contradicts an accepted ADR of the same id is answered as a
/// conflict that names it, and is not applied.
pub proof fn law_contradiction_is_a_conflict(m: ManagerView, adr: AdrView, existing: AdrView)
    requires
        accepted_adr(m.decisions, adr.id) == Some(existing),
        !same_content(existing, adr),
    ensures
        applied(m, RuntimeEventView::AdrCommitted(adr)) matches Err(message) && commit_answer(
            Some(message),
        ) == Ok::<CommitReplyView, McpErrorView>(CommitReplyView::Conflict { message })
            && message == "[CONFLICT] ADR "@ + adr.id
            + " conflict: an active ADR with this id already exists with different content."@,
{
    reveal_strlit("[CONFLICT] ADR ");
    reveal_strlit("[CONFLICT]");
    let message = "[CONFLICT] ADR "@ + adr.id
        + " conflict: an active ADR with this id already exists with different content."@;
    assert(message.take("[CONFLICT]"@.len() as int) =~= "[CONFLICT]"@);
}

/// A commit of what was rejected before is answered as a conflict, and is not
/// applied.
pub proof fn law_rejected_repeat_is_a_conflict(m: ManagerView, adr: AdrView)
    requires
        accepted_adr(m.decisions, adr.id) is None,
        was_rejected(m.decisions, adr),
    ensures
        applied(m, RuntimeEventView::AdrCommitted(adr)) matches Err(message) && commit_answer(
            Some(message),
        ) == Ok::<CommitReplyView, McpErrorView>(CommitReplyView::Conflict { message })
            && message == "[CONFLICT] ADR "@ + adr.id
            + " was previously rejected with the same decision content."@,
{
    reveal_strlit("[CONFLICT] ADR ");
    reveal_strlit("[CONFLICT]");
    let message = "[CONFLICT] ADR "@ + adr.id
        + " was previously rejected with the same decision content."@;
    assert(message.take("[CONFLICT]"@.len() as int) =~= "[CONFLICT]"@);
}

/// Each kind of error has a code of its own.
pub proof fn law_error_codes_tell_apart(a: McpErrorView, b: McpErrorView)
    ensures
        -32603 <= a.numbered().0 <= -32601,
        a.numbered().0 == b.numbered().0 <==> (a is MethodNotFound == b is MethodNotFound && a
            is InvalidParams == b is InvalidParams),
{
}

/// No event that a client sends as an update finishes a task otherwise than as
/// Done, and none says what superseded it.
pub proof fn law_updates_never_supersede(kind: Seq<char>, payload: Json)
    ensures
        event_step(kind, payload) matches EventStepView::Ready(
            RuntimeEventView::TaskUpdated { new_status, superseded_by, .. },
        ) ==> superseded_by is None && (new_status.terminal() ==> new_status is Done),
{
}

/// The summary shows no Done task, and an ADR in force if there is any.
pub proof fn law_summary_shows_what_is_in_force(m: ManagerView)
    ensures
        forall|i: int|
            0 <= i < summary_of(m).active_tasks.len() ==> (#[trigger] summary_of(
                m,
            ).active_tasks[i]).2 != TaskStatus::Done.name(),
        summary_of(m).latest_adr is Some <==> m.decisions.filter(is_active()).len() > 0,
        summary_of(m).latest_adr matches Some(a) ==> a.2.active(),
{
    let open = m.state.active_tasks.filter(is_open());
    assert forall|i: int| 0 <= i < summary_of(m).active_tasks.len() implies (#[trigger] summary_of(
        m,
    ).active_tasks[i]).2 != TaskStatus::Done.name() by {
        lemma_filter_from(m.state.active_tasks, is_open(), i);
        lemma_done_named_alone(open[i].status);
    }
    lemma_latest_active(m.decisions);
}

proof fn lemma_done_named_alone(status: TaskStatus)
    requires
        !(status is Done),
    ensures
        status.name() != TaskStatus::Done.name(),
{
    reveal_strlit("Todo");
    reveal_strlit("InProgress");
    reveal_strlit("Done");
    reveal_strlit("Blocked");
    reveal_strlit("Superseded");
    reveal_strlit("Cancelled");
    assert(status.name()[0] != TaskStatus::Done.name()[0]);
}

proof fn lemma_latest_active(adrs: Seq<AdrView>)
    ensures
        latest_active(adrs) is Some <==> adrs.filter(is_active()).len() > 0,
        latest_active(adrs) matches Some(a) ==> a.2.active(),
    decreases adrs.len(),
{
    reveal(Seq::filter);
    if adrs.len() > 0 {
        lemma_latest_active(adrs.drop_last());
    }
}

} // verus!
