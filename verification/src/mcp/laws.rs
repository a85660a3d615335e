//! What requests mean and what they are answered, told value by value.
use vstd::prelude::*;

use crate::engine::projection::context::is_open;
use crate::engine::projection::phase::canonical_phase;
use crate::engine::state_manager::ManagerView;
use crate::mcp::json::{field_in, Json};
use crate::mcp::server::{
    called_tool, commit_answer, event_step, latest_active, result_limit, shown_item, summary_of,
    told_task, transport_header, uri_path, workspace_uri, BootstrapSummary, CommitReply,
    CommitReplyView, EventStep, EventStepView, McpError, McpErrorView, ResultItem, ResultItemView,
    Tool,
};
use crate::models::{
    AdrView, RuntimeEventView, RuntimeStateView, TaskCreatePayload, TaskStatus, TaskView, TrapView,
};
use crate::search::index::SearchItemView;
use crate::text::{has_prefix, texts};

verus! {

// ── The summary ────────────────────────────────────────────────────────────

/// The latest ADR of the summary is the decision at the greatest position that is
/// accepted or proposed, told by its id, title and status; where there is none, none
/// is told.
pub proof fn law_latest_adr_is_the_last_in_force(m: ManagerView)
    ensures
        forall|i: int|
            0 <= i < m.decisions.len() && ((#[trigger] m.decisions[i]).status is Accepted
                || m.decisions[i].status is Proposed) && (forall|j: int|
                i < j < m.decisions.len() ==> !((#[trigger] m.decisions[j]).status is Accepted)
                    && !(m.decisions[j].status is Proposed)) ==> summary_of(m).latest_adr == Some(
                (m.decisions[i].id, m.decisions[i].title, m.decisions[i].status),
            ),
        (forall|i: int|
            0 <= i < m.decisions.len() ==> !((#[trigger] m.decisions[i]).status is Accepted) && !(
            m.decisions[i].status is Proposed)) ==> summary_of(m).latest_adr is None,
{
    let adrs = m.decisions;
    assert forall|i: int|
        0 <= i < adrs.len() && ((#[trigger] adrs[i]).status is Accepted || adrs[i].status
            is Proposed) && (forall|j: int|
            i < j < adrs.len() ==> !((#[trigger] adrs[j]).status is Accepted) && !(adrs[j].status
                is Proposed)) implies latest_active(adrs) == Some(
        (adrs[i].id, adrs[i].title, adrs[i].status),
    ) by {
        lemma_latest_at(adrs, i);
    }
    if forall|i: int|
        0 <= i < adrs.len() ==> !((#[trigger] adrs[i]).status is Accepted) && !(adrs[i].status
            is Proposed) {
        lemma_latest_none(adrs);
    }
}

proof fn lemma_latest_at(adrs: Seq<AdrView>, i: int)
    requires
        0 <= i < adrs.len(),
        adrs[i].status is Accepted || adrs[i].status is Proposed,
        forall|j: int|
            i < j < adrs.len() ==> !((#[trigger] adrs[j]).status is Accepted) && !(adrs[j].status
                is Proposed),
    ensures
        latest_active(adrs) == Some((adrs[i].id, adrs[i].title, adrs[i].status)),
    decreases adrs.len(),
{
    if i < adrs.len() - 1 {
        let rest = adrs.drop_last();
        assert(!(adrs[adrs.len() - 1].status is Accepted));
        assert forall|j: int| i < j < rest.len() implies !((#[trigger] rest[j]).status is Accepted)
            && !(rest[j].status is Proposed) by {
            assert(rest[j] == adrs[j]);
        }
        lemma_latest_at(rest, i);
    }
}

proof fn lemma_latest_none(adrs: Seq<AdrView>)
    requires
        forall|i: int|
            0 <= i < adrs.len() ==> !((#[trigger] adrs[i]).status is Accepted) && !(adrs[i].status
                is Proposed),
    ensures
        latest_active(adrs) is None,
    decreases adrs.len(),
{
    if adrs.len() > 0 {
        let rest = adrs.drop_last();
        assert(!(adrs[adrs.len() - 1].status is Accepted));
        assert forall|j: int| 0 <= j < rest.len() implies !((#[trigger] rest[j]).status is Accepted)
            && !(rest[j].status is Proposed) by {
            assert(rest[j] == adrs[j]);
        }
        lemma_latest_none(rest);
    }
}

/// The summary tells the phase and the constraints as they are, and how many
/// decisions and traps there are, of whatever status.
pub proof fn law_summary_tells_phase_constraints_and_counts(m: ManagerView)
    ensures
        summary_of(m).current_phase == m.state.current_phase,
        summary_of(m).constraints == m.state.constraints,
        summary_of(m).adr_count == m.decisions.len(),
        summary_of(m).trap_count == m.traps.len(),
{
}

/// `m` with one more active task, at the end.
pub open spec fn with_active_task(m: ManagerView, t: TaskView) -> ManagerView {
    ManagerView {
        state: RuntimeStateView { active_tasks: m.state.active_tasks.push(t), ..m.state },
        ..m
    }
}

/// The summary tells the active tasks in order, each by its id, its description and
/// the name of its status, and leaves out those that are Done: a further task adds
/// itself at the end, or nothing where it is Done.
pub proof fn law_summary_tells_each_open_task(m: ManagerView, t: TaskView)
    ensures
        m.state.active_tasks.len() == 0 ==> summary_of(m).active_tasks.len() == 0,
        summary_of(with_active_task(m, t)).active_tasks == match t.status {
            TaskStatus::Todo => summary_of(m).active_tasks.push((t.id, t.description, "Todo"@)),
            TaskStatus::InProgress => summary_of(m).active_tasks.push(
                (t.id, t.description, "InProgress"@),
            ),
            TaskStatus::Blocked => summary_of(m).active_tasks.push(
                (t.id, t.description, "Blocked"@),
            ),
            TaskStatus::Superseded => summary_of(m).active_tasks.push(
                (t.id, t.description, "Superseded"@),
            ),
            TaskStatus::Cancelled => summary_of(m).active_tasks.push(
                (t.id, t.description, "Cancelled"@),
            ),
            TaskStatus::Done => summary_of(m).active_tasks,
        },
{
    reveal(Seq::filter);
    let ts = m.state.active_tasks;
    let kept = ts.filter(is_open());
    assert(ts.push(t).drop_last() =~= ts);
    if !(t.status is Done) {
        assert(kept.push(t).map_values(told_task()) =~= kept.map_values(told_task()).push(
            told_task()(t),
        ));
    }
}

// ── Values of requests ─────────────────────────────────────────────────────

/// A key of an object is looked up by the first field of that name; a value that is
/// no object has no fields.
pub proof fn law_field_is_the_first_of_its_name(
    fields: Vec<(String, Json)>,
    key: Seq<char>,
    i: int,
)
    ensures
        0 <= i < fields@.len() && fields@[i].0@ == key && (forall|j: int|
            0 <= j < i ==> (#[trigger] fields@[j]).0@ != key) ==> Json::Object(fields).field(key)
            == Some(fields@[i].1),
        (forall|j: int| 0 <= j < fields@.len() ==> (#[trigger] fields@[j]).0@ != key)
            ==> Json::Object(fields).field(key) is None,
{
    lemma_field_in(fields@, key, i);
}

proof fn lemma_field_in(fields: Seq<(String, Json)>, key: Seq<char>, i: int)
    ensures
        0 <= i < fields.len() && fields[i].0@ == key && (forall|j: int|
            0 <= j < i ==> (#[trigger] fields[j]).0@ != key) ==> field_in(fields, key) == Some(
            fields[i].1,
        ),
        (forall|j: int| 0 <= j < fields.len() ==> (#[trigger] fields[j]).0@ != key) ==> field_in(
            fields,
            key,
        ) is None,
    decreases fields.len(),
{
    if fields.len() > 0 {
        let rest = fields.drop_first();
        lemma_field_in(rest, key, i - 1);
        assert forall|j: int| 0 <= j < rest.len() implies (#[trigger] rest[j]) == fields[j + 1] by {}
        if 0 < i < fields.len() {
            assert(rest[i - 1] == fields[i]);
            if forall|j: int| 0 <= j < i ==> (#[trigger] fields[j]).0@ != key {
                assert(fields[0].0@ != key);
                assert forall|j: int| 0 <= j < i - 1 implies (#[trigger] rest[j]).0@ != key by {
                    assert(fields[j + 1].0@ != key);
                }
            }
        }
        if forall|j: int| 0 <= j < fields.len() ==> (#[trigger] fields[j]).0@ != key {
            assert(fields[0].0@ != key);
            assert forall|j: int| 0 <= j < rest.len() implies (#[trigger] rest[j]).0@ != key by {
                assert(fields[j + 1].0@ != key);
            }
        }
    }
}

/// Only texts are read as texts, only objects have fields, and only lists have a
/// first element.
pub proof fn law_values_are_read_by_their_kind(v: Json, key: Seq<char>)
    ensures
        v is Text ==> v.text() == Some(v->Text_0@),
        !(v is Text) ==> v.text() is None,
        !(v is Object) ==> v.field(key) is None && v.text_at(key) is None,
        v.field(key) matches Some(Json::Text(s)) ==> v.text_at(key) == Some(s@),
        v.text_at(key) is Some ==> (v.field(key) matches Some(Json::Text(s)) && v.text_at(key)
            == Some(s@)),
        v is List && v->List_0@.len() > 0 ==> v.head() == Some(v->List_0@[0]),
        !(v is List) ==> v.head() is None,
        v is List && v->List_0@.len() == 0 ==> v.head() is None,
{
}

// ── Calls and events ───────────────────────────────────────────────────────

/// A call is routed by the text under `name`; without parameters, without a name, or
/// with an unknown one it is refused.
pub proof fn law_tool_is_called_by_name(params: Json, name: Seq<char>)
    requires
        params.text_at("name"@) == Some(name),
    ensures
        name == "runtime_bootstrap"@ ==> called_tool(Some(params)) == Ok::<Tool, McpErrorView>(
            Tool::Bootstrap,
        ),
        name == "runtime_commit_event"@ ==> called_tool(Some(params)) == Ok::<Tool, McpErrorView>(
            Tool::CommitEvent,
        ),
        name == "runtime_query_memory"@ ==> called_tool(Some(params)) == Ok::<Tool, McpErrorView>(
            Tool::QueryMemory,
        ),
        name != "runtime_bootstrap"@ && name != "runtime_commit_event"@ && name
            != "runtime_query_memory"@ ==> called_tool(Some(params)) == Err::<Tool, McpErrorView>(
            McpErrorView::MethodNotFound("Unknown tool: "@ + name),
        ),
        called_tool(None) matches Err(e) && e is InvalidParams,
{
    reveal_strlit("runtime_bootstrap");
    reveal_strlit("runtime_commit_event");
    reveal_strlit("runtime_query_memory");
    assert("runtime_bootstrap"@.len() == 17);
    assert("runtime_commit_event"@[8] == 'c');
    assert("runtime_query_memory"@[8] == 'q');
}

/// An update names a task and one of four statuses, and is read as the update of that
/// task to that status.
pub proof fn law_update_is_read_as_given(payload: Json, id: Seq<char>, name: Seq<char>)
    requires
        payload.text_at("task_id"@) == Some(id),
        payload.text_at("new_status"@) == Some(name),
    ensures
        ({
            let step = event_step("TaskUpdated"@, payload);
            let read = |status: TaskStatus|
                EventStepView::Ready(
                    RuntimeEventView::TaskUpdated {
                        task_id: id,
                        new_status: status,
                        superseded_by: None,
                    },
                );
            &&& name == "Todo"@ ==> step == read(TaskStatus::Todo)
            &&& name == "InProgress"@ ==> step == read(TaskStatus::InProgress)
            &&& name == "Blocked"@ ==> step == read(TaskStatus::Blocked)
            &&& name == "Done"@ ==> step == read(TaskStatus::Done)
            &&& name != "Todo"@ && name != "InProgress"@ && name != "Blocked"@ && name != "Done"@
                ==> (step matches EventStepView::Refused(e) && e is InvalidParams)
        }),
{
    reveal_strlit("Todo");
    reveal_strlit("InProgress");
    reveal_strlit("Blocked");
    reveal_strlit("Done");
    assert("Todo"@[0] == 'T' && "InProgress"@[0] == 'I' && "Blocked"@[0] == 'B' && "Done"@[0]
        == 'D');
}

/// An update that names no task or no status is refused.
pub proof fn law_incomplete_update_is_refused(payload: Json)
    requires
        payload.text_at("task_id"@) is None || payload.text_at("new_status"@) is None,
    ensures
        event_step("TaskUpdated"@, payload) matches EventStepView::Refused(e) && e is InvalidParams,
{
}

/// A change of phase is read from `new_phase`, or else from the payload itself, and
/// is canonical; without either it is refused.
pub proof fn law_phase_is_read_and_canonical(payload: Json)
    ensures
        payload.text_at("new_phase"@) matches Some(p) ==> event_step("PhaseChanged"@, payload)
            == EventStepView::Ready(RuntimeEventView::PhaseChanged(canonical_phase(p))),
        payload matches Json::Text(s) ==> event_step("PhaseChanged"@, payload)
            == EventStepView::Ready(RuntimeEventView::PhaseChanged(canonical_phase(s@))),
        payload.text_at("new_phase"@) is None && !(payload is Text) ==> (event_step(
            "PhaseChanged"@,
            payload,
        ) matches EventStepView::Refused(e) && e is InvalidParams),
{
    lemma_kinds_differ();
}

/// The records of ADRs, traps and new tasks are decoded; a kind that is not known is
/// refused, and the refusal names it.
pub proof fn law_kinds_of_events(kind: Seq<char>, payload: Json)
    ensures
        kind == "AdrCommitted"@ <==> event_step(kind, payload) is DecodeAdr,
        kind == "TrapRecorded"@ <==> event_step(kind, payload) is DecodeTrap,
        kind == "TaskCreated"@ <==> event_step(kind, payload) is DecodeTask,
        kind != "AdrCommitted"@ && kind != "TrapRecorded"@ && kind != "TaskCreated"@ && kind
            != "TaskUpdated"@ && kind != "PhaseChanged"@ ==> event_step(kind, payload)
            == EventStepView::Refused(
            McpErrorView::InvalidParams("Unknown event_type: "@ + kind),
        ),
{
    lemma_kinds_differ();
}

proof fn lemma_kinds_differ()
    ensures
        "TaskUpdated"@ != "AdrCommitted"@,
        "TaskUpdated"@ != "TrapRecorded"@,
        "TaskUpdated"@ != "PhaseChanged"@,
        "TaskUpdated"@ != "TaskCreated"@,
        "AdrCommitted"@ != "TrapRecorded"@,
        "AdrCommitted"@ != "PhaseChanged"@,
        "AdrCommitted"@ != "TaskCreated"@,
        "TrapRecorded"@ != "PhaseChanged"@,
        "TrapRecorded"@ != "TaskCreated"@,
        "PhaseChanged"@ != "TaskCreated"@,
{
    reveal_strlit("TaskUpdated");
    reveal_strlit("AdrCommitted");
    reveal_strlit("TrapRecorded");
    reveal_strlit("PhaseChanged");
    reveal_strlit("TaskCreated");
    assert("TaskUpdated"@[4] == 'U' && "AdrCommitted"@[0] == 'A' && "TrapRecorded"@[1] == 'r'
        && "PhaseChanged"@[0] == 'P' && "TaskCreated"@[4] == 'C' && "TaskCreated"@[1] == 'a'
        && "TaskUpdated"@[1] == 'a' && "TaskUpdated"@[0] == 'T' && "TrapRecorded"@[0] == 'T'
        && "TaskCreated"@[0] == 'T');
}

/// A new task has the id and description that were sent, and begins as Todo.
pub proof fn law_new_task_is_as_sent(sent: TaskCreatePayload)
    ensures
        sent.task().id == sent.id@,
        sent.task().description == sent.description@,
        sent.task().status is Todo,
        sent.task().superseded_by is None,
{
}

/// An applied event is confirmed. A refusal that begins with `[CONFLICT]` is told as
/// a conflict, with its message as it is; any other is an internal error that holds
/// its message.
pub proof fn law_refusals_are_told(message: Seq<char>, rest: Seq<char>)
    ensures
        commit_answer(None) matches Ok(reply) && reply is Committed,
        commit_answer(Some("[CONFLICT]"@ + rest)) == Ok::<CommitReplyView, McpErrorView>(
            CommitReplyView::Conflict { message: "[CONFLICT]"@ + rest },
        ),
        (forall|x: Seq<char>| message != #[trigger] ("[CONFLICT]"@ + x)) ==> commit_answer(
            Some(message),
        ) == Err::<CommitReplyView, McpErrorView>(
            McpErrorView::Internal("State update failed: "@ + message),
        ),
{
    let p = "[CONFLICT]"@;
    assert((p + rest).take(p.len() as int) =~= p);
    if message.len() >= p.len() && message.take(p.len() as int) == p {
        assert(message =~= p + message.skip(p.len() as int));
    }
}

/// The codes of the errors, and their messages as they are.
pub proof fn law_errors_are_numbered(message: Seq<char>)
    ensures
        McpErrorView::MethodNotFound(message).numbered() == (-32601int, message),
        McpErrorView::InvalidParams(message).numbered() == (-32602int, message),
        McpErrorView::Internal(message).numbered() == (-32603int, message),
{
}

// ── Queries and results ────────────────────────────────────────────────────

/// The number of results is the number that is asked for where that lies between one
/// and twenty, else the nearer end; where no count is given it is three.
pub proof fn law_limit_is_the_number_asked_for(args: Json, n: u64)
    ensures
        args.field("limit"@) == Some(Json::Count(n)) && 1 <= n <= 20 ==> result_limit(args) == n,
        args.field("limit"@) == Some(Json::Count(n)) && n < 1 ==> result_limit(args) == 1,
        args.field("limit"@) == Some(Json::Count(n)) && n > 20 ==> result_limit(args) == 20,
        args.field("limit"@) is None ==> result_limit(args) == 3,
        args.field("limit"@) matches Some(v) && !(v is Count) ==> result_limit(args) == 3,
{
}

/// A found ADR is shown by its id, title, status and tags as they are, and by its
/// decision: the whole of up to two hundred characters, else the first two hundred
/// and an ellipsis.
pub proof fn law_found_adr_is_shown(a: AdrView)
    ensures
        shown_item(SearchItemView::Adr(a)) matches ResultItemView::Adr {
            id,
            title,
            status,
            summary,
            tags,
        } && id == a.id && title == a.title && status == a.status && tags == a.tags && (
        a.decision.len() <= 200 ==> summary == a.decision) && (a.decision.len() > 200
            ==> summary.len() == 201 && summary.take(200) == a.decision.take(200) && summary[200]
            == '…'),
{
    reveal_strlit("…");
    if a.decision.len() > 200 {
        let s = a.decision.take(200) + "…"@;
        assert(s.take(200) =~= a.decision.take(200));
    }
}

/// A found trap is shown by its signature, solution, root cause and prevention, each
/// as it is.
pub proof fn law_found_trap_is_shown(t: TrapView)
    ensures
        shown_item(SearchItemView::Trap(t)) matches ResultItemView::Trap {
            signature,
            solution,
            root_cause,
            prevention,
        } && signature == t.error_signature && solution == t.solution && root_cause
            == t.root_cause && prevention == t.prevention,
{
}

// ── The workspace ──────────────────────────────────────────────────────────

/// The workspace is that of the first folder; the root counts only where no folder
/// names one.
pub proof fn law_first_folder_is_the_workspace(params: Json, folders: Json, first: Json)
    requires
        params.field("workspaceFolders"@) == Some(folders),
        folders.head() == Some(first),
    ensures
        first.text_at("uri"@) matches Some(uri) ==> workspace_uri(params) == Some(uri),
        first.text_at("uri"@) is None ==> workspace_uri(params) == params.text_at("rootUri"@),
{
}

/// Without folders the workspace is the root, if there is one.
pub proof fn law_root_is_the_workspace_without_folders(params: Json)
    requires
        params.field("workspaceFolders"@) matches Some(folders) ==> folders.head() is None,
    ensures
        workspace_uri(params) == params.text_at("rootUri"@),
{
}

/// The path of a `file:` URI is what follows the slashes; another text is a path as it
/// is.
pub proof fn law_path_of_uri(path: Seq<char>)
    ensures
        uri_path("file:///"@ + path) == path,
        path.len() == 0 || path[0] != '/' ==> uri_path("file://"@ + path) == path,
        (forall|x: Seq<char>| path != #[trigger] ("file://"@ + x)) ==> uri_path(path) == path,
{
    reveal_strlit("file:///");
    reveal_strlit("file://");
    let a = "file:///"@;
    let b = "file://"@;
    assert((a + path).take(8) =~= a);
    assert((a + path).skip(8) =~= path);
    assert((b + path).take(7) =~= b);
    assert((b + path).skip(7) =~= path);
    if path.len() == 0 || path[0] != '/' {
        if (b + path).len() >= 8 {
            assert((b + path).take(8)[7] == path[0]);
            assert(a[7] == '/');
        }
    }
    if path.len() >= 8 && path.take(8) == a {
        assert(path.take(7) =~= b) by {
            assert(path.take(7) =~= path.take(8).take(7));
        }
    }
    if path.len() >= 7 && path.take(7) == b {
        assert(path =~= b + path.skip(7));
    }
}

// ── Answers as values ──────────────────────────────────────────────────────

/// The view of a summary tells all that is in it, task by task.
pub proof fn law_view_tells_the_summary(s: BootstrapSummary, k: int)
    ensures
        s@.current_phase == s.current_phase@,
        s@.constraints.len() == s.constraints@.len(),
        0 <= k < s.constraints@.len() ==> s@.constraints[k] == s.constraints@[k]@,
        s@.latest_adr is Some <==> s.latest_adr is Some,
        s.latest_adr matches Some(a) ==> s@.latest_adr == Some((a.id@, a.title@, a.status)),
        s@.adr_count == s.adr_count,
        s@.trap_count == s.trap_count,
        s@.active_tasks.len() == s.active_tasks@.len(),
        0 <= k < s.active_tasks@.len() ==> s@.active_tasks[k] == (
            s.active_tasks@[k].id@,
            s.active_tasks@[k].description@,
            s.active_tasks@[k].status@,
        ),
{
}

/// The view of a result tells all that is shown of it.
pub proof fn law_view_tells_the_result(item: ResultItem)
    ensures
        item matches ResultItem::Adr { id, title, status, summary, tags } ==> (
        item@ matches ResultItemView::Adr {
            id: id_shown,
            title: title_shown,
            status: status_shown,
            summary: summary_shown,
            tags: tags_shown,
        } && id_shown == id@ && title_shown == title@ && status_shown == status && summary_shown
            == summary@ && tags_shown == texts(tags@)),
        item matches ResultItem::Trap { signature, solution, root_cause, prevention } ==> (
        item@ matches ResultItemView::Trap {
            signature: signature_shown,
            solution: solution_shown,
            root_cause: cause_shown,
            prevention: prevention_shown,
        } && signature_shown == signature@ && solution_shown == solution@ && cause_shown
            == root_cause@ && prevention_shown == prevention@),
{
}

/// The views of what is read from a request and of the answers to it tell their kind
/// and text.
pub proof fn law_views_tell_the_answers(error: McpError, step: EventStep, reply: CommitReply)
    ensures
        error matches McpError::MethodNotFound(m) ==> error@ == McpErrorView::MethodNotFound(m@),
        error matches McpError::InvalidParams(m) ==> error@ == McpErrorView::InvalidParams(m@),
        error matches McpError::Internal(m) ==> error@ == McpErrorView::Internal(m@),
        step matches EventStep::Ready(e) ==> step@ == EventStepView::Ready(e@),
        step matches EventStep::Refused(e) ==> step@ == EventStepView::Refused(e@),
        step is DecodeTask ==> step@ is DecodeTask,
        step is DecodeAdr ==> step@ is DecodeAdr,
        step is DecodeTrap ==> step@ is DecodeTrap,
        reply matches CommitReply::Committed(text) ==> reply@ == CommitReplyView::Committed(text@),
        reply matches CommitReply::Conflict { message } ==> reply@ == (CommitReplyView::Conflict {
            message: message@,
        }),
{
}

/// An error is shown by its kind and its text.
pub proof fn law_errors_are_shown_by_kind(m: Seq<char>)
    ensures
        McpErrorView::MethodNotFound(m).shown() == "Method not found: "@ + m,
        McpErrorView::InvalidParams(m).shown() == "Invalid params: "@ + m,
        McpErrorView::Internal(m).shown() == "Internal error: "@ + m,
{
}

/// A header of the transport, of which there are two, is no request; a line that begins
/// with a brace is none.
pub proof fn law_requests_are_no_headers(rest: Seq<char>)
    ensures
        transport_header("Content-Length:"@ + rest),
        transport_header("Content-Type:"@ + rest),
        !transport_header(seq!['{'] + rest),
        !transport_header(Seq::<char>::empty()),
{
    reveal_strlit("Content-Length:");
    reveal_strlit("Content-Type:");
    let a = "Content-Length:"@ + rest;
    let b = "Content-Type:"@ + rest;
    assert(a.take("Content-Length:"@.len() as int) =~= "Content-Length:"@);
    assert(b.take("Content-Type:"@.len() as int) =~= "Content-Type:"@);
    let line = seq!['{'] + rest;
    assert(line[0] == '{');
    if has_prefix(line, "Content-Length:"@) {
        assert(line.take("Content-Length:"@.len() as int)[0] == line[0]);
    }
    if has_prefix(line, "Content-Type:"@) {
        assert(line.take("Content-Type:"@.len() as int)[0] == line[0]);
    }
}

} // verus!
