//! What is loaded from the memory files and what is flushed to them, told ADR by ADR
//! and field by field.
use vstd::prelude::*;

use crate::engine::persistence::{
    adrs_from, best_entry, comes_before, flush_error_text, flush_of, flush_step, is_best,
    law_merge_keeps_every_id, law_merged_ids_unique, loads_as, status_priority, FlushLoop,
    FlushPlan, FlushSignal, LoadedFiles, MemoryFiles,
};
use crate::engine::projection::context::{context_text, state_in};
use crate::engine::projection::decisions::{adrs_in, adrs_text, is_active, is_stale};
use crate::engine::projection::traps::{traps_in, traps_text};
use crate::engine::state_manager::{ManagerView, StateManager};
use crate::models::{adr_views, trap_views, AdrStatus, AdrView};
use crate::search::laws::stands_in;
use crate::text::{decimal, join, lemma_join_push, lex_less};

verus! {

// ── Loading ────────────────────────────────────────────────────────────────

/// How much an ADR of that status counts beside others of its id.
pub open spec fn rank(status: AdrStatus) -> int {
    if status is Accepted {
        4
    } else if status is Proposed {
        3
    } else if status is Rejected {
        2
    } else if status is Superseded {
        1
    } else {
        0
    }
}

proof fn lemma_rank(a: AdrStatus, b: AdrStatus)
    ensures
        status_priority(a) > status_priority(b) <==> rank(a) > rank(b),
        status_priority(a) == status_priority(b) <==> a == b,
        rank(a) == rank(b) <==> a == b,
{
}

/// Whether `a` comes before `b` in the order of texts: at the first place at which
/// they differ it ends or has the smaller character.
pub open spec fn text_before(a: Seq<char>, b: Seq<char>) -> bool {
    exists|p: int|
        0 <= p <= a.len() && p < b.len() && #[trigger] a.take(p) == b.take(p) && (p == a.len()
            || a[p] < b[p])
}

proof fn lemma_text_before(a: Seq<char>, b: Seq<char>)
    requires
        lex_less(a, b),
    ensures
        text_before(a, b),
    decreases a.len(),
{
    if a.len() == 0 {
        assert(a.take(0) =~= b.take(0));
    } else if a[0] == b[0] {
        let x = a.drop_first();
        let y = b.drop_first();
        lemma_text_before(x, y);
        let p = choose|p: int|
            0 <= p <= x.len() && p < y.len() && #[trigger] x.take(p) == y.take(p) && (p == x.len()
                || x[p] < y[p]);
        assert(a.take(p + 1) =~= seq![a[0]] + x.take(p));
        assert(b.take(p + 1) =~= seq![b[0]] + y.take(p));
        assert(a.take(p + 1) == b.take(p + 1));
        if p < x.len() {
            assert(a[p + 1] == x[p] && b[p + 1] == y[p]);
        }
    } else {
        assert(a.take(0) =~= b.take(0));
    }
}

/// Of every id in `decisions.md` and the archive exactly one version is loaded: the one
/// whose status counts most, and of those the first, `decisions.md` before the archive.
pub proof fn law_version_that_counts_is_loaded(f: MemoryFiles, loaded: LoadedFiles, k: int)
    requires
        loads_as(f, loaded),
        f.memory_exists,
        0 <= k < (adrs_from(f.decisions) + adrs_from(f.decisions_archive)).len(),
    ensures
        ({
            let all = adrs_from(f.decisions) + adrs_from(f.decisions_archive);
            let held = adr_views(loaded.decisions@);
            &&& held.contains(all[k]) <== forall|j: int|
                0 <= j < all.len() && j != k && (#[trigger] all[j]).id == all[k].id ==> rank(
                    all[j].status,
                ) < rank(all[k].status) || all[j].status == all[k].status && k < j
            &&& exists|i: int|
                0 <= i < held.len() && (#[trigger] held[i]).id == all[k].id && rank(held[i].status)
                    >= rank(all[k].status)
        }),
{
    let all = adrs_from(f.decisions) + adrs_from(f.decisions_archive);
    let held = adr_views(loaded.decisions@);
    if forall|j: int|
        0 <= j < all.len() && j != k && (#[trigger] all[j]).id == all[k].id ==> rank(all[j].status)
            < rank(all[k].status) || all[j].status == all[k].status && k < j {
        assert forall|j: int| 0 <= j < all.len() && (#[trigger] all[j]).id == all[k].id implies
            status_priority(all[j].status) < status_priority(all[k].status) || status_priority(
            all[j].status,
        ) == status_priority(all[k].status) && k <= j by {
            lemma_rank(all[k].status, all[j].status);
        }
        assert(is_best(all, k));
    }
    law_merge_keeps_every_id(all, held, k);
    let i = choose|i: int|
        0 <= i < held.len() && (#[trigger] held[i]).id == all[k].id && status_priority(
            held[i].status,
        ) >= status_priority(all[k].status);
    lemma_rank(held[i].status, all[k].status);
}

/// What is loaded of the decisions is as one of the two files tells it, no id comes
/// twice, and they stand in order: those that count more first, then by id.
pub proof fn law_loaded_decisions_are_in_order(
    f: MemoryFiles,
    loaded: LoadedFiles,
    i: int,
    j: int,
)
    requires
        loads_as(f, loaded),
        f.memory_exists,
        0 <= i < j < loaded.decisions@.len(),
    ensures
        ({
            let held = adr_views(loaded.decisions@);
            &&& adrs_from(f.decisions).contains(held[i]) || adrs_from(
                f.decisions_archive,
            ).contains(held[i])
            &&& held[i].id != held[j].id
            &&& rank(held[i].status) > rank(held[j].status) || held[i].status == held[j].status
                && text_before(held[i].id, held[j].id)
        }),
{
    let main = adrs_from(f.decisions);
    let archive = adrs_from(f.decisions_archive);
    let all = main + archive;
    let held = adr_views(loaded.decisions@);
    assert(best_entry(all, held[i]));
    let k = choose|k: int| 0 <= k < all.len() && is_best(all, k) && #[trigger] all[k] == held[i];
    if k < main.len() {
        assert(main[k] == held[i]);
    } else {
        assert(archive[k - main.len()] == held[i]);
    }
    law_merged_ids_unique(all, held, i, j);
    assert(comes_before(held[i], held[j]));
    lemma_rank(held[i].status, held[j].status);
    if lex_less(held[i].id, held[j].id) {
        lemma_text_before(held[i].id, held[j].id);
    }
}

/// Without memory files the project is a green field with nothing in it, and every
/// file may be written. With them, a context file that cannot be read gives nothing and
/// is told apart, and so it is with the decisions and the traps.
pub proof fn law_load_tells_what_was_read(f: MemoryFiles, loaded: LoadedFiles)
    requires
        loads_as(f, loaded),
    ensures
        loaded.is_greenfield <==> !f.memory_exists,
        !f.memory_exists ==> loaded.context_parsed && loaded.decisions_parsed
            && loaded.traps_parsed,
        f.memory_exists ==> (loaded.context_parsed <==> f.context is Some && state_in(
            f.context->0@,
        ) is Some),
        f.memory_exists ==> (loaded.decisions_parsed <==> f.decisions is Some
            || f.decisions_archive is Some),
        f.memory_exists ==> (loaded.traps_parsed <==> f.traps is Some && traps_in(
            f.traps->0@,
        ).len() > 0),
        f.memory_exists && loaded.context_parsed ==> loaded.state@ == state_in(f.context->0@)->0,
        f.memory_exists && f.traps is Some ==> trap_views(loaded.traps@) == traps_in(f.traps->0@),
        !f.memory_exists || f.traps is None ==> loaded.traps@.len() == 0,
        !f.memory_exists || f.decisions is None && f.decisions_archive is None
            ==> loaded.decisions@.len() == 0,
        !f.memory_exists || !loaded.context_parsed ==> loaded.state@.current_phase.len() == 0
            && loaded.state@.active_tasks.len() == 0 && loaded.state@.done_tasks.len() == 0
            && loaded.state@.constraints.len() == 0,
{
    if f.memory_exists && f.traps is None {
        assert(trap_views(loaded.traps@).len() == loaded.traps@.len());
    }
    if f.memory_exists && f.decisions is None && f.decisions_archive is None {
        let held = adr_views(loaded.decisions@);
        let all = adrs_from(f.decisions) + adrs_from(f.decisions_archive);
        assert(all.len() == 0);
        if held.len() > 0 {
            assert(best_entry(all, held[0]));
        }
    }
}

/// What the two files of decisions give: `decisions.md` its ADRs, the archive its own.
pub proof fn law_files_give_their_adrs(f: MemoryFiles)
    ensures
        f.decisions matches Some(text) ==> adrs_from(f.decisions) == adrs_in(text@),
        f.decisions_archive matches Some(text) ==> adrs_from(f.decisions_archive) == adrs_in(
            text@,
        ),
        f.decisions is None ==> adrs_from(f.decisions).len() == 0,
{
}

// ── Flushing ───────────────────────────────────────────────────────────────

/// A file is written where it was understood or there is something to put in it; the
/// archive of decisions is written where a decision is superseded, rejected or archived.
pub proof fn law_flush_writes_what_there_is(m: ManagerView)
    ensures
        flush_of(m).context is Some <==> m.context_ok || m.state.current_phase.len() > 0
            || m.state.active_tasks.len() > 0 || m.state.constraints.len() > 0,
        flush_of(m).decisions is Some <==> m.decisions_ok || m.decisions.len() > 0,
        flush_of(m).traps is Some <==> m.traps_ok || m.traps.len() > 0,
        flush_of(m).decisions_archive is Some <==> exists|i: int|
            0 <= i < m.decisions.len() && ((#[trigger] m.decisions[i]).status is Superseded
                || m.decisions[i].status is Rejected || m.decisions[i].status is Archived),
        flush_of(m).context matches Some(text) ==> text == context_text(m.state),
        flush_of(m).traps matches Some(text) ==> text == traps_text(m.traps),
{
    lemma_any_stale(m.decisions);
}

proof fn lemma_any_stale(adrs: Seq<AdrView>)
    ensures
        adrs.filter(is_stale()).len() > 0 <==> exists|i: int|
            0 <= i < adrs.len() && ((#[trigger] adrs[i]).status is Superseded || adrs[i].status
                is Rejected || adrs[i].status is Archived),
    decreases adrs.len(),
{
    reveal(Seq::filter);
    if adrs.len() > 0 {
        let rest = adrs.drop_last();
        lemma_any_stale(rest);
        let last = adrs[adrs.len() - 1];
        if rest.filter(is_stale()).len() > 0 {
            let i = choose|i: int|
                0 <= i < rest.len() && ((#[trigger] rest[i]).status is Superseded || rest[i].status
                    is Rejected || rest[i].status is Archived);
            assert(adrs[i] == rest[i]);
        } else if exists|i: int|
            0 <= i < adrs.len() && ((#[trigger] adrs[i]).status is Superseded || adrs[i].status
                is Rejected || adrs[i].status is Archived) {
            let i = choose|i: int|
                0 <= i < adrs.len() && ((#[trigger] adrs[i]).status is Superseded
                    || adrs[i].status is Rejected || adrs[i].status is Archived);
            if i < rest.len() {
                assert(rest[i] == adrs[i]);
            }
        }
    }
}

/// `decisions.md` gets the accepted and proposed ADRs and the archive the others, each
/// as it is and in order; `decisions.md` points to the archive where that holds any.
pub proof fn law_flush_splits_decisions(m: ManagerView)
    ensures
        ({
            let active = m.decisions.filter(
                |a: AdrView| a.status is Accepted || a.status is Proposed,
            );
            let stale = m.decisions.filter(
                |a: AdrView|
                    a.status is Superseded || a.status is Rejected || a.status is Archived,
            );
            let note =
                "> Historical decisions are in [decisions_archive.md](./decisions_archive.md)\n\n"@;
            &&& flush_of(m).decisions matches Some(text) ==> text == if stale.len() > 0 {
                note + adrs_text(active)
            } else {
                adrs_text(active)
            }
            &&& flush_of(m).decisions_archive matches Some(text) ==> text == adrs_text(stale)
        }),
{
    assert(is_active() =~= (|a: AdrView| a.status is Accepted || a.status is Proposed));
    assert(is_stale() =~= (|a: AdrView|
        a.status is Superseded || a.status is Rejected || a.status is Archived));
}

/// The message on failed writes tells how many there were and each of them; there is
/// none where no write failed.
pub proof fn law_flush_errors_are_told(errors: Seq<Seq<char>>, k: int)
    requires
        0 <= k < errors.len(),
    ensures
        flush_error_text(Seq::empty()) is None,
        flush_error_text(errors) matches Some(text) && stands_in(errors[k], text) && stands_in(
            decimal(errors.len()) + " flush error(s): "@,
            text,
        ),
{
    let front = decimal(errors.len()) + " flush error(s): "@;
    let list = join(errors, "; "@);
    let none = Seq::<char>::empty();
    lemma_in_join(errors, "; "@, k);
    let (a, b) = choose|a: Seq<char>, b: Seq<char>| list == #[trigger] (a + errors[k] + b);
    assert(front + list =~= (front + a) + errors[k] + b);
    assert(front + list =~= none + front + list);
}

proof fn lemma_in_join(parts: Seq<Seq<char>>, sep: Seq<char>, k: int)
    requires
        0 <= k < parts.len(),
    ensures
        stands_in(parts[k], join(parts, sep)),
    decreases parts.len(),
{
    let rest = parts.drop_last();
    let last = parts[parts.len() - 1];
    let none = Seq::<char>::empty();
    lemma_join_push(rest, last, sep);
    assert(rest.push(last) =~= parts);
    if k < rest.len() {
        lemma_in_join(rest, sep, k);
        let (a, b) = choose|a: Seq<char>, b: Seq<char>|
            join(rest, sep) == #[trigger] (a + rest[k] + b);
        assert(join(parts, sep) =~= a + parts[k] + (b + sep + last));
    } else if rest.len() == 0 {
        assert(join(parts, sep) =~= none + parts[k] + none);
    } else {
        assert(join(parts, sep) =~= (join(rest, sep) + sep) + parts[k] + none);
    }
}

/// The flush loop: a change is waited on until there is silence, silence without a
/// change is passed over, and once no change can come any more the loop ends for good.
pub proof fn law_flush_loop_waits_for_silence(at: FlushLoop, signal: FlushSignal)
    ensures
        at is Stopped || signal is Closed ==> flush_step(at, signal).0 is Stopped && flush_step(
            at,
            signal,
        ).1 is Stop,
        !(at is Stopped) && signal is Changed ==> flush_step(at, signal).0 is Pending
            && flush_step(at, signal).1 is AwaitSilence,
        at is Pending && signal is Silence ==> flush_step(at, signal).0 is Idle && flush_step(
            at,
            signal,
        ).1 is Flush,
        at is Idle && signal is Silence ==> flush_step(at, signal).0 is Idle && flush_step(
            at,
            signal,
        ).1 is AwaitChange,
{
}

/// The views of the memory and of what a flush writes tell all that is in them.
pub proof fn law_views_tell_the_memory(m: StateManager, plan: FlushPlan, k: int)
    ensures
        m@.state == m.state@,
        m@.decisions.len() == m.decisions@.len(),
        0 <= k < m.decisions@.len() ==> m@.decisions[k] == m.decisions@[k]@,
        m@.traps.len() == m.traps@.len(),
        0 <= k < m.traps@.len() ==> m@.traps[k] == m.traps@[k]@,
        m@.context_ok == m.context_ok,
        m@.decisions_ok == m.decisions_ok,
        m@.traps_ok == m.traps_ok,
        plan@.context is Some <==> plan.context is Some,
        plan@.decisions is Some <==> plan.decisions is Some,
        plan@.decisions_archive is Some <==> plan.decisions_archive is Some,
        plan@.traps is Some <==> plan.traps is Some,
        plan.context matches Some(text) ==> plan@.context == Some(text@),
        plan.decisions matches Some(text) ==> plan@.decisions == Some(text@),
        plan.decisions_archive matches Some(text) ==> plan@.decisions_archive == Some(text@),
        plan.traps matches Some(text) ==> plan@.traps == Some(text@),
{
}

} // verus!
