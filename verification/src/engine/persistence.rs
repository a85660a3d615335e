//! Loading the memory files and deciding what to write back.
use vstd::prelude::*;

use crate::engine::calendar::{date_of, date_text, today_date};
use crate::engine::projection::archive::{append_tasks_archive, archive_after};
use crate::engine::projection::context::{
    context_text, ids_stated_once, law_context_ids_unique, law_context_reads_back, parse_context,
    readable_state, render_context, retold_state, state_in,
};
use crate::engine::projection::decisions::{
    adrs_by_activity, adrs_in, adrs_text, decisions_file_text, is_active, is_stale,
    law_adrs_read_back, law_noted_adrs_read_back, law_stale_adrs_read_back,
    law_tidy_adrs_read_back, lemma_filter_from, lemma_filter_has, parse_decisions, readable_adr,
    render_decisions, render_decisions_file, settled_adr, tidy_adr,
};
use crate::engine::projection::traps::{
    law_tidy_traps_read_back, law_traps_read_back, parse_traps, readable_trap, render_traps,
    settled_trap, tidy_trap, traps_in, traps_text,
};
use crate::engine::state_manager::{
    empty_state, new_state, unique_ids, ManagerView, StateManager,
};
use crate::models::{
    adr_views, trap_views, AdrStatus, AdrView, RuntimeState, RuntimeStateView, TaskView, Trap,
    TrapView, ADR,
};
use crate::text::{decimal, decimal_of, join, joined, less_text, lex_less, texts};

verus! {

// ── Merging decisions ──────────────────────────────────────────────────────

/// How much a status counts where an ADR occurs more than once.
pub open spec fn status_priority(status: AdrStatus) -> int {
    match status {
        AdrStatus::Accepted => 5,
        AdrStatus::Proposed => 4,
        AdrStatus::Rejected => 3,
        AdrStatus::Superseded => 2,
        AdrStatus::Archived => 1,
    }
}

pub fn adr_status_priority(status: &AdrStatus) -> (r: u8)
    ensures
        r == status_priority(*status),
{
    match status {
        AdrStatus::Accepted => 5,
        AdrStatus::Proposed => 4,
        AdrStatus::Rejected => 3,
        AdrStatus::Superseded => 2,
        AdrStatus::Archived => 1,
    }
}

/// The order of loaded decisions: higher priority first, then by id.
pub open spec fn comes_before(a: AdrView, b: AdrView) -> bool {
    status_priority(a.status) > status_priority(b.status) || status_priority(a.status)
        == status_priority(b.status) && lex_less(a.id, b.id)
}

/// Whether `all[k]` is the version of its ADR that counts: the first of those
/// with the highest priority.
pub open spec fn is_best(all: Seq<AdrView>, k: int) -> bool {
    forall|j: int|
        0 <= j < all.len() && (#[trigger] all[j]).id == all[k].id ==> status_priority(all[j].status)
            < status_priority(all[k].status) || status_priority(all[j].status) == status_priority(
            all[k].status,
        ) && k <= j
}

/// Whether `a` is the version of its ADR that counts.
pub open spec fn best_entry(all: Seq<AdrView>, a: AdrView) -> bool {
    exists|k: int| 0 <= k < all.len() && is_best(all, k) && #[trigger] all[k] == a
}

pub open spec fn in_order(adrs: Seq<AdrView>) -> bool {
    forall|i: int, j: int|
        0 <= i < j < adrs.len() ==> comes_before(#[trigger] adrs[i], #[trigger] adrs[j])
}

/// Whether `merged` holds exactly the versions that count, in order.
pub open spec fn is_merge(all: Seq<AdrView>, merged: Seq<AdrView>) -> bool {
    &&& in_order(merged)
    &&& forall|i: int| 0 <= i < merged.len() ==> best_entry(all, #[trigger] merged[i])
    &&& forall|k: int|
        0 <= k < all.len() && is_best(all, k) ==> merged.contains(#[trigger] all[k])
}

/// What the first `n` entries contribute: one entry for each id, the best.
spec fn holds_best(all: Seq<AdrView>, best: Seq<AdrView>) -> bool {
    &&& forall|i: int| 0 <= i < best.len() ==> best_entry(all, #[trigger] best[i])
    &&& forall|k: int| 0 <= k < all.len() && is_best(all, k) ==> best.contains(#[trigger] all[k])
    &&& forall|i: int, j: int|
        0 <= i < j < best.len() ==> (#[trigger] best[i]).id != (#[trigger] best[j]).id
}

fn find_id(adrs: &Vec<ADR>, id: &String) -> (r: Option<usize>)
    ensures
        match r {
            Some(i) => i < adrs@.len() && adrs@[i as int]@.id == id@,
            None => forall|i: int| 0 <= i < adrs@.len() ==> (#[trigger] adrs@[i])@.id != id@,
        },
{
    let mut i: usize = 0;
    while i < adrs.len()
        invariant
            i <= adrs@.len(),
            forall|j: int| 0 <= j < i ==> (#[trigger] adrs@[j])@.id != id@,
        decreases adrs@.len() - i,
    {
        if adrs[i].id == *id {
            return Some(i);
        }
        i = i + 1;
    }
    None
}

proof fn lemma_best_exists(all: Seq<AdrView>, j: int) -> (k: int)
    requires
        0 <= j < all.len(),
    ensures
        0 <= k < all.len(),
        all[k].id == all[j].id,
        is_best(all, k),
    decreases all.len(),
{
    let front = all.drop_last();
    let n = all.len() - 1;
    if exists|i: int| 0 <= i < n && (#[trigger] all[i]).id == all[j].id {
        let i = choose|i: int| 0 <= i < n && (#[trigger] all[i]).id == all[j].id;
        let k = lemma_best_exists(front, i);
        if all[n].id == all[j].id && status_priority(all[n].status) > status_priority(
            all[k].status,
        ) {
            assert forall|q: int| 0 <= q < all.len() && (#[trigger] all[q]).id == all[n].id implies
                status_priority(all[q].status) < status_priority(all[n].status)
                || status_priority(all[q].status) == status_priority(all[n].status) && n <= q by {
                if q < n {
                    assert(front[q] == all[q]);
                }
            }
            n
        } else {
            assert forall|q: int| 0 <= q < all.len() && (#[trigger] all[q]).id == all[k].id implies
                status_priority(all[q].status) < status_priority(all[k].status)
                || status_priority(all[q].status) == status_priority(all[k].status) && k <= q by {
                if q < n {
                    assert(front[q] == all[q]);
                }
            }
            k
        }
    } else {
        assert(j == n);
        n
    }
}

/// The best version of an id is one entry.
proof fn lemma_best_unique(all: Seq<AdrView>, j: int, k: int)
    requires
        0 <= j < all.len(),
        0 <= k < all.len(),
        all[j].id == all[k].id,
        is_best(all, j),
        is_best(all, k),
    ensures
        j == k,
{
}

/// One more entry: it is new, or better than what its id had, or neither.
proof fn lemma_holds_best_step(
    all: Seq<AdrView>,
    a: AdrView,
    best: Seq<AdrView>,
    found: Option<int>,
    next: Seq<AdrView>,
)
    requires
        holds_best(all, best),
        match found {
            None => {
                &&& forall|i: int| 0 <= i < best.len() ==> (#[trigger] best[i]).id != a.id
                &&& next == best.push(a)
            },
            Some(i) => {
                &&& 0 <= i < best.len()
                &&& best[i].id == a.id
                &&& next == if status_priority(a.status) > status_priority(best[i].status) {
                    best.update(i, a)
                } else {
                    best
                }
            },
        },
    ensures
        holds_best(all.push(a), next),
{
    let more = all.push(a);
    let n = all.len() as int;
    assert(more[n] == a);
    // Which entries are best in the longer list.
    assert forall|k: int| 0 <= k < n implies (#[trigger] is_best(more, k) <==> is_best(all, k) && !(
    a.id == all[k].id && status_priority(a.status) > status_priority(all[k].status))) by {
        assert(more[k] == all[k]);
        if is_best(more, k) {
            assert forall|j: int| 0 <= j < all.len() && (#[trigger] all[j]).id == all[k].id implies
                status_priority(all[j].status) < status_priority(all[k].status)
                || status_priority(all[j].status) == status_priority(all[k].status) && k <= j by {
                assert(more[j] == all[j]);
            }
            assert(a.id == all[k].id ==> more[n].id == more[k].id);
        }
        if is_best(all, k) && !(a.id == all[k].id && status_priority(a.status) > status_priority(
            all[k].status,
        )) {
            assert forall|j: int| 0 <= j < more.len() && (#[trigger] more[j]).id
                == more[k].id implies status_priority(more[j].status) < status_priority(
                more[k].status,
            ) || status_priority(more[j].status) == status_priority(more[k].status) && k <= j by {
                if j < n {
                    assert(more[j] == all[j]);
                }
            }
        }
    }
    match found {
        None => {
            assert(is_best(more, n)) by {
                assert forall|j: int| 0 <= j < more.len() && (#[trigger] more[j]).id
                    == more[n].id implies status_priority(more[j].status) < status_priority(
                    more[n].status,
                ) || status_priority(more[j].status) == status_priority(more[n].status) && n
                    <= j by {
                    if j < n {
                        let k = lemma_best_exists(all, j);
                        assert(best.contains(all[k]));
                        let i = choose|i: int| 0 <= i < best.len() && best[i] == all[k];
                        assert(best[i].id == a.id);
                    }
                }
            }
            assert(next[best.len() as int] == a);
        },
        Some(i) => {
            assert(best_entry(all, best[i]));
            let k = choose|k: int|
                0 <= k < all.len() && is_best(all, k) && #[trigger] all[k] == best[i];
            if status_priority(a.status) > status_priority(best[i].status) {
                assert(is_best(more, n)) by {
                    assert forall|j: int| 0 <= j < more.len() && (#[trigger] more[j]).id
                        == more[n].id implies status_priority(more[j].status) < status_priority(
                        more[n].status,
                    ) || status_priority(more[j].status) == status_priority(more[n].status) && n
                        <= j by {
                        if j < n {
                            assert(more[j] == all[j]);
                            assert(all[j].id == all[k].id);
                        }
                    }
                }
                assert(next[i] == a);
            } else {
                assert(!is_best(more, n)) by {
                    assert(more[k] == all[k]);
                    assert(more[k].id == more[n].id);
                }
            }
        },
    }
    assert forall|i: int| 0 <= i < next.len() implies best_entry(more, #[trigger] next[i]) by {
        if next[i] == a && is_best(more, n) {
            assert(more[n] == next[i]);
        } else {
            assert(i < best.len() && next[i] == best[i]);
            assert(best_entry(all, best[i]));
            let k = choose|k: int|
                0 <= k < all.len() && is_best(all, k) && #[trigger] all[k] == best[i];
            assert(more[k] == next[i]);
            if a.id == all[k].id && status_priority(a.status) > status_priority(all[k].status) {
                let f = found->0;
                assert(found is Some);
                assert(best[i].id == best[f].id);
                assert(i == f);
            }
            assert(is_best(more, k));
        }
    }
    assert forall|k: int| 0 <= k < more.len() && is_best(more, k) implies next.contains(
        #[trigger] more[k],
    ) by {
        if k < n {
            assert(is_best(all, k));
            assert(best.contains(all[k]));
            let i = choose|i: int| 0 <= i < best.len() && best[i] == all[k];
            assert(next[i] == all[k]);
        } else {
            match found {
                None => {
                    assert(next[best.len() as int] == a);
                },
                Some(i) => {
                    assert(next[i] == a);
                },
            }
        }
    }
    assert forall|i: int, j: int| 0 <= i < j < next.len() implies (#[trigger] next[i]).id != (
    #[trigger] next[j]).id by {
        if j < best.len() {
            assert(next[i].id == best[i].id && next[j].id == best[j].id);
        } else {
            assert(next[i] == best[i]);
        }
    }
}

/// Deduplicate by id, keeping the entry with the highest-priority status.
fn best_versions(adrs: Vec<ADR>) -> (r: Vec<ADR>)
    ensures
        holds_best(adr_views(adrs@), adr_views(r@)),
{
    let ghost all = adr_views(adrs@);
    let mut best: Vec<ADR> = Vec::new();
    let mut i: usize = 0;
    while i < adrs.len()
        invariant
            i <= adrs@.len(),
            all == adr_views(adrs@),
            holds_best(all.take(i as int), adr_views(best@)),
        decreases adrs@.len() - i,
    {
        let adr = &adrs[i];
        let ghost before = adr_views(best@);
        assert(all.take(i + 1) =~= all.take(i as int).push(adr@));
        match find_id(&best, &adr.id) {
            Some(j) => {
                if adr_status_priority(&adr.status) > adr_status_priority(&best[j].status) {
                    let copy = adr.clone();
                    best.set(j, copy);
                }
                proof {
                    assert(adr_views(best@) =~= if status_priority(adr@.status) > status_priority(
                        before[j as int].status,
                    ) {
                        before.update(j as int, adr@)
                    } else {
                        before
                    });
                    lemma_holds_best_step(
                        all.take(i as int),
                        adr@,
                        before,
                        Some(j as int),
                        adr_views(best@),
                    );
                }
            },
            None => {
                let copy = adr.clone();
                let ghost mid = best@;
                best.push(copy);
                proof {
                    assert(adr_views(best@) =~= before.push(adr@));
                    assert forall|q: int| 0 <= q < before.len() implies (#[trigger] before[q]).id
                        != adr@.id by {
                        assert(before[q] == mid[q]@);
                    }
                    lemma_holds_best_step(
                        all.take(i as int),
                        adr@,
                        before,
                        None,
                        adr_views(best@),
                    );
                }
            },
        }
        i = i + 1;
    }
    assert(all.take(i as int) =~= all);
    best
}

fn sorts_before(a: &ADR, b: &ADR) -> (r: bool)
    ensures
        r == comes_before(a@, b@),
{
    let pa: u8 = adr_status_priority(&a.status);
    let pb: u8 = adr_status_priority(&b.status);
    pa > pb || pa == pb && less_text(a.id.as_str(), b.id.as_str())
}

pub proof fn lemma_comes_before_transitive(a: AdrView, b: AdrView, c: AdrView)
    requires
        comes_before(a, b),
        comes_before(b, c),
    ensures
        comes_before(a, c),
{
    if lex_less(a.id, b.id) && lex_less(b.id, c.id) {
        crate::text::lemma_lex_transitive(a.id, b.id, c.id);
    }
}

pub proof fn lemma_comes_before_total(a: AdrView, b: AdrView)
    ensures
        comes_before(a, b) || comes_before(b, a) || a.id == b.id,
        !comes_before(a, a),
        !(comes_before(a, b) && comes_before(b, a)),
{
    crate::text::lemma_lex_total(a.id, b.id);
    crate::text::lemma_lex_irreflexive(a.id);
    if lex_less(a.id, b.id) && lex_less(b.id, a.id) {
        crate::text::lemma_lex_transitive(a.id, b.id, a.id);
    }
}

/// Inserting into an ordered list at the first place that comes after.
proof fn lemma_insert_in_order(sorted: Seq<AdrView>, a: AdrView, p: int)
    requires
        in_order(sorted),
        0 <= p <= sorted.len(),
        forall|i: int| 0 <= i < p ==> !comes_before(a, #[trigger] sorted[i]),
        p < sorted.len() ==> comes_before(a, sorted[p]),
        forall|i: int| 0 <= i < sorted.len() ==> (#[trigger] sorted[i]).id != a.id,
    ensures
        in_order(sorted.insert(p, a)),
{
    let next = sorted.insert(p, a);
    assert forall|i: int, j: int| 0 <= i < j < next.len() implies comes_before(
        #[trigger] next[i],
        #[trigger] next[j],
    ) by {
        if i < p && j < p {
            assert(next[i] == sorted[i] && next[j] == sorted[j]);
        } else if i < p && j == p {
            assert(next[i] == sorted[i]);
            lemma_comes_before_total(a, sorted[i]);
        } else if i < p {
            assert(next[i] == sorted[i] && next[j] == sorted[j - 1]);
        } else if i == p {
            assert(next[j] == sorted[j - 1]);
            if j - 1 > p {
                assert(comes_before(sorted[p], sorted[j - 1]));
                lemma_comes_before_transitive(a, sorted[p], sorted[j - 1]);
            }
        } else {
            assert(next[i] == sorted[i - 1] && next[j] == sorted[j - 1]);
        }
    }
}

/// The decisions of both files: one entry for each id, ordered by priority and
/// then by id.
pub fn merge_decisions(adrs: Vec<ADR>) -> (r: Vec<ADR>)
    ensures
        is_merge(adr_views(adrs@), adr_views(r@)),
{
    let ghost all = adr_views(adrs@);
    let best = best_versions(adrs);
    let ghost items = adr_views(best@);
    let mut sorted: Vec<ADR> = Vec::new();
    let mut i: usize = 0;
    while i < best.len()
        invariant
            i <= best@.len(),
            items == adr_views(best@),
            holds_best(all, items),
            in_order(adr_views(sorted@)),
            forall|k: int|
                0 <= k < adr_views(sorted@).len() ==> exists|q: int|
                    0 <= q < i && #[trigger] items[q] == #[trigger] adr_views(sorted@)[k],
            forall|q: int| 0 <= q < i ==> adr_views(sorted@).contains(#[trigger] items[q]),
        decreases best@.len() - i,
    {
        let adr = &best[i];
        let ghost before = adr_views(sorted@);
        assert(items[i as int] == adr@);
        let mut p: usize = 0;
        while p < sorted.len() && !sorts_before(adr, &sorted[p])
            invariant
                p <= sorted@.len(),
                before == adr_views(sorted@),
                forall|k: int| 0 <= k < p ==> !comes_before(adr@, #[trigger] before[k]),
            ensures
                p <= sorted@.len(),
                before == adr_views(sorted@),
                forall|k: int| 0 <= k < p ==> !comes_before(adr@, #[trigger] before[k]),
                p < sorted@.len() ==> comes_before(adr@, before[p as int]),
            decreases sorted@.len() - p,
        {
            assert(before[p as int] == sorted@[p as int]@);
            p = p + 1;
        }
        proof {
            assert forall|k: int| 0 <= k < before.len() implies (#[trigger] before[k]).id
                != adr@.id by {
                let q = choose|q: int| 0 <= q < i && #[trigger] items[q] == before[k];
                assert(items[q].id != items[i as int].id);
            }
            lemma_insert_in_order(before, adr@, p as int);
        }
        let copy = adr.clone();
        let ghost mid = sorted@;
        sorted.insert(p, copy);
        proof {
            let after = adr_views(sorted@);
            assert(after =~= before.insert(p as int, adr@));
            assert forall|k: int| 0 <= k < after.len() implies exists|q: int|
                0 <= q < i + 1 && #[trigger] items[q] == #[trigger] after[k] by {
                if k == p {
                    assert(items[i as int] == after[k]);
                } else {
                    let k0 = if k < p { k } else { k - 1 };
                    assert(after[k] == before[k0]);
                    let q = choose|q: int| 0 <= q < i && #[trigger] items[q] == before[k0];
                    assert(items[q] == after[k]);
                }
            }
            assert forall|q: int| 0 <= q < i + 1 implies after.contains(#[trigger] items[q]) by {
                if q == i {
                    assert(after[p as int] == items[q]);
                } else {
                    assert(before.contains(items[q]));
                    let k = choose|k: int| 0 <= k < before.len() && before[k] == items[q];
                    assert(after[if k < p { k } else { k + 1 }] == items[q]);
                }
            }
        }
        i = i + 1;
    }
    proof {
        let after = adr_views(sorted@);
        assert forall|k: int| 0 <= k < after.len() implies best_entry(all, #[trigger] after[k]) by {
            let q = choose|q: int| 0 <= q < i && #[trigger] items[q] == after[k];
            assert(best_entry(all, items[q]));
        }
        assert forall|j: int| 0 <= j < all.len() && is_best(all, j) implies after.contains(
            #[trigger] all[j],
        ) by {
            assert(items.contains(all[j]));
            let q = choose|q: int| 0 <= q < items.len() && items[q] == all[j];
            assert(after.contains(items[q]));
        }
    }
    sorted
}

/// No id occurs twice among merged decisions.
pub proof fn law_merged_ids_unique(all: Seq<AdrView>, merged: Seq<AdrView>, i: int, j: int)
    requires
        is_merge(all, merged),
        0 <= i < j < merged.len(),
    ensures
        merged[i].id != merged[j].id,
{
    if merged[i].id == merged[j].id {
        assert(best_entry(all, merged[i]));
        assert(best_entry(all, merged[j]));
        let p = choose|k: int|
            0 <= k < all.len() && is_best(all, k) && #[trigger] all[k] == merged[i];
        let q = choose|k: int|
            0 <= k < all.len() && is_best(all, k) && #[trigger] all[k] == merged[j];
        lemma_best_unique(all, p, q);
        assert(comes_before(merged[i], merged[j]));
        lemma_comes_before_total(merged[i], merged[i]);
    }
}

/// No id is lost in merging, and the version that is kept has the highest
/// priority of all.
pub proof fn law_merge_keeps_every_id(all: Seq<AdrView>, merged: Seq<AdrView>, j: int)
    requires
        is_merge(all, merged),
        0 <= j < all.len(),
    ensures
        exists|i: int|
            0 <= i < merged.len() && (#[trigger] merged[i]).id == all[j].id && status_priority(
                merged[i].status,
            ) >= status_priority(all[j].status),
{
    let k = lemma_best_exists(all, j);
    assert(merged.contains(all[k]));
    let i = choose|i: int| 0 <= i < merged.len() && merged[i] == all[k];
    assert(merged[i].id == all[j].id);
}

/// The merged decisions are determined: there is one list that holds the versions
/// that count, in order.
pub proof fn law_merge_is_determined(all: Seq<AdrView>, a: Seq<AdrView>, b: Seq<AdrView>)
    requires
        is_merge(all, a),
        is_merge(all, b),
    ensures
        a == b,
{
    assert forall|x: AdrView| a.contains(x) <==> b.contains(x) by {
        if a.contains(x) {
            let i = choose|i: int| 0 <= i < a.len() && a[i] == x;
            assert(best_entry(all, a[i]));
        }
        if b.contains(x) {
            let i = choose|i: int| 0 <= i < b.len() && b[i] == x;
            assert(best_entry(all, b[i]));
        }
    }
    lemma_ordered_same(a, b);
}

proof fn lemma_ordered_same(a: Seq<AdrView>, b: Seq<AdrView>)
    requires
        in_order(a),
        in_order(b),
        forall|x: AdrView| a.contains(x) <==> b.contains(x),
    ensures
        a == b,
    decreases a.len(),
{
    if a.len() == 0 {
        if b.len() > 0 {
            assert(b.contains(b[0]));
            assert(a.contains(b[0]));
        }
        assert(a =~= b);
    } else {
        assert(a.contains(a[0]));
        assert(b.contains(a[0]));
        let p = choose|i: int| 0 <= i < b.len() && b[i] == a[0];
        assert(b.contains(b[0]));
        assert(a.contains(b[0]));
        let q = choose|i: int| 0 <= i < a.len() && a[i] == b[0];
        if p > 0 {
            assert(comes_before(b[0], b[p]));
            if q > 0 {
                assert(comes_before(a[0], a[q]));
            }
            lemma_comes_before_total(a[0], b[0]);
        }
        assert(a[0] == b[0]);
        let ta = a.drop_first();
        let tb = b.drop_first();
        assert forall|x: AdrView| ta.contains(x) <==> tb.contains(x) by {
            if ta.contains(x) {
                let i = choose|i: int| 0 <= i < ta.len() && ta[i] == x;
                assert(a[i + 1] == x);
                assert(comes_before(a[0], a[i + 1]));
                lemma_comes_before_total(a[0], a[0]);
                assert(b.contains(x));
                let j = choose|j: int| 0 <= j < b.len() && b[j] == x;
                assert(j > 0);
                assert(tb[j - 1] == x);
            }
            if tb.contains(x) {
                let i = choose|i: int| 0 <= i < tb.len() && tb[i] == x;
                assert(b[i + 1] == x);
                assert(comes_before(b[0], b[i + 1]));
                lemma_comes_before_total(b[0], b[0]);
                assert(a.contains(x));
                let j = choose|j: int| 0 <= j < a.len() && a[j] == x;
                assert(j > 0);
                assert(ta[j - 1] == x);
            }
        }
        assert(in_order(ta)) by {
            assert forall|i: int, j: int| 0 <= i < j < ta.len() implies comes_before(
                #[trigger] ta[i],
                #[trigger] ta[j],
            ) by {
                assert(ta[i] == a[i + 1] && ta[j] == a[j + 1]);
            }
        }
        assert(in_order(tb)) by {
            assert forall|i: int, j: int| 0 <= i < j < tb.len() implies comes_before(
                #[trigger] tb[i],
                #[trigger] tb[j],
            ) by {
                assert(tb[i] == b[i + 1] && tb[j] == b[j + 1]);
            }
        }
        lemma_ordered_same(ta, tb);
        assert(a =~= seq![a[0]] + ta);
        assert(b =~= seq![b[0]] + tb);
    }
}

// ── Loading ────────────────────────────────────────────────────────────────

/// The texts of the memory files of a project; `None` where there is no file.
pub struct MemoryFiles {
    pub memory_exists: bool,
    pub context: Option<String>,
    pub decisions: Option<String>,
    pub decisions_archive: Option<String>,
    pub traps: Option<String>,
}

/// Loaded runtime state, with per-file parse-success flags.
pub struct LoadedFiles {
    pub state: RuntimeState,
    pub decisions: Vec<ADR>,
    pub traps: Vec<Trap>,
    pub is_greenfield: bool,
    pub context_parsed: bool,
    pub decisions_parsed: bool,
    pub traps_parsed: bool,
}

/// The state that a context file gives, if it can be read.
pub open spec fn context_state(context: Option<String>) -> Option<RuntimeStateView> {
    match context {
        Some(text) => state_in(text@),
        None => None,
    }
}

/// The decisions that a file gives.
pub open spec fn adrs_from(file: Option<String>) -> Seq<AdrView> {
    match file {
        Some(text) => adrs_in(text@),
        None => Seq::empty(),
    }
}

/// The traps that a file gives.
pub open spec fn traps_from(file: Option<String>) -> Seq<TrapView> {
    match file {
        Some(text) => traps_in(text@),
        None => Seq::empty(),
    }
}

/// Whether `loaded` is what the files `f` give. A project without memory files is
/// a green field: it is empty, and nothing in it can be overwritten. A context
/// file that cannot be read gives the empty state, and its flag says so.
pub open spec fn loads_as(f: MemoryFiles, loaded: LoadedFiles) -> bool {
    if !f.memory_exists {
        &&& loaded.state@ == empty_state()
        &&& loaded.decisions@.len() == 0
        &&& loaded.traps@.len() == 0
        &&& loaded.is_greenfield
        &&& loaded.context_parsed
        &&& loaded.decisions_parsed
        &&& loaded.traps_parsed
    } else {
        &&& loaded.state@ == match context_state(f.context) {
            Some(state) => state,
            None => empty_state(),
        }
        &&& is_merge(
            adrs_from(f.decisions) + adrs_from(f.decisions_archive),
            adr_views(loaded.decisions@),
        )
        &&& trap_views(loaded.traps@) == traps_from(f.traps)
        &&& !loaded.is_greenfield
        &&& loaded.context_parsed == (context_state(f.context) is Some)
        &&& loaded.decisions_parsed == (f.decisions is Some || f.decisions_archive is Some)
        &&& loaded.traps_parsed == (traps_from(f.traps).len() > 0)
    }
}

fn load_adrs(file: &Option<String>) -> (r: Vec<ADR>)
    ensures
        adr_views(r@) == adrs_from(*file),
{
    match file {
        Some(text) => match parse_decisions(text.as_str()) {
            Ok(adrs) => adrs,
            Err(_) => Vec::new(),
        },
        None => {
            let none: Vec<ADR> = Vec::new();
            assert(adr_views(none@) =~= Seq::<AdrView>::empty());
            none
        },
    }
}

/// Load runtime state from the memory files.
///
/// When a file exists but cannot be parsed, its parse flag is `false` and empty
/// defaults are returned.
pub fn load_state(files: &MemoryFiles) -> (r: LoadedFiles)
    ensures
        loads_as(*files, r),
{
    if !files.memory_exists {
        return LoadedFiles {
            state: new_state(),
            decisions: Vec::new(),
            traps: Vec::new(),
            is_greenfield: true,
            context_parsed: true,
            decisions_parsed: true,
            traps_parsed: true,
        };
    }
    let mut context_parsed = false;
    let state = match &files.context {
        Some(text) => match parse_context(text.as_str()) {
            Ok(state) => {
                context_parsed = true;
                state
            },
            Err(_) => new_state(),
        },
        None => new_state(),
    };
    let mut all = load_adrs(&files.decisions);
    let ghost main = all@;
    let mut archived = load_adrs(&files.decisions_archive);
    let ghost archive = archived@;
    all.append(&mut archived);
    assert(adr_views(all@) =~= adr_views(main) + adr_views(archive));
    let decisions = merge_decisions(all);
    let traps = match &files.traps {
        Some(text) => match parse_traps(text.as_str()) {
            Ok(traps) => traps,
            Err(_) => Vec::new(),
        },
        None => {
            let none: Vec<Trap> = Vec::new();
            assert(trap_views(none@) =~= Seq::<TrapView>::empty());
            none
        },
    };
    assert(trap_views(traps@).len() == traps@.len());
    let traps_parsed = traps.len() > 0;
    LoadedFiles {
        state,
        decisions,
        traps,
        is_greenfield: false,
        context_parsed,
        decisions_parsed: files.decisions.is_some() || files.decisions_archive.is_some(),
        traps_parsed,
    }
}

/// The context file of a green field.
pub const DEFAULT_CONTEXT: &'static str = "# Current Phase\n\n# Active Tasks\n\n# Constraints\n";

impl StateManager {
    /// Replace the memory state by what the files give. Returns whether the
    /// project is a green field, whose default files are still to be written.
    ///
    /// Nothing of the former state remains, whatever project it belonged to.
    pub fn bootstrap(&mut self, files: &MemoryFiles) -> (greenfield: bool)
        requires
            old(self).wf(),
        ensures
            final(self).wf(),
            greenfield == !files.memory_exists,
            loads_as(
                *files,
                (LoadedFiles {
                    state: final(self).state,
                    decisions: final(self).decisions,
                    traps: final(self).traps,
                    is_greenfield: greenfield,
                    context_parsed: final(self).context_ok,
                    decisions_parsed: final(self).decisions_ok,
                    traps_parsed: final(self).traps_ok,
                }),
            ),
    {
        let loaded = load_state(files);
        self.state = loaded.state;
        self.decisions = loaded.decisions;
        self.traps = loaded.traps;
        self.context_ok = loaded.context_parsed;
        self.decisions_ok = loaded.decisions_parsed;
        self.traps_ok = loaded.traps_parsed;
        loaded.is_greenfield
    }
}

// ── Flushing ───────────────────────────────────────────────────────────────

/// What a flush writes: the text of each memory file, or `None` where the file is
/// left alone.
pub struct FlushPlan {
    pub context: Option<String>,
    pub decisions: Option<String>,
    pub decisions_archive: Option<String>,
    pub traps: Option<String>,
}

#[verifier::ext_equal]
pub struct FlushPlanView {
    pub context: Option<Seq<char>>,
    pub decisions: Option<Seq<char>>,
    pub decisions_archive: Option<Seq<char>>,
    pub traps: Option<Seq<char>>,
}

pub open spec fn opt_text(s: Option<String>) -> Option<Seq<char>> {
    match s {
        Some(s) => Some(s@),
        None => None,
    }
}

impl View for FlushPlan {
    type V = FlushPlanView;

    open spec fn view(&self) -> FlushPlanView {
        FlushPlanView {
            context: opt_text(self.context),
            decisions: opt_text(self.decisions),
            decisions_archive: opt_text(self.decisions_archive),
            traps: opt_text(self.traps),
        }
    }
}

/// Whether there is nothing in the state that a context file would show.
pub open spec fn nothing_to_show(state: RuntimeStateView) -> bool {
    state.current_phase.len() == 0 && state.active_tasks.len() == 0 && state.constraints.len() == 0
}

/// What a flush writes for a memory state: a file that was not understood is not
/// overwritten while there is nothing to put in it, and the archive of decisions
/// is written where there are stale ones.
pub open spec fn flush_of(m: ManagerView) -> FlushPlanView {
    let active = m.decisions.filter(is_active());
    let stale = m.decisions.filter(is_stale());
    FlushPlanView {
        context: if !m.context_ok && nothing_to_show(m.state) {
            None
        } else {
            Some(context_text(m.state))
        },
        decisions: if !m.decisions_ok && m.decisions.len() == 0 {
            None
        } else {
            Some(decisions_file_text(active, stale.len() > 0))
        },
        decisions_archive: if stale.len() == 0 {
            None
        } else {
            Some(adrs_text(stale))
        },
        traps: if !m.traps_ok && m.traps.len() == 0 {
            None
        } else {
            Some(traps_text(m.traps))
        },
    }
}

impl StateManager {
    /// What a flush writes.
    pub fn plan_flush(&self) -> (r: FlushPlan)
        ensures
            r@ == flush_of(self@),
    {
        let state = &self.state;
        assert(state@.active_tasks.len() == state.active_tasks@.len());
        assert(state@.constraints.len() == state.constraints@.len());
        let nothing = state.current_phase.as_str().is_empty() && state.active_tasks.len() == 0
            && state.constraints.len() == 0;
        let context = if !self.context_ok && nothing {
            None
        } else {
            Some(render_context(state))
        };
        let active = adrs_by_activity(self.decisions.as_slice(), true);
        let stale = adrs_by_activity(self.decisions.as_slice(), false);
        assert(adr_views(stale@).len() == stale@.len());
        assert(adr_views(self.decisions@).len() == self.decisions@.len());
        let decisions = if !self.decisions_ok && self.decisions.len() == 0 {
            None
        } else {
            Some(render_decisions_file(active.as_slice(), stale.len() > 0))
        };
        let decisions_archive = if stale.len() == 0 {
            None
        } else {
            Some(render_decisions(stale.as_slice()))
        };
        assert(trap_views(self.traps@).len() == self.traps@.len());
        let traps = if !self.traps_ok && self.traps.len() == 0 {
            None
        } else {
            Some(render_traps(self.traps.as_slice()))
        };
        FlushPlan { context, decisions, decisions_archive, traps }
    }

    /// The task archive after the done tasks were added to it, on the day at
    /// `secs` seconds since the Unix epoch; `None` where no task is done. The
    /// done tasks are cleared, so that they are not archived again.
    pub fn archive_done_tasks(&mut self, existing: &str, secs: u64) -> (r: Option<String>)
        requires
            old(self).wf(),
        ensures
            final(self).wf(),
            final(self)@ == (ManagerView {
                state: RuntimeStateView { done_tasks: Seq::empty(), ..old(self)@.state },
                ..old(self)@
            }),
            opt_text(r) == if old(self)@.state.done_tasks.len() == 0 {
                None
            } else {
                Some(
                    archive_after(
                        existing@,
                        old(self)@.state.done_tasks,
                        date_text(date_of(secs as int / 86400)),
                    ),
                )
            },
    {
        let ghost before = self@;
        assert(before.state.done_tasks.len() == self.state.done_tasks@.len());
        if self.state.done_tasks.len() == 0 {
            assert(before.state.done_tasks =~= Seq::<TaskView>::empty());
            return None;
        }
        let today = today_date(secs);
        let text = append_tasks_archive(
            existing,
            self.state.done_tasks.as_slice(),
            today.as_str(),
        );
        self.state.done_tasks = Vec::new();
        assert(self@.state.done_tasks =~= Seq::<TaskView>::empty());
        Some(text)
    }
}

/// The message for the write errors of a flush; `None` where there was none.
pub open spec fn flush_error_text(errors: Seq<Seq<char>>) -> Option<Seq<char>> {
    if errors.len() == 0 {
        None
    } else {
        Some(decimal(errors.len()) + " flush error(s): "@ + join(errors, "; "@))
    }
}

pub fn flush_error(errors: &Vec<String>) -> (r: Option<String>)
    ensures
        opt_text(r) == flush_error_text(texts(errors@)),
{
    assert(texts(errors@).len() == errors@.len());
    if errors.len() == 0 {
        return None;
    }
    let mut out = decimal_of(errors.len() as u128);
    out.append(" flush error(s): ");
    let list = joined(errors, "; ");
    out.append(list.as_str());
    Some(out)
}

// ── Debouncing ─────────────────────────────────────────────────────────────

/// How long after the last change a flush waits, in milliseconds.
pub const DEBOUNCE_MILLIS: u64 = 500;

/// Where the flush loop stands: no change is pending, or one is and the silence
/// after it has not lasted long enough.
#[derive(Debug, Clone, Copy, PartialEq, Eq, Structural)]
pub enum FlushLoop {
    Idle,
    Pending,
    Stopped,
}

/// What the flush loop sees: a change, the end of the silence it waited for, or
/// that no more changes can come.
#[derive(Debug, Clone, Copy, PartialEq, Eq, Structural)]
pub enum FlushSignal {
    Changed,
    Silence,
    Closed,
}

/// What the flush loop does next: wait for a change, wait for a change or
/// silence (from the start), write, or end.
#[derive(Debug, Clone, Copy, PartialEq, Eq, Structural)]
pub enum FlushAction {
    AwaitChange,
    AwaitSilence,
    Flush,
    Stop,
}

/// One step of the flush loop.
pub open spec fn flush_step(at: FlushLoop, signal: FlushSignal) -> (FlushLoop, FlushAction) {
    match (at, signal) {
        (FlushLoop::Stopped, _) => (FlushLoop::Stopped, FlushAction::Stop),
        (_, FlushSignal::Closed) => (FlushLoop::Stopped, FlushAction::Stop),
        (_, FlushSignal::Changed) => (FlushLoop::Pending, FlushAction::AwaitSilence),
        (FlushLoop::Pending, FlushSignal::Silence) => (FlushLoop::Idle, FlushAction::Flush),
        (FlushLoop::Idle, FlushSignal::Silence) => (FlushLoop::Idle, FlushAction::AwaitChange),
    }
}

impl FlushLoop {
    /// Take a signal; returns what to do next.
    pub fn step(&mut self, signal: FlushSignal) -> (r: FlushAction)
        ensures
            (*final(self), r) == flush_step(*old(self), signal),
    {
        let at = *self;
        match (at, signal) {
            (FlushLoop::Stopped, _) => FlushAction::Stop,
            (_, FlushSignal::Closed) => {
                *self = FlushLoop::Stopped;
                FlushAction::Stop
            },
            (_, FlushSignal::Changed) => {
                *self = FlushLoop::Pending;
                FlushAction::AwaitSilence
            },
            (FlushLoop::Pending, FlushSignal::Silence) => {
                *self = FlushLoop::Idle;
                FlushAction::Flush
            },
            (FlushLoop::Idle, FlushSignal::Silence) => FlushAction::AwaitChange,
        }
    }
}

/// Where the flush loop stands after a sequence of signals.
pub open spec fn flush_state(at: FlushLoop, signals: Seq<FlushSignal>) -> FlushLoop
    decreases signals.len(),
{
    if signals.len() == 0 {
        at
    } else {
        flush_step(flush_state(at, signals.drop_last()), signals.last()).0
    }
}

/// Whether a flush that began under one project may still write: the project has
/// not been switched since.
pub fn same_generation(begun: u64, now: u64) -> (r: bool)
    ensures
        r == (begun == now),
{
    begun == now
}

// ── Laws ───────────────────────────────────────────────────────────────────

/// A burst of changes leads to one flush: it comes with the silence after the
/// last of them, and not before.
pub proof fn law_burst_is_one_flush(changes: nat)
    requires
        changes > 0,
    ensures
        ({
            let burst = Seq::new(changes, |i: int| FlushSignal::Changed);
            &&& flush_state(FlushLoop::Idle, burst) == FlushLoop::Pending
            &&& forall|k: int|
                0 <= k < changes ==> (#[trigger] flush_step(
                    flush_state(FlushLoop::Idle, burst.take(k)),
                    burst[k],
                )).1 == FlushAction::AwaitSilence
            &&& flush_step(FlushLoop::Pending, FlushSignal::Silence) == (
                FlushLoop::Idle,
                FlushAction::Flush,
            )
        }),
    decreases changes,
{
    let burst = Seq::new(changes, |i: int| FlushSignal::Changed);
    assert forall|k: int| 0 <= k < changes implies (#[trigger] flush_step(
        flush_state(FlushLoop::Idle, burst.take(k)),
        burst[k],
    )).1 == FlushAction::AwaitSilence by {
        lemma_burst_state(burst, k);
    }
    lemma_burst_state(burst, changes as int);
    assert(burst.take(changes as int) =~= burst);
}

proof fn lemma_burst_state(burst: Seq<FlushSignal>, k: int)
    requires
        0 <= k <= burst.len(),
        forall|i: int| 0 <= i < burst.len() ==> #[trigger] burst[i] == FlushSignal::Changed,
    ensures
        flush_state(FlushLoop::Idle, burst.take(k)) == if k == 0 {
            FlushLoop::Idle
        } else {
            FlushLoop::Pending
        },
    decreases k,
{
    if k > 0 {
        lemma_burst_state(burst, k - 1);
        assert(burst.take(k).drop_last() =~= burst.take(k - 1));
        assert(burst.take(k).last() == burst[k - 1]);
    }
}

/// Nothing is written without a change before it: a flush happens only where one
/// is pending.
pub proof fn law_flush_needs_a_change(at: FlushLoop, signal: FlushSignal)
    ensures
        flush_step(at, signal).1 == FlushAction::Flush <==> at == FlushLoop::Pending && signal
            == FlushSignal::Silence,
{
}

/// A file that was not understood is preserved until there is something to write.
pub proof fn law_unread_files_are_preserved(m: ManagerView)
    ensures
        flush_of(m).context is None <==> !m.context_ok && nothing_to_show(m.state),
        flush_of(m).decisions is None <==> !m.decisions_ok && m.decisions.len() == 0,
        flush_of(m).traps is None <==> !m.traps_ok && m.traps.len() == 0,
{
}

/// What a flush writes of the decisions reads back as exactly the active ones
/// from `decisions.md` and the stale ones from the archive.
pub proof fn law_flushed_decisions_read_back(m: ManagerView)
    requires
        forall|i: int| 0 <= i < m.decisions.len() ==> readable_adr(#[trigger] m.decisions[i]),
    ensures
        flush_of(m).decisions matches Some(text) ==> adrs_in(text) == m.decisions.filter(
            is_active(),
        ).map_values(|a: AdrView| settled_adr(a)),
        flush_of(m).decisions_archive matches Some(text) ==> adrs_in(text) == m.decisions.filter(
            is_stale(),
        ).map_values(|a: AdrView| settled_adr(a)),
{
    law_stale_adrs_read_back(m.decisions);
    law_noted_adrs_read_back(m.decisions, m.decisions.filter(is_stale()).len() > 0);
}

/// What a flush writes of the traps reads back as the traps.
pub proof fn law_flushed_traps_read_back(m: ManagerView)
    requires
        forall|i: int| 0 <= i < m.traps.len() ==> readable_trap(#[trigger] m.traps[i]),
    ensures
        flush_of(m).traps matches Some(text) ==> traps_in(text) == m.traps.map_values(
            |t: TrapView| settled_trap(t),
        ),
{
    law_traps_read_back(m.traps);
}

/// What a flush writes of the context reads back as the state it tells.
pub proof fn law_flushed_context_reads_back(m: ManagerView)
    requires
        readable_state(m.state),
    ensures
        flush_of(m).context matches Some(text) ==> state_in(text) == Some(retold_state(m.state)),
{
    law_context_reads_back(m.state);
}

/// Every active task that is loaded has a unique id, where the context file does not
/// state one id twice.
pub proof fn law_loaded_ids_unique(f: MemoryFiles, loaded: LoadedFiles)
    requires
        loads_as(f, loaded),
        f.context matches Some(text) ==> ids_stated_once(text@),
    ensures
        unique_ids(loaded.state@.active_tasks),
{
    if let Some(text) = f.context {
        if state_in(text@) is Some {
            law_context_ids_unique(text@);
        }
    }
}

/// The memory files alone decide what is loaded: whatever was in memory before, and
/// whatever caches there are, the same files give the same memory.
pub proof fn law_load_is_determined(f: MemoryFiles, a: LoadedFiles, b: LoadedFiles)
    requires
        loads_as(f, a),
        loads_as(f, b),
    ensures
        a.state@ == b.state@,
        adr_views(a.decisions@) == adr_views(b.decisions@),
        trap_views(a.traps@) == trap_views(b.traps@),
        a.is_greenfield == b.is_greenfield,
        a.context_parsed == b.context_parsed,
        a.decisions_parsed == b.decisions_parsed,
        a.traps_parsed == b.traps_parsed,
{
    if f.memory_exists {
        law_merge_is_determined(
            adrs_from(f.decisions) + adrs_from(f.decisions_archive),
            adr_views(a.decisions@),
            adr_views(b.decisions@),
        );
    } else {
        assert(adr_views(a.decisions@) =~= adr_views(b.decisions@));
        assert(trap_views(a.traps@) =~= trap_views(b.traps@));
    }
}

/// Whether `f` are the memory files after a flush of `m` that wrote all of them; the
/// archive of decisions is there only where there are stale ones.
pub open spec fn flushed_to(m: ManagerView, f: MemoryFiles) -> bool {
    &&& f.memory_exists
    &&& flush_of(m).context is Some
    &&& flush_of(m).decisions is Some
    &&& flush_of(m).traps is Some
    &&& opt_text(f.context) == flush_of(m).context
    &&& opt_text(f.decisions) == flush_of(m).decisions
    &&& opt_text(f.decisions_archive) == flush_of(m).decisions_archive
    &&& opt_text(f.traps) == flush_of(m).traps
}

/// Whether every text of the memory can be written and read back as it is.
pub open spec fn faithful(m: ManagerView) -> bool {
    &&& readable_state(m.state)
    &&& forall|i: int|
        0 <= i < m.decisions.len() ==> readable_adr(#[trigger] m.decisions[i]) && tidy_adr(
            m.decisions[i],
        )
    &&& forall|i: int|
        0 <= i < m.traps.len() ==> readable_trap(#[trigger] m.traps[i]) && tidy_trap(m.traps[i])
}

/// What is flushed is loaded again: the state as its context file tells it, the
/// traps as they were, and of each ADR the version that counts.
pub proof fn law_reload_gives_back_memory(m: ManagerView, f: MemoryFiles, loaded: LoadedFiles)
    requires
        faithful(m),
        flushed_to(m, f),
        loads_as(f, loaded),
    ensures
        loaded.state@ == retold_state(m.state),
        trap_views(loaded.traps@) == m.traps,
        is_merge(
            m.decisions.filter(is_active()) + m.decisions.filter(is_stale()),
            adr_views(loaded.decisions@),
        ),
{
    law_flushed_context_reads_back(m);
    law_tidy_traps_read_back(m.traps);
    law_noted_adrs_read_back(m.decisions, m.decisions.filter(is_stale()).len() > 0);
    let active = m.decisions.filter(is_active());
    let stale = m.decisions.filter(is_stale());
    assert forall|i: int| 0 <= i < active.len() implies readable_adr(#[trigger] active[i])
        && tidy_adr(active[i]) by {
        lemma_filter_from(m.decisions, is_active(), i);
    }
    assert forall|i: int| 0 <= i < stale.len() implies readable_adr(#[trigger] stale[i])
        && tidy_adr(stale[i]) by {
        lemma_filter_from(m.decisions, is_stale(), i);
    }
    law_tidy_adrs_read_back(active);
    law_adrs_read_back(active);
    law_tidy_adrs_read_back(stale);
    assert(adrs_from(f.decisions) =~= active);
    assert(adrs_from(f.decisions_archive) =~= stale);
}

/// Where no id occurs twice, a flush and a load keep exactly the decisions.
pub proof fn law_reload_keeps_decisions(
    m: ManagerView,
    f: MemoryFiles,
    loaded: LoadedFiles,
    a: AdrView,
)
    requires
        faithful(m),
        flushed_to(m, f),
        loads_as(f, loaded),
        forall|i: int, j: int|
            0 <= i < j < m.decisions.len() ==> (#[trigger] m.decisions[i]).id != (
            #[trigger] m.decisions[j]).id,
    ensures
        adr_views(loaded.decisions@).contains(a) <==> m.decisions.contains(a),
{
    law_reload_gives_back_memory(m, f, loaded);
    let active = m.decisions.filter(is_active());
    let stale = m.decisions.filter(is_stale());
    let all = active + stale;
    let merged = adr_views(loaded.decisions@);
    lemma_split_by_activity(m.decisions);
    if merged.contains(a) {
        let i = choose|i: int| 0 <= i < merged.len() && merged[i] == a;
        assert(best_entry(all, merged[i]));
        let k = choose|k: int| 0 <= k < all.len() && is_best(all, k) && #[trigger] all[k] == a;
        assert(all.contains(a));
    }
    if m.decisions.contains(a) {
        assert(all.contains(a));
        let k = choose|k: int| 0 <= k < all.len() && all[k] == a;
        assert(is_best(all, k)) by {
            assert forall|j: int| 0 <= j < all.len() && (#[trigger] all[j]).id
                == all[k].id implies j == k by {
                if j != k {
                    lemma_split_distinct(m.decisions, j, k);
                }
            }
        }
        assert(merged.contains(all[k]));
    }
}

/// Active and stale ADRs together are all of them.
proof fn lemma_split_by_activity(adrs: Seq<AdrView>)
    ensures
        forall|a: AdrView| #[trigger]
            (adrs.filter(is_active()) + adrs.filter(is_stale())).contains(a) <==> adrs.contains(a),
    decreases adrs.len(),
{
    reveal(Seq::filter);
    let all = adrs.filter(is_active()) + adrs.filter(is_stale());
    assert forall|a: AdrView| #[trigger] all.contains(a) <==> adrs.contains(a) by {
        let x = adrs.filter(is_active());
        let y = adrs.filter(is_stale());
        if all.contains(a) {
            let k = choose|k: int| 0 <= k < all.len() && all[k] == a;
            if k < x.len() {
                lemma_filter_from(adrs, is_active(), k);
            } else {
                lemma_filter_from(adrs, is_stale(), k - x.len());
            }
        }
        if adrs.contains(a) {
            if a.status.active() {
                lemma_filter_has(adrs, is_active(), a);
                let k = choose|k: int| 0 <= k < x.len() && x[k] == a;
                assert(all[k] == a);
            } else {
                lemma_filter_has(adrs, is_stale(), a);
                let k = choose|k: int| 0 <= k < y.len() && y[k] == a;
                assert(all[x.len() + k] == a);
            }
        }
    }
}

/// What a filter keeps of ADRs with different ids has different ids.
proof fn lemma_filter_ids(adrs: Seq<AdrView>, keep: spec_fn(AdrView) -> bool)
    requires
        forall|i: int, j: int|
            0 <= i < j < adrs.len() ==> (#[trigger] adrs[i]).id != (#[trigger] adrs[j]).id,
    ensures
        forall|i: int, j: int|
            0 <= i < j < adrs.filter(keep).len() ==> (#[trigger] adrs.filter(keep)[i]).id != (
            #[trigger] adrs.filter(keep)[j]).id,
    decreases adrs.len(),
{
    reveal(Seq::filter);
    if adrs.len() > 0 {
        let rest = adrs.drop_last();
        lemma_filter_ids(rest, keep);
        let kept = rest.filter(keep);
        assert forall|i: int, j: int| 0 <= i < j < adrs.filter(keep).len() implies (
        #[trigger] adrs.filter(keep)[i]).id != (#[trigger] adrs.filter(keep)[j]).id by {
            if j < kept.len() {
                assert(kept[i].id != kept[j].id);
            } else {
                lemma_filter_from(rest, keep, i);
                let k = choose|k: int| 0 <= k < rest.len() && rest[k] == kept[i];
                assert(adrs[k].id != adrs[adrs.len() - 1].id);
            }
        }
    }
}

/// ADRs with different ids keep different ids when they are split by activity.
proof fn lemma_split_distinct(adrs: Seq<AdrView>, j: int, k: int)
    requires
        forall|a: int, b: int|
            0 <= a < b < adrs.len() ==> (#[trigger] adrs[a]).id != (#[trigger] adrs[b]).id,
        0 <= j < (adrs.filter(is_active()) + adrs.filter(is_stale())).len(),
        0 <= k < (adrs.filter(is_active()) + adrs.filter(is_stale())).len(),
        j != k,
    ensures
        (adrs.filter(is_active()) + adrs.filter(is_stale()))[j].id != (adrs.filter(is_active())
            + adrs.filter(is_stale()))[k].id,
{
    let x = adrs.filter(is_active());
    let y = adrs.filter(is_stale());
    let all = x + y;
    lemma_filter_ids(adrs, is_active());
    lemma_filter_ids(adrs, is_stale());
    let (p, q) = if j < k {
        (j, k)
    } else {
        (k, j)
    };
    if q < x.len() {
        assert(x[p].id != x[q].id);
    } else if p >= x.len() {
        assert(y[p - x.len()].id != y[q - x.len()].id);
    } else {
        lemma_filter_from(adrs, is_active(), p);
        lemma_filter_from(adrs, is_stale(), q - x.len());
        let a = choose|a: int| 0 <= a < adrs.len() && adrs[a] == x[p];
        let b = choose|b: int| 0 <= b < adrs.len() && adrs[b] == y[q - x.len()];
        assert(a != b);
    }
}

} // verus!
