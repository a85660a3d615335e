//! What a search finds, told by the words of the entries and of the query.
use vstd::prelude::*;
use vstd::utf8::encode_utf8;

use crate::foreign::{alphanumeric, lowercase, plain_lower, plainly_cased, small, uppercase};
use crate::models::{AdrView, TrapView};
use crate::search::index::{
    adr_fields, adr_terms, any_indexed, candidate, docs_of, entry_match, field_terms, found, is_top,
    item_of, item_view, marked, match_views, posting, ref_of, ref_views, strip_end, strip_start,
    term_of, trap_fields, trap_terms, Doc, EntryType, IndexRef, Match, MatchView, SearchItem,
    SearchItemView,
};
use crate::search::scorer::{
    field_hits_of, has_word, hit_of, meets, ngrams, query_tokens, run_end, truncated, word_at,
    word_starts, FieldHits, FieldHitsView, TokenHit, TokenHitView,
};
use crate::text::{
    has_prefix, is_white_space, join, lemma_trim_start_at, lemma_word_len_at, occurs_in, words,
};

verus! {

// ── Words ──────────────────────────────────────────────────────────────────

/// A text of words: leading white space does not matter, a word reaches to the next
/// white space, and the words of the rest follow.
pub proof fn law_words_are_between_white_space(
    front: Seq<char>,
    w: Seq<char>,
    c: char,
    rest: Seq<char>,
)
    requires
        forall|i: int| 0 <= i < front.len() ==> is_white_space(#[trigger] front[i]),
        w.len() > 0,
        forall|i: int| 0 <= i < w.len() ==> !is_white_space(#[trigger] w[i]),
        is_white_space(c),
    ensures
        words(front) == Seq::<Seq<char>>::empty(),
        words(front + w) == seq![w],
        words(front + w + seq![c] + rest) == seq![w] + words(rest),
{
    let none = Seq::<char>::empty();
    lemma_trim_start_at(front, front.len() as int);
    assert(front.skip(front.len() as int) =~= none);
    lemma_one_word(front, w, none);
    assert(front + w + none =~= front + w);
    lemma_trim_start_at(none, 0);
    assert(words(none) =~= Seq::<Seq<char>>::empty());
    assert(seq![w] + words(none) =~= seq![w]);
    lemma_one_word(front, w, seq![c] + rest);
    assert(front + w + (seq![c] + rest) =~= front + w + seq![c] + rest);
    lemma_words_past(c, rest);
}

proof fn lemma_one_word(front: Seq<char>, w: Seq<char>, more: Seq<char>)
    requires
        forall|i: int| 0 <= i < front.len() ==> is_white_space(#[trigger] front[i]),
        w.len() > 0,
        forall|i: int| 0 <= i < w.len() ==> !is_white_space(#[trigger] w[i]),
        more.len() == 0 || is_white_space(more[0]),
    ensures
        words(front + w + more) == seq![w] + words(more),
{
    let s = front + w + more;
    let n = front.len() as int;
    let m = w.len() as int;
    assert forall|i: int| 0 <= i < n implies is_white_space(#[trigger] s[i]) by {
        assert(s[i] == front[i]);
    }
    assert(s[n] == w[0]);
    lemma_trim_start_at(s, n);
    let t = s.skip(n);
    assert(t =~= w + more);
    assert forall|i: int| 0 <= i < m implies !is_white_space(#[trigger] t[i]) by {
        assert(t[i] == w[i]);
    }
    if m < t.len() {
        assert(t[m] == more[0]);
    }
    lemma_word_len_at(t, m);
    assert(t.take(m) =~= w);
    assert(t.skip(m) =~= more);
}

proof fn lemma_words_past(c: char, rest: Seq<char>)
    requires
        is_white_space(c),
    ensures
        words(seq![c] + rest) == words(rest),
{
    let s = seq![c] + rest;
    assert(s.drop_first() =~= rest);
    assert(crate::text::trim_start(s) == crate::text::trim_start(rest));
    crate::text::lemma_trim_start_len(rest);
}

/// Whether a word of `text` stands from position `p` to `e`: a run of letters and
/// digits that ends there, and begins where none was before or, inside a run, at a
/// capital behind a small letter.
pub open spec fn word_stands(text: Seq<char>, p: int, e: int) -> bool {
    &&& 0 <= p < e <= text.len()
    &&& forall|k: int| p <= k < e ==> alphanumeric(#[trigger] text[k])
    &&& e < text.len() ==> !alphanumeric(text[e])
    &&& p > 0 && alphanumeric(text[p - 1]) ==> small(text[p - 1]) && uppercase(text[p])
}

/// Whether some word of `text` begins with `token`, case aside.
pub open spec fn word_begins(text: Seq<char>, token: Seq<char>) -> bool {
    exists|p: int, e: int| #[trigger]
        word_stands(text, p, e) && {
            let word = lowercase(text.subrange(p, e));
            let start = lowercase(token);
            start.len() <= word.len() && word.take(start.len() as int) == start
        }
}

proof fn lemma_run_end(text: Seq<char>, p: int)
    requires
        0 <= p <= text.len(),
    ensures
        p <= run_end(text, p) <= text.len(),
        forall|k: int| p <= k < run_end(text, p) ==> alphanumeric(#[trigger] text[k]),
        run_end(text, p) < text.len() ==> !alphanumeric(text[run_end(text, p)]),
    decreases text.len() - p,
{
    if p < text.len() && alphanumeric(text[p]) {
        lemma_run_end(text, p + 1);
    }
}

/// A token hits a field exactly if and only if a word of the field begins with it.
pub proof fn law_exact_hit_is_the_beginning_of_a_word(token: Seq<char>, field: Seq<char>)
    requires
        token.len() > 0,
    ensures
        hit_of(token, field) is Exact <==> word_begins(field, token),
        has_word(field, token) <==> word_begins(field, token),
{
    if has_word(field, token) {
        let i = choose|i: int| #[trigger] word_starts(field, i) && word_at(field, i, token);
        lemma_run_end(field, i);
        let e = run_end(field, i);
        assert(e > i) by {
            lemma_run_end(field, i + 1);
        }
        assert(word_stands(field, i, e));
    }
    if word_begins(field, token) {
        let (p, e) = choose|p: int, e: int| #[trigger]
            word_stands(field, p, e) && {
                let word = lowercase(field.subrange(p, e));
                let start = lowercase(token);
                start.len() <= word.len() && word.take(start.len() as int) == start
            };
        lemma_run_end(field, p);
        let r = run_end(field, p);
        if r < e {
            assert(alphanumeric(field[r]));
        } else if e < r {
            assert(alphanumeric(field[e]));
        }
        assert(alphanumeric(field[p]));
        assert(word_starts(field, p) && word_at(field, p, token));
    }
}

/// Whether `part` stands somewhere in `whole`.
pub open spec fn stands_in(part: Seq<char>, whole: Seq<char>) -> bool {
    exists|a: Seq<char>, b: Seq<char>| whole == #[trigger] (a + part + b)
}

proof fn lemma_stands_in(part: Seq<char>, whole: Seq<char>)
    ensures
        occurs_in(part, whole) == stands_in(part, whole),
{
    if occurs_in(part, whole) {
        let i = choose|i: int| 0 <= i <= whole.len() && #[trigger] has_prefix(whole.skip(i), part);
        let tail = whole.skip(i);
        assert(tail =~= part + tail.skip(part.len() as int)) by {
            assert(tail =~= tail.take(part.len() as int) + tail.skip(part.len() as int));
        }
        assert(whole =~= whole.take(i) + part + tail.skip(part.len() as int));
    }
    if stands_in(part, whole) {
        let (a, b) = choose|a: Seq<char>, b: Seq<char>| whole == #[trigger] (a + part + b);
        let i = a.len() as int;
        assert(whole.skip(i) =~= part + b);
        assert((part + b).take(part.len() as int) =~= part);
        assert(has_prefix(whole.skip(i), part));
    }
}

/// The windows of three bytes of a text.
pub open spec fn three_bytes(s: Seq<u8>) -> Set<Seq<u8>> {
    Set::new(
        |w: Seq<u8>|
            w.len() == 3 && exists|i: int|
                0 <= i && i + 3 <= s.len() && #[trigger] s[i] == w[0] && s[i + 1] == w[1] && s[i
                    + 2] == w[2],
    )
}

proof fn lemma_three_bytes(s: Seq<u8>)
    ensures
        ngrams(s, 3) == three_bytes(s),
{
    assert forall|w: Seq<u8>| ngrams(s, 3).contains(w) <==> three_bytes(s).contains(w) by {
        if ngrams(s, 3).contains(w) {
            let i = choose|i: int| 0 <= i <= s.len() - 3 && w == #[trigger] s.subrange(i, i + 3);
            assert(s[i] == w[0] && s[i + 1] == w[1] && s[i + 2] == w[2]);
        }
        if three_bytes(s).contains(w) {
            let i = choose|i: int|
                0 <= i && i + 3 <= s.len() && #[trigger] s[i] == w[0] && s[i + 1] == w[1] && s[i
                    + 2] == w[2];
            assert(w =~= s.subrange(i, i + 3));
        }
    }
    assert(ngrams(s, 3) =~= three_bytes(s));
}

/// A token that begins no word of a field hits it still where the two share over a
/// quarter of their windows of three bytes, and by how many they share; where one of
/// them is shorter than that, it hits where one stands in the other, case aside.
pub proof fn law_other_hits_go_by_shared_bytes(token: Seq<char>, field: Seq<char>)
    requires
        token.len() > 0,
        field.len() > 0,
        !word_begins(field, token),
    ensures
        ({
            let x = encode_utf8(token);
            let y = encode_utf8(field);
            let shared = three_bytes(x).intersect(three_bytes(y)).len();
            let total = three_bytes(x).len() + three_bytes(y).len();
            let hit = hit_of(token, field);
            if x.len() < 3 || y.len() < 3 {
                &&& hit is Near <==> stands_in(lowercase(token), lowercase(field)) || stands_in(
                    lowercase(field),
                    lowercase(token),
                )
                &&& !(hit is Near) ==> hit is Miss
            } else {
                &&& 2 * shared * 4 > total ==> hit == (TokenHitView::Fuzzy {
                    shared: shared as int,
                    total: total as int,
                })
                &&& 2 * shared * 4 <= total ==> hit is Miss
            }
        }),
{
    law_exact_hit_is_the_beginning_of_a_word(token, field);
    lemma_three_bytes(encode_utf8(token));
    lemma_three_bytes(encode_utf8(field));
    lemma_stands_in(lowercase(token), lowercase(field));
    lemma_stands_in(lowercase(field), lowercase(token));
}

// ── Fields ─────────────────────────────────────────────────────────────────

/// What a field tells of a query: for each token in turn how it hits the field, case
/// aside, and whether the whole query, of two tokens or more, stands in the field.
pub proof fn law_field_tells_each_token(query: Seq<char>, weight: int, field: Seq<char>, j: int)
    ensures
        ({
            let f = field_hits_of(query, weight, field);
            let tokens = words(lowercase(query));
            &&& f.weight == weight
            &&& f.hits.len() == tokens.len()
            &&& 0 <= j < tokens.len() && tokens[j].len() > 0 ==> (f.hits[j] is Exact
                <==> word_begins(lowercase(field), tokens[j]))
            &&& f.phrase <==> tokens.len() >= 2 && stands_in(lowercase(query), lowercase(field))
        }),
{
    let tokens = words(lowercase(query));
    lemma_stands_in(lowercase(query), lowercase(field));
    if 0 <= j < tokens.len() && tokens[j].len() > 0 {
        law_exact_hit_is_the_beginning_of_a_word(tokens[j], lowercase(field));
    }
}

/// The four fields of an ADR weigh 10, 2, 4 and 6: the hits told under each weight are
/// those of the title, of the context, of the decision and of the tags, and depend on
/// that field alone. The same text is hit alike in each of them.
pub proof fn law_adr_fields_are_weighed(query: Seq<char>, a: AdrView, b: AdrView)
    ensures
        ({
            let f = adr_fields(query, a);
            let g = adr_fields(query, b);
            &&& f.len() == 4
            &&& f[0].weight == 10
            &&& f[1].weight == 2
            &&& f[2].weight == 4
            &&& f[3].weight == 6
            &&& a.title == b.title ==> f[0] == g[0]
            &&& a.context == b.context ==> f[1] == g[1]
            &&& a.decision == b.decision ==> f[2] == g[2]
            &&& a.tags == b.tags ==> f[3] == g[3]
            &&& a.context == b.title ==> f[1].hits == g[0].hits && f[1].phrase == g[0].phrase
            &&& a.decision == b.title ==> f[2].hits == g[0].hits && f[2].phrase == g[0].phrase
            &&& a.tags == seq![b.title] ==> f[3].hits == g[0].hits && f[3].phrase == g[0].phrase
        }),
{
}

/// The five fields of a trap weigh 15, 3, 6, 8 and 5: the hits told under each weight
/// are those of the signature, of the context, of the solution, of the root cause and
/// of the prevention, and depend on that field alone.
pub proof fn law_trap_fields_are_weighed(query: Seq<char>, a: TrapView, b: TrapView)
    ensures
        ({
            let f = trap_fields(query, a);
            let g = trap_fields(query, b);
            &&& f.len() == 5
            &&& f[0].weight == 15
            &&& f[1].weight == 3
            &&& f[2].weight == 6
            &&& f[3].weight == 8
            &&& f[4].weight == 5
            &&& a.error_signature == b.error_signature ==> f[0] == g[0]
            &&& a.context == b.context ==> f[1] == g[1]
            &&& a.solution == b.solution ==> f[2] == g[2]
            &&& a.root_cause == b.root_cause ==> f[3] == g[3]
            &&& a.prevention == b.prevention ==> f[4] == g[4]
            &&& a.context == b.error_signature ==> f[1].hits == g[0].hits && f[1].phrase
                == g[0].phrase
            &&& a.solution == b.error_signature ==> f[2].hits == g[0].hits && f[2].phrase
                == g[0].phrase
            &&& a.root_cause == b.error_signature ==> f[3].hits == g[0].hits && f[3].phrase
                == g[0].phrase
            &&& a.prevention == b.error_signature ==> f[4].hits == g[0].hits && f[4].phrase
                == g[0].phrase
        }),
{
}

/// What is told of each field of an ADR: token by token, whether a word of the title,
/// of the context, of the decision or of the joined tags begins with it.
pub proof fn law_adr_hits_tell_words(query: Seq<char>, a: AdrView, j: int)
    requires
        0 <= j < words(lowercase(query)).len(),
        words(lowercase(query))[j].len() > 0,
    ensures
        ({
            let f = adr_fields(query, a);
            let token = words(lowercase(query))[j];
            &&& f[0].hits[j] is Exact <==> word_begins(lowercase(a.title), token)
            &&& f[1].hits[j] is Exact <==> word_begins(lowercase(a.context), token)
            &&& f[2].hits[j] is Exact <==> word_begins(lowercase(a.decision), token)
            &&& f[3].hits[j] is Exact <==> word_begins(lowercase(join(a.tags, " "@)), token)
        }),
{
    law_field_tells_each_token(query, 10, a.title, j);
    law_field_tells_each_token(query, 2, a.context, j);
    law_field_tells_each_token(query, 4, a.decision, j);
    law_field_tells_each_token(query, 6, join(a.tags, " "@), j);
}

/// What is told of each field of a trap: token by token, whether a word of it begins
/// with the token.
pub proof fn law_trap_hits_tell_words(query: Seq<char>, t: TrapView, j: int)
    requires
        0 <= j < words(lowercase(query)).len(),
        words(lowercase(query))[j].len() > 0,
    ensures
        ({
            let f = trap_fields(query, t);
            let token = words(lowercase(query))[j];
            &&& f[0].hits[j] is Exact <==> word_begins(lowercase(t.error_signature), token)
            &&& f[1].hits[j] is Exact <==> word_begins(lowercase(t.context), token)
            &&& f[2].hits[j] is Exact <==> word_begins(lowercase(t.solution), token)
            &&& f[3].hits[j] is Exact <==> word_begins(lowercase(t.root_cause), token)
            &&& f[4].hits[j] is Exact <==> word_begins(lowercase(t.prevention), token)
        }),
{
    law_field_tells_each_token(query, 15, t.error_signature, j);
    law_field_tells_each_token(query, 3, t.context, j);
    law_field_tells_each_token(query, 6, t.solution, j);
    law_field_tells_each_token(query, 8, t.root_cause, j);
    law_field_tells_each_token(query, 5, t.prevention, j);
}

// ── What is found ──────────────────────────────────────────────────────────

/// Whether anything is told of a field: a token that does not miss it, or the whole
/// query.
pub open spec fn something_told(f: FieldHitsView) -> bool {
    f.phrase || exists|j: int| 0 <= j < f.hits.len() && !(#[trigger] f.hits[j] is Miss)
}

spec fn finder(
    adrs: Seq<AdrView>,
    traps: Seq<TrapView>,
    query: Seq<char>,
    stale_too: bool,
) -> spec_fn(Doc) -> Option<MatchView> {
    let docs = docs_of(adrs, traps);
    |d: Doc|
        if candidate(docs, query_tokens(query), d.entry) {
            entry_match(adrs, traps, query, stale_too, d.entry)
        } else {
            None
        }
}

proof fn lemma_kept<B>(docs: Seq<Doc>, g: spec_fn(Doc) -> Option<B>, i: int)
    requires
        0 <= i < docs.len(),
        g(docs[i]) is Some,
    ensures
        docs.filter_map(g).contains(g(docs[i])->0),
    decreases docs.len(),
{
    reveal(Seq::filter_map);
    let rest = docs.drop_last();
    let m = g(docs[i])->0;
    if i < rest.len() {
        lemma_kept(rest, g, i);
        let k = choose|k: int| 0 <= k < rest.filter_map(g).len() && rest.filter_map(g)[k] == m;
        assert(docs.filter_map(g)[k] == m);
    } else {
        assert(docs.filter_map(g)[rest.filter_map(g).len() as int] == m);
    }
}

proof fn lemma_kept_from<B>(docs: Seq<Doc>, g: spec_fn(Doc) -> Option<B>, k: int) -> (i: int)
    requires
        0 <= k < docs.filter_map(g).len(),
    ensures
        0 <= i < docs.len(),
        g(docs[i]) == Some(docs.filter_map(g)[k]),
    decreases docs.len(),
{
    reveal(Seq::filter_map);
    let rest = docs.drop_last();
    if k < rest.filter_map(g).len() {
        let i = lemma_kept_from(rest, g, k);
        assert(rest[i] == docs[i]);
        i
    } else {
        docs.len() - 1
    }
}

/// Where the `i`-th ADR stands among all entries.
proof fn lemma_docs(adrs: Seq<AdrView>, traps: Seq<TrapView>)
    ensures
        docs_of(adrs, traps).len() == adrs.len() + traps.len(),
        forall|i: int|
            0 <= i < adrs.len() ==> #[trigger] docs_of(adrs, traps)[i].entry == (
                EntryType::Adr,
                i as usize,
            ) && docs_of(adrs, traps)[i].terms == adr_terms(adrs[i]),
        forall|i: int|
            0 <= i < traps.len() ==> #[trigger] docs_of(adrs, traps)[adrs.len() + i].entry == (
                EntryType::Trap,
                i as usize,
            ) && docs_of(adrs, traps)[adrs.len() + i].terms == trap_terms(traps[i]),
{
}

/// An ADR is found if and only if it is in force or stale ones are asked for, it is a
/// candidate, and something is told of one of its fields. What is told is of its four
/// fields, and whether it is stale.
pub proof fn law_adr_is_found_iff_told(
    adrs: Seq<AdrView>,
    traps: Seq<TrapView>,
    query: Seq<char>,
    stale_too: bool,
    i: int,
)
    requires
        0 <= i < adrs.len() <= usize::MAX,
        traps.len() <= usize::MAX,
    ensures
        ({
            let a = adrs[i];
            let f = adr_fields(query, a);
            let in_force = a.status is Accepted || a.status is Proposed;
            let entry = (EntryType::Adr, i as usize);
            let told = MatchView { entry, stale: !in_force, fields: f };
            &&& found(adrs, traps, query, stale_too).contains(told) <==> {
                &&& in_force || stale_too
                &&& candidate(docs_of(adrs, traps), words(lowercase(query)), entry)
                &&& something_told(f[0]) || something_told(f[1]) || something_told(f[2])
                    || something_told(f[3])
            }
            &&& forall|m: MatchView| #[trigger]
                found(adrs, traps, query, stale_too).contains(m) && m.entry == entry ==> m == told
        }),
{
    let docs = docs_of(adrs, traps);
    let g = finder(adrs, traps, query, stale_too);
    let a = adrs[i];
    let f = adr_fields(query, a);
    let in_force = a.status is Accepted || a.status is Proposed;
    let entry = (EntryType::Adr, i as usize);
    let told = MatchView { entry, stale: !in_force, fields: f };
    lemma_docs(adrs, traps);
    assert(docs[i].entry == entry);
    assert(found(adrs, traps, query, stale_too) == docs.filter_map(g));
    assert forall|m: MatchView| #[trigger]
        found(adrs, traps, query, stale_too).contains(m) && m.entry == entry implies m == told by {
        let k = choose|k: int| 0 <= k < docs.filter_map(g).len() && docs.filter_map(g)[k] == m;
        let d = lemma_kept_from(docs, g, k);
        lemma_place(adrs, traps, d);
    }
    if found(adrs, traps, query, stale_too).contains(told) {
        let k = choose|k: int| 0 <= k < docs.filter_map(g).len() && docs.filter_map(g)[k] == told;
        let d = lemma_kept_from(docs, g, k);
        lemma_place(adrs, traps, d);
        assert(d == i);
        let q = choose|q: int| 0 <= q < f.len() && meets(#[trigger] f[q]);
        assert(something_told(f[q]));
    }
    if (in_force || stale_too) && candidate(docs, words(lowercase(query)), entry) && (
    something_told(f[0]) || something_told(f[1]) || something_told(f[2]) || something_told(f[3])) {
        assert(meets(f[0]) || meets(f[1]) || meets(f[2]) || meets(f[3]));
        assert(g(docs[i]) == Some(told));
        lemma_kept(docs, g, i);
    }
}

/// Which entry stands at a place among all entries.
proof fn lemma_place(adrs: Seq<AdrView>, traps: Seq<TrapView>, d: int)
    requires
        0 <= d < docs_of(adrs, traps).len(),
        adrs.len() <= usize::MAX,
        traps.len() <= usize::MAX,
    ensures
        d < adrs.len() ==> docs_of(adrs, traps)[d].entry == (EntryType::Adr, d as usize),
        d >= adrs.len() ==> docs_of(adrs, traps)[d].entry == (
            EntryType::Trap,
            (d - adrs.len()) as usize,
        ),
{
    lemma_docs(adrs, traps);
    if d >= adrs.len() {
        let i = d - adrs.len();
        assert(docs_of(adrs, traps)[adrs.len() + i].entry == (EntryType::Trap, i as usize));
    }
}

/// A trap is found if and only if it is a candidate and something is told of one of
/// its fields. What is told is of its five fields; a trap is never stale.
pub proof fn law_trap_is_found_iff_told(
    adrs: Seq<AdrView>,
    traps: Seq<TrapView>,
    query: Seq<char>,
    stale_too: bool,
    i: int,
)
    requires
        0 <= i < traps.len() <= usize::MAX,
        adrs.len() <= usize::MAX,
    ensures
        ({
            let f = trap_fields(query, traps[i]);
            let entry = (EntryType::Trap, i as usize);
            let told = MatchView { entry, stale: false, fields: f };
            &&& found(adrs, traps, query, stale_too).contains(told) <==> {
                &&& candidate(docs_of(adrs, traps), words(lowercase(query)), entry)
                &&& something_told(f[0]) || something_told(f[1]) || something_told(f[2])
                    || something_told(f[3]) || something_told(f[4])
            }
            &&& forall|m: MatchView| #[trigger]
                found(adrs, traps, query, stale_too).contains(m) && m.entry == entry ==> m == told
        }),
{
    let docs = docs_of(adrs, traps);
    let g = finder(adrs, traps, query, stale_too);
    let f = trap_fields(query, traps[i]);
    let entry = (EntryType::Trap, i as usize);
    let told = MatchView { entry, stale: false, fields: f };
    let at = adrs.len() + i;
    lemma_docs(adrs, traps);
    assert(docs[at].entry == entry);
    assert(found(adrs, traps, query, stale_too) == docs.filter_map(g));
    assert forall|m: MatchView| #[trigger]
        found(adrs, traps, query, stale_too).contains(m) && m.entry == entry implies m == told by {
        let k = choose|k: int| 0 <= k < docs.filter_map(g).len() && docs.filter_map(g)[k] == m;
        let d = lemma_kept_from(docs, g, k);
        lemma_place(adrs, traps, d);
    }
    if found(adrs, traps, query, stale_too).contains(told) {
        let k = choose|k: int| 0 <= k < docs.filter_map(g).len() && docs.filter_map(g)[k] == told;
        let d = lemma_kept_from(docs, g, k);
        lemma_place(adrs, traps, d);
        assert(d == at);
        let q = choose|q: int| 0 <= q < f.len() && meets(#[trigger] f[q]);
        assert(something_told(f[q]));
    }
    if candidate(docs, words(lowercase(query)), entry) && (something_told(f[0]) || something_told(
        f[1],
    ) || something_told(f[2]) || something_told(f[3]) || something_told(f[4])) {
        assert(meets(f[0]) || meets(f[1]) || meets(f[2]) || meets(f[3]) || meets(f[4]));
        assert(g(docs[at]) == Some(told));
        lemma_kept(docs, g, at);
    }
}

/// A search finds every ADR in force, or any where stale ones are asked for, that is a
/// candidate and has a word in its title, context, decision or tags that begins with a
/// token of the query, case aside.
pub proof fn law_word_of_any_field_finds_adr(
    adrs: Seq<AdrView>,
    traps: Seq<TrapView>,
    query: Seq<char>,
    stale_too: bool,
    i: int,
    j: int,
)
    requires
        0 <= i < adrs.len() <= usize::MAX,
        traps.len() <= usize::MAX,
        stale_too || adrs[i].status is Accepted || adrs[i].status is Proposed,
        candidate(docs_of(adrs, traps), words(lowercase(query)), (EntryType::Adr, i as usize)),
        0 <= j < words(lowercase(query)).len(),
        words(lowercase(query))[j].len() > 0,
        ({
            let token = words(lowercase(query))[j];
            ||| word_begins(lowercase(adrs[i].title), token)
            ||| word_begins(lowercase(adrs[i].context), token)
            ||| word_begins(lowercase(adrs[i].decision), token)
            ||| word_begins(lowercase(join(adrs[i].tags, " "@)), token)
        }),
    ensures
        exists|m: MatchView| #[trigger]
            found(adrs, traps, query, stale_too).contains(m) && m.entry == (
                EntryType::Adr,
                i as usize,
            ),
{
    let f = adr_fields(query, adrs[i]);
    law_adr_hits_tell_words(query, adrs[i], j);
    law_adr_is_found_iff_told(adrs, traps, query, stale_too, i);
    let in_force = adrs[i].status is Accepted || adrs[i].status is Proposed;
    let entry = (EntryType::Adr, i as usize);
    assert(f[0].hits[j] is Exact ==> something_told(f[0]));
    assert(f[1].hits[j] is Exact ==> something_told(f[1]));
    assert(f[2].hits[j] is Exact ==> something_told(f[2]));
    assert(f[3].hits[j] is Exact ==> something_told(f[3]));
    assert(found(adrs, traps, query, stale_too).contains(
        MatchView { entry, stale: !in_force, fields: f },
    ));
}

/// A search finds every trap that is a candidate and has a word in one of its five
/// fields that begins with a token of the query, case aside.
pub proof fn law_word_of_any_field_finds_trap(
    adrs: Seq<AdrView>,
    traps: Seq<TrapView>,
    query: Seq<char>,
    stale_too: bool,
    i: int,
    j: int,
)
    requires
        0 <= i < traps.len() <= usize::MAX,
        adrs.len() <= usize::MAX,
        candidate(docs_of(adrs, traps), words(lowercase(query)), (EntryType::Trap, i as usize)),
        0 <= j < words(lowercase(query)).len(),
        words(lowercase(query))[j].len() > 0,
        ({
            let token = words(lowercase(query))[j];
            ||| word_begins(lowercase(traps[i].error_signature), token)
            ||| word_begins(lowercase(traps[i].context), token)
            ||| word_begins(lowercase(traps[i].solution), token)
            ||| word_begins(lowercase(traps[i].root_cause), token)
            ||| word_begins(lowercase(traps[i].prevention), token)
        }),
    ensures
        exists|m: MatchView| #[trigger]
            found(adrs, traps, query, stale_too).contains(m) && m.entry == (
                EntryType::Trap,
                i as usize,
            ),
{
    let f = trap_fields(query, traps[i]);
    law_trap_hits_tell_words(query, traps[i], j);
    law_trap_is_found_iff_told(adrs, traps, query, stale_too, i);
    let entry = (EntryType::Trap, i as usize);
    assert(f[0].hits[j] is Exact ==> something_told(f[0]));
    assert(f[1].hits[j] is Exact ==> something_told(f[1]));
    assert(f[2].hits[j] is Exact ==> something_told(f[2]));
    assert(f[3].hits[j] is Exact ==> something_told(f[3]));
    assert(f[4].hits[j] is Exact ==> something_told(f[4]));
    assert(found(adrs, traps, query, stale_too).contains(
        MatchView { entry, stale: false, fields: f },
    ));
}

/// Whether one entry comes before another: ADRs before traps, and each kind in order.
pub open spec fn comes_before(a: (EntryType, usize), b: (EntryType, usize)) -> bool {
    a.0 is Adr && b.0 is Trap || a.0 == b.0 && a.1 < b.1
}

/// What is found comes in the order of the entries, each once.
pub proof fn law_found_in_order(
    adrs: Seq<AdrView>,
    traps: Seq<TrapView>,
    query: Seq<char>,
    stale_too: bool,
    k: int,
    l: int,
)
    requires
        adrs.len() <= usize::MAX,
        traps.len() <= usize::MAX,
        0 <= k < l < found(adrs, traps, query, stale_too).len(),
    ensures
        comes_before(
            found(adrs, traps, query, stale_too)[k].entry,
            found(adrs, traps, query, stale_too)[l].entry,
        ),
{
    let docs = docs_of(adrs, traps);
    let g = finder(adrs, traps, query, stale_too);
    assert(found(adrs, traps, query, stale_too) == docs.filter_map(g));
    let (i, j) = lemma_kept_in_order(docs, g, k, l);
    lemma_place(adrs, traps, i);
    lemma_place(adrs, traps, j);
}

proof fn lemma_kept_in_order<B>(
    docs: Seq<Doc>,
    g: spec_fn(Doc) -> Option<B>,
    k: int,
    l: int,
) -> (r: (int, int))
    requires
        0 <= k < l < docs.filter_map(g).len(),
    ensures
        0 <= r.0 < r.1 < docs.len(),
        g(docs[r.0]) == Some(docs.filter_map(g)[k]),
        g(docs[r.1]) == Some(docs.filter_map(g)[l]),
    decreases docs.len(),
{
    reveal(Seq::filter_map);
    let rest = docs.drop_last();
    if l < rest.filter_map(g).len() {
        let (i, j) = lemma_kept_in_order(rest, g, k, l);
        assert(rest[i] == docs[i] && rest[j] == docs[j]);
        (i, j)
    } else {
        let i = lemma_kept_from(rest, g, k);
        assert(rest[i] == docs[i]);
        (i, docs.len() - 1)
    }
}

// ── Terms and candidates ───────────────────────────────────────────────────

/// Whether `t` is a term of a field: a word of it in lower case, without what stands
/// round its outermost letters and digits.
pub open spec fn term_in(field: Seq<char>, t: Seq<char>) -> bool {
    exists|k: int, i: int, j: int|
        0 <= k < words(field).len() && 0 <= i < j <= words(field)[k].len() && #[trigger] core_at(
            words(field)[k],
            i,
            j,
        ) && t == lowercase(words(field)[k].subrange(i, j)) && t.len() > 0
}

/// Whether the letters and digits of `w` lie between `i` and `j`, both ends reached.
pub open spec fn core_at(w: Seq<char>, i: int, j: int) -> bool {
    &&& forall|k: int| 0 <= k < i ==> !alphanumeric(#[trigger] w[k])
    &&& forall|k: int| j <= k < w.len() ==> !alphanumeric(#[trigger] w[k])
    &&& alphanumeric(w[i])
    &&& alphanumeric(w[j - 1])
}

proof fn lemma_strip_start(w: Seq<char>, i: int)
    requires
        0 <= i <= w.len(),
        forall|k: int| 0 <= k < i ==> !alphanumeric(#[trigger] w[k]),
        i < w.len() ==> alphanumeric(w[i]),
    ensures
        strip_start(w) == w.skip(i),
    decreases w.len(),
{
    if i == 0 {
        assert(w.skip(0) =~= w);
    } else {
        lemma_strip_start(w.drop_first(), i - 1);
        assert(w.drop_first().skip(i - 1) =~= w.skip(i));
    }
}

proof fn lemma_strip_end(w: Seq<char>, j: int)
    requires
        0 <= j <= w.len(),
        forall|k: int| j <= k < w.len() ==> !alphanumeric(#[trigger] w[k]),
        j > 0 ==> alphanumeric(w[j - 1]),
    ensures
        strip_end(w) == w.take(j),
    decreases w.len(),
{
    if j == w.len() {
        assert(w.take(j) =~= w);
    } else {
        lemma_strip_end(w.drop_last(), j);
        assert(w.drop_last().take(j) =~= w.take(j));
    }
}

proof fn lemma_core(w: Seq<char>, i: int, j: int)
    requires
        0 <= i < j <= w.len(),
        core_at(w, i, j),
    ensures
        strip_end(strip_start(w)) == w.subrange(i, j),
{
    lemma_strip_start(w, i);
    let v = w.skip(i);
    assert forall|k: int| j - i <= k < v.len() implies !alphanumeric(#[trigger] v[k]) by {
        assert(v[k] == w[k + i]);
    }
    assert(v[j - i - 1] == w[j - 1]);
    lemma_strip_end(v, j - i);
    assert(v.take(j - i) =~= w.subrange(i, j));
}

/// Either no character of `w` is a letter or digit, or they lie between two places.
proof fn lemma_core_or_none(w: Seq<char>) -> (r: (int, int))
    ensures
        r.0 < r.1 ==> 0 <= r.0 && r.1 <= w.len() && core_at(w, r.0, r.1),
        r.0 >= r.1 ==> forall|k: int| 0 <= k < w.len() ==> !alphanumeric(#[trigger] w[k]),
    decreases w.len(),
{
    if w.len() == 0 {
        (0, 0)
    } else {
        let v = w.drop_last();
        let (i, j) = lemma_core_or_none(v);
        if i < j {
            assert(w[i] == v[i] && w[j - 1] == v[j - 1]);
            assert forall|k: int| 0 <= k < i implies !alphanumeric(#[trigger] w[k]) by {
                assert(w[k] == v[k]);
            }
            if alphanumeric(w.last()) {
                (i, w.len() as int)
            } else {
                assert forall|k: int| j <= k < w.len() implies !alphanumeric(#[trigger] w[k]) by {
                    if k < v.len() {
                        assert(w[k] == v[k]);
                    }
                }
                (i, j)
            }
        } else {
            assert forall|k: int| 0 <= k < v.len() implies !alphanumeric(#[trigger] w[k]) by {
                assert(w[k] == v[k]);
            }
            if alphanumeric(w.last()) {
                (w.len() - 1, w.len() as int)
            } else {
                (0, 0)
            }
        }
    }
}

proof fn lemma_terms_of(ws: Seq<Seq<char>>, t: Seq<char>)
    ensures
        ws.filter_map(term_of()).contains(t) <==> exists|k: int|
            0 <= k < ws.len() && term_of()(#[trigger] ws[k]) == Some(t),
    decreases ws.len(),
{
    reveal(Seq::filter_map);
    if ws.len() > 0 {
        let rest = ws.drop_last();
        lemma_terms_of(rest, t);
        let all = ws.filter_map(term_of());
        let before = rest.filter_map(term_of());
        let last = ws[ws.len() - 1];
        if all.contains(t) {
            let q = choose|q: int| 0 <= q < all.len() && all[q] == t;
            if q < before.len() {
                assert(before[q] == t);
                let k = choose|k: int| 0 <= k < rest.len() && term_of()(#[trigger] rest[k])
                    == Some(t);
                assert(ws[k] == rest[k]);
            } else {
                assert(term_of()(last) == Some(t));
            }
        }
        if exists|k: int| 0 <= k < ws.len() && term_of()(#[trigger] ws[k]) == Some(t) {
            let k = choose|k: int| 0 <= k < ws.len() && term_of()(#[trigger] ws[k]) == Some(t);
            if k < rest.len() {
                assert(rest[k] == ws[k]);
                let q = choose|q: int| 0 <= q < before.len() && before[q] == t;
                assert(all[q] == t);
            } else {
                assert(all[before.len() as int] == t);
            }
        }
    }
}

/// The terms of a field are its words in lower case, without what stands round their
/// outermost letters and digits.
pub proof fn law_terms_of_a_field(field: Seq<char>, t: Seq<char>)
    ensures
        field_terms(field).contains(t) <==> term_in(field, t),
{
    law_nothing_has_no_lower_case();
    let ws = words(field);
    lemma_terms_of(ws, t);
    if field_terms(field).contains(t) {
        let k = choose|k: int| 0 <= k < ws.len() && term_of()(#[trigger] ws[k]) == Some(t);
        let w = ws[k];
        let (i, j) = lemma_core_or_none(w);
        if i < j {
            lemma_core(w, i, j);
            assert(core_at(words(field)[k], i, j));
        } else {
            lemma_strip_start(w, w.len() as int);
            assert(w.skip(w.len() as int) =~= Seq::<char>::empty());
            assert(strip_end(Seq::<char>::empty()) =~= Seq::<char>::empty());
        }
    }
    if term_in(field, t) {
        let (k, i, j) = choose|k: int, i: int, j: int|
            0 <= k < ws.len() && 0 <= i < j <= ws[k].len() && #[trigger] core_at(ws[k], i, j) && t
                == lowercase(ws[k].subrange(i, j)) && t.len() > 0;
        lemma_core(ws[k], i, j);
        assert(term_of()(ws[k]) == Some(t));
    }
}

/// The lower case of nothing is nothing.
pub proof fn law_nothing_has_no_lower_case()
    ensures
        lowercase(Seq::<char>::empty()) == Seq::<char>::empty(),
{
    assert(lowercase(Seq::<char>::empty()) =~= Seq::<char>::empty());
}

/// The terms under which an ADR stands in the index: those of its title, of its
/// context and of its decision, and each of its tags in lower case.
pub proof fn law_terms_of_an_adr(a: AdrView, t: Seq<char>)
    ensures
        adr_terms(a).contains(t) <==> {
            ||| term_in(a.title, t)
            ||| term_in(a.context, t)
            ||| term_in(a.decision, t)
            ||| exists|k: int| 0 <= k < a.tags.len() && t == lowercase(#[trigger] a.tags[k])
        },
{
    law_terms_of_a_field(a.title, t);
    law_terms_of_a_field(a.context, t);
    law_terms_of_a_field(a.decision, t);
    let x = field_terms(a.title);
    let y = field_terms(a.context);
    let z = field_terms(a.decision);
    let tags = a.tags.map_values(|t: Seq<char>| lowercase(t));
    lemma_contains_add(x + y + z, tags, t);
    lemma_contains_add(x + y, z, t);
    lemma_contains_add(x, y, t);
    if tags.contains(t) {
        let k = choose|k: int| 0 <= k < tags.len() && tags[k] == t;
        assert(t == lowercase(a.tags[k]));
    }
    if exists|k: int| 0 <= k < a.tags.len() && t == lowercase(#[trigger] a.tags[k]) {
        let k = choose|k: int| 0 <= k < a.tags.len() && t == lowercase(#[trigger] a.tags[k]);
        assert(tags[k] == t);
    }
}

/// The terms under which a trap stands in the index: those of its five fields.
pub proof fn law_terms_of_a_trap(p: TrapView, t: Seq<char>)
    ensures
        trap_terms(p).contains(t) <==> {
            ||| term_in(p.error_signature, t)
            ||| term_in(p.context, t)
            ||| term_in(p.solution, t)
            ||| term_in(p.root_cause, t)
            ||| term_in(p.prevention, t)
        },
{
    law_terms_of_a_field(p.error_signature, t);
    law_terms_of_a_field(p.context, t);
    law_terms_of_a_field(p.solution, t);
    law_terms_of_a_field(p.root_cause, t);
    law_terms_of_a_field(p.prevention, t);
    let a = field_terms(p.error_signature);
    let b = field_terms(p.context);
    let c = field_terms(p.solution);
    let d = field_terms(p.root_cause);
    let e = field_terms(p.prevention);
    lemma_contains_add(a + b + c + d, e, t);
    lemma_contains_add(a + b + c, d, t);
    lemma_contains_add(a + b, c, t);
    lemma_contains_add(a, b, t);
}

proof fn lemma_contains_add(a: Seq<Seq<char>>, b: Seq<Seq<char>>, t: Seq<char>)
    ensures
        (a + b).contains(t) <==> a.contains(t) || b.contains(t),
{
    if a.contains(t) {
        let k = choose|k: int| 0 <= k < a.len() && a[k] == t;
        assert((a + b)[k] == t);
    }
    if b.contains(t) {
        let k = choose|k: int| 0 <= k < b.len() && b[k] == t;
        assert((a + b)[a.len() + k] == t);
    }
}

proof fn lemma_posting(docs: Seq<Doc>, term: Seq<char>, e: (EntryType, usize))
    ensures
        posting(docs, term).contains(e) <==> exists|i: int|
            0 <= i < docs.len() && (#[trigger] docs[i]).entry == e && docs[i].terms.contains(term),
    decreases docs.len(),
{
    if docs.len() > 0 {
        let rest = docs.drop_last();
        lemma_posting(rest, term, e);
        let p = posting(docs, term);
        let q = posting(rest, term);
        if p.contains(e) {
            let k = choose|k: int| 0 <= k < p.len() && p[k] == e;
            if k < q.len() {
                assert(q[k] == e);
                let i = choose|i: int|
                    0 <= i < rest.len() && (#[trigger] rest[i]).entry == e
                        && rest[i].terms.contains(term);
                assert(docs[i] == rest[i]);
            } else {
                assert(docs[docs.len() - 1].entry == e);
            }
        }
        if exists|i: int|
            0 <= i < docs.len() && (#[trigger] docs[i]).entry == e && docs[i].terms.contains(term) {
            let i = choose|i: int|
                0 <= i < docs.len() && (#[trigger] docs[i]).entry == e && docs[i].terms.contains(
                    term,
                );
            if i < rest.len() {
                assert(rest[i] == docs[i]);
                let k = choose|k: int| 0 <= k < q.len() && q[k] == e;
                assert(p[k] == e);
            } else {
                assert(p[q.len() as int] == e);
            }
        }
    }
}

/// The index names under a term the ADRs and traps that have it, and no others.
pub proof fn law_posting_names_the_holders(
    adrs: Seq<AdrView>,
    traps: Seq<TrapView>,
    term: Seq<char>,
    i: int,
)
    requires
        adrs.len() <= usize::MAX,
        traps.len() <= usize::MAX,
    ensures
        0 <= i < adrs.len() ==> (posting(docs_of(adrs, traps), term).contains(
            (EntryType::Adr, i as usize),
        ) <==> adr_terms(adrs[i]).contains(term)),
        0 <= i < traps.len() ==> (posting(docs_of(adrs, traps), term).contains(
            (EntryType::Trap, i as usize),
        ) <==> trap_terms(traps[i]).contains(term)),
{
    let docs = docs_of(adrs, traps);
    lemma_docs(adrs, traps);
    if 0 <= i < adrs.len() {
        let e = (EntryType::Adr, i as usize);
        lemma_posting(docs, term, e);
        if posting(docs, term).contains(e) {
            let d = choose|d: int|
                0 <= d < docs.len() && (#[trigger] docs[d]).entry == e && docs[d].terms.contains(
                    term,
                );
            lemma_place(adrs, traps, d);
        }
        assert(docs[i].entry == e);
    }
    if 0 <= i < traps.len() {
        let e = (EntryType::Trap, i as usize);
        lemma_posting(docs, term, e);
        if posting(docs, term).contains(e) {
            let d = choose|d: int|
                0 <= d < docs.len() && (#[trigger] docs[d]).entry == e && docs[d].terms.contains(
                    term,
                );
            lemma_place(adrs, traps, d);
        }
        assert(docs[adrs.len() + i].entry == e);
    }
}

/// An entry is a candidate if and only if one of the tokens is a term of it, or no
/// token is a term of any entry.
pub proof fn law_candidates_hold_a_token(
    adrs: Seq<AdrView>,
    traps: Seq<TrapView>,
    tokens: Seq<Seq<char>>,
    i: int,
)
    requires
        adrs.len() <= usize::MAX,
        traps.len() <= usize::MAX,
    ensures
        ({
            let docs = docs_of(adrs, traps);
            let unknown = forall|k: int, j: int|
                0 <= k < adrs.len() && 0 <= j < tokens.len() ==> !adr_terms(
                    #[trigger] adrs[k],
                ).contains(#[trigger] tokens[j]);
            let unknown_too = forall|k: int, j: int|
                0 <= k < traps.len() && 0 <= j < tokens.len() ==> !trap_terms(
                    #[trigger] traps[k],
                ).contains(#[trigger] tokens[j]);
            &&& 0 <= i < adrs.len() ==> (candidate(docs, tokens, (EntryType::Adr, i as usize))
                <==> (unknown && unknown_too) || exists|j: int|
                0 <= j < tokens.len() && adr_terms(adrs[i]).contains(#[trigger] tokens[j]))
            &&& 0 <= i < traps.len() ==> (candidate(docs, tokens, (EntryType::Trap, i as usize))
                <==> (unknown && unknown_too) || exists|j: int|
                0 <= j < tokens.len() && trap_terms(traps[i]).contains(#[trigger] tokens[j]))
        }),
{
    let docs = docs_of(adrs, traps);
    let unknown = forall|k: int, j: int|
        0 <= k < adrs.len() && 0 <= j < tokens.len() ==> !adr_terms(#[trigger] adrs[k]).contains(
            #[trigger] tokens[j],
        );
    let unknown_too = forall|k: int, j: int|
        0 <= k < traps.len() && 0 <= j < tokens.len() ==> !trap_terms(
            #[trigger] traps[k],
        ).contains(#[trigger] tokens[j]);
    if any_indexed(docs, tokens) {
        let j = choose|j: int| 0 <= j < tokens.len() && posting(docs, #[trigger] tokens[j]).len()
            > 0;
        let e = posting(docs, tokens[j])[0];
        assert(posting(docs, tokens[j]).contains(e));
        lemma_posting(docs, tokens[j], e);
        let d = choose|d: int|
            0 <= d < docs.len() && (#[trigger] docs[d]).entry == e && docs[d].terms.contains(
                tokens[j],
            );
        lemma_docs(adrs, traps);
        if d < adrs.len() {
            assert(docs[d].terms == adr_terms(adrs[d]));
            assert(!unknown);
        } else {
            let k = d - adrs.len();
            assert(docs[adrs.len() + k].terms == trap_terms(traps[k]));
            assert(!unknown_too);
        }
    } else {
        assert forall|k: int, j: int| 0 <= k < adrs.len() && 0 <= j < tokens.len() implies
            !adr_terms(#[trigger] adrs[k]).contains(#[trigger] tokens[j]) by {
            law_posting_names_the_holders(adrs, traps, tokens[j], k);
            assert(posting(docs, tokens[j]).len() == 0);
        }
        assert forall|k: int, j: int| 0 <= k < traps.len() && 0 <= j < tokens.len() implies
            !trap_terms(#[trigger] traps[k]).contains(#[trigger] tokens[j]) by {
            law_posting_names_the_holders(adrs, traps, tokens[j], k);
            assert(posting(docs, tokens[j]).len() == 0);
        }
    }
    assert forall|j: int| 0 <= j < tokens.len() implies {
        &&& 0 <= i < adrs.len() ==> (posting(docs, #[trigger] tokens[j]).contains(
            (EntryType::Adr, i as usize),
        ) <==> adr_terms(adrs[i]).contains(tokens[j]))
        &&& 0 <= i < traps.len() ==> (posting(docs, tokens[j]).contains(
            (EntryType::Trap, i as usize),
        ) <==> trap_terms(traps[i]).contains(tokens[j]))
    } by {
        law_posting_names_the_holders(adrs, traps, tokens[j], i);
    }
    if 0 <= i < adrs.len() {
        lemma_marked(docs, tokens, (EntryType::Adr, i as usize));
    }
    if 0 <= i < traps.len() {
        lemma_marked(docs, tokens, (EntryType::Trap, i as usize));
    }
}

proof fn lemma_marked(docs: Seq<Doc>, tokens: Seq<Seq<char>>, e: (EntryType, usize))
    ensures
        marked(docs, tokens, e) <==> exists|j: int|
            0 <= j < tokens.len() && posting(docs, #[trigger] tokens[j]).contains(e),
        marked(docs, tokens, e) ==> any_indexed(docs, tokens),
{
    if marked(docs, tokens, e) {
        let j = choose|j: int|
            0 <= j < tokens.len() && posting(docs, #[trigger] tokens[j]).contains(e);
        assert(posting(docs, tokens[j]).len() > 0);
    }
}

/// The ADR or trap that an entry stands for is the one at its place.
pub proof fn law_item_stands_at_its_place(
    adrs: Seq<AdrView>,
    traps: Seq<TrapView>,
    i: usize,
)
    ensures
        i < adrs.len() ==> item_of(adrs, traps, (EntryType::Adr, i)) == Some(
            SearchItemView::Adr(adrs[i as int]),
        ),
        i >= adrs.len() ==> item_of(adrs, traps, (EntryType::Adr, i)) is None,
        i < traps.len() ==> item_of(adrs, traps, (EntryType::Trap, i)) == Some(
            SearchItemView::Trap(traps[i as int]),
        ),
        i >= traps.len() ==> item_of(adrs, traps, (EntryType::Trap, i)) is None,
{
}

// ── Ranking ────────────────────────────────────────────────────────────────

/// The ranking gives as many positions as there are, up to the limit, the greatest
/// keys first and equal keys in order; what it leaves out has no greater key than
/// what it gives.
pub proof fn law_greatest_keys_come_first(keys: Seq<u64>, limit: int, r: Seq<usize>)
    requires
        0 <= limit,
        is_top(keys, keys.len() as int, limit, r),
    ensures
        limit <= keys.len() ==> r.len() == limit,
        limit > keys.len() ==> r.len() == keys.len(),
        forall|i: int| 0 <= i < r.len() ==> 0 <= (#[trigger] r[i]) < keys.len(),
        forall|i: int, j: int|
            0 <= i < j < r.len() ==> keys[(#[trigger] r[i]) as int] >= keys[(
            #[trigger] r[j]) as int],
        forall|i: int, j: int|
            0 <= i < j < r.len() && keys[(#[trigger] r[i]) as int] == keys[(
            #[trigger] r[j]) as int] ==> r[i] < r[j],
        forall|i: int, k: int|
            0 <= i < r.len() && 0 <= k < keys.len() && !r.contains(k as usize)
                ==> keys[(#[trigger] r[i]) as int] >= #[trigger] keys[k],
{
    assert forall|i: int, k: int|
        0 <= i < r.len() && 0 <= k < keys.len() && !r.contains(k as usize) implies keys[(
    #[trigger] r[i]) as int] >= #[trigger] keys[k] by {
        assert(crate::search::index::ranks_before(keys, r[i] as int, k));
    }
}

// ── Tags ───────────────────────────────────────────────────────────────────

/// Each tag stands in the text that is searched for tags, with spaces round it.
pub proof fn law_each_tag_stands_by_itself(tags: Seq<Seq<char>>, k: int) -> (r: (
    Seq<char>,
    Seq<char>,
))
    requires
        0 <= k < tags.len(),
    ensures
        join(tags, " "@) == r.0 + tags[k] + r.1,
        r.0.len() > 0 ==> r.0.last() == ' ',
        r.1.len() > 0 ==> r.1[0] == ' ',
    decreases tags.len(),
{
    reveal_strlit(" ");
    let none = Seq::<char>::empty();
    if tags.len() == 1 {
        assert(join(tags, " "@) =~= none + tags[k] + none);
        (none, none)
    } else {
        let rest = tags.drop_first();
        let tail = join(rest, " "@);
        if k == 0 {
            assert(join(tags, " "@) =~= none + tags[0] + (" "@ + tail));
            (none, " "@ + tail)
        } else {
            let (x, y) = law_each_tag_stands_by_itself(rest, k - 1);
            let front = tags[0] + " "@ + x;
            assert(rest[k - 1] == tags[k]);
            assert(join(tags, " "@) =~= front + tags[k] + y);
            assert(front.last() == if x.len() > 0 {
                x.last()
            } else {
                ' '
            });
            (front, y)
        }
    }
}

/// Whether every character is ASCII or a CJK ideograph.
pub open spec fn plain_text(s: Seq<char>) -> bool {
    forall|i: int| 0 <= i < s.len() ==> plainly_cased(#[trigger] s[i])
}

/// A word of one tag is a word of the text that is searched for tags, where the tags
/// are plain: it begins with the token there too.
pub proof fn law_word_of_a_tag_is_searched(tags: Seq<Seq<char>>, k: int, token: Seq<char>)
    requires
        0 <= k < tags.len(),
        plain_text(join(tags, " "@)),
        word_begins(lowercase(tags[k]), token),
    ensures
        word_begins(lowercase(join(tags, " "@)), token),
{
    let all = join(tags, " "@);
    let tag = tags[k];
    let (x, y) = law_each_tag_stands_by_itself(tags, k);
    let n = x.len() as int;
    let lower = |c: char| plain_lower(c);
    assert forall|i: int| 0 <= i < tag.len() implies plainly_cased(#[trigger] tag[i]) by {
        assert(all[n + i] == tag[i]);
    }
    let a = lowercase(all);
    let t = lowercase(tag);
    assert(a =~= all.map_values(lower));
    assert(t =~= tag.map_values(lower));
    assert forall|i: int| 0 <= i < t.len() implies a[n + i] == t[i] by {
        assert(all[n + i] == tag[i]);
    }
    let (p, e) = choose|p: int, e: int| #[trigger]
        word_stands(t, p, e) && {
            let word = lowercase(t.subrange(p, e));
            let start = lowercase(token);
            start.len() <= word.len() && word.take(start.len() as int) == start
        };
    assert(a.subrange(n + p, n + e) =~= t.subrange(p, e));
    assert forall|q: int| n + p <= q < n + e implies alphanumeric(#[trigger] a[q]) by {
        assert(a[q] == t[q - n]);
    }
    assert(!alphanumeric(' ') && plain_lower(' ') == ' ');
    if n + e < a.len() {
        if e < t.len() {
            assert(a[n + e] == t[e]);
        } else {
            assert(all[n + e] == y[0]);
            assert(a[n + e] == ' ');
        }
    }
    if n + p > 0 {
        if p > 0 {
            assert(a[n + p - 1] == t[p - 1]);
            assert(a[n + p] == t[p]);
        } else {
            assert(all[n - 1] == x.last());
            assert(a[n - 1] == ' ');
        }
    }
    assert(word_stands(a, n + p, n + e));
}

// ── Entries and results as values ──────────────────────────────────────────

/// The index names an ADR by its id and a trap by its signature.
pub proof fn law_entries_are_named(
    adrs: Seq<AdrView>,
    traps: Seq<TrapView>,
    entry: (EntryType, usize),
)
    ensures
        ref_of(adrs, traps, entry).0 == entry.0,
        entry.0 is Adr && entry.1 < adrs.len() ==> ref_of(adrs, traps, entry).1
            == adrs[entry.1 as int].id,
        entry.0 is Trap && entry.1 < traps.len() ==> ref_of(adrs, traps, entry).1
            == traps[entry.1 as int].error_signature,
        EntryType::Adr.name() == "adr"@,
        EntryType::Trap.name() == "trap"@,
{
}

/// The view of what a search found tells the entry, whether it is stale, and of every
/// field its weight, each hit and whether the whole query stands in it.
pub proof fn law_view_tells_the_match(m: Match, f: FieldHits, k: int)
    ensures
        m@.entry == m.entry,
        m@.stale == m.stale,
        m@.fields.len() == m.fields@.len(),
        0 <= k < m.fields@.len() ==> m@.fields[k] == m.fields@[k]@,
        f@.weight == f.weight,
        f@.phrase == f.phrase,
        f@.hits.len() == f.hits@.len(),
        0 <= k < f.hits@.len() ==> f@.hits[k] == f.hits@[k]@,
{
}

/// The view of a hit tells its kind, and of a fuzzy one the grams that are shared and
/// those that there are.
pub proof fn law_view_tells_the_hit(h: TokenHit, item: SearchItem)
    ensures
        h is Exact <==> h@ is Exact,
        h is Near <==> h@ is Near,
        h is Miss <==> h@ is Miss,
        h matches TokenHit::Fuzzy { shared, total } ==> (h@ matches TokenHitView::Fuzzy {
            shared: s,
            total: t,
        } && s == shared && t == total),
        item matches SearchItem::Adr(a) ==> item@ == SearchItemView::Adr(a@),
        item matches SearchItem::Trap(t) ==> item@ == SearchItemView::Trap(t@),
{
}

/// A text that is too long is cut to its beginning, and a mark is set behind it.
pub proof fn law_long_text_is_cut(s: Seq<char>, max_len: nat)
    ensures
        s.len() <= max_len ==> truncated(s, max_len) == s,
        s.len() > max_len ==> truncated(s, max_len) == s.subrange(0, max_len as int) + "…"@,
{
}

/// Lists of matches and of names are viewed entry by entry and in order, and an item is
/// viewed as itself.
pub proof fn law_results_are_viewed_entry_by_entry(
    found: Seq<Match>,
    refs: Seq<IndexRef>,
    item: Option<SearchItem>,
    k: int,
)
    ensures
        match_views(found).len() == found.len(),
        0 <= k < found.len() ==> match_views(found)[k] == found[k]@,
        ref_views(refs).len() == refs.len(),
        0 <= k < refs.len() ==> ref_views(refs)[k] == (refs[k].kind, refs[k].id@),
        item_view(item) is Some <==> item is Some,
        item matches Some(i) ==> item_view(item) == Some(i@),
{
}

} // verus!
