//! The inverted index over ADRs and traps: which entries hold a term, which of
//! them a query meets, and in what order they are handed out.
use vstd::hash_map::StringHashMap;
use vstd::prelude::*;

use crate::engine::calendar::{date_of, date_text, iso8601, time_text};
use crate::foreign::{
    alphanumeric, is_alphanumeric, lowercase, plain_lower, plainly_cased, to_lower,
};
use crate::models::{adr_views, trap_views, AdrView, Trap, TrapView, ADR};
use crate::search::scorer::{field_hits_of, meets, query_tokens, FieldHits, FieldHitsView, Query};
use crate::text::{
    contents, is_white_space, join, joined, string_of, texts, to_chars, trim_start, word_len, words,
    words_of,
};

verus! {

// ── Terms ──────────────────────────────────────────────────────────────────

/// `s` without the leading characters that are neither letters nor digits.
pub open spec fn strip_start(s: Seq<char>) -> Seq<char>
    decreases s.len(),
{
    if s.len() > 0 && !alphanumeric(s[0]) {
        strip_start(s.drop_first())
    } else {
        s
    }
}

/// `s` without the trailing characters that are neither letters nor digits.
pub open spec fn strip_end(s: Seq<char>) -> Seq<char>
    decreases s.len(),
{
    if s.len() > 0 && !alphanumeric(s.last()) {
        strip_end(s.drop_last())
    } else {
        s
    }
}

/// The term that a word of a field stands for, if any is left without the
/// punctuation round it.
pub open spec fn term_of() -> spec_fn(Seq<char>) -> Option<Seq<char>> {
    |w: Seq<char>|
        {
            let t = lowercase(strip_end(strip_start(w)));
            if t.len() == 0 {
                None
            } else {
                Some(t)
            }
        }
}

/// The terms of a field, in order.
pub open spec fn field_terms(field: Seq<char>) -> Seq<Seq<char>> {
    words(field).filter_map(term_of())
}

fn stripped(s: &[char]) -> (r: &[char])
    ensures
        r@ == strip_end(strip_start(s@)),
{
    let len: usize = s.len();
    let mut i: usize = 0;
    assert(s@.skip(0) =~= s@);
    while i < len && !is_alphanumeric(s[i])
        invariant
            i <= len,
            len == s@.len(),
            strip_start(s@) == strip_start(s@.skip(i as int)),
        ensures
            i <= len,
            strip_start(s@) == s@.skip(i as int),
        decreases len - i,
    {
        assert(s@.skip(i as int).drop_first() =~= s@.skip(i + 1));
        i = i + 1;
    }
    let mut j: usize = len;
    assert(s@.subrange(i as int, len as int) =~= s@.skip(i as int));
    while i < j && !is_alphanumeric(s[j - 1])
        invariant
            i <= j <= len,
            len == s@.len(),
            strip_end(strip_start(s@)) == strip_end(s@.subrange(i as int, j as int)),
        ensures
            i <= j <= len,
            strip_end(strip_start(s@)) == s@.subrange(i as int, j as int),
        decreases j - i,
    {
        assert(s@.subrange(i as int, j as int).drop_last() =~= s@.subrange(i as int, j - 1));
        j = j - 1;
    }
    vstd::slice::slice_subrange(s, i, j)
}

/// Tokenize a field for the index: its words in lower case, without leading and
/// trailing characters that are neither letters nor digits.
pub fn tokenize_field(text: &str) -> (r: Vec<String>)
    ensures
        texts(r@) == field_terms(text@),
{
    let chars = to_chars(text);
    let parts = words_of(chars.as_slice());
    let mut out: Vec<String> = Vec::new();
    let mut i: usize = 0;
    proof {
        reveal(Seq::filter_map);
    }
    while i < parts.len()
        invariant
            i <= parts@.len(),
            texts(out@) == contents(parts@).take(i as int).filter_map(term_of()),
        decreases parts@.len() - i,
    {
        let core = string_of(stripped(parts[i]));
        let term = to_lower(core.as_str());
        let ghost all = contents(parts@);
        let ghost before = out@;
        proof {
            reveal(Seq::filter_map);
            assert(all.take(i + 1).drop_last() =~= all.take(i as int));
            assert(all.take(i + 1).last() == all[i as int]);
        }
        if !term.as_str().is_empty() {
            out.push(term);
            assert(texts(out@) =~= texts(before).push(term@));
        }
        i = i + 1;
    }
    assert(contents(parts@).take(i as int) =~= contents(parts@));
    out
}

// ── Entries ────────────────────────────────────────────────────────────────

/// Distinguishes between ADR and trap entries in the inverted index.
#[derive(Debug, Clone, Copy, PartialEq, Eq, Hash, Structural)]
pub enum EntryType {
    Adr,
    Trap,
}

/// The terms of an ADR: those of its title, context and decision, and each tag as
/// a whole, in lower case.
pub open spec fn adr_terms(a: AdrView) -> Seq<Seq<char>> {
    field_terms(a.title) + field_terms(a.context) + field_terms(a.decision) + a.tags.map_values(
        |t: Seq<char>| lowercase(t),
    )
}

/// The terms of a trap: those of its five fields.
pub open spec fn trap_terms(t: TrapView) -> Seq<Seq<char>> {
    field_terms(t.error_signature) + field_terms(t.context) + field_terms(t.solution)
        + field_terms(t.root_cause) + field_terms(t.prevention)
}

/// An entry of the index with its terms.
#[verifier::ext_equal]
pub struct Doc {
    pub entry: (EntryType, usize),
    pub terms: Seq<Seq<char>>,
}

pub open spec fn adr_docs(adrs: Seq<AdrView>) -> Seq<Doc> {
    Seq::new(
        adrs.len(),
        |i: int| Doc { entry: (EntryType::Adr, i as usize), terms: adr_terms(adrs[i]) },
    )
}

pub open spec fn trap_docs(traps: Seq<TrapView>) -> Seq<Doc> {
    Seq::new(
        traps.len(),
        |i: int| Doc { entry: (EntryType::Trap, i as usize), terms: trap_terms(traps[i]) },
    )
}

/// All entries: the ADRs, then the traps.
pub open spec fn docs_of(adrs: Seq<AdrView>, traps: Seq<TrapView>) -> Seq<Doc> {
    adr_docs(adrs) + trap_docs(traps)
}

/// The entries that hold a term, in order.
pub open spec fn posting(docs: Seq<Doc>, term: Seq<char>) -> Seq<(EntryType, usize)>
    decreases docs.len(),
{
    if docs.len() == 0 {
        Seq::empty()
    } else if docs.last().terms.contains(term) {
        posting(docs.drop_last(), term).push(docs.last().entry)
    } else {
        posting(docs.drop_last(), term)
    }
}

/// The tables of an index that is being built: `slots` gives the place of a term in
/// `vocabulary`, and of its posting in `postings`.
struct Tables {
    slots: StringHashMap<usize>,
    vocabulary: Vec<String>,
    postings: Vec<Vec<(EntryType, usize)>>,
}

impl Tables {
    /// Whether the tables say of each term which of `docs` hold it.
    spec fn indexes(&self, docs: Seq<Doc>) -> bool {
        &&& self.vocabulary@.len() == self.postings@.len()
        &&& forall|k: int|
            0 <= k < self.vocabulary@.len() ==> {
                &&& self.slots@.contains_key((#[trigger] self.vocabulary@[k])@)
                &&& self.slots@[self.vocabulary@[k]@] == k
                &&& self.postings@[k]@ == posting(docs, self.vocabulary@[k]@)
            }
        &&& forall|t: Seq<char>| #[trigger]
            self.slots@.contains_key(t) ==> self.slots@[t] < self.vocabulary@.len()
                && self.vocabulary@[self.slots@[t] as int]@ == t
        &&& forall|t: Seq<char>| #[trigger]
            self.slots@.contains_key(t) == (posting(docs, t).len() > 0)
    }

    /// Note that the entry which is being added holds `term`.
    fn add_term(
        &mut self,
        term: String,
        entry: (EntryType, usize),
        Ghost(docs): Ghost<Seq<Doc>>,
        Ghost(seen): Ghost<Seq<Seq<char>>>,
    )
        requires
            old(self).indexes(docs.push(Doc { entry, terms: seen })),
            forall|i: int| 0 <= i < docs.len() ==> (#[trigger] docs[i]).entry != entry,
        ensures
            final(self).indexes(docs.push(Doc { entry, terms: seen.push(term@) })),
    {
        let ghost d0 = docs.push(Doc { entry, terms: seen });
        let ghost d1 = docs.push(Doc { entry, terms: seen.push(term@) });
        proof {
            lemma_posting_grows(docs, entry, seen, term@);
            lemma_posting_within(docs, term@);
        }
        match self.slots.get(term.as_str()) {
            Some(slot) => {
                let slot: usize = *slot;
                let len: usize = self.postings[slot].len();
                assert(self.postings@[slot as int]@ == posting(d0, term@));
                if len == 0 || !same_entry(self.postings[slot][len - 1], entry) {
                    assert(!seen.contains(term@));
                    let ghost before = *self;
                    self.postings[slot].push(entry);
                    proof {
                        assert forall|k: int| 0 <= k < self.vocabulary@.len() implies {
                            &&& self.slots@.contains_key((#[trigger] self.vocabulary@[k])@)
                            &&& self.slots@[self.vocabulary@[k]@] == k
                            &&& self.postings@[k]@ == posting(d1, self.vocabulary@[k]@)
                        } by {
                            assert(before.vocabulary@[k] == self.vocabulary@[k]);
                            if k != slot {
                                assert(self.postings@[k] == before.postings@[k]);
                                assert(self.vocabulary@[k]@ != term@);
                            }
                        }
                        assert forall|t: Seq<char>| #[trigger]
                            self.slots@.contains_key(t) == (posting(d1, t).len() > 0) by {
                            assert(before.slots@.contains_key(t) == (posting(d0, t).len() > 0));
                        }
                    }
                } else {
                    proof {
                        assert(seen.contains(term@));
                        assert forall|t: Seq<char>| posting(d1, t) == #[trigger] posting(d0, t) by {}
                        assert forall|t: Seq<char>| #[trigger]
                            self.slots@.contains_key(t) == (posting(d1, t).len() > 0) by {
                            assert(posting(d1, t) == posting(d0, t));
                        }
                    }
                }
            },
            None => {
                let slot: usize = self.vocabulary.len();
                let ghost before = *self;
                assert(posting(d0, term@) =~= Seq::empty());
                assert(!seen.contains(term@));
                let mut list: Vec<(EntryType, usize)> = Vec::new();
                list.push(entry);
                self.postings.push(list);
                self.vocabulary.push(term.clone());
                self.slots.insert(term, slot);
                proof {
                    assert(posting(d1, term@) =~= seq![entry]);
                    assert forall|k: int| 0 <= k < self.vocabulary@.len() implies {
                        &&& self.slots@.contains_key((#[trigger] self.vocabulary@[k])@)
                        &&& self.slots@[self.vocabulary@[k]@] == k
                        &&& self.postings@[k]@ == posting(d1, self.vocabulary@[k]@)
                    } by {
                        if k < slot {
                            assert(before.vocabulary@[k] == self.vocabulary@[k]);
                            assert(before.postings@[k] == self.postings@[k]);
                            assert(self.vocabulary@[k]@ != term@);
                        } else {
                            assert(self.vocabulary@[k]@ == term@);
                            assert(self.postings@[k]@ =~= seq![entry]);
                        }
                    }
                    assert forall|t: Seq<char>| #[trigger] self.slots@.contains_key(t) implies
                        self.slots@[t] < self.vocabulary@.len()
                        && self.vocabulary@[self.slots@[t] as int]@ == t by {
                        if t != term@ {
                            assert(before.slots@.contains_key(t));
                        }
                    }
                    assert forall|t: Seq<char>| #[trigger]
                        self.slots@.contains_key(t) == (posting(d1, t).len() > 0) by {
                        if t != term@ {
                            assert(before.slots@.contains_key(t) == (posting(d0, t).len() > 0));
                        }
                    }
                }
            },
        }
    }
}

impl Tables {
    /// Add the terms of one more entry.
    fn add_entry(
        &mut self,
        terms: Vec<String>,
        entry: (EntryType, usize),
        Ghost(docs): Ghost<Seq<Doc>>,
    )
        requires
            old(self).indexes(docs),
            forall|i: int| 0 <= i < docs.len() ==> (#[trigger] docs[i]).entry != entry,
        ensures
            final(self).indexes(docs.push(Doc { entry, terms: texts(terms@) })),
    {
        let ghost all = texts(terms@);
        proof {
            lemma_posting_of_empty(docs, entry);
            let d = docs.push(Doc { entry, terms: Seq::empty() });
            assert forall|t: Seq<char>| #[trigger]
                self.slots@.contains_key(t) == (posting(d, t).len() > 0) by {
                assert(posting(d, t) == posting(docs, t));
            }
            assert(self.indexes(d));
            assert(all.take(0) =~= Seq::empty());
        }
        let mut i: usize = 0;
        while i < terms.len()
            invariant
                i <= terms@.len(),
                all == texts(terms@),
                self.indexes(docs.push(Doc { entry, terms: all.take(i as int) })),
                forall|j: int| 0 <= j < docs.len() ==> (#[trigger] docs[j]).entry != entry,
            decreases terms@.len() - i,
        {
            let term = terms[i].clone();
            self.add_term(term, entry, Ghost(docs), Ghost(all.take(i as int)));
            assert(all.take(i + 1) =~= all.take(i as int).push(term@));
            i = i + 1;
        }
        assert(all.take(i as int) =~= all);
    }
}

/// Search index with inverted-index pre-filtering for term-based lookup. Holds
/// copies of ADRs and traps for scoring and results. `terms` gives for each term the
/// entries that hold it, and `vocabulary` lists the terms.
pub struct SearchIndex {
    pub adrs: Vec<ADR>,
    pub traps: Vec<Trap>,
    pub terms: StringHashMap<Vec<(EntryType, usize)>>,
    pub vocabulary: Vec<String>,
}

impl SearchIndex {
    /// Every entry, with its terms.
    pub open spec fn docs(&self) -> Seq<Doc> {
        docs_of(adr_views(self.adrs@), trap_views(self.traps@))
    }

    /// The terms are those that some entry holds, each with its posting, and the
    /// vocabulary lists each of them once.
    pub open spec fn wf(&self) -> bool {
        &&& forall|t: Seq<char>| #[trigger]
            self.terms@.contains_key(t) == (posting(self.docs(), t).len() > 0)
        &&& forall|t: Seq<char>| #[trigger]
            self.terms@.contains_key(t) ==> self.terms@[t]@ == posting(self.docs(), t)
        &&& texts(self.vocabulary@).no_duplicates()
        &&& forall|t: Seq<char>| #[trigger]
            self.terms@.contains_key(t) == texts(self.vocabulary@).contains(t)
    }

    /// Build the index from ADR and trap slices. Clones all data and populates the
    /// inverted-index `terms` map.
    pub fn build(adrs: &[ADR], traps: &[Trap]) -> (r: Self)
        ensures
            adr_views(r.adrs@) == adr_views(adrs@),
            trap_views(r.traps@) == trap_views(traps@),
            r.wf(),
    {
        let tables = tabulate(adrs, traps);
        let (terms, vocabulary) = tables.into_terms(
            Ghost(docs_of(adr_views(adrs@), trap_views(traps@))),
        );
        SearchIndex { adrs: copy_adrs(adrs), traps: copy_traps(traps), terms, vocabulary }
    }
}

impl Tables {
    /// The postings by term, and the terms.
    fn into_terms(self, Ghost(docs): Ghost<Seq<Doc>>) -> (r: (
        StringHashMap<Vec<(EntryType, usize)>>,
        Vec<String>,
    ))
        requires
            self.indexes(docs),
        ensures
            forall|t: Seq<char>| #[trigger]
                r.0@.contains_key(t) == (posting(docs, t).len() > 0),
            forall|t: Seq<char>| #[trigger]
                r.0@.contains_key(t) ==> r.0@[t]@ == posting(docs, t),
            texts(r.1@).no_duplicates(),
            forall|t: Seq<char>| #[trigger] r.0@.contains_key(t) == texts(r.1@).contains(t),
    {
        let Tables { slots, vocabulary, mut postings } = self;
        let ghost words = texts(vocabulary@);
        let mut terms: StringHashMap<Vec<(EntryType, usize)>> = StringHashMap::new();
        proof {
            assert(words.no_duplicates()) by {
                assert forall|i: int, j: int|
                    0 <= i < words.len() && 0 <= j < words.len() && i != j implies words[i]
                    != words[j] by {
                    assert(slots@[vocabulary@[i]@] == i);
                    assert(slots@[vocabulary@[j]@] == j);
                }
            }
            assert(words.skip(words.len() as int) =~= Seq::empty());
        }
        let mut k: usize = vocabulary.len();
        while k > 0
            invariant
                k <= vocabulary@.len(),
                words == texts(vocabulary@),
                words.no_duplicates(),
                postings@.len() == k,
                forall|i: int|
                    0 <= i < k ==> (#[trigger] postings@[i])@ == posting(docs, words[i]),
                forall|t: Seq<char>| #[trigger]
                    terms@.contains_key(t) == words.skip(k as int).contains(t),
                forall|t: Seq<char>| #[trigger]
                    terms@.contains_key(t) ==> terms@[t]@ == posting(docs, t),
            decreases k,
        {
            k = k - 1;
            let ghost before = terms@;
            match postings.pop() {
                Some(list) => {
                    let term = vocabulary[k].clone();
                    assert(list@ == posting(docs, words[k as int]));
                    terms.insert(term, list);
                    proof {
                        let now = words.skip(k as int);
                        let then = words.skip(k + 1);
                        assert forall|t: Seq<char>| #[trigger] terms@.contains_key(t)
                            == now.contains(t) by {
                            if then.contains(t) {
                                let i = choose|i: int| 0 <= i < then.len() && then[i] == t;
                                assert(now[i + 1] == t);
                            }
                            if now.contains(t) {
                                let i = choose|i: int| 0 <= i < now.len() && now[i] == t;
                                if i > 0 {
                                    assert(then[i - 1] == t);
                                }
                            }
                            assert(now[0] == words[k as int]);
                            assert(before.contains_key(t) == then.contains(t));
                        }
                        assert forall|t: Seq<char>| #[trigger]
                            terms@.contains_key(t) implies terms@[t]@ == posting(docs, t) by {
                            if t != words[k as int] {
                                assert(before.contains_key(t));
                            }
                        }
                    }
                },
                None => {},
            }
        }
        proof {
            assert(words.skip(0) =~= words);
            assert forall|t: Seq<char>| #[trigger]
                terms@.contains_key(t) == (posting(docs, t).len() > 0) by {
                assert(slots@.contains_key(t) == (posting(docs, t).len() > 0));
                if words.contains(t) {
                    let i = choose|i: int| 0 <= i < words.len() && words[i] == t;
                    assert(slots@.contains_key(vocabulary@[i]@));
                }
                if slots@.contains_key(t) {
                    assert(words[slots@[t] as int] == t);
                }
            }
        }
        (terms, vocabulary)
    }
}

/// The tables for all entries.
fn tabulate(adrs: &[ADR], traps: &[Trap]) -> (r: Tables)
    ensures
        r.indexes(docs_of(adr_views(adrs@), trap_views(traps@))),
{
    let ghost av = adr_views(adrs@);
    let ghost tv = trap_views(traps@);
    let mut r = Tables {
        slots: StringHashMap::new(),
        vocabulary: Vec::new(),
        postings: Vec::new(),
    };
    let mut i: usize = 0;
    assert(adr_docs(av).take(0) =~= Seq::empty());
    while i < adrs.len()
        invariant
            i <= adrs@.len(),
            av == adr_views(adrs@),
            r.indexes(adr_docs(av).take(i as int)),
        decreases adrs@.len() - i,
    {
        let terms = adr_term_list(&adrs[i]);
        let ghost done = adr_docs(av).take(i as int);
        r.add_entry(terms, (EntryType::Adr, i), Ghost(done));
        assert(adr_docs(av).take(i + 1) =~= done.push(
            Doc { entry: (EntryType::Adr, i), terms: adr_terms(av[i as int]) },
        ));
        i = i + 1;
    }
    let mut j: usize = 0;
    let ghost all = docs_of(av, tv);
    assert(all.take(av.len() as int) =~= adr_docs(av).take(av.len() as int));
    while j < traps.len()
        invariant
            j <= traps@.len(),
            i == adrs@.len(),
            av == adr_views(adrs@),
            tv == trap_views(traps@),
            all == docs_of(av, tv),
            r.indexes(all.take(i + j)),
        decreases traps@.len() - j,
    {
        let terms = trap_term_list(&traps[j]);
        let ghost done = all.take(i + j);
        r.add_entry(terms, (EntryType::Trap, j), Ghost(done));
        assert(all.take(i + j + 1) =~= done.push(
            Doc { entry: (EntryType::Trap, j), terms: trap_terms(tv[j as int]) },
        ));
        j = j + 1;
    }
    assert(all.take(i + j) =~= all);
    r
}

fn copy_adrs(adrs: &[ADR]) -> (r: Vec<ADR>)
    ensures
        adr_views(r@) == adr_views(adrs@),
{
    let mut r: Vec<ADR> = Vec::new();
    let mut i: usize = 0;
    while i < adrs.len()
        invariant
            i <= adrs@.len(),
            adr_views(r@) == adr_views(adrs@).take(i as int),
        decreases adrs@.len() - i,
    {
        let a = adrs[i].clone();
        let ghost before = r@;
        r.push(a);
        proof {
            assert(adr_views(r@) =~= adr_views(before).push(a@));
            assert(adr_views(adrs@).take(i + 1) =~= adr_views(adrs@).take(i as int).push(a@));
        }
        i = i + 1;
    }
    assert(adr_views(adrs@).take(i as int) =~= adr_views(adrs@));
    r
}

fn copy_traps(traps: &[Trap]) -> (r: Vec<Trap>)
    ensures
        trap_views(r@) == trap_views(traps@),
{
    let mut r: Vec<Trap> = Vec::new();
    let mut i: usize = 0;
    while i < traps.len()
        invariant
            i <= traps@.len(),
            trap_views(r@) == trap_views(traps@).take(i as int),
        decreases traps@.len() - i,
    {
        let t = traps[i].clone();
        let ghost before = r@;
        r.push(t);
        proof {
            assert(trap_views(r@) =~= trap_views(before).push(t@));
            assert(trap_views(traps@).take(i + 1) =~= trap_views(traps@).take(i as int).push(t@));
        }
        i = i + 1;
    }
    assert(trap_views(traps@).take(i as int) =~= trap_views(traps@));
    r
}

/// Append `more` to `list`.
fn extend(list: &mut Vec<String>, more: Vec<String>)
    ensures
        texts(final(list)@) == texts(old(list)@) + texts(more@),
{
    let ghost before = list@;
    let mut more = more;
    let ghost tail = more@;
    list.append(&mut more);
    assert(texts(list@) =~= texts(before) + texts(tail));
}

fn adr_term_list(adr: &ADR) -> (r: Vec<String>)
    ensures
        texts(r@) == adr_terms(adr@),
{
    let mut r = tokenize_field(adr.title.as_str());
    extend(&mut r, tokenize_field(adr.context.as_str()));
    extend(&mut r, tokenize_field(adr.decision.as_str()));
    let mut tags: Vec<String> = Vec::new();
    let mut i: usize = 0;
    while i < adr.tags.len()
        invariant
            i <= adr.tags@.len(),
            texts(tags@) == texts(adr.tags@).take(i as int).map_values(
                |t: Seq<char>| lowercase(t),
            ),
        decreases adr.tags@.len() - i,
    {
        let tag = to_lower(adr.tags[i].as_str());
        let ghost before = tags@;
        let ghost all = texts(adr.tags@);
        tags.push(tag);
        proof {
            assert(texts(tags@) =~= texts(before).push(tag@));
            assert(all.take(i + 1) =~= all.take(i as int).push(all[i as int]));
            assert(all.take(i + 1).map_values(|t: Seq<char>| lowercase(t)) =~= all.take(
                i as int,
            ).map_values(|t: Seq<char>| lowercase(t)).push(lowercase(all[i as int])));
        }
        i = i + 1;
    }
    assert(texts(adr.tags@).take(i as int) =~= adr@.tags);
    extend(&mut r, tags);
    r
}

fn trap_term_list(trap: &Trap) -> (r: Vec<String>)
    ensures
        texts(r@) == trap_terms(trap@),
{
    let mut r = tokenize_field(trap.error_signature.as_str());
    extend(&mut r, tokenize_field(trap.context.as_str()));
    extend(&mut r, tokenize_field(trap.solution.as_str()));
    extend(&mut r, tokenize_field(trap.root_cause.as_str()));
    extend(&mut r, tokenize_field(trap.prevention.as_str()));
    r
}

/// An entry without terms is in no posting.
proof fn lemma_posting_of_empty(docs: Seq<Doc>, entry: (EntryType, usize))
    ensures
        forall|t: Seq<char>| #[trigger]
            posting(docs.push(Doc { entry, terms: Seq::empty() }), t) == posting(docs, t),
{
    let more = docs.push(Doc { entry, terms: Seq::empty() });
    assert(more.drop_last() =~= docs);
}

fn same_entry(a: (EntryType, usize), b: (EntryType, usize)) -> (r: bool)
    ensures
        r == (a == b),
{
    a.0 == b.0 && a.1 == b.1
}

/// One more term for the entry that is being added changes the posting of that term
/// alone, and only the first time.
proof fn lemma_posting_grows(
    docs: Seq<Doc>,
    entry: (EntryType, usize),
    seen: Seq<Seq<char>>,
    term: Seq<char>,
)
    ensures
        forall|t: Seq<char>| #[trigger]
            posting(docs.push(Doc { entry, terms: seen.push(term) }), t) == if t == term
                && !seen.contains(term) {
                posting(docs.push(Doc { entry, terms: seen }), t).push(entry)
            } else {
                posting(docs.push(Doc { entry, terms: seen }), t)
            },
        posting(docs.push(Doc { entry, terms: seen }), term) == if seen.contains(term) {
            posting(docs, term).push(entry)
        } else {
            posting(docs, term)
        },
{
    let d0 = docs.push(Doc { entry, terms: seen });
    let d1 = docs.push(Doc { entry, terms: seen.push(term) });
    assert(d0.drop_last() =~= docs);
    assert(d1.drop_last() =~= docs);
    assert forall|t: Seq<char>| #[trigger] posting(d1, t) == if t == term && !seen.contains(term) {
        posting(d0, t).push(entry)
    } else {
        posting(d0, t)
    } by {
        assert(seen.push(term).contains(t) == (seen.contains(t) || t == term)) by {
            if seen.contains(t) {
                let i = choose|i: int| 0 <= i < seen.len() && seen[i] == t;
                assert(seen.push(term)[i] == t);
            }
            assert(seen.push(term)[seen.len() as int] == term);
        }
    }
}

/// A posting names entries of the index.
pub proof fn lemma_posting_within(docs: Seq<Doc>, term: Seq<char>)
    ensures
        forall|k: int|
            0 <= k < posting(docs, term).len() ==> exists|i: int|
                0 <= i < docs.len() && (#[trigger] docs[i]).entry == #[trigger] posting(
                    docs,
                    term,
                )[k] && docs[i].terms.contains(term),
    decreases docs.len(),
{
    if docs.len() > 0 {
        let rest = docs.drop_last();
        lemma_posting_within(rest, term);
        assert forall|k: int| 0 <= k < posting(docs, term).len() implies exists|i: int|
            0 <= i < docs.len() && (#[trigger] docs[i]).entry == #[trigger] posting(docs, term)[k]
                && docs[i].terms.contains(term) by {
            if k < posting(rest, term).len() {
                let i = choose|i: int|
                    0 <= i < rest.len() && (#[trigger] rest[i]).entry == posting(rest, term)[k]
                        && rest[i].terms.contains(term);
                assert(docs[i] == rest[i]);
            } else {
                assert(docs[docs.len() - 1].entry == posting(docs, term)[k]);
            }
        }
    }
}

// ── Searching ──────────────────────────────────────────────────────────────

/// Whether the entry holds one of the tokens as a term.
pub open spec fn marked(docs: Seq<Doc>, tokens: Seq<Seq<char>>, entry: (EntryType, usize)) -> bool {
    exists|i: int| 0 <= i < tokens.len() && posting(docs, #[trigger] tokens[i]).contains(entry)
}

/// Whether one of the tokens is a term of any entry.
pub open spec fn any_indexed(docs: Seq<Doc>, tokens: Seq<Seq<char>>) -> bool {
    exists|i: int| 0 <= i < tokens.len() && posting(docs, #[trigger] tokens[i]).len() > 0
}

/// The entries that are scored: those that hold a token of the query; all of them
/// where no token is a term.
pub open spec fn candidate(
    docs: Seq<Doc>,
    tokens: Seq<Seq<char>>,
    entry: (EntryType, usize),
) -> bool {
    any_indexed(docs, tokens) ==> marked(docs, tokens, entry)
}

/// An entry that a query meets: how it meets each of the entry's weighted fields,
/// and whether the entry is a stale ADR.
pub struct Match {
    pub entry: (EntryType, usize),
    pub stale: bool,
    pub fields: Vec<FieldHits>,
}

#[verifier::ext_equal]
pub struct MatchView {
    pub entry: (EntryType, usize),
    pub stale: bool,
    pub fields: Seq<FieldHitsView>,
}

pub open spec fn field_views(fields: Seq<FieldHits>) -> Seq<FieldHitsView> {
    fields.map_values(|f: FieldHits| f@)
}

impl View for Match {
    type V = MatchView;

    open spec fn view(&self) -> MatchView {
        MatchView { entry: self.entry, stale: self.stale, fields: field_views(self.fields@) }
    }
}

pub open spec fn match_views(found: Seq<Match>) -> Seq<MatchView> {
    found.map_values(|m: Match| m@)
}

/// The weighted fields of an ADR.
pub open spec fn adr_fields(query: Seq<char>, a: AdrView) -> Seq<FieldHitsView> {
    seq![
        field_hits_of(query, 10, a.title),
        field_hits_of(query, 2, a.context),
        field_hits_of(query, 4, a.decision),
        field_hits_of(query, 6, join(a.tags, " "@)),
    ]
}

/// The weighted fields of a trap.
pub open spec fn trap_fields(query: Seq<char>, t: TrapView) -> Seq<FieldHitsView> {
    seq![
        field_hits_of(query, 15, t.error_signature),
        field_hits_of(query, 3, t.context),
        field_hits_of(query, 6, t.solution),
        field_hits_of(query, 8, t.root_cause),
        field_hits_of(query, 5, t.prevention),
    ]
}

/// Whether any field adds to the score.
pub open spec fn any_meets(fields: Seq<FieldHitsView>) -> bool {
    exists|i: int| 0 <= i < fields.len() && meets(#[trigger] fields[i])
}

/// How the query meets an entry, if it does. Stale ADRs are passed over unless they
/// are asked for.
pub open spec fn entry_match(
    adrs: Seq<AdrView>,
    traps: Seq<TrapView>,
    query: Seq<char>,
    stale_too: bool,
    entry: (EntryType, usize),
) -> Option<MatchView> {
    match entry.0 {
        EntryType::Adr => {
            let a = adrs[entry.1 as int];
            let fields = adr_fields(query, a);
            if (stale_too || a.status.active()) && any_meets(fields) {
                Some(MatchView { entry, stale: !a.status.active(), fields })
            } else {
                None
            }
        },
        EntryType::Trap => {
            let fields = trap_fields(query, traps[entry.1 as int]);
            if any_meets(fields) {
                Some(MatchView { entry, stale: false, fields })
            } else {
                None
            }
        },
    }
}

/// What a search over all entries finds, in order.
pub open spec fn found_by_scan(
    adrs: Seq<AdrView>,
    traps: Seq<TrapView>,
    query: Seq<char>,
    stale_too: bool,
) -> Seq<MatchView> {
    docs_of(adrs, traps).filter_map(
        |d: Doc| entry_match(adrs, traps, query, stale_too, d.entry),
    )
}

/// What a search with the index finds, in order: as over all entries, among the
/// candidates.
pub open spec fn found(
    adrs: Seq<AdrView>,
    traps: Seq<TrapView>,
    query: Seq<char>,
    stale_too: bool,
) -> Seq<MatchView> {
    let docs = docs_of(adrs, traps);
    docs.filter_map(
        |d: Doc|
            if candidate(docs, query_tokens(query), d.entry) {
                entry_match(adrs, traps, query, stale_too, d.entry)
            } else {
                None
            },
    )
}

/// Set the flags of the entries in `list`.
fn mark(list: &Vec<(EntryType, usize)>, adrs: &mut Vec<bool>, traps: &mut Vec<bool>)
    ensures
        final(adrs)@.len() == old(adrs)@.len(),
        final(traps)@.len() == old(traps)@.len(),
        forall|k: int|
            0 <= k < old(adrs)@.len() ==> #[trigger] final(adrs)@[k] == (old(adrs)@[k]
                || list@.contains((EntryType::Adr, k as usize))),
        forall|k: int|
            0 <= k < old(traps)@.len() ==> #[trigger] final(traps)@[k] == (old(traps)@[k]
                || list@.contains((EntryType::Trap, k as usize))),
{
    let ghost a0 = adrs@;
    let ghost t0 = traps@;
    let mut i: usize = 0;
    let adr_count: usize = adrs.len();
    let trap_count: usize = traps.len();
    while i < list.len()
        invariant
            i <= list@.len(),
            adr_count == a0.len(),
            trap_count == t0.len(),
            adrs@.len() == a0.len(),
            traps@.len() == t0.len(),
            forall|k: int|
                0 <= k < a0.len() ==> #[trigger] adrs@[k] == (a0[k] || list@.take(
                    i as int,
                ).contains((EntryType::Adr, k as usize))),
            forall|k: int|
                0 <= k < t0.len() ==> #[trigger] traps@[k] == (t0[k] || list@.take(
                    i as int,
                ).contains((EntryType::Trap, k as usize))),
        decreases list@.len() - i,
    {
        let entry = list[i];
        proof {
            let now = list@.take(i as int);
            let next = list@.take(i + 1);
            assert(next =~= now.push(entry));
            assert forall|e: (EntryType, usize)| next.contains(e) == (now.contains(e) || e == entry) by {
                if now.contains(e) {
                    let q = choose|q: int| 0 <= q < now.len() && now[q] == e;
                    assert(next[q] == e);
                }
                assert(next[i as int] == entry);
            }
        }
        match entry.0 {
            EntryType::Adr => {
                if entry.1 < adr_count {
                    adrs.set(entry.1, true);
                }
            },
            EntryType::Trap => {
                if entry.1 < trap_count {
                    traps.set(entry.1, true);
                }
            },
        }
        i = i + 1;
    }
    assert(list@.take(i as int) =~= list@);
}

/// Whether any of the fields adds to the score.
fn any_field(fields: &Vec<FieldHits>) -> (r: bool)
    ensures
        r == any_meets(field_views(fields@)),
{
    let mut i: usize = 0;
    while i < fields.len()
        invariant
            i <= fields@.len(),
            forall|j: int| 0 <= j < i ==> !meets(#[trigger] field_views(fields@)[j]),
        decreases fields@.len() - i,
    {
        assert(field_views(fields@)[i as int] == fields@[i as int]@);
        if fields[i].any() {
            return true;
        }
        i = i + 1;
    }
    false
}

fn match_adr(q: &Query, adr: &ADR) -> (r: Vec<FieldHits>)
    ensures
        forall|query: Seq<char>| #[trigger]
            q.is_of(query) ==> field_views(r@) == adr_fields(query, adr@),
{
    let tags = joined(&adr.tags, " ");
    let mut r: Vec<FieldHits> = Vec::new();
    r.push(q.field_hits(10, adr.title.as_str()));
    r.push(q.field_hits(2, adr.context.as_str()));
    r.push(q.field_hits(4, adr.decision.as_str()));
    r.push(q.field_hits(6, tags.as_str()));
    proof {
        assert forall|query: Seq<char>| #[trigger] q.is_of(query) implies field_views(r@)
            == adr_fields(query, adr@) by {
            assert(field_views(r@) =~= adr_fields(query, adr@));
        }
    }
    r
}

fn match_trap(q: &Query, trap: &Trap) -> (r: Vec<FieldHits>)
    ensures
        forall|query: Seq<char>| #[trigger]
            q.is_of(query) ==> field_views(r@) == trap_fields(query, trap@),
{
    let mut r: Vec<FieldHits> = Vec::new();
    r.push(q.field_hits(15, trap.error_signature.as_str()));
    r.push(q.field_hits(3, trap.context.as_str()));
    r.push(q.field_hits(6, trap.solution.as_str()));
    r.push(q.field_hits(8, trap.root_cause.as_str()));
    r.push(q.field_hits(5, trap.prevention.as_str()));
    proof {
        assert forall|query: Seq<char>| #[trigger] q.is_of(query) implies field_views(r@)
            == trap_fields(query, trap@) by {
            assert(field_views(r@) =~= trap_fields(query, trap@));
        }
    }
    r
}

fn flags(n: usize, value: bool) -> (r: Vec<bool>)
    ensures
        r@ == Seq::new(n as nat, |i: int| value),
{
    let mut r: Vec<bool> = Vec::new();
    while r.len() < n
        invariant
            r@.len() <= n,
            forall|i: int| 0 <= i < r@.len() ==> r@[i] == value,
        decreases n - r@.len(),
    {
        r.push(value);
    }
    r
}

impl SearchIndex {
    /// For each ADR and for each trap, whether it is scored.
    fn candidates(&self, tokens: &Vec<String>) -> (r: (Vec<bool>, Vec<bool>))
        requires
            self.wf(),
        ensures
            r.0@.len() == self.adrs@.len(),
            r.1@.len() == self.traps@.len(),
            forall|k: int|
                0 <= k < r.0@.len() ==> #[trigger] r.0@[k] == candidate(
                    self.docs(),
                    texts(tokens@),
                    (EntryType::Adr, k as usize),
                ),
            forall|k: int|
                0 <= k < r.1@.len() ==> #[trigger] r.1@[k] == candidate(
                    self.docs(),
                    texts(tokens@),
                    (EntryType::Trap, k as usize),
                ),
    {
        let adr_count: usize = self.adrs.len();
        let trap_count: usize = self.traps.len();
        let mut adrs = flags(adr_count, false);
        let mut traps = flags(trap_count, false);
        let mut any: bool = false;
        let ghost docs = self.docs();
        let ghost all = texts(tokens@);
        let mut i: usize = 0;
        while i < tokens.len()
            invariant
                i <= tokens@.len(),
                self.wf(),
                docs == self.docs(),
                all == texts(tokens@),
                adrs@.len() == adr_count,
                traps@.len() == trap_count,
                any == any_indexed(docs, all.take(i as int)),
                forall|k: int|
                    0 <= k < adrs@.len() ==> #[trigger] adrs@[k] == marked(
                        docs,
                        all.take(i as int),
                        (EntryType::Adr, k as usize),
                    ),
                forall|k: int|
                    0 <= k < traps@.len() ==> #[trigger] traps@[k] == marked(
                        docs,
                        all.take(i as int),
                        (EntryType::Trap, k as usize),
                    ),
            decreases tokens@.len() - i,
        {
            let ghost a0 = adrs@;
            let ghost t0 = traps@;
            let ghost here = posting(docs, all[i as int]);
            proof {
                lemma_marked_push(docs, all, i as int);
            }
            match self.terms.get(tokens[i].as_str()) {
                Some(list) => {
                    assert(list@ == here);
                    any = true;
                    mark(list, &mut adrs, &mut traps);
                },
                None => {
                    assert(!self.terms@.contains_key(all[i as int]));
                    assert(here =~= Seq::empty());
                },
            }
            i = i + 1;
        }
        assert(all.take(i as int) =~= all);
        if any {
            (adrs, traps)
        } else {
            (flags(adr_count, true), flags(trap_count, true))
        }
    }

    /// Search with inverted-index pre-filtering: the entries that the query meets
    /// among the candidates, with how it meets each of their fields.
    pub fn find(&self, query: &str, stale_too: bool) -> (r: Vec<Match>)
        requires
            self.wf(),
        ensures
            match_views(r@) == found(
                adr_views(self.adrs@),
                trap_views(self.traps@),
                query@,
                stale_too,
            ),
    {
        let q = Query::new(query);
        let (adr_flags, trap_flags) = self.candidates(&q.tokens);
        let ghost av = adr_views(self.adrs@);
        let ghost tv = trap_views(self.traps@);
        let ghost docs = docs_of(av, tv);
        let ghost pick = |d: Doc|
            if candidate(docs, query_tokens(query@), d.entry) {
                entry_match(av, tv, query@, stale_too, d.entry)
            } else {
                None
            };
        let mut out: Vec<Match> = Vec::new();
        let mut i: usize = 0;
        proof {
            reveal(Seq::filter_map);
            assert(docs.take(0) =~= Seq::empty());
        }
        while i < self.adrs.len()
            invariant
                i <= self.adrs@.len(),
                q.is_of(query@),
                av == adr_views(self.adrs@),
                tv == trap_views(self.traps@),
                docs == docs_of(av, tv),
                adr_flags@.len() == self.adrs@.len(),
                forall|k: int|
                    0 <= k < adr_flags@.len() ==> #[trigger] adr_flags@[k] == candidate(
                        docs,
                        query_tokens(query@),
                        (EntryType::Adr, k as usize),
                    ),
                pick == |d: Doc|
                    if candidate(docs, query_tokens(query@), d.entry) {
                        entry_match(av, tv, query@, stale_too, d.entry)
                    } else {
                        None
                    },
                match_views(out@) == docs.take(i as int).filter_map(pick),
            decreases self.adrs@.len() - i,
        {
            let ghost d = docs[i as int];
            let ghost before = out@;
            proof {
                reveal(Seq::filter_map);
                assert(d.entry == (EntryType::Adr, i));
                assert(docs.take(i + 1).drop_last() =~= docs.take(i as int));
                assert(docs.take(i + 1).last() == d);
                assert(av[i as int] == self.adrs@[i as int]@);
            }
            let active = self.adrs[i].status.is_active();
            if adr_flags[i] && (stale_too || active) {
                let fields = match_adr(&q, &self.adrs[i]);
                if any_field(&fields) {
                    let m = Match { entry: (EntryType::Adr, i), stale: !active, fields };
                    out.push(m);
                    assert(match_views(out@) =~= match_views(before).push(m@));
                }
            }
            i = i + 1;
        }
        let mut j: usize = 0;
        while j < self.traps.len()
            invariant
                j <= self.traps@.len(),
                i == self.adrs@.len(),
                q.is_of(query@),
                av == adr_views(self.adrs@),
                tv == trap_views(self.traps@),
                docs == docs_of(av, tv),
                trap_flags@.len() == self.traps@.len(),
                forall|k: int|
                    0 <= k < trap_flags@.len() ==> #[trigger] trap_flags@[k] == candidate(
                        docs,
                        query_tokens(query@),
                        (EntryType::Trap, k as usize),
                    ),
                pick == |d: Doc|
                    if candidate(docs, query_tokens(query@), d.entry) {
                        entry_match(av, tv, query@, stale_too, d.entry)
                    } else {
                        None
                    },
                match_views(out@) == docs.take(i + j).filter_map(pick),
            decreases self.traps@.len() - j,
        {
            let ghost d = docs[i + j];
            let ghost before = out@;
            proof {
                reveal(Seq::filter_map);
                assert(d.entry == (EntryType::Trap, j));
                assert(docs.take(i + j + 1).drop_last() =~= docs.take(i + j));
                assert(docs.take(i + j + 1).last() == d);
                assert(tv[j as int] == self.traps@[j as int]@);
            }
            if trap_flags[j] {
                let fields = match_trap(&q, &self.traps[j]);
                if any_field(&fields) {
                    let m = Match { entry: (EntryType::Trap, j), stale: false, fields };
                    out.push(m);
                    assert(match_views(out@) =~= match_views(before).push(m@));
                }
            }
            j = j + 1;
        }
        assert(docs.take(i + j) =~= docs);
        out
    }
}

/// One more token adds its posting.
proof fn lemma_marked_push(docs: Seq<Doc>, tokens: Seq<Seq<char>>, i: int)
    requires
        0 <= i < tokens.len(),
    ensures
        any_indexed(docs, tokens.take(i + 1)) == (any_indexed(docs, tokens.take(i)) || posting(
            docs,
            tokens[i],
        ).len() > 0),
        forall|e: (EntryType, usize)| #[trigger]
            marked(docs, tokens.take(i + 1), e) == (marked(docs, tokens.take(i), e) || posting(
                docs,
                tokens[i],
            ).contains(e)),
{
    let a = tokens.take(i);
    let b = tokens.take(i + 1);
    assert(b[i] == tokens[i]);
    if any_indexed(docs, a) {
        let q = choose|q: int| 0 <= q < a.len() && posting(docs, #[trigger] a[q]).len() > 0;
        assert(b[q] == a[q]);
    }
    if any_indexed(docs, b) {
        let q = choose|q: int| 0 <= q < b.len() && posting(docs, #[trigger] b[q]).len() > 0;
        if q < i {
            assert(a[q] == b[q]);
        }
    }
    assert forall|e: (EntryType, usize)| #[trigger] marked(docs, b, e) == (marked(docs, a, e)
        || posting(docs, tokens[i]).contains(e)) by {
        if marked(docs, a, e) {
            let q = choose|q: int|
                0 <= q < a.len() && posting(docs, #[trigger] a[q]).contains(e);
            assert(b[q] == a[q]);
        }
        if marked(docs, b, e) {
            let q = choose|q: int|
                0 <= q < b.len() && posting(docs, #[trigger] b[q]).contains(e);
            if q < i {
                assert(a[q] == b[q]);
            }
        }
    }
}

// ── Ranking ────────────────────────────────────────────────────────────────

/// Whether position `i` ranks before position `j`: by its key, and between equal
/// keys by its place.
pub open spec fn ranks_before(keys: Seq<u64>, i: int, j: int) -> bool {
    keys[i] > keys[j] || keys[i] == keys[j] && i < j
}

/// Whether `r` gives the first `limit` of the positions below `n` in rank order.
pub open spec fn is_top(keys: Seq<u64>, n: int, limit: int, r: Seq<usize>) -> bool {
    &&& r.len() == if limit < n {
        limit
    } else {
        n
    }
    &&& forall|i: int| 0 <= i < r.len() ==> (#[trigger] r[i]) < n
    &&& forall|i: int, j: int|
        0 <= i < j < r.len() ==> ranks_before(keys, #[trigger] r[i] as int, #[trigger] r[j] as int)
    &&& forall|i: int, k: int|
        0 <= i < r.len() && 0 <= k < n && !r.contains(k as usize) ==> #[trigger] ranks_before(
            keys,
            r[i] as int,
            k,
        )
}

/// Whether `r` gives all positions below `n` in rank order.
spec fn in_order(keys: Seq<u64>, n: int, r: Seq<usize>) -> bool {
    &&& r.len() == n
    &&& forall|i: int| 0 <= i < r.len() ==> (#[trigger] r[i]) < n
    &&& forall|i: int, j: int|
        0 <= i < j < r.len() ==> ranks_before(keys, #[trigger] r[i] as int, #[trigger] r[j] as int)
    &&& forall|k: usize| k < n ==> #[trigger] r.contains(k)
}

/// Sort positions by their keys, descending, and keep the first `limit`. Equal keys
/// stay in order.
pub fn rank(keys: &Vec<u64>, limit: usize) -> (r: Vec<usize>)
    ensures
        is_top(keys@, keys@.len() as int, limit as int, r@),
{
    let mut r: Vec<usize> = Vec::new();
    let mut n: usize = 0;
    while n < keys.len()
        invariant
            n <= keys@.len(),
            in_order(keys@, n as int, r@),
        decreases keys@.len() - n,
    {
        let mut p: usize = 0;
        while p < r.len() && keys[r[p]] >= keys[n]
            invariant
                n < keys@.len(),
                in_order(keys@, n as int, r@),
                p <= r@.len(),
                forall|i: int| 0 <= i < p ==> keys@[(#[trigger] r@[i]) as int] >= keys@[n as int],
            ensures
                p <= r@.len(),
                forall|i: int| 0 <= i < p ==> keys@[(#[trigger] r@[i]) as int] >= keys@[n as int],
                p < r@.len() ==> keys@[r@[p as int] as int] < keys@[n as int],
            decreases r@.len() - p,
        {
            p = p + 1;
        }
        proof {
            lemma_rank_insert(keys@, n, r@, p as int);
        }
        r.insert(p, n);
        n = n + 1;
    }
    let ghost all = r@;
    if limit < r.len() {
        r.truncate(limit);
    }
    proof {
        assert(r@ =~= all.take(r@.len() as int));
        assert forall|i: int, k: int|
            0 <= i < r@.len() && 0 <= k < n && !r@.contains(k as usize) implies #[trigger] ranks_before(
            keys@,
            r@[i] as int,
            k,
        ) by {
            assert(all.contains(k as usize));
            let j = choose|j: int| 0 <= j < all.len() && all[j] == k as usize;
            if j < r@.len() {
                assert(r@[j] == k as usize);
            }
            assert(ranks_before(keys@, all[i] as int, all[j] as int));
        }
    }
    r
}

proof fn lemma_rank_insert(keys: Seq<u64>, n: usize, r: Seq<usize>, p: int)
    requires
        n < keys.len(),
        in_order(keys, n as int, r),
        0 <= p <= r.len(),
        forall|i: int| 0 <= i < p ==> keys[(#[trigger] r[i]) as int] >= keys[n as int],
        p < r.len() ==> keys[r[p] as int] < keys[n as int],
    ensures
        in_order(keys, n + 1, r.insert(p, n)),
{
    let next = r.insert(p, n);
    assert forall|i: int, j: int| 0 <= i < j < next.len() implies ranks_before(
        keys,
        #[trigger] next[i] as int,
        #[trigger] next[j] as int,
    ) by {
        let a = if i < p {
            i
        } else {
            i - 1
        };
        let b = if j < p {
            j
        } else {
            j - 1
        };
        if i != p && j != p {
            assert(next[i] == r[a] && next[j] == r[b]);
            assert(ranks_before(keys, r[a] as int, r[b] as int));
        } else if j == p {
            assert(next[i] == r[i]);
        } else {
            assert(next[j] == r[b]);
            if b > p {
                assert(ranks_before(keys, r[p] as int, r[b] as int));
            }
        }
    }
    assert forall|k: usize| k < n + 1 implies #[trigger] next.contains(k) by {
        if k == n {
            assert(next[p] == n);
        } else {
            assert(r.contains(k));
            let q = choose|q: int| 0 <= q < r.len() && r[q] == k;
            if q < p {
                assert(next[q] == k);
            } else {
                assert(next[q + 1] == k);
            }
        }
    }
}

/// The order is the only one: what `is_top` says leaves no choice.
pub proof fn law_rank_is_determined(keys: Seq<u64>, limit: nat, r: Seq<usize>, q: Seq<usize>)
    requires
        keys.len() <= usize::MAX,
        is_top(keys, keys.len() as int, limit as int, r),
        is_top(keys, keys.len() as int, limit as int, q),
    ensures
        r == q,
{
    assert forall|i: int| 0 <= i < r.len() implies r[i] == q[i] by {
        lemma_rank_prefix(keys, limit, r, q, i);
    }
    assert(r =~= q);
}

proof fn lemma_rank_prefix(keys: Seq<u64>, limit: nat, r: Seq<usize>, q: Seq<usize>, i: int)
    requires
        keys.len() <= usize::MAX,
        is_top(keys, keys.len() as int, limit as int, r),
        is_top(keys, keys.len() as int, limit as int, q),
        0 <= i < r.len(),
    ensures
        r[i] == q[i],
    decreases i,
{
    assert forall|j: int| 0 <= j < i implies r[j] == q[j] by {
        lemma_rank_prefix(keys, limit, r, q, j);
    }
    if r[i] != q[i] {
        // Neither comes before the other: each stands later in the other list, or
        // not in it.
        lemma_rank_later(keys, limit, r, q, i);
        lemma_rank_later(keys, limit, q, r, i);
    }
}

proof fn lemma_rank_later(keys: Seq<u64>, limit: nat, r: Seq<usize>, q: Seq<usize>, i: int)
    requires
        keys.len() <= usize::MAX,
        is_top(keys, keys.len() as int, limit as int, r),
        is_top(keys, keys.len() as int, limit as int, q),
        0 <= i < r.len(),
        r[i] != q[i],
        forall|j: int| 0 <= j < i ==> r[j] == q[j],
    ensures
        ranks_before(keys, r[i] as int, q[i] as int),
{
    if r.contains(q[i]) {
        let j = choose|j: int| 0 <= j < r.len() && r[j] == q[i];
        if j < i {
            assert(q[j] == q[i]);
            assert(ranks_before(keys, q[j] as int, q[i] as int));
        } else {
            assert(ranks_before(keys, r[i] as int, r[j] as int));
        }
    } else {
        assert(ranks_before(keys, r[i] as int, q[i] as int));
    }
}

// ── What is handed out ─────────────────────────────────────────────────────

/// The item behind a search result.
pub enum SearchItem {
    Adr(ADR),
    Trap(Trap),
}

pub enum SearchItemView {
    Adr(AdrView),
    Trap(TrapView),
}

impl View for SearchItem {
    type V = SearchItemView;

    open spec fn view(&self) -> SearchItemView {
        match self {
            SearchItem::Adr(a) => SearchItemView::Adr(a@),
            SearchItem::Trap(t) => SearchItemView::Trap(t@),
        }
    }
}

/// The item that an entry stands for, if there is one.
pub open spec fn item_of(
    adrs: Seq<AdrView>,
    traps: Seq<TrapView>,
    entry: (EntryType, usize),
) -> Option<SearchItemView> {
    match entry.0 {
        EntryType::Adr => if entry.1 < adrs.len() {
            Some(SearchItemView::Adr(adrs[entry.1 as int]))
        } else {
            None
        },
        EntryType::Trap => if entry.1 < traps.len() {
            Some(SearchItemView::Trap(traps[entry.1 as int]))
        } else {
            None
        },
    }
}

pub open spec fn item_view(item: Option<SearchItem>) -> Option<SearchItemView> {
    match item {
        Some(i) => Some(i@),
        None => None,
    }
}

impl EntryType {
    pub open spec fn name(self) -> Seq<char> {
        match self {
            EntryType::Adr => "adr"@,
            EntryType::Trap => "trap"@,
        }
    }

    /// The name under which the kind of entry is written.
    pub fn label(self) -> (r: &'static str)
        ensures
            r@ == self.name(),
    {
        match self {
            EntryType::Adr => "adr",
            EntryType::Trap => "trap",
        }
    }
}

/// An entry as the stored index names it.
pub struct IndexRef {
    pub kind: EntryType,
    pub id: String,
}

/// A term of the stored index, with the entries that hold it.
pub struct IndexTerm {
    pub term: String,
    pub refs: Vec<IndexRef>,
}

/// The stored form of the index.
pub struct IndexDocument {
    pub terms: Vec<IndexTerm>,
    pub version: String,
    pub rebuilt_at: String,
}

pub open spec fn ref_views(refs: Seq<IndexRef>) -> Seq<(EntryType, Seq<char>)> {
    refs.map_values(|r: IndexRef| (r.kind, r.id@))
}

/// How the stored index names an entry: by the ADR's id or the trap's signature.
pub open spec fn ref_of(
    adrs: Seq<AdrView>,
    traps: Seq<TrapView>,
    entry: (EntryType, usize),
) -> (EntryType, Seq<char>) {
    match item_of(adrs, traps, entry) {
        Some(SearchItemView::Adr(a)) => (EntryType::Adr, a.id),
        Some(SearchItemView::Trap(t)) => (EntryType::Trap, t.error_signature),
        None => (entry.0, "?"@),
    }
}

fn entry_ref(adrs: &[ADR], traps: &[Trap], entry: (EntryType, usize)) -> (r: IndexRef)
    ensures
        (r.kind, r.id@) == ref_of(adr_views(adrs@), trap_views(traps@), entry),
{
    let id = match entry.0 {
        EntryType::Adr => if entry.1 < adrs.len() {
            adrs[entry.1].id.clone()
        } else {
            "?".to_owned()
        },
        EntryType::Trap => if entry.1 < traps.len() {
            traps[entry.1].error_signature.clone()
        } else {
            "?".to_owned()
        },
    };
    proof {
        assert(adr_views(adrs@).len() == adrs@.len());
        assert(trap_views(traps@).len() == traps@.len());
    }
    IndexRef { kind: entry.0, id }
}

/// The entries of a posting by name.
fn named_refs(list: &Vec<(EntryType, usize)>, adrs: &[ADR], traps: &[Trap]) -> (r: Vec<IndexRef>)
    ensures
        ref_views(r@) == list@.map_values(
            |e: (EntryType, usize)| ref_of(adr_views(adrs@), trap_views(traps@), e),
        ),
{
    let ghost naming = |e: (EntryType, usize)| ref_of(adr_views(adrs@), trap_views(traps@), e);
    let mut refs: Vec<IndexRef> = Vec::new();
    let mut i: usize = 0;
    while i < list.len()
        invariant
            i <= list@.len(),
            naming == |e: (EntryType, usize)| ref_of(adr_views(adrs@), trap_views(traps@), e),
            ref_views(refs@) == list@.take(i as int).map_values(naming),
        decreases list@.len() - i,
    {
        let one = entry_ref(adrs, traps, list[i]);
        let ghost before = refs@;
        refs.push(one);
        proof {
            assert(list@.take(i + 1) =~= list@.take(i as int).push(list@[i as int]));
            assert(ref_views(refs@) =~= ref_views(before).push((one.kind, one.id@)));
            assert(list@.take(i + 1).map_values(naming) =~= list@.take(i as int).map_values(
                naming,
            ).push(naming(list@[i as int])));
        }
        i = i + 1;
    }
    assert(list@.take(i as int) =~= list@);
    refs
}

impl SearchIndex {
    /// A copy of the item that an entry stands for.
    pub fn item(&self, entry: (EntryType, usize)) -> (r: Option<SearchItem>)
        ensures
            item_view(r) == item_of(adr_views(self.adrs@), trap_views(self.traps@), entry),
    {
        proof {
            assert(adr_views(self.adrs@).len() == self.adrs@.len());
            assert(trap_views(self.traps@).len() == self.traps@.len());
        }
        match entry.0 {
            EntryType::Adr => if entry.1 < self.adrs.len() {
                Some(SearchItem::Adr(self.adrs[entry.1].clone()))
            } else {
                None
            },
            EntryType::Trap => if entry.1 < self.traps.len() {
                Some(SearchItem::Trap(self.traps[entry.1].clone()))
            } else {
                None
            },
        }
    }

    /// The form in which the index is stored at `secs` after the epoch: for each term
    /// the entries that hold it, by name.
    pub fn to_index_json(&self, adrs: &[ADR], traps: &[Trap], secs: u64) -> (r: IndexDocument)
        requires
            self.wf(),
        ensures
            r.version@ == "v4"@,
            r.rebuilt_at@ == date_text(date_of(secs as int / 86400)) + "T"@ + time_text(
                secs as int,
                ":"@,
            ) + "Z"@,
            forall|i: int, j: int|
                0 <= i < j < r.terms@.len() ==> (#[trigger] r.terms@[i]).term@ != (
                #[trigger] r.terms@[j]).term@,
            forall|t: Seq<char>|
                #![trigger posting(self.docs(), t)]
                posting(self.docs(), t).len() > 0 ==> exists|i: int|
                    0 <= i < r.terms@.len() && (#[trigger] r.terms@[i]).term@ == t,
            forall|i: int|
                0 <= i < r.terms@.len() ==> posting(
                    self.docs(),
                    (#[trigger] r.terms@[i]).term@,
                ).len() > 0,
            forall|i: int|
                0 <= i < r.terms@.len() ==> ref_views((#[trigger] r.terms@[i]).refs@) == posting(
                    self.docs(),
                    r.terms@[i].term@,
                ).map_values(
                    |e: (EntryType, usize)| ref_of(adr_views(adrs@), trap_views(traps@), e),
                ),
    {
        let mut terms: Vec<IndexTerm> = Vec::new();
        let ghost naming = |e: (EntryType, usize)|
            ref_of(adr_views(adrs@), trap_views(traps@), e);
        let mut k: usize = 0;
        while k < self.vocabulary.len()
            invariant
                k <= self.vocabulary@.len(),
                self.wf(),
                naming == |e: (EntryType, usize)|
                    ref_of(adr_views(adrs@), trap_views(traps@), e),
                terms@.len() == k,
                forall|i: int|
                    0 <= i < k ==> (#[trigger] terms@[i]).term@ == self.vocabulary@[i]@
                        && ref_views(terms@[i].refs@) == posting(
                        self.docs(),
                        self.vocabulary@[i]@,
                    ).map_values(naming),
            decreases self.vocabulary@.len() - k,
        {
            let mut refs: Vec<IndexRef> = Vec::new();
            let ghost word = self.vocabulary@[k as int]@;
            assert(texts(self.vocabulary@)[k as int] == word);
            assert(self.terms@.contains_key(word));
            if let Some(list) = self.terms.get(self.vocabulary[k].as_str()) {
                refs = named_refs(list, adrs, traps);
            }
            let ghost before = terms@;
            terms.push(IndexTerm { term: self.vocabulary[k].clone(), refs });
            assert forall|i: int| 0 <= i < k implies terms@[i] == #[trigger] before[i] by {}
            k = k + 1;
        }
        let r = IndexDocument { terms, version: "v4".to_owned(), rebuilt_at: iso8601(secs) };
        proof {
            assert forall|t: Seq<char>|
                #![trigger posting(self.docs(), t)]
                posting(self.docs(), t).len() > 0 implies exists|i: int|
                0 <= i < r.terms@.len() && (#[trigger] r.terms@[i]).term@ == t by {
                assert(self.terms@.contains_key(t));
                let words = texts(self.vocabulary@);
                let i = choose|i: int| 0 <= i < words.len() && words[i] == t;
                assert(r.terms@[i].term@ == t);
            }
            assert forall|i: int| 0 <= i < r.terms@.len() implies posting(
                self.docs(),
                (#[trigger] r.terms@[i]).term@,
            ).len() > 0 by {
                assert(texts(self.vocabulary@)[i] == self.vocabulary@[i]@);
                assert(self.terms@.contains_key(self.vocabulary@[i]@));
            }
            assert forall|i: int, j: int| 0 <= i < j < r.terms@.len() implies (
            #[trigger] r.terms@[i]).term@ != (#[trigger] r.terms@[j]).term@ by {
                assert(texts(self.vocabulary@)[i] != texts(self.vocabulary@)[j]);
            }
        }
        r
    }
}

// ── Laws ───────────────────────────────────────────────────────────────────

/// The posting of a term names every entry that holds it.
proof fn lemma_posting_complete(docs: Seq<Doc>, term: Seq<char>, i: int)
    requires
        0 <= i < docs.len(),
        docs[i].terms.contains(term),
    ensures
        posting(docs, term).contains(docs[i].entry),
    decreases docs.len(),
{
    let rest = docs.drop_last();
    if i < rest.len() {
        lemma_posting_complete(rest, term, i);
        let q = choose|q: int|
            0 <= q < posting(rest, term).len() && posting(rest, term)[q] == rest[i].entry;
        assert(posting(docs, term)[q] == docs[i].entry);
    } else {
        assert(posting(docs, term)[posting(rest, term).len() as int] == docs[i].entry);
    }
}

/// An entry that holds a token of the query as a term is never left out.
pub proof fn law_holders_are_candidates(
    adrs: Seq<AdrView>,
    traps: Seq<TrapView>,
    query: Seq<char>,
    i: int,
    j: int,
)
    requires
        0 <= i < docs_of(adrs, traps).len(),
        0 <= j < query_tokens(query).len(),
        docs_of(adrs, traps)[i].terms.contains(query_tokens(query)[j]),
    ensures
        candidate(docs_of(adrs, traps), query_tokens(query), docs_of(adrs, traps)[i].entry),
{
    lemma_posting_complete(docs_of(adrs, traps), query_tokens(query)[j], i);
}

/// A query none of whose tokens is a term is answered by a scan of all entries.
pub proof fn law_unknown_terms_scan_all(
    adrs: Seq<AdrView>,
    traps: Seq<TrapView>,
    query: Seq<char>,
    stale_too: bool,
)
    requires
        !any_indexed(docs_of(adrs, traps), query_tokens(query)),
    ensures
        found(adrs, traps, query, stale_too) == found_by_scan(adrs, traps, query, stale_too),
{
    let docs = docs_of(adrs, traps);
    lemma_same_filter(
        docs,
        |d: Doc|
            if candidate(docs, query_tokens(query), d.entry) {
                entry_match(adrs, traps, query, stale_too, d.entry)
            } else {
                None
            },
        |d: Doc| entry_match(adrs, traps, query, stale_too, d.entry),
    );
}

/// The index answers as a scan of all entries does, for every query that has no
/// token among the terms or of which each entry that it meets holds some token as a
/// term.
pub proof fn law_index_agrees_with_scan(
    adrs: Seq<AdrView>,
    traps: Seq<TrapView>,
    query: Seq<char>,
    stale_too: bool,
)
    requires
        any_indexed(docs_of(adrs, traps), query_tokens(query)) ==> forall|i: int|
            0 <= i < docs_of(adrs, traps).len() && entry_match(
                adrs,
                traps,
                query,
                stale_too,
                (#[trigger] docs_of(adrs, traps)[i]).entry,
            ) is Some ==> exists|j: int|
                0 <= j < query_tokens(query).len() && docs_of(adrs, traps)[i].terms.contains(
                    #[trigger] query_tokens(query)[j],
                ),
    ensures
        found(adrs, traps, query, stale_too) == found_by_scan(adrs, traps, query, stale_too),
{
    let docs = docs_of(adrs, traps);
    let f = |d: Doc|
        if candidate(docs, query_tokens(query), d.entry) {
            entry_match(adrs, traps, query, stale_too, d.entry)
        } else {
            None
        };
    let g = |d: Doc| entry_match(adrs, traps, query, stale_too, d.entry);
    assert forall|i: int| 0 <= i < docs.len() implies f(#[trigger] docs[i]) == g(docs[i]) by {
        if g(docs[i]) is Some && any_indexed(docs, query_tokens(query)) {
            let j = choose|j: int|
                0 <= j < query_tokens(query).len() && docs[i].terms.contains(
                    #[trigger] query_tokens(query)[j],
                );
            law_holders_are_candidates(adrs, traps, query, i, j);
        }
    }
    lemma_same_filter(docs, f, g);
}

/// What the index finds a scan of all entries finds too.
pub proof fn law_index_finds_no_others(
    adrs: Seq<AdrView>,
    traps: Seq<TrapView>,
    query: Seq<char>,
    stale_too: bool,
    m: MatchView,
)
    requires
        found(adrs, traps, query, stale_too).contains(m),
    ensures
        found_by_scan(adrs, traps, query, stale_too).contains(m),
{
    let docs = docs_of(adrs, traps);
    let f = |d: Doc|
        if candidate(docs, query_tokens(query), d.entry) {
            entry_match(adrs, traps, query, stale_too, d.entry)
        } else {
            None
        };
    let g = |d: Doc| entry_match(adrs, traps, query, stale_too, d.entry);
    lemma_weaker_filter(docs, f, g, m);
}

/// A stale ADR is found only where stale ones are asked for.
pub proof fn law_stale_only_when_asked(
    adrs: Seq<AdrView>,
    traps: Seq<TrapView>,
    query: Seq<char>,
    m: MatchView,
)
    requires
        found(adrs, traps, query, false).contains(m),
    ensures
        !m.stale,
{
    law_index_finds_no_others(adrs, traps, query, false, m);
    lemma_filtered_from(
        docs_of(adrs, traps),
        |d: Doc| entry_match(adrs, traps, query, false, d.entry),
        m,
    );
}

proof fn lemma_filtered_from<B>(docs: Seq<Doc>, g: spec_fn(Doc) -> Option<B>, m: B)
    requires
        docs.filter_map(g).contains(m),
    ensures
        exists|i: int| 0 <= i < docs.len() && g(#[trigger] docs[i]) == Some(m),
    decreases docs.len(),
{
    reveal(Seq::filter_map);
    if docs.len() > 0 {
        let rest = docs.drop_last();
        let k = choose|k: int| 0 <= k < docs.filter_map(g).len() && docs.filter_map(g)[k] == m;
        if k < rest.filter_map(g).len() {
            assert(rest.filter_map(g)[k] == m);
            lemma_filtered_from(rest, g, m);
            let i = choose|i: int| 0 <= i < rest.len() && g(#[trigger] rest[i]) == Some(m);
            assert(docs[i] == rest[i]);
        } else {
            assert(g(docs[docs.len() - 1]) == Some(m));
        }
    }
}

proof fn lemma_same_filter<B>(
    docs: Seq<Doc>,
    f: spec_fn(Doc) -> Option<B>,
    g: spec_fn(Doc) -> Option<B>,
)
    requires
        forall|i: int| 0 <= i < docs.len() ==> f(#[trigger] docs[i]) == g(docs[i]),
    ensures
        docs.filter_map(f) == docs.filter_map(g),
    decreases docs.len(),
{
    reveal(Seq::filter_map);
    if docs.len() > 0 {
        let rest = docs.drop_last();
        assert forall|i: int| 0 <= i < rest.len() implies f(#[trigger] rest[i]) == g(rest[i]) by {
            assert(rest[i] == docs[i]);
        }
        lemma_same_filter(rest, f, g);
        assert(f(docs[docs.len() - 1]) == g(docs[docs.len() - 1]));
    }
}

proof fn lemma_weaker_filter<B>(
    docs: Seq<Doc>,
    f: spec_fn(Doc) -> Option<B>,
    g: spec_fn(Doc) -> Option<B>,
    m: B,
)
    requires
        forall|i: int|
            0 <= i < docs.len() && f(#[trigger] docs[i]) is Some ==> f(docs[i]) == g(docs[i]),
        docs.filter_map(f).contains(m),
    ensures
        docs.filter_map(g).contains(m),
    decreases docs.len(),
{
    reveal(Seq::filter_map);
    if docs.len() > 0 {
        let rest = docs.drop_last();
        let last = docs[docs.len() - 1];
        let k = choose|k: int| 0 <= k < docs.filter_map(f).len() && docs.filter_map(f)[k] == m;
        if k < rest.filter_map(f).len() {
            assert(rest.filter_map(f)[k] == m);
            assert forall|i: int| 0 <= i < rest.len() && f(#[trigger] rest[i]) is Some implies f(
                rest[i],
            ) == g(rest[i]) by {
                assert(rest[i] == docs[i]);
            }
            lemma_weaker_filter(rest, f, g, m);
            let q = choose|q: int| 0 <= q < rest.filter_map(g).len() && rest.filter_map(g)[q] == m;
            assert(docs.filter_map(g)[q] == m);
        } else {
            assert(f(last) == Some(m));
            assert(docs.filter_map(g)[rest.filter_map(g).len() as int] == m);
        }
    }
}

/// Whether the library knows the lower case of every character of `s`.
pub open spec fn plain(s: Seq<char>) -> bool {
    forall|i: int| 0 <= i < s.len() ==> plainly_cased(#[trigger] s[i])
}

/// Fields and queries are cut alike: a field of plainly cased words that begin and
/// end with a letter or digit has the terms that it would have as a query.
pub proof fn law_field_terms_are_query_tokens(field: Seq<char>)
    requires
        plain(field),
        forall|i: int|
            0 <= i < words(field).len() ==> alphanumeric((#[trigger] words(field)[i])[0])
                && alphanumeric(words(field)[i].last()),
    ensures
        field_terms(field) == query_tokens(field),
{
    lemma_words_lower(field);
    lemma_terms_of_words(words(field));
    assert(lowercase(field) =~= lowered(field));
}

spec fn lowered(s: Seq<char>) -> Seq<char> {
    s.map_values(|c: char| plain_lower(c))
}

proof fn lemma_plain_lower_space(c: char)
    requires
        plainly_cased(c),
    ensures
        is_white_space(plain_lower(c)) == is_white_space(c),
{
}

proof fn lemma_trim_start_lower(s: Seq<char>)
    requires
        plain(s),
    ensures
        trim_start(lowered(s)) == lowered(trim_start(s)),
        plain(trim_start(s)),
    decreases s.len(),
{
    if s.len() > 0 {
        lemma_plain_lower_space(s[0]);
        assert(lowered(s).drop_first() =~= lowered(s.drop_first()));
        if is_white_space(s[0]) {
            lemma_trim_start_lower(s.drop_first());
        }
    }
}

proof fn lemma_word_len_lower(s: Seq<char>)
    requires
        plain(s),
    ensures
        word_len(lowered(s)) == word_len(s),
    decreases s.len(),
{
    if s.len() > 0 {
        lemma_plain_lower_space(s[0]);
        assert(lowered(s).drop_first() =~= lowered(s.drop_first()));
        if !is_white_space(s[0]) {
            lemma_word_len_lower(s.drop_first());
        }
    }
}

proof fn lemma_words_lower(s: Seq<char>)
    requires
        plain(s),
    ensures
        words(lowered(s)) == words(s).map_values(|w: Seq<char>| lowercase(w)),
        forall|i: int|
            0 <= i < words(s).len() ==> (#[trigger] words(s)[i]).len() > 0 && lowercase(
                words(s)[i],
            ).len() > 0,
    decreases s.len(),
{
    lemma_trim_start_lower(s);
    let t = trim_start(s);
    lemma_word_len_lower(t);
    let n = word_len(t);
    if 0 < n <= t.len() && t.len() <= s.len() {
        assert(lowered(t).take(n) =~= lowered(t.take(n)));
        assert(lowered(t).skip(n) =~= lowered(t.skip(n)));
        assert(lowercase(t.take(n)) =~= lowered(t.take(n)));
        lemma_words_lower(t.skip(n));
        let f = |w: Seq<char>| lowercase(w);
        assert(words(s).map_values(f) =~= seq![f(t.take(n))] + words(t.skip(n)).map_values(f));
        assert(words(lowered(s)) =~= words(s).map_values(f));
        assert forall|i: int| 0 <= i < words(s).len() implies (#[trigger] words(s)[i]).len() > 0
            && lowercase(words(s)[i]).len() > 0 by {
            if i > 0 {
                assert(words(s)[i] == words(t.skip(n))[i - 1]);
            }
        }
    } else {
        assert(words(lowered(s)) =~= words(s).map_values(|w: Seq<char>| lowercase(w)));
    }
}

proof fn lemma_terms_of_words(ws: Seq<Seq<char>>)
    requires
        forall|i: int|
            0 <= i < ws.len() ==> alphanumeric((#[trigger] ws[i])[0]) && alphanumeric(
                ws[i].last(),
            ) && ws[i].len() > 0 && lowercase(ws[i]).len() > 0,
    ensures
        ws.filter_map(term_of()) == ws.map_values(|w: Seq<char>| lowercase(w)),
    decreases ws.len(),
{
    reveal(Seq::filter_map);
    if ws.len() > 0 {
        let rest = ws.drop_last();
        assert forall|i: int| 0 <= i < rest.len() implies alphanumeric((#[trigger] rest[i])[0])
            && alphanumeric(rest[i].last()) && rest[i].len() > 0 && lowercase(rest[i]).len() > 0 by {
            assert(rest[i] == ws[i]);
        }
        lemma_terms_of_words(rest);
        let w = ws[ws.len() - 1];
        assert(alphanumeric(w[0]));
        assert(strip_start(w) == w);
        assert(strip_end(w) == w);
        assert(ws.map_values(|w: Seq<char>| lowercase(w)) =~= rest.map_values(
            |w: Seq<char>| lowercase(w),
        ).push(lowercase(w)));
    } else {
        assert(ws.filter_map(term_of()) =~= ws.map_values(|w: Seq<char>| lowercase(w)));
    }
}

} // verus!
