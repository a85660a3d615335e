//! How well a text matches a query: the exact part of scoring.
//!
//! Weights and scores are fractions; what is decided here is which words hit, how
//! many n-grams are shared, and whether a fuzzy match counts.
use vstd::prelude::*;
use vstd::slice::slice_subrange;
use vstd::utf8::encode_utf8;

use crate::foreign::{
    alphanumeric, is_alphanumeric, is_small, is_uppercase, lowercase, small, to_lower, uppercase,
};
use crate::text::{
    append_chars, contains_text, contents, has_prefix, occurs_in, starts_with, string_of, texts,
    to_chars, words, words_of,
};

verus! {

// ── Truncating ─────────────────────────────────────────────────────────────

/// The first `max_len` characters, with an ellipsis if something was cut.
pub open spec fn truncated(s: Seq<char>, max_len: nat) -> Seq<char> {
    if s.len() <= max_len {
        s
    } else {
        s.take(max_len as int) + "…"@
    }
}

/// Truncate a string to `max_len` characters, appending "…" if cut.
pub fn truncate(s: &str, max_len: usize) -> (r: String)
    ensures
        r@ == truncated(s@, max_len as nat),
{
    let chars = to_chars(s);
    if chars.len() <= max_len {
        s.to_owned()
    } else {
        let mut out = String::new();
        append_chars(&mut out, slice_subrange(chars.as_slice(), 0, max_len));
        assert(Seq::<char>::empty() + s@.take(max_len as int) =~= s@.take(max_len as int));
        out.append("…");
        out
    }
}

/// A truncated text is at most one character longer than asked, and begins as the
/// text does.
pub proof fn law_truncated_length(s: Seq<char>, max_len: nat)
    ensures
        truncated(s, max_len).len() <= max_len + 1,
        forall|i: int|
            0 <= i < max_len && i < s.len() ==> #[trigger] truncated(s, max_len)[i] == s[i],
        s.len() <= max_len ==> truncated(s, max_len) == s,
{
    reveal_strlit("…");
}

// ── Words ──────────────────────────────────────────────────────────────────

/// Whether a word begins at position `i`: a letter or digit that follows none, or
/// a capital that follows a small letter.
pub open spec fn word_starts(text: Seq<char>, i: int) -> bool {
    &&& 0 <= i < text.len()
    &&& alphanumeric(text[i])
    &&& i == 0 || !alphanumeric(text[i - 1]) || small(text[i - 1]) && uppercase(text[i])
}

/// The end of the run of letters and digits from position `i` on.
pub open spec fn run_end(text: Seq<char>, i: int) -> int
    decreases text.len() - i,
{
    if 0 <= i < text.len() && alphanumeric(text[i]) {
        run_end(text, i + 1)
    } else {
        i
    }
}

/// Whether the run that begins at `i` begins with `word`, case aside.
pub open spec fn word_at(text: Seq<char>, i: int, word: Seq<char>) -> bool {
    has_prefix(lowercase(text.subrange(i, run_end(text, i))), lowercase(word))
}

/// Whether a word of `text` begins with `word`, case aside. Words are runs of
/// letters and digits and the camelCase parts of such runs.
pub open spec fn has_word(text: Seq<char>, word: Seq<char>) -> bool {
    word.len() == 0 || exists|i: int|
        #[trigger] word_starts(text, i) && word_at(text, i, word)
}

/// Check if a word of `text` begins with `word`, case-insensitive. Splits on
/// non-alphanumeric boundaries, handling snake_case, kebab-case, and camelCase
/// sub-words (e.g. "LoginScreen" splits into "Login" and "Screen").
pub fn contains_word(text: &str, word: &str) -> (r: bool)
    ensures
        r == has_word(text@, word@),
{
    if word.is_empty() {
        return true;
    }
    let wanted = to_lower(word);
    let w = to_chars(wanted.as_str());
    let t = to_chars(text);
    let mut i: usize = 0;
    while i < t.len()
        invariant
            i <= t@.len(),
            t@ == text@,
            w@ == lowercase(word@),
            word@.len() > 0,
            forall|j: int| 0 <= j < i && #[trigger] word_starts(text@, j) ==> !word_at(
                text@,
                j,
                word@,
            ),
        decreases t@.len() - i,
    {
        if starts_word(t.as_slice(), i) {
            let end = find_run_end(t.as_slice(), i);
            let run = string_of(slice_subrange(t.as_slice(), i, end));
            let lower = to_lower(run.as_str());
            let chars = to_chars(lower.as_str());
            if starts_with(chars.as_slice(), w.as_slice()) {
                assert(word_starts(text@, i as int) && word_at(text@, i as int, word@));
                return true;
            }
        }
        i = i + 1;
    }
    false
}

fn starts_word(t: &[char], i: usize) -> (r: bool)
    requires
        i < t@.len(),
    ensures
        r == word_starts(t@, i as int),
{
    if !is_alphanumeric(t[i]) {
        return false;
    }
    if i == 0 {
        return true;
    }
    !is_alphanumeric(t[i - 1]) || is_small(t[i - 1]) && is_uppercase(t[i])
}

fn find_run_end(t: &[char], i: usize) -> (r: usize)
    requires
        i <= t@.len(),
    ensures
        r == run_end(t@, i as int),
        i <= r <= t@.len(),
{
    let mut k: usize = i;
    while k < t.len() && is_alphanumeric(t[k])
        invariant
            i <= k <= t@.len(),
            run_end(t@, i as int) == run_end(t@, k as int),
        ensures
            i <= k <= t@.len(),
            run_end(t@, i as int) == k,
        decreases t@.len() - k,
    {
        k = k + 1;
    }
    k
}

/// Case does not matter to word matching, of the word that is looked for.
pub proof fn law_word_case_ignored(text: Seq<char>, a: Seq<char>, b: Seq<char>)
    requires
        a.len() > 0,
        b.len() > 0,
        lowercase(a) == lowercase(b),
    ensures
        has_word(text, a) == has_word(text, b),
{
    if has_word(text, a) {
        let i = choose|i: int| #[trigger] word_starts(text, i) && word_at(text, i, a);
        assert(word_starts(text, i) && word_at(text, i, b));
    }
    if has_word(text, b) {
        let i = choose|i: int| #[trigger] word_starts(text, i) && word_at(text, i, b);
        assert(word_starts(text, i) && word_at(text, i, a));
    }
}

// ── N-grams ────────────────────────────────────────────────────────────────

/// The byte windows of width `n`.
pub open spec fn ngrams(s: Seq<u8>, n: int) -> Set<Seq<u8>> {
    Set::new(|w: Seq<u8>| exists|i: int| 0 <= i <= s.len() - n && w == #[trigger] s.subrange(i, i + n))
}

/// How much two texts share.
#[derive(Debug, Clone, Copy, PartialEq, Eq, Structural)]
pub enum Overlap {
    /// One of them is empty.
    Nothing,
    /// One of them is shorter than an n-gram; whether one contains the other,
    /// case aside.
    Short { related: bool },
    /// The n-grams that they share, and the sum of the numbers of n-grams of each.
    Grams { shared: usize, total: u128 },
}

/// Whether `r` is how much the texts `a` and `b` share by n-grams of their bytes.
pub open spec fn overlap_of(a: Seq<char>, b: Seq<char>, n: int, r: Overlap) -> bool {
    let x = encode_utf8(a);
    let y = encode_utf8(b);
    if a.len() == 0 || b.len() == 0 {
        r == Overlap::Nothing
    } else if x.len() < n || y.len() < n {
        r == (Overlap::Short {
            related: occurs_in(lowercase(b), lowercase(a)) || occurs_in(lowercase(a), lowercase(b)),
        })
    } else {
        r matches Overlap::Grams { shared, total } && shared == ngrams(x, n).intersect(
            ngrams(y, n),
        ).len() && total == ngrams(x, n).len() + ngrams(y, n).len()
    }
}

fn same_window(s: &[u8], i: usize, t: &[u8], j: usize, n: usize) -> (r: bool)
    requires
        i + n <= s@.len(),
        j + n <= t@.len(),
    ensures
        r == (s@.subrange(i as int, i + n) == t@.subrange(j as int, j + n)),
{
    let s_len: usize = s.len();
    let t_len: usize = t.len();
    let mut k: usize = 0;
    assert(s@.subrange(i as int, i as int) =~= t@.subrange(j as int, j as int));
    while k < n
        invariant
            k <= n,
            s_len == s@.len(),
            t_len == t@.len(),
            i + n <= s@.len(),
            j + n <= t@.len(),
            s@.subrange(i as int, i + k) == t@.subrange(j as int, j + k),
        decreases n - k,
    {
        if s[i + k] != t[j + k] {
            assert(s@.subrange(i as int, i + n)[k as int] != t@.subrange(j as int, j + n)[k as int]);
            return false;
        }
        assert(s@.subrange(i as int, i + k + 1) =~= s@.subrange(i as int, i + k).push(
            s@[i + k],
        ));
        assert(t@.subrange(j as int, j + k + 1) =~= t@.subrange(j as int, j + k).push(
            t@[j + k],
        ));
        k = k + 1;
    }
    true
}

/// The windows of `s` that begin at the positions `starts`.
spec fn windows_at(s: Seq<u8>, starts: Seq<usize>, n: int) -> Seq<Seq<u8>> {
    starts.map_values(|i: usize| s.subrange(i as int, i + n))
}

/// Whether `starts` gives each of the windows that begin before `k` once.
spec fn distinct_starts(s: Seq<u8>, starts: Seq<usize>, n: int, k: int) -> bool {
    &&& forall|q: int| 0 <= q < starts.len() ==> (#[trigger] starts[q]) < k && starts[q] + n
        <= s.len()
    &&& windows_at(s, starts, n).no_duplicates()
    &&& forall|i: int|
        0 <= i < k ==> windows_at(s, starts, n).contains(#[trigger] s.subrange(i, i + n))
}

proof fn lemma_distinct_count(s: Seq<u8>, starts: Seq<usize>, n: int)
    requires
        0 <= n <= s.len(),
        distinct_starts(s, starts, n, s.len() - n + 1),
    ensures
        ngrams(s, n) == windows_at(s, starts, n).to_set(),
        ngrams(s, n).finite(),
        ngrams(s, n).len() == starts.len(),
{
    let ws = windows_at(s, starts, n);
    ws.unique_seq_to_set();
    assert forall|w: Seq<u8>| ngrams(s, n).contains(w) <==> ws.to_set().contains(w) by {
        if ngrams(s, n).contains(w) {
            let i = choose|i: int| 0 <= i <= s.len() - n && w == #[trigger] s.subrange(i, i + n);
            assert(ws.contains(s.subrange(i, i + n)));
        }
        if ws.to_set().contains(w) {
            let q = choose|q: int| 0 <= q < ws.len() && ws[q] == w;
            let i = starts[q] as int;
            assert(w == s.subrange(i, i + n));
        }
    }
    assert(ngrams(s, n) =~= ws.to_set());
}

/// The position of each different window, up to `cap` of them; `None` where there
/// are more.
fn distinct_windows(s: &[u8], n: usize, cap: usize) -> (r: Option<Vec<usize>>)
    requires
        0 < n <= s@.len(),
    ensures
        match r {
            Some(starts) => distinct_starts(s@, starts@, n as int, s@.len() - n + 1)
                && ngrams(s@, n as int).len() == starts@.len() && starts@.len() <= cap
                && ngrams(s@, n as int) == windows_at(s@, starts@, n as int).to_set(),
            None => ngrams(s@, n as int).len() > cap,
        },
        ngrams(s@, n as int).finite(),
{
    let len: usize = s.len();
    let mut starts: Vec<usize> = Vec::new();
    let mut k: usize = 0;
    let mut full: bool = false;
    while k < len - n + 1 && !full
        invariant
            0 < n <= len,
            len == s@.len(),
            k <= len - n + 1,
            distinct_starts(s@, starts@, n as int, k as int),
            starts@.len() <= k,
            full ==> starts@.len() > cap,
            !full ==> starts@.len() <= cap,
        ensures
            k <= len - n + 1,
            distinct_starts(s@, starts@, n as int, k as int),
            full ==> starts@.len() > cap,
            !full ==> k == len - n + 1 && starts@.len() <= cap,
        decreases len - n + 1 - k,
    {
        let mut seen: bool = false;
        let mut q: usize = 0;
        while q < starts.len() && !seen
            invariant
                0 < n <= len,
                len == s@.len(),
                k < len - n + 1,
                q <= starts@.len(),
                distinct_starts(s@, starts@, n as int, k as int),
                seen ==> windows_at(s@, starts@, n as int).contains(
                    s@.subrange(k as int, k + n),
                ),
                !seen ==> forall|j: int|
                    0 <= j < q ==> s@.subrange(#[trigger] starts@[j] as int, starts@[j] + n)
                        != s@.subrange(k as int, k + n),
            ensures
                seen ==> windows_at(s@, starts@, n as int).contains(
                    s@.subrange(k as int, k + n),
                ),
                !seen ==> forall|j: int|
                    0 <= j < starts@.len() ==> s@.subrange(
                        #[trigger] starts@[j] as int,
                        starts@[j] + n,
                    ) != s@.subrange(k as int, k + n),
            decreases starts@.len() - q,
        {
            let at: usize = starts[q];
            assert(starts@[q as int] + n <= s@.len());
            if same_window(s, at, s, k, n) {
                assert(windows_at(s@, starts@, n as int)[q as int] == s@.subrange(
                    k as int,
                    k + n,
                ));
                seen = true;
            }
            q = q + 1;
        }
        if !seen {
            let ghost before = starts@;
            starts.push(k);
            proof {
                lemma_distinct_push(s@, before, n as int, k as int, k);
            }
            full = starts.len() > cap;
        } else {
            proof {
                assert forall|i: int| 0 <= i < k + 1 implies windows_at(
                    s@,
                    starts@,
                    n as int,
                ).contains(#[trigger] s@.subrange(i, i + n)) by {}
            }
        }
        k = k + 1;
    }
    if full {
        proof {
            lemma_distinct_finite(s@, n as int);
            lemma_distinct_part(s@, starts@, n as int, k as int);
        }
        None
    } else {
        proof {
            lemma_distinct_count(s@, starts@, n as int);
        }
        Some(starts)
    }
}

proof fn lemma_distinct_push(s: Seq<u8>, starts: Seq<usize>, n: int, k: int, at: usize)
    requires
        distinct_starts(s, starts, n, k),
        at == k,
        0 <= n,
        k + n <= s.len(),
        forall|j: int|
            0 <= j < starts.len() ==> s.subrange(#[trigger] starts[j] as int, starts[j] + n)
                != s.subrange(k, k + n),
    ensures
        distinct_starts(s, starts.push(at), n, k + 1),
{
    let next = starts.push(at);
    let ws = windows_at(s, starts, n);
    let vs = windows_at(s, next, n);
    assert(vs =~= ws.push(s.subrange(k, k + n)));
    assert forall|i: int, j: int| 0 <= i < j < vs.len() implies vs[i] != vs[j] by {
        if j < ws.len() {
            assert(ws[i] != ws[j]);
        } else {
            assert(ws[i] == s.subrange(starts[i] as int, starts[i] + n));
        }
    }
    assert forall|i: int| 0 <= i < k + 1 implies vs.contains(#[trigger] s.subrange(i, i + n)) by {
        if i < k {
            assert(ws.contains(s.subrange(i, i + n)));
            let q = choose|q: int| 0 <= q < ws.len() && ws[q] == s.subrange(i, i + n);
            assert(vs[q] == s.subrange(i, i + n));
        } else {
            assert(vs[ws.len() as int] == s.subrange(k, k + n));
        }
    }
}

/// There are finitely many windows.
proof fn lemma_distinct_finite(s: Seq<u8>, n: int)
    requires
        0 <= n <= s.len(),
    ensures
        ngrams(s, n).finite(),
{
    let all = Seq::new((s.len() - n + 1) as nat, |i: int| s.subrange(i, i + n));
    assert forall|w: Seq<u8>| ngrams(s, n).contains(w) <==> all.to_set().contains(w) by {
        if ngrams(s, n).contains(w) {
            let i = choose|i: int| 0 <= i <= s.len() - n && w == #[trigger] s.subrange(i, i + n);
            assert(all[i] == w);
        }
        if all.to_set().contains(w) {
            let i = choose|i: int| 0 <= i < all.len() && all[i] == w;
            assert(w == s.subrange(i, i + n));
        }
    }
    assert(ngrams(s, n) =~= all.to_set());
    vstd::seq_lib::seq_to_set_is_finite(all);
}

/// The windows found so far are some of all.
proof fn lemma_distinct_part(s: Seq<u8>, starts: Seq<usize>, n: int, k: int)
    requires
        0 <= n,
        k + n <= s.len() + 1,
        distinct_starts(s, starts, n, k),
        ngrams(s, n).finite(),
    ensures
        starts.len() <= ngrams(s, n).len(),
{
    let ws = windows_at(s, starts, n);
    ws.unique_seq_to_set();
    assert(ws.to_set().subset_of(ngrams(s, n))) by {
        assert forall|w: Seq<u8>| ws.to_set().contains(w) implies ngrams(s, n).contains(w) by {
            let q = choose|q: int| 0 <= q < ws.len() && ws[q] == w;
            let i = starts[q] as int;
            assert(w == s.subrange(i, i + n));
        }
    }
    vstd::set_lib::lemma_len_subset(ws.to_set(), ngrams(s, n));
}

/// How many of the windows of `s` that `starts` gives occur in `t`.
fn count_shared(s: &[u8], starts: &Vec<usize>, t: &[u8], n: usize) -> (r: usize)
    requires
        0 < n <= s@.len(),
        n <= t@.len(),
        distinct_starts(s@, starts@, n as int, s@.len() - n + 1),
    ensures
        r == ngrams(s@, n as int).intersect(ngrams(t@, n as int)).len(),
        r <= starts@.len(),
{
    let len: usize = t.len();
    let ghost grams = ngrams(t@, n as int);
    let mut found: usize = 0;
    let mut q: usize = 0;
    proof {
        lemma_distinct_count(s@, starts@, n as int);
        let none = windows_at(s@, starts@.take(0), n as int).to_set();
        assert(none.intersect(grams) =~= Set::<Seq<u8>>::empty());
    }
    while q < starts.len()
        invariant
            0 < n <= s@.len(),
            n <= len,
            len == t@.len(),
            q <= starts@.len(),
            found <= q,
            grams == ngrams(t@, n as int),
            distinct_starts(s@, starts@, n as int, s@.len() - n + 1),
            windows_at(s@, starts@.take(q as int), n as int).to_set().intersect(grams).finite(),
            found == windows_at(s@, starts@.take(q as int), n as int).to_set().intersect(
                grams,
            ).len(),
        decreases starts@.len() - q,
    {
        let at: usize = starts[q];
        assert(starts@[q as int] + n <= s@.len());
        let ghost w = s@.subrange(at as int, at + n);
        let mut hit: bool = false;
        let mut k: usize = 0;
        while k < len - n + 1 && !hit
            invariant
                0 < n <= len,
                len == t@.len(),
                at + n <= s@.len(),
                w == s@.subrange(at as int, at + n),
                grams == ngrams(t@, n as int),
                k <= len - n + 1,
                hit ==> grams.contains(w),
                !hit ==> forall|j: int| 0 <= j < k ==> w != #[trigger] t@.subrange(j, j + n),
            ensures
                hit == grams.contains(w),
            decreases len - n + 1 - k,
        {
            if same_window(s, at, t, k, n) {
                assert(w == t@.subrange(k as int, k + n));
                hit = true;
            }
            k = k + 1;
        }
        proof {
            let ws = windows_at(s@, starts@, n as int);
            let a = windows_at(s@, starts@.take(q as int), n as int);
            let b = windows_at(s@, starts@.take(q + 1), n as int);
            assert(b =~= a.push(w));
            assert(!a.contains(w)) by {
                if a.contains(w) {
                    let i = choose|i: int| 0 <= i < a.len() && a[i] == w;
                    assert(ws[i] == a[i] && ws[q as int] == w);
                }
            }
            assert(b.to_set() =~= a.to_set().insert(w)) by {
                assert forall|x: Seq<u8>| b.to_set().contains(x) <==> a.to_set().insert(
                    w,
                ).contains(x) by {
                    if b.contains(x) {
                        let i = choose|i: int| 0 <= i < b.len() && b[i] == x;
                        if i < a.len() {
                            assert(a[i] == x);
                        }
                    }
                    if a.contains(x) {
                        let i = choose|i: int| 0 <= i < a.len() && a[i] == x;
                        assert(b[i] == x);
                    }
                    assert(b[a.len() as int] == w);
                }
            }
            let sa = a.to_set().intersect(grams);
            let sb = b.to_set().intersect(grams);
            if hit {
                assert(sb =~= sa.insert(w));
                assert(!sa.contains(w));
            } else {
                assert(sb =~= sa);
            }
        }
        if hit {
            found = found + 1;
        }
        q = q + 1;
    }
    assert(starts@.take(q as int) =~= starts@);
    found
}

/// How much two texts share by byte n-grams.
pub fn ngram_overlap(a: &str, b: &str, n: usize) -> (r: Overlap)
    requires
        n > 0,
    ensures
        overlap_of(a@, b@, n as int, r),
{
    if a.is_empty() || b.is_empty() {
        return Overlap::Nothing;
    }
    let x = a.as_bytes();
    let y = b.as_bytes();
    if x.len() < n || y.len() < n {
        return Overlap::Short { related: one_contains_other(a, b) };
    }
    let nx: usize = x.len();
    let ny: usize = y.len();
    let wx = distinct_windows(x, n, nx);
    let wy = distinct_windows(y, n, ny);
    proof {
        lemma_at_most_len(x@, n as int);
        lemma_at_most_len(y@, n as int);
    }
    match (wx, wy) {
        (Some(p), Some(q)) => {
            let shared = count_shared(x, &p, y, n);
            Overlap::Grams { shared, total: p.len() as u128 + q.len() as u128 }
        },
        _ => Overlap::Nothing,
    }
}

/// There are at most as many windows as bytes.
proof fn lemma_at_most_len(s: Seq<u8>, n: int)
    requires
        0 < n <= s.len(),
    ensures
        ngrams(s, n).len() <= s.len(),
{
    let all = Seq::new((s.len() - n + 1) as nat, |i: int| s.subrange(i, i + n));
    assert forall|w: Seq<u8>| ngrams(s, n).contains(w) <==> all.to_set().contains(w) by {
        if ngrams(s, n).contains(w) {
            let i = choose|i: int| 0 <= i <= s.len() - n && w == #[trigger] s.subrange(i, i + n);
            assert(all[i] == w);
        }
        if all.to_set().contains(w) {
            let i = choose|i: int| 0 <= i < all.len() && all[i] == w;
            assert(w == s.subrange(i, i + n));
        }
    }
    assert(ngrams(s, n) =~= all.to_set());
    vstd::seq_lib::seq_to_set_is_finite(all);
    all.lemma_cardinality_of_set();
}

fn one_contains_other(a: &str, b: &str) -> (r: bool)
    ensures
        r == (occurs_in(lowercase(b@), lowercase(a@)) || occurs_in(lowercase(a@), lowercase(b@))),
{
    let la = to_lower(a);
    let lb = to_lower(b);
    let ca = to_chars(la.as_str());
    let cb = to_chars(lb.as_str());
    contains_text(ca.as_slice(), cb.as_slice()) || contains_text(cb.as_slice(), ca.as_slice())
}

/// The share of n-grams, twice `shared` by `total`, lies between nothing and one.
pub proof fn law_share_at_most_one(a: Seq<char>, b: Seq<char>, n: int, r: Overlap)
    requires
        n > 0,
        overlap_of(a, b, n, r),
    ensures
        r matches Overlap::Grams { shared, total } ==> 0 <= 2 * shared <= total && total > 0,
{
    let x = encode_utf8(a);
    let y = encode_utf8(b);
    if r is Grams {
        lemma_distinct_finite(x, n);
        lemma_distinct_finite(y, n);
        let both = ngrams(x, n).intersect(ngrams(y, n));
        vstd::set_lib::lemma_len_subset(both, ngrams(x, n));
        vstd::set_lib::lemma_len_subset(both, ngrams(y, n));
        assert(ngrams(x, n).contains(x.subrange(0, 0 + n)));
        if ngrams(x, n).len() == 0 {
            assert(ngrams(x, n) =~= Set::<Seq<u8>>::empty());
        }
    }
}

/// Two texts share as much as the other way round.
pub proof fn law_overlap_symmetric(a: Seq<char>, b: Seq<char>, n: int, r: Overlap)
    ensures
        overlap_of(a, b, n, r) == overlap_of(b, a, n, r),
{
    let x = ngrams(encode_utf8(a), n);
    let y = ngrams(encode_utf8(b), n);
    assert(x.intersect(y) =~= y.intersect(x));
}

/// A text of at least one n-gram shares all of them with itself.
pub proof fn law_overlap_of_same(a: Seq<char>, n: int, r: Overlap)
    requires
        n > 0,
        encode_utf8(a).len() >= n,
        overlap_of(a, a, n, r),
        a.len() > 0,
    ensures
        r matches Overlap::Grams { shared, total } && 2 * shared == total,
{
    let x = ngrams(encode_utf8(a), n);
    assert(x.intersect(x) =~= x);
}

// ── Matching a query ───────────────────────────────────────────────────────

/// The width of the n-grams that fuzzy matching goes by.
pub const GRAM: usize = 3;

/// How a token of a query meets a field.
#[derive(Debug, Clone, Copy, PartialEq, Eq, Structural)]
pub enum TokenHit {
    /// A word of the field begins with the token.
    Exact,
    /// Token and field share so many n-grams, `total` being the sum of the numbers
    /// of n-grams of each: the share is twice `shared` by `total`, over a quarter.
    Fuzzy { shared: usize, total: u128 },
    /// One of the two is shorter than an n-gram, and one contains the other; this
    /// counts as a share of a half.
    Near,
    Miss,
}

pub enum TokenHitView {
    Exact,
    Fuzzy { shared: int, total: int },
    Near,
    Miss,
}

impl View for TokenHit {
    type V = TokenHitView;

    open spec fn view(&self) -> TokenHitView {
        match *self {
            TokenHit::Exact => TokenHitView::Exact,
            TokenHit::Fuzzy { shared, total } => TokenHitView::Fuzzy {
                shared: shared as int,
                total: total as int,
            },
            TokenHit::Near => TokenHitView::Near,
            TokenHit::Miss => TokenHitView::Miss,
        }
    }
}

/// How `token` meets `field`. A word that begins with the token decides; else the
/// share of n-grams does, where it is over a quarter.
pub open spec fn hit_of(token: Seq<char>, field: Seq<char>) -> TokenHitView {
    let x = ngrams(encode_utf8(token), GRAM as int);
    let y = ngrams(encode_utf8(field), GRAM as int);
    let shared = x.intersect(y).len() as int;
    let total = x.len() as int + y.len() as int;
    if has_word(field, token) {
        TokenHitView::Exact
    } else if token.len() == 0 || field.len() == 0 {
        TokenHitView::Miss
    } else if encode_utf8(token).len() < GRAM || encode_utf8(field).len() < GRAM {
        if occurs_in(lowercase(field), lowercase(token)) || occurs_in(
            lowercase(token),
            lowercase(field),
        ) {
            TokenHitView::Near
        } else {
            TokenHitView::Miss
        }
    } else if 8 * shared > total {
        TokenHitView::Fuzzy { shared, total }
    } else {
        TokenHitView::Miss
    }
}

/// How `token` meets `field`.
pub fn token_hit(token: &str, field: &str) -> (r: TokenHit)
    ensures
        r@ == hit_of(token@, field@),
{
    if contains_word(field, token) {
        return TokenHit::Exact;
    }
    if token.is_empty() || field.is_empty() {
        return TokenHit::Miss;
    }
    let x = token.as_bytes();
    let y = field.as_bytes();
    if x.len() < GRAM || y.len() < GRAM {
        return if one_contains_other(token, field) {
            TokenHit::Near
        } else {
            TokenHit::Miss
        };
    }
    let cap: usize = x.len();
    proof {
        lemma_at_most_len(x@, GRAM as int);
        lemma_at_most_len(y@, GRAM as int);
        lemma_distinct_finite(x@, GRAM as int);
        let grams = ngrams(x@, GRAM as int);
        let both = grams.intersect(ngrams(y@, GRAM as int));
        vstd::set_lib::lemma_len_subset(both, grams);
    }
    let starts = distinct_windows(x, GRAM, cap);
    match starts {
        None => TokenHit::Miss,
        Some(starts) => {
            let own: usize = starts.len();
            // A field with over seven times the n-grams of the token is too wide
            // for their share to count.
            let wide: usize = if own <= usize::MAX / 7 {
                own * 7
            } else {
                usize::MAX
            };
            match distinct_windows(y, GRAM, wide) {
                None => TokenHit::Miss,
                Some(others) => {
                    let shared = count_shared(x, &starts, y, GRAM);
                    let total: u128 = own as u128 + others.len() as u128;
                    if 8 * (shared as u128) > total {
                        TokenHit::Fuzzy { shared, total }
                    } else {
                        TokenHit::Miss
                    }
                },
            }
        },
    }
}

/// How a query meets a field of the given weight: each of its tokens, and whether
/// the field holds the whole query.
pub struct FieldHits {
    pub weight: u32,
    pub hits: Vec<TokenHit>,
    pub phrase: bool,
}

#[verifier::ext_equal]
pub struct FieldHitsView {
    pub weight: int,
    pub hits: Seq<TokenHitView>,
    pub phrase: bool,
}

pub open spec fn hit_views(hits: Seq<TokenHit>) -> Seq<TokenHitView> {
    hits.map_values(|h: TokenHit| h@)
}

impl View for FieldHits {
    type V = FieldHitsView;

    open spec fn view(&self) -> FieldHitsView {
        FieldHitsView {
            weight: self.weight as int,
            hits: hit_views(self.hits@),
            phrase: self.phrase,
        }
    }
}

/// The tokens of a query: its words, in lower case.
pub open spec fn query_tokens(query: Seq<char>) -> Seq<Seq<char>> {
    words(lowercase(query))
}

/// How `query` meets `field`. The field is taken in lower case; a query of two or
/// more tokens that stands in it as it is counts as a phrase.
pub open spec fn field_hits_of(query: Seq<char>, weight: int, field: Seq<char>) -> FieldHitsView {
    FieldHitsView {
        weight,
        hits: query_tokens(query).map_values(|t: Seq<char>| hit_of(t, lowercase(field))),
        phrase: query_tokens(query).len() >= 2 && occurs_in(lowercase(query), lowercase(field)),
    }
}

/// The tokens of a query, and the query itself in lower case.
pub struct Query {
    pub lower: String,
    pub tokens: Vec<String>,
}

impl Query {
    pub open spec fn is_of(&self, query: Seq<char>) -> bool {
        &&& self.lower@ == lowercase(query)
        &&& texts(self.tokens@) == query_tokens(query)
    }

    pub fn new(query: &str) -> (r: Self)
        ensures
            r.is_of(query@),
    {
        let lower = to_lower(query);
        let chars = to_chars(lower.as_str());
        let parts = words_of(chars.as_slice());
        let mut tokens: Vec<String> = Vec::new();
        let mut i: usize = 0;
        while i < parts.len()
            invariant
                i <= parts@.len(),
                texts(tokens@) == contents(parts@).take(i as int),
            decreases parts@.len() - i,
        {
            let token = string_of(parts[i]);
            let ghost before = tokens@;
            tokens.push(token);
            proof {
                assert(texts(tokens@) =~= texts(before).push(token@));
                assert(contents(parts@).take(i + 1) =~= contents(parts@).take(i as int).push(
                    contents(parts@)[i as int],
                ));
            }
            i = i + 1;
        }
        assert(contents(parts@).take(i as int) =~= contents(parts@));
        Query { lower, tokens }
    }

    /// How the query meets one field.
    pub fn field_hits(&self, weight: u32, field: &str) -> (r: FieldHits)
        ensures
            forall|query: Seq<char>| #[trigger]
                self.is_of(query) ==> r@ == field_hits_of(query, weight as int, field@),
    {
        let lower = to_lower(field);
        let mut hits: Vec<TokenHit> = Vec::new();
        let mut i: usize = 0;
        while i < self.tokens.len()
            invariant
                i <= self.tokens@.len(),
                lower@ == lowercase(field@),
                hit_views(hits@) == texts(self.tokens@).take(i as int).map_values(
                    |t: Seq<char>| hit_of(t, lower@),
                ),
            decreases self.tokens@.len() - i,
        {
            let hit = token_hit(self.tokens[i].as_str(), lower.as_str());
            let ghost before = hits@;
            hits.push(hit);
            proof {
                let all = texts(self.tokens@);
                assert(all.take(i + 1) =~= all.take(i as int).push(all[i as int]));
                assert(hit_views(hits@) =~= hit_views(before).push(hit@));
                assert(all.take(i + 1).map_values(|t: Seq<char>| hit_of(t, lower@))
                    =~= all.take(i as int).map_values(|t: Seq<char>| hit_of(t, lower@)).push(
                    hit_of(all[i as int], lower@),
                ));
            }
            i = i + 1;
        }
        let chars = to_chars(lower.as_str());
        let whole = to_chars(self.lower.as_str());
        assert(texts(self.tokens@).len() == self.tokens@.len());
        let phrase = self.tokens.len() >= 2 && contains_text(chars.as_slice(), whole.as_slice());
        let r = FieldHits { weight, hits, phrase };
        proof {
            assert(texts(self.tokens@).take(i as int) =~= texts(self.tokens@));
            assert forall|query: Seq<char>| #[trigger] self.is_of(query) implies r@ == field_hits_of(
                query,
                weight as int,
                field@,
            ) by {
                assert(r@.hits =~= field_hits_of(query, weight as int, field@).hits);
            }
        }
        r
    }
}

/// Whether anything of the query meets the field.
pub open spec fn meets(f: FieldHitsView) -> bool {
    f.phrase || exists|i: int| 0 <= i < f.hits.len() && !(#[trigger] f.hits[i] is Miss)
}

impl FieldHits {
    /// Whether the field adds to the score.
    pub fn any(&self) -> (r: bool)
        ensures
            r == meets(self@),
    {
        if self.phrase {
            return true;
        }
        let mut i: usize = 0;
        while i < self.hits.len()
            invariant
                i <= self.hits@.len(),
                !self.phrase,
                forall|j: int| 0 <= j < i ==> #[trigger] self@.hits[j] is Miss,
            decreases self.hits@.len() - i,
        {
            assert(self@.hits[i as int] == self.hits@[i as int]@);
            if self.hits[i] != TokenHit::Miss {
                return true;
            }
            i = i + 1;
        }
        false
    }
}

/// The share of a fuzzy hit, twice `shared` by `total`, is over a quarter and at
/// most one.
pub proof fn law_fuzzy_share_bounded(token: Seq<char>, field: Seq<char>)
    ensures
        hit_of(token, field) matches TokenHitView::Fuzzy { shared, total } ==> total > 0
            && total < 8 * shared && 2 * shared <= total,
{
    let x = encode_utf8(token);
    let y = encode_utf8(field);
    if hit_of(token, field) is Fuzzy {
        let n = GRAM as int;
        lemma_distinct_finite(x, n);
        lemma_distinct_finite(y, n);
        let both = ngrams(x, n).intersect(ngrams(y, n));
        vstd::set_lib::lemma_len_subset(both, ngrams(x, n));
        vstd::set_lib::lemma_len_subset(both, ngrams(y, n));
    }
}

} // verus!
