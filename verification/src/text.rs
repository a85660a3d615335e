//! Text as sequences of characters: trimming, prefixes, lines and splitting.
//!
//! The specification functions say what each operation means on a
//! `Seq<char>`; the executable functions work on character slices and are
//! proved against them.
use vstd::prelude::*;
use vstd::slice::slice_subrange;

verus! {

// ── What the operations mean ───────────────────────────────────────────────

/// The characters of the Unicode `White_Space` property.
pub open spec fn is_white_space(c: char) -> bool {
    let n = c as u32;
    ||| 0x9 <= n <= 0xd
    ||| n == 0x20
    ||| n == 0x85
    ||| n == 0xa0
    ||| n == 0x1680
    ||| 0x2000 <= n <= 0x200a
    ||| n == 0x2028
    ||| n == 0x2029
    ||| n == 0x202f
    ||| n == 0x205f
    ||| n == 0x3000
}

/// `s` without its leading white space.
pub open spec fn trim_start(s: Seq<char>) -> Seq<char>
    decreases s.len(),
{
    if s.len() > 0 && is_white_space(s[0]) {
        trim_start(s.drop_first())
    } else {
        s
    }
}

/// `s` without its trailing white space.
pub open spec fn trim_end(s: Seq<char>) -> Seq<char>
    decreases s.len(),
{
    if s.len() > 0 && is_white_space(s.last()) {
        trim_end(s.drop_last())
    } else {
        s
    }
}

/// `s` without white space at either end.
pub open spec fn trim(s: Seq<char>) -> Seq<char> {
    trim_end(trim_start(s))
}

/// Whether `s` consists of white space alone.
pub open spec fn is_blank(s: Seq<char>) -> bool {
    forall|i: int| 0 <= i < s.len() ==> is_white_space(#[trigger] s[i])
}

/// Whether `p` stands at the start of `s`.
pub open spec fn has_prefix(s: Seq<char>, p: Seq<char>) -> bool {
    p.len() <= s.len() && s.take(p.len() as int) == p
}

/// `s` without leading copies of `c`.
pub open spec fn trim_start_char(s: Seq<char>, c: char) -> Seq<char>
    decreases s.len(),
{
    if s.len() > 0 && s[0] == c {
        trim_start_char(s.drop_first(), c)
    } else {
        s
    }
}

/// The position of the first `c` in `s`, or the length of `s` where there is none.
pub open spec fn index_of(s: Seq<char>, c: char) -> int
    decreases s.len(),
{
    if s.len() == 0 || s[0] == c {
        0
    } else {
        1 + index_of(s.drop_first(), c)
    }
}

/// The position of the first occurrence of `p` in `s`, if there is one.
pub open spec fn find(s: Seq<char>, p: Seq<char>) -> Option<int>
    decreases s.len(),
{
    if has_prefix(s, p) {
        Some(0int)
    } else if s.len() == 0 {
        None
    } else {
        match find(s.drop_first(), p) {
            Some(i) => Some(i + 1),
            None => None,
        }
    }
}

/// Whether `p` occurs in `s`.
pub open spec fn occurs_in(p: Seq<char>, s: Seq<char>) -> bool {
    exists|i: int| 0 <= i <= s.len() && #[trigger] has_prefix(s.skip(i), p)
}

/// The pieces of `s` between successive occurrences of the non-empty `p`.
pub open spec fn split(s: Seq<char>, p: Seq<char>) -> Seq<Seq<char>>
    decreases s.len(),
{
    match find(s, p) {
        Some(i) => if p.len() > 0 && 0 <= i && i + p.len() <= s.len() {
            seq![s.take(i)] + split(s.skip(i + p.len()), p)
        } else {
            seq![s]
        },
        None => seq![s],
    }
}

/// A line without the carriage return of its `\r\n` ending.
pub open spec fn chomp(l: Seq<char>) -> Seq<char> {
    if l.len() > 0 && l.last() == '\r' {
        l.drop_last()
    } else {
        l
    }
}

/// The lines of `s`: each ends at a `\n` or `\r\n`, which does not belong to
/// it; the ending of the last line is optional.
pub open spec fn lines(s: Seq<char>) -> Seq<Seq<char>>
    decreases s.len(),
{
    if s.len() == 0 {
        Seq::empty()
    } else {
        let i = index_of(s, '\n');
        if 0 <= i < s.len() {
            seq![chomp(s.take(i))] + lines(s.skip(i + 1))
        } else {
            seq![s]
        }
    }
}

/// `parts` one after the other, with `sep` between neighbours.
pub open spec fn join(parts: Seq<Seq<char>>, sep: Seq<char>) -> Seq<char>
    decreases parts.len(),
{
    if parts.len() == 0 {
        Seq::empty()
    } else if parts.len() == 1 {
        parts[0]
    } else {
        parts[0] + sep + join(parts.drop_first(), sep)
    }
}

/// The trimmed text, if there is anything in it.
pub open spec fn nonblank() -> spec_fn(Seq<char>) -> Option<Seq<char>> {
    |s: Seq<char>|
        if trim(s).len() > 0 {
            Some(trim(s))
        } else {
            None
        }
}

/// The lines of `s` that are not blank, trimmed.
pub open spec fn solid_lines(s: Seq<char>) -> Seq<Seq<char>> {
    lines(s).filter_map(nonblank())
}

/// The decimal digit for a number below ten.
pub open spec fn digit(n: nat) -> char {
    ('0' as u32 + n) as char
}

/// `n` in decimal notation.
pub open spec fn decimal(n: nat) -> Seq<char>
    decreases n,
{
    if n < 10 {
        seq![digit(n)]
    } else {
        decimal(n / 10).push(digit(n % 10))
    }
}

/// `n` in decimal notation, with zeros in front up to a width.
pub open spec fn padded(n: nat, width: nat) -> Seq<char> {
    let d = decimal(n);
    if d.len() < width {
        Seq::new((width - d.len()) as nat, |i: int| '0') + d
    } else {
        d
    }
}

/// The number that the digits `s` stand for.
pub open spec fn digits_value(s: Seq<char>) -> int
    decreases s.len(),
{
    if s.len() == 0 {
        0
    } else {
        digits_value(s.drop_last()) * 10 + (s.last() as int - '0' as int)
    }
}

/// The non-empty runs of `s` between white space.
pub open spec fn words(s: Seq<char>) -> Seq<Seq<char>>
    decreases s.len(),
{
    let t = trim_start(s);
    let n = word_len(t);
    if 0 < n <= t.len() && t.len() <= s.len() {
        seq![t.take(n)] + words(t.skip(n))
    } else {
        Seq::empty()
    }
}

/// The number of characters before the first white space of `s`.
pub open spec fn word_len(s: Seq<char>) -> int
    decreases s.len(),
{
    if s.len() == 0 || is_white_space(s[0]) {
        0
    } else {
        1 + word_len(s.drop_first())
    }
}

/// The order of texts: by their first difference, a beginning before its
/// continuations.
pub open spec fn lex_less(a: Seq<char>, b: Seq<char>) -> bool
    decreases a.len(),
{
    if b.len() == 0 {
        false
    } else if a.len() == 0 {
        true
    } else if a[0] == b[0] {
        lex_less(a.drop_first(), b.drop_first())
    } else {
        a[0] < b[0]
    }
}

/// The contents of a vector of character slices.
pub open spec fn contents(v: Seq<&[char]>) -> Seq<Seq<char>> {
    v.map_values(|s: &[char]| s@)
}

/// The contents of a vector of strings.
pub open spec fn texts(v: Seq<String>) -> Seq<Seq<char>> {
    v.map_values(|s: String| s@)
}

// ── Characterisations ──────────────────────────────────────────────────────

pub proof fn lemma_trim_start_at(s: Seq<char>, k: int)
    requires
        0 <= k <= s.len(),
        forall|i: int| 0 <= i < k ==> is_white_space(#[trigger] s[i]),
        k == s.len() || !is_white_space(s[k]),
    ensures
        trim_start(s) == s.skip(k),
    decreases s.len(),
{
    if k == 0 {
        assert(s.skip(0) =~= s);
    } else {
        lemma_trim_start_at(s.drop_first(), k - 1);
        assert(s.drop_first().skip(k - 1) =~= s.skip(k));
    }
}

pub proof fn lemma_trim_end_at(s: Seq<char>, k: int)
    requires
        0 <= k <= s.len(),
        forall|i: int| k <= i < s.len() ==> is_white_space(#[trigger] s[i]),
        k == 0 || !is_white_space(s[k - 1]),
    ensures
        trim_end(s) == s.take(k),
    decreases s.len(),
{
    if k == s.len() {
        assert(s.take(k) =~= s);
    } else {
        lemma_trim_end_at(s.drop_last(), k);
        assert(s.drop_last().take(k) =~= s.take(k));
    }
}

pub proof fn lemma_index_of_at(s: Seq<char>, c: char, k: int)
    requires
        0 <= k <= s.len(),
        forall|i: int| 0 <= i < k ==> s[i] != c,
        k == s.len() || s[k] == c,
    ensures
        index_of(s, c) == k,
    decreases s.len(),
{
    if k > 0 {
        lemma_index_of_at(s.drop_first(), c, k - 1);
    }
}

pub proof fn lemma_index_of(s: Seq<char>, c: char)
    ensures
        0 <= index_of(s, c) <= s.len(),
        forall|i: int| 0 <= i < index_of(s, c) ==> s[i] != c,
        index_of(s, c) < s.len() ==> s[index_of(s, c)] == c,
    decreases s.len(),
{
    if s.len() > 0 && s[0] != c {
        lemma_index_of(s.drop_first(), c);
        let k = index_of(s.drop_first(), c);
        assert forall|i: int| 0 <= i < index_of(s, c) implies s[i] != c by {
            if i > 0 {
                assert(s.drop_first()[i - 1] == s[i]);
            }
        }
    }
}

pub proof fn lemma_find_at(s: Seq<char>, p: Seq<char>, k: int)
    requires
        0 <= k <= s.len(),
        has_prefix(s.skip(k), p),
        forall|i: int| 0 <= i < k ==> !has_prefix(#[trigger] s.skip(i), p),
    ensures
        find(s, p) == Some(k),
    decreases s.len(),
{
    assert(s.skip(0) =~= s);
    if k > 0 {
        assert(!has_prefix(s.skip(0), p));
        assert forall|i: int| 0 <= i < k - 1 implies !has_prefix(
            #[trigger] s.drop_first().skip(i),
            p,
        ) by {
            assert(s.drop_first().skip(i) =~= s.skip(i + 1));
        }
        assert(s.drop_first().skip(k - 1) =~= s.skip(k));
        lemma_find_at(s.drop_first(), p, k - 1);
    }
}

pub proof fn lemma_find_none(s: Seq<char>, p: Seq<char>)
    requires
        forall|i: int| 0 <= i <= s.len() ==> !has_prefix(#[trigger] s.skip(i), p),
    ensures
        find(s, p) is None,
    decreases s.len(),
{
    assert(s.skip(0) =~= s);
    assert(!has_prefix(s.skip(0), p));
    if s.len() > 0 {
        assert forall|i: int| 0 <= i <= s.drop_first().len() implies !has_prefix(
            #[trigger] s.drop_first().skip(i),
            p,
        ) by {
            assert(s.drop_first().skip(i) =~= s.skip(i + 1));
        }
        lemma_find_none(s.drop_first(), p);
    }
}

pub proof fn lemma_word_len_at(s: Seq<char>, k: int)
    requires
        0 <= k <= s.len(),
        forall|i: int| 0 <= i < k ==> !is_white_space(#[trigger] s[i]),
        k == s.len() || is_white_space(s[k]),
    ensures
        word_len(s) == k,
    decreases s.len(),
{
    if k > 0 {
        lemma_word_len_at(s.drop_first(), k - 1);
    }
}

pub proof fn lemma_trim_start_char_at(s: Seq<char>, c: char, k: int)
    requires
        0 <= k <= s.len(),
        forall|i: int| 0 <= i < k ==> s[i] == c,
        k == s.len() || s[k] != c,
    ensures
        trim_start_char(s, c) == s.skip(k),
    decreases s.len(),
{
    if k == 0 {
        assert(s.skip(0) =~= s);
    } else {
        lemma_trim_start_char_at(s.drop_first(), c, k - 1);
        assert(s.drop_first().skip(k - 1) =~= s.skip(k));
    }
}

pub proof fn lemma_join_push(parts: Seq<Seq<char>>, x: Seq<char>, sep: Seq<char>)
    ensures
        join(parts.push(x), sep) == if parts.len() == 0 {
            x
        } else {
            join(parts, sep) + sep + x
        },
    decreases parts.len(),
{
    if parts.len() > 0 {
        let rest = parts.drop_first();
        lemma_join_push(rest, x, sep);
        assert(parts.push(x).drop_first() =~= rest.push(x));
        assert(join(parts.push(x), sep) =~= join(parts, sep) + sep + x);
    }
}

/// A number is read back from its digits.
pub proof fn lemma_decimal_value(n: nat)
    ensures
        digits_value(decimal(n)) == n,
    decreases n,
{
    if n < 10 {
        assert(decimal(n).drop_last() =~= Seq::<char>::empty());
        assert(digits_value(Seq::<char>::empty()) == 0);
    } else {
        lemma_decimal_value(n / 10);
        assert(decimal(n).drop_last() =~= decimal(n / 10));
    }
}

/// Zeros in front do not change a number.
pub proof fn lemma_leading_zeros(k: nat, s: Seq<char>)
    ensures
        digits_value(Seq::new(k, |i: int| '0') + s) == digits_value(s),
    decreases k + s.len(),
{
    let zeros = Seq::new(k, |i: int| '0');
    if s.len() > 0 {
        assert((zeros + s).drop_last() =~= zeros + s.drop_last());
        lemma_leading_zeros(k, s.drop_last());
    } else if k > 0 {
        let fewer = Seq::new((k - 1) as nat, |i: int| '0');
        assert((zeros + s).drop_last() =~= fewer + s);
        lemma_leading_zeros((k - 1) as nat, s);
    } else {
        assert(zeros + s =~= s);
    }
}

/// Different numbers are written differently.
pub proof fn lemma_padded_differ(a: nat, b: nat, width: nat)
    requires
        padded(a, width) == padded(b, width),
    ensures
        a == b,
{
    lemma_decimal_value(a);
    lemma_decimal_value(b);
    lemma_leading_zeros((width - decimal(a).len()) as nat, decimal(a));
    lemma_leading_zeros((width - decimal(b).len()) as nat, decimal(b));
}

pub proof fn lemma_lex_irreflexive(a: Seq<char>)
    ensures
        !lex_less(a, a),
    decreases a.len(),
{
    if a.len() > 0 {
        lemma_lex_irreflexive(a.drop_first());
    }
}

pub proof fn lemma_lex_transitive(a: Seq<char>, b: Seq<char>, c: Seq<char>)
    requires
        lex_less(a, b),
        lex_less(b, c),
    ensures
        lex_less(a, c),
    decreases a.len(),
{
    if a.len() > 0 && a[0] == b[0] && b[0] == c[0] {
        lemma_lex_transitive(a.drop_first(), b.drop_first(), c.drop_first());
    }
}

pub proof fn lemma_lex_total(a: Seq<char>, b: Seq<char>)
    ensures
        lex_less(a, b) || lex_less(b, a) || a == b,
    decreases a.len(),
{
    if a.len() > 0 && b.len() > 0 && a[0] == b[0] {
        lemma_lex_total(a.drop_first(), b.drop_first());
        if a.drop_first() == b.drop_first() {
            assert(a =~= seq![a[0]] + a.drop_first());
            assert(b =~= seq![b[0]] + b.drop_first());
        }
    } else if a.len() == 0 && b.len() == 0 {
        assert(a =~= b);
    }
}

// ── Executable operations ──────────────────────────────────────────────────

/// Whether `c` has the Unicode `White_Space` property.
pub fn white_space(c: char) -> (r: bool)
    ensures
        r == is_white_space(c),
{
    let n: u32 = c as u32;
    (0x9 <= n && n <= 0xd) || n == 0x20 || n == 0x85 || n == 0xa0 || n == 0x1680 || (0x2000 <= n
        && n <= 0x200a) || n == 0x2028 || n == 0x2029 || n == 0x202f || n == 0x205f || n == 0x3000
}

/// The characters of a string.
pub fn to_chars(s: &str) -> (r: Vec<char>)
    ensures
        r@ == s@,
{
    let mut out: Vec<char> = Vec::new();
    for c in it: s.chars()
        invariant
            it.seq() == s@,
            out@ == s@.take(it.index() as int),
    {
        out.push(c);
        assert(s@.take(it.index() as int + 1) =~= s@.take(it.index() as int).push(c));
    }
    assert(s@.take(s@.len() as int) =~= s@);
    out
}

pub fn trimmed_start(s: &[char]) -> (r: &[char])
    ensures
        r@ == trim_start(s@),
{
    let mut k: usize = 0;
    while k < s.len() && white_space(s[k])
        invariant
            k <= s@.len(),
            forall|i: int| 0 <= i < k ==> is_white_space(#[trigger] s@[i]),
        ensures
            k <= s@.len(),
            forall|i: int| 0 <= i < k ==> is_white_space(#[trigger] s@[i]),
            k == s@.len() || !is_white_space(s@[k as int]),
        decreases s@.len() - k,
    {
        k = k + 1;
    }
    proof {
        lemma_trim_start_at(s@, k as int);
    }
    slice_subrange(s, k, s.len())
}

pub fn trimmed_end(s: &[char]) -> (r: &[char])
    ensures
        r@ == trim_end(s@),
{
    let mut k: usize = s.len();
    while k > 0 && white_space(s[k - 1])
        invariant
            k <= s@.len(),
            forall|i: int| k <= i < s@.len() ==> is_white_space(#[trigger] s@[i]),
        ensures
            k <= s@.len(),
            forall|i: int| k <= i < s@.len() ==> is_white_space(#[trigger] s@[i]),
            k == 0 || !is_white_space(s@[k - 1]),
        decreases k,
    {
        k = k - 1;
    }
    proof {
        lemma_trim_end_at(s@, k as int);
    }
    slice_subrange(s, 0, k)
}

pub fn trimmed(s: &[char]) -> (r: &[char])
    ensures
        r@ == trim(s@),
{
    trimmed_end(trimmed_start(s))
}

pub fn same_chars(a: &[char], b: &[char]) -> (r: bool)
    ensures
        r == (a@ == b@),
{
    if a.len() != b.len() {
        return false;
    }
    let mut i: usize = 0;
    while i < a.len()
        invariant
            i <= a@.len(),
            a@.len() == b@.len(),
            forall|j: int| 0 <= j < i ==> a@[j] == b@[j],
        decreases a@.len() - i,
    {
        if a[i] != b[i] {
            assert(a@[i as int] != b@[i as int]);
            return false;
        }
        i = i + 1;
    }
    assert(a@ =~= b@);
    true
}

/// Whether the slice spells out `lit`.
pub fn is_literal(s: &[char], lit: &str) -> (r: bool)
    ensures
        r == (s@ == lit@),
{
    let l = to_chars(lit);
    same_chars(s, l.as_slice())
}

pub fn starts_with(s: &[char], p: &[char]) -> (r: bool)
    ensures
        r == has_prefix(s@, p@),
{
    if p.len() <= s.len() {
        same_chars(slice_subrange(s, 0, p.len()), p)
    } else {
        false
    }
}

/// What follows `lit` at the start of the slice.
pub fn after_literal<'a>(s: &'a [char], lit: &str) -> (r: Option<&'a [char]>)
    ensures
        match r {
            Some(rest) => has_prefix(s@, lit@) && rest@ == s@.skip(lit@.len() as int),
            None => !has_prefix(s@, lit@),
        },
{
    let l = to_chars(lit);
    if starts_with(s, l.as_slice()) {
        Some(slice_subrange(s, l.len(), s.len()))
    } else {
        None
    }
}

/// The position of the first `c`, or the length of the slice.
pub fn position_of(s: &[char], c: char) -> (r: usize)
    ensures
        r == index_of(s@, c),
        r <= s@.len(),
        forall|i: int| 0 <= i < r ==> s@[i] != c,
        r < s@.len() ==> s@[r as int] == c,
{
    let mut k: usize = 0;
    while k < s.len() && s[k] != c
        invariant
            k <= s@.len(),
            forall|i: int| 0 <= i < k ==> s@[i] != c,
        ensures
            k <= s@.len(),
            forall|i: int| 0 <= i < k ==> s@[i] != c,
            k == s@.len() || s@[k as int] == c,
        decreases s@.len() - k,
    {
        k = k + 1;
    }
    proof {
        lemma_index_of_at(s@, c, k as int);
    }
    k
}

/// The position of the first occurrence of `p`.
pub fn find_in(s: &[char], p: &[char]) -> (r: Option<usize>)
    ensures
        match r {
            Some(i) => find(s@, p@) == Some(i as int) && i + p@.len() <= s@.len(),
            None => find(s@, p@) is None,
        },
        r is Some <==> occurs_in(p@, s@),
{
    let mut k: usize = 0;
    while k < s.len()
        invariant
            k <= s@.len(),
            forall|i: int| 0 <= i < k ==> !has_prefix(#[trigger] s@.skip(i), p@),
        decreases s@.len() - k,
    {
        if starts_with(slice_subrange(s, k, s.len()), p) {
            assert(s@.subrange(k as int, s@.len() as int) =~= s@.skip(k as int));
            proof {
                lemma_find_at(s@, p@, k as int);
            }
            return Some(k);
        }
        assert(s@.subrange(k as int, s@.len() as int) =~= s@.skip(k as int));
        k = k + 1;
    }
    if p.len() == 0 {
        proof {
            assert(s@.skip(k as int).take(0) =~= p@);
            lemma_find_at(s@, p@, k as int);
        }
        return Some(k);
    }
    proof {
        assert(!has_prefix(s@.skip(k as int), p@));
        lemma_find_none(s@, p@);
    }
    None
}

pub fn contains_text(s: &[char], p: &[char]) -> (r: bool)
    ensures
        r == occurs_in(p@, s@),
{
    find_in(s, p).is_some()
}

pub fn without_leading(s: &[char], c: char) -> (r: &[char])
    ensures
        r@ == trim_start_char(s@, c),
{
    let mut k: usize = 0;
    while k < s.len() && s[k] == c
        invariant
            k <= s@.len(),
            forall|i: int| 0 <= i < k ==> s@[i] == c,
        ensures
            k <= s@.len(),
            forall|i: int| 0 <= i < k ==> s@[i] == c,
            k == s@.len() || s@[k as int] != c,
        decreases s@.len() - k,
    {
        k = k + 1;
    }
    proof {
        lemma_trim_start_char_at(s@, c, k as int);
    }
    slice_subrange(s, k, s.len())
}

/// The lines of a text.
pub fn lines_of(s: &[char]) -> (r: Vec<&[char]>)
    ensures
        contents(r@) == lines(s@),
{
    let mut out: Vec<&[char]> = Vec::new();
    let mut rest: &[char] = s;
    assert(contents(out@) + lines(rest@) =~= lines(s@));
    while rest.len() > 0
        invariant
            contents(out@) + lines(rest@) == lines(s@),
        decreases rest@.len(),
    {
        let ghost before = contents(out@);
        let i = position_of(rest, '\n');
        if i < rest.len() {
            let mut line: &[char] = slice_subrange(rest, 0, i);
            let ghost l = rest@.take(i as int);
            assert(line@ =~= l);
            if line.len() > 0 && line[line.len() - 1] == '\r' {
                line = slice_subrange(line, 0, line.len() - 1);
                assert(line@ =~= l.drop_last());
            }
            assert(line@ == chomp(l));
            out.push(line);
            assert(contents(out@) =~= before.push(chomp(l)));
            assert(before + (seq![chomp(l)] + lines(rest@.skip(i + 1))) =~= before.push(chomp(l))
                + lines(rest@.skip(i + 1)));
            assert(rest@.subrange(i + 1, rest@.len() as int) =~= rest@.skip(i + 1));
            rest = slice_subrange(rest, i + 1, rest.len());
        } else {
            out.push(rest);
            assert(contents(out@) =~= before.push(rest@));
            assert(before + seq![rest@] =~= before.push(rest@));
            rest = slice_subrange(rest, 0, 0);
            assert(contents(out@) + lines(rest@) =~= contents(out@));
        }
    }
    assert(contents(out@) + lines(rest@) =~= contents(out@));
    out
}

/// The pieces between successive occurrences of a non-empty separator.
pub fn split_on<'a>(s: &'a [char], sep: &[char]) -> (r: Vec<&'a [char]>)
    requires
        sep@.len() > 0,
    ensures
        contents(r@) == split(s@, sep@),
        r@.len() > 0,
{
    let mut out: Vec<&'a [char]> = Vec::new();
    let mut rest: &'a [char] = s;
    assert(contents(out@) + split(rest@, sep@) =~= split(s@, sep@));
    loop
        invariant
            sep@.len() > 0,
            contents(out@) + split(rest@, sep@) == split(s@, sep@),
        decreases rest@.len(),
    {
        let ghost before = contents(out@);
        match find_in(rest, sep) {
            Some(i) => {
                let piece = slice_subrange(rest, 0, i);
                assert(piece@ =~= rest@.take(i as int));
                out.push(piece);
                assert(contents(out@) =~= before.push(piece@));
                let n: usize = rest.len();
                let next = slice_subrange(rest, i + sep.len(), n);
                assert(next@ =~= rest@.skip(i + sep@.len()));
                assert(before + (seq![piece@] + split(next@, sep@)) =~= before.push(piece@)
                    + split(next@, sep@));
                rest = next;
            },
            None => {
                out.push(rest);
                assert(contents(out@) =~= before.push(rest@));
                assert(before + seq![rest@] =~= before.push(rest@));
                return out;
            },
        }
    }
}

/// Appends the characters of a slice to a string.
pub fn append_chars(out: &mut String, s: &[char])
    ensures
        final(out)@ == old(out)@ + s@,
{
    let ghost before = out@;
    let mut i: usize = 0;
    assert(before + s@.take(0) =~= before);
    while i < s.len()
        invariant
            i <= s@.len(),
            out@ == before + s@.take(i as int),
        decreases s@.len() - i,
    {
        out.push(s[i]);
        assert(before + s@.take(i + 1) =~= (before + s@.take(i as int)).push(s@[i as int]));
        i = i + 1;
    }
    assert(s@.take(s@.len() as int) =~= s@);
}

/// The string that the slice spells.
pub fn string_of(s: &[char]) -> (r: String)
    ensures
        r@ == s@,
{
    let mut out = String::new();
    append_chars(&mut out, s);
    assert(Seq::<char>::empty() + s@ =~= s@);
    out
}

/// Whether `a` comes before `b` in the order of texts.
pub fn less_text(a: &str, b: &str) -> (r: bool)
    ensures
        r == lex_less(a@, b@),
{
    let x = to_chars(a);
    let y = to_chars(b);
    let mut i: usize = 0;
    assert(x@.skip(0) =~= x@);
    assert(y@.skip(0) =~= y@);
    while i < x.len() && i < y.len() && x[i] == y[i]
        invariant
            i <= x@.len(),
            i <= y@.len(),
            lex_less(x@, y@) == lex_less(x@.skip(i as int), y@.skip(i as int)),
        ensures
            i <= x@.len(),
            i <= y@.len(),
            lex_less(x@, y@) == lex_less(x@.skip(i as int), y@.skip(i as int)),
            i < x@.len() && i < y@.len() ==> x@[i as int] != y@[i as int],
        decreases x@.len() - i,
    {
        assert(x@.skip(i as int).drop_first() =~= x@.skip(i + 1));
        assert(y@.skip(i as int).drop_first() =~= y@.skip(i + 1));
        i = i + 1;
    }
    if i >= y.len() {
        false
    } else if i >= x.len() {
        true
    } else {
        char_less(x[i], y[i])
    }
}

fn char_less(a: char, b: char) -> (r: bool)
    ensures
        r == (a < b),
{
    (a as u32) < (b as u32)
}

pub fn same_text(a: &str, b: &str) -> (r: bool)
    ensures
        r == (a@ == b@),
{
    let x = to_chars(a);
    let y = to_chars(b);
    same_chars(x.as_slice(), y.as_slice())
}

/// The strings one after the other, with `sep` between neighbours.
pub fn joined(parts: &Vec<String>, sep: &str) -> (r: String)
    ensures
        r@ == join(texts(parts@), sep@),
{
    let mut out = String::new();
    let ghost all = texts(parts@);
    let mut i: usize = 0;
    while i < parts.len()
        invariant
            i <= parts@.len(),
            all == texts(parts@),
            out@ == join(all.take(i as int), sep@),
        decreases parts@.len() - i,
    {
        let ghost before = out@;
        if i > 0 {
            out.append(sep);
        }
        out.append(parts[i].as_str());
        proof {
            lemma_join_push(all.take(i as int), all[i as int], sep@);
            assert(all.take(i + 1) =~= all.take(i as int).push(all[i as int]));
            assert(i == 0 ==> out@ =~= all[0]);
        }
        i = i + 1;
    }
    assert(all.take(i as int) =~= all);
    out
}

/// The lines that are not blank, trimmed.
pub fn solid_lines_of(s: &[char]) -> (r: Vec<&[char]>)
    ensures
        contents(r@) == solid_lines(s@),
{
    let ls = lines_of(s);
    let ghost all = lines(s@);
    let mut out: Vec<&[char]> = Vec::new();
    let mut i: usize = 0;
    assert(contents(out@) =~= all.take(0).filter_map(nonblank()));
    while i < ls.len()
        invariant
            i <= ls@.len(),
            all == contents(ls@),
            contents(out@) == all.take(i as int).filter_map(nonblank()),
        decreases ls@.len() - i,
    {
        assert(all.take(i + 1).drop_last() =~= all.take(i as int));
        assert(all.take(i + 1).last() == ls@[i as int]@);
        let line = trimmed(ls[i]);
        if line.len() > 0 {
            let ghost before = out@;
            out.push(line);
            assert(contents(out@) =~= contents(before) + seq![line@]);
        }
        i = i + 1;
    }
    assert(all.take(i as int) =~= all);
    out
}

/// Whether a list of texts holds `s`.
pub fn holds_text(list: &Vec<String>, s: &String) -> (r: bool)
    ensures
        r == texts(list@).contains(s@),
{
    let mut i: usize = 0;
    while i < list.len()
        invariant
            i <= list@.len(),
            forall|j: int| 0 <= j < i ==> (#[trigger] list@[j])@ != s@,
        decreases list@.len() - i,
    {
        if list[i] == *s {
            assert(texts(list@)[i as int] == s@);
            return true;
        }
        i = i + 1;
    }
    assert(!texts(list@).contains(s@)) by {
        if texts(list@).contains(s@) {
            let k = choose|k: int| 0 <= k < texts(list@).len() && texts(list@)[k] == s@;
            assert(list@[k]@ == s@);
        }
    }
    false
}

/// `n` in decimal notation.
pub fn decimal_of(n: u128) -> (r: String)
    ensures
        r@ == decimal(n as nat),
    decreases n,
{
    let d: u8 = (n % 10) as u8;
    let c: char = (48u8 + d) as char;
    assert(c == digit((n % 10) as nat));
    let mut out = if n < 10 {
        String::new()
    } else {
        decimal_of(n / 10)
    };
    out.push(c);
    assert(n < 10 ==> out@ =~= seq![c]);
    out
}

/// `n` in decimal notation, with zeros in front up to a width.
pub fn padded_decimal(n: u128, width: usize) -> (r: String)
    ensures
        r@ == padded(n as nat, width as nat),
{
    let digits = decimal_of(n);
    let chars = to_chars(digits.as_str());
    let len: usize = chars.len();
    let mut out = String::new();
    let mut k: usize = len;
    while k < width
        invariant
            len <= k,
            k <= width || k == len,
            out@ == Seq::new((k - len) as nat, |i: int| '0'),
        decreases width - k,
    {
        out.push('0');
        k = k + 1;
        assert(out@ =~= Seq::new((k - len) as nat, |i: int| '0'));
    }
    out.append(digits.as_str());
    assert(out@ =~= padded(n as nat, width as nat));
    out
}

/// The runs between white space.
pub fn words_of(s: &[char]) -> (r: Vec<&[char]>)
    ensures
        contents(r@) == words(s@),
{
    let mut out: Vec<&[char]> = Vec::new();
    let mut rest: &[char] = s;
    assert(contents(out@) + words(rest@) =~= words(s@));
    loop
        invariant
            contents(out@) + words(rest@) == words(s@),
        decreases rest@.len(),
    {
        let ghost before = contents(out@);
        proof {
            lemma_trim_start_len(rest@);
        }
        let t = trimmed_start(rest);
        let mut k: usize = 0;
        while k < t.len() && !white_space(t[k])
            invariant
                k <= t@.len(),
                forall|i: int| 0 <= i < k ==> !is_white_space(#[trigger] t@[i]),
            ensures
                k <= t@.len(),
                forall|i: int| 0 <= i < k ==> !is_white_space(#[trigger] t@[i]),
                k == t@.len() || is_white_space(t@[k as int]),
            decreases t@.len() - k,
        {
            k = k + 1;
        }
        proof {
            lemma_word_len_at(t@, k as int);
        }
        if k == 0 {
            assert(before + words(rest@) =~= before);
            return out;
        }
        let word = slice_subrange(t, 0, k);
        assert(word@ =~= t@.take(k as int));
        out.push(word);
        assert(contents(out@) =~= before.push(word@));
        let next = slice_subrange(t, k, t.len());
        assert(next@ =~= t@.skip(k as int));
        assert(before + (seq![word@] + words(next@)) =~= before.push(word@) + words(next@));
        rest = next;
    }
}

pub proof fn lemma_trim_start_len(s: Seq<char>)
    ensures
        trim_start(s).len() <= s.len(),
        trim_start(s).len() > 0 ==> !is_white_space(trim_start(s)[0]),
    decreases s.len(),
{
    if s.len() > 0 && is_white_space(s[0]) {
        lemma_trim_start_len(s.drop_first());
    }
}

// ── Laws ───────────────────────────────────────────────────────────────────

/// The white space of ASCII: the blank, the tabs, and the characters that end a line or
/// a page.
pub proof fn law_ascii_white_space(c: char)
    requires
        (c as u32) < 0x80,
    ensures
        is_white_space(c) <==> c == ' ' || c == '\t' || c == '\n' || c == '\r' || c as u32 == 0xb
            || c as u32 == 0xc,
{
}

/// Beyond ASCII, white space is the two of Latin-1, the Ogham space mark, the blanks
/// and separators of general punctuation, and the ideographic space.
pub proof fn law_other_white_space(c: char)
    requires
        0x80 <= c as u32,
        is_white_space(c),
    ensures
        c as u32 == 0x85 || c as u32 == 0xa0 || c as u32 == 0x1680 || 0x2000 <= c as u32 <= 0x205f
            || c as u32 == 0x3000,
        c as u32 != 0x200b && !(0x2010 <= c as u32 <= 0x2027),
{
}

/// A text is what is trimmed from its ends and what is left of it, and what is left
/// neither begins nor ends with white space.
pub proof fn law_trimming_takes_white_space_alone(s: Seq<char>)
    ensures
        exists|i: int, j: int|
            0 <= i <= j <= s.len() && #[trigger] s.subrange(i, j) == trim(s) && is_blank(s.take(i))
                && is_blank(s.skip(j)),
        trim(s).len() > 0 ==> !is_white_space(trim(s)[0]) && !is_white_space(trim(s).last()),
{
    let (i, j) = crate::lines::lemma_core_exists(s);
    crate::lines::lemma_trim_is_core(s, i, j);
    assert forall|k: int| 0 <= k < s.take(i).len() implies is_white_space(
        #[trigger] s.take(i)[k],
    ) by {
        assert(s.take(i)[k] == s[k]);
    }
    assert forall|k: int| 0 <= k < s.skip(j).len() implies is_white_space(
        #[trigger] s.skip(j)[k],
    ) by {
        assert(s.skip(j)[k] == s[k + j]);
    }
    assert(s.subrange(i, j) == trim(s));
}

/// A line ends at its line break, and a carriage return before that goes with it.
pub proof fn law_lines_end_at_breaks(l: Seq<char>, rest: Seq<char>)
    requires
        !l.contains('\n'),
    ensures
        lines(Seq::<char>::empty()).len() == 0,
        l.len() > 0 ==> lines(l) == seq![l],
        l.len() == 0 || l.last() != '\r' ==> lines(l + seq!['\n'] + rest) == seq![l] + lines(rest),
        lines(l + seq!['\r', '\n'] + rest) == seq![l] + lines(rest),
{
    assert forall|k: int| 0 <= k < l.len() implies l[k] != '\n' by {
        assert(l.contains(l[k]));
    }
    lemma_index_of_at(l, '\n', l.len() as int);
    let a = l + seq!['\n'] + rest;
    lemma_index_of_at(a, '\n', l.len() as int);
    assert(a.take(l.len() as int) =~= l);
    assert(a.skip(l.len() as int + 1) =~= rest);
    let b = l + seq!['\r', '\n'] + rest;
    let n = l.len() as int + 1;
    assert(b[n - 1] == '\r' && b[n] == '\n');
    lemma_index_of_at(b, '\n', n);
    assert(b.take(n).drop_last() =~= l);
    assert(b.take(n).last() == '\r');
    assert(b.skip(n + 1) =~= rest);
}

/// The pieces between the separators, joined by it, are the text again.
pub proof fn law_pieces_join_to_the_text(s: Seq<char>, p: Seq<char>)
    ensures
        split(s, p).len() > 0,
        join(split(s, p), p) == s,
    decreases s.len(),
{
    lemma_find_is_prefix(s, p);
    match find(s, p) {
        Some(i) => {
            if p.len() > 0 && 0 <= i && i + p.len() <= s.len() {
                let rest = s.skip(i + p.len());
                law_pieces_join_to_the_text(rest, p);
                let all = split(s, p);
                assert(all.drop_first() =~= split(rest, p));
                assert(s.skip(i).take(p.len() as int) =~= s.subrange(i, i + p.len()));
                assert(s =~= s.take(i) + p + rest);
            }
        },
        None => {},
    }
}

proof fn lemma_find_is_prefix(s: Seq<char>, p: Seq<char>)
    ensures
        find(s, p) matches Some(i) ==> 0 <= i <= s.len() && has_prefix(s.skip(i), p),
    decreases s.len(),
{
    assert(s.skip(0) =~= s);
    if !has_prefix(s, p) && s.len() > 0 {
        let t = s.drop_first();
        lemma_find_is_prefix(t, p);
        if let Some(i) = find(t, p) {
            assert(t.skip(i) =~= s.skip(i + 1));
        }
    }
}

/// Numbers are written in decimal digits that stand for them, with zeros in front up
/// to the width and never cut.
pub proof fn law_numbers_are_read_back(n: nat, width: nat)
    ensures
        digits_value(decimal(n)) == n,
        digits_value(padded(n, width)) == n,
        padded(n, width).len() >= width,
        padded(n, width).len() == width || padded(n, width) == decimal(n),
{
    lemma_decimal_value(n);
    lemma_leading_zeros((width - decimal(n).len()) as nat, decimal(n));
}

/// Lists of texts are viewed text by text and in order.
pub proof fn law_texts_are_viewed_one_by_one(list: Seq<String>, slices: Seq<&[char]>, k: int)
    ensures
        texts(list).len() == list.len(),
        0 <= k < list.len() ==> texts(list)[k] == list[k]@,
        contents(slices).len() == slices.len(),
        0 <= k < slices.len() ==> contents(slices)[k] == slices[k]@,
{
}

} // verus!
