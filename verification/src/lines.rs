//! Facts about trimming and about texts made of lines.
use vstd::prelude::*;

use crate::text::{
    chomp, find, has_prefix, index_of, is_blank, is_white_space, lemma_find_at, lemma_find_none,
    lemma_index_of, lemma_index_of_at, lemma_trim_end_at, lemma_trim_start_at, lines, nonblank,
    solid_lines, split, trim, trim_end, trim_start,
};

verus! {

// ── Trimming ───────────────────────────────────────────────────────────────

/// Whether `s[i..j]` is what is left of `s` between blank ends.
pub open spec fn is_core(s: Seq<char>, i: int, j: int) -> bool {
    &&& 0 <= i <= j <= s.len()
    &&& forall|k: int| 0 <= k < i ==> is_white_space(#[trigger] s[k])
    &&& forall|k: int| j <= k < s.len() ==> is_white_space(#[trigger] s[k])
    &&& i < j ==> !is_white_space(s[i]) && !is_white_space(s[j - 1])
}

pub proof fn lemma_trim_is_core(s: Seq<char>, i: int, j: int)
    requires
        is_core(s, i, j),
    ensures
        trim(s) == s.subrange(i, j),
{
    if i < j {
        lemma_trim_start_at(s, i);
        let t = s.skip(i);
        assert forall|k: int| j - i <= k < t.len() implies is_white_space(#[trigger] t[k]) by {
            assert(t[k] == s[k + i]);
        }
        assert(t[j - i - 1] == s[j - 1]);
        lemma_trim_end_at(t, j - i);
        assert(t.take(j - i) =~= s.subrange(i, j));
    } else {
        assert(is_blank(s));
        lemma_trim_start_at(s, s.len() as int);
        assert(trim(s) =~= s.subrange(i, j));
    }
}

pub proof fn lemma_core_exists(s: Seq<char>) -> (r: (int, int))
    ensures
        is_core(s, r.0, r.1),
    decreases s.len(),
{
    if s.len() == 0 {
        (0, 0)
    } else if is_white_space(s[0]) {
        let t = s.drop_first();
        let (i, j) = lemma_core_exists(t);
        assert forall|k: int| 0 <= k < i + 1 implies is_white_space(#[trigger] s[k]) by {
            if k > 0 {
                assert(t[k - 1] == s[k]);
            }
        }
        assert forall|k: int| j + 1 <= k < s.len() implies is_white_space(#[trigger] s[k]) by {
            assert(t[k - 1] == s[k]);
        }
        (i + 1, j + 1)
    } else if is_white_space(s.last()) {
        let t = s.drop_last();
        let (i, j) = lemma_core_exists(t);
        if i > 0 {
            assert(t[0] == s[0]);
            assert(false);
        }
        assert forall|k: int| j <= k < s.len() implies is_white_space(#[trigger] s[k]) by {
            if k < t.len() {
                assert(t[k] == s[k]);
            }
        }
        (i, j)
    } else {
        (0, s.len() as int)
    }
}

/// Blank text at either end does not matter to `trim`.
pub proof fn lemma_trim_pad(a: Seq<char>, s: Seq<char>, b: Seq<char>)
    requires
        is_blank(a),
        is_blank(b),
    ensures
        trim(a + s + b) == trim(s),
{
    let (i, j) = lemma_core_exists(s);
    lemma_trim_is_core(s, i, j);
    let x = a + s + b;
    let n = a.len() as int;
    assert forall|k: int| 0 <= k < i + n implies is_white_space(#[trigger] x[k]) by {
        if k >= n {
            assert(s[k - n] == x[k]);
        } else {
            assert(a[k] == x[k]);
        }
    }
    assert forall|k: int| j + n <= k < x.len() implies is_white_space(#[trigger] x[k]) by {
        if k < n + s.len() {
            assert(s[k - n] == x[k]);
        } else {
            assert(b[k - n - s.len()] == x[k]);
        }
    }
    lemma_trim_is_core(x, i + n, j + n);
    assert(x.subrange(i + n, j + n) =~= s.subrange(i, j));
}

pub proof fn lemma_trim_end_pad(s: Seq<char>, b: Seq<char>)
    requires
        is_blank(b),
    ensures
        trim(s + b) == trim(s),
{
    lemma_trim_pad(Seq::empty(), s, b);
    assert(Seq::<char>::empty() + s + b =~= s + b);
}

pub proof fn lemma_trim_start_pad(a: Seq<char>, s: Seq<char>)
    requires
        is_blank(a),
    ensures
        trim(a + s) == trim(s),
{
    lemma_trim_pad(a, s, Seq::empty());
    assert(a + s + Seq::<char>::empty() =~= a + s);
}

/// A text without white space at its ends is its own trimming.
pub proof fn lemma_trim_same(s: Seq<char>)
    requires
        s.len() > 0 ==> !is_white_space(s[0]) && !is_white_space(s.last()),
    ensures
        trim(s) == s,
{
    lemma_trim_is_core(s, 0, s.len() as int);
    assert(s.subrange(0, s.len() as int) =~= s);
}

/// What `trim` returns has no white space at its ends.
pub proof fn lemma_trim_ends(s: Seq<char>)
    ensures
        trim(s).len() > 0 ==> !is_white_space(trim(s)[0]) && !is_white_space(trim(s).last()),
        trim(trim(s)) == trim(s),
        trim(s).len() <= s.len(),
        forall|k: int| 0 <= k < trim(s).len() ==> s.contains(#[trigger] trim(s)[k]),
{
    let (i, j) = lemma_core_exists(s);
    lemma_trim_is_core(s, i, j);
    assert forall|k: int| 0 <= k < trim(s).len() implies s.contains(#[trigger] trim(s)[k]) by {
        assert(s[k + i] == trim(s)[k]);
    }
    lemma_trim_same(trim(s));
}

/// A trimmed text is empty exactly where the text is blank.
pub proof fn lemma_trim_blank(s: Seq<char>)
    ensures
        trim(s).len() == 0 <==> is_blank(s),
{
    let (i, j) = lemma_core_exists(s);
    lemma_trim_is_core(s, i, j);
    if i < j {
        assert(!is_white_space(s[i]));
    }
}

/// Trimming a text that begins with the solid word `p` keeps `p` in front.
pub proof fn lemma_trim_after_word(p: Seq<char>, s: Seq<char>)
    requires
        p.len() > 0,
        !is_white_space(p[0]),
        !is_white_space(p.last()),
    ensures
        has_prefix(trim(p + s), p),
        trim(trim(p + s).skip(p.len() as int)) == trim(s),
        trim(p + s) == p + trim_end(s),
{
    let (i, j) = lemma_core_exists(s);
    let x = p + s;
    let n = p.len() as int;
    let end = if i < j { j + n } else { n };
    assert forall|k: int| end <= k < x.len() implies is_white_space(#[trigger] x[k]) by {
        assert(x[k] == s[k - n]);
    }
    assert(x[end - 1] == if i < j { s[j - 1] } else { p.last() });
    lemma_trim_is_core(x, 0, end);
    assert(trim(x).take(n) =~= p);
    let rest = trim(x).skip(n);
    lemma_trim_end_at(s, end - n);
    assert(rest =~= s.take(end - n));
    assert(trim(x) =~= p + s.take(end - n));
    let tail = s.skip(end - n);
    assert(s =~= rest + tail);
    assert(is_blank(tail));
    lemma_trim_end_pad(rest, tail);
}

/// Dropping the carriage return of a line ending is part of trimming.
pub proof fn lemma_trim_chomp(l: Seq<char>)
    ensures
        trim(chomp(l)) == trim(l),
{
    if l.len() > 0 && l.last() == '\r' {
        assert(l =~= l.drop_last() + seq!['\r']);
        lemma_trim_end_pad(l.drop_last(), seq!['\r']);
    }
}

// ── Lines ──────────────────────────────────────────────────────────────────

pub open spec fn no_break(s: Seq<char>) -> bool {
    !s.contains('\n')
}

/// `s` is empty or ends with a line break.
pub open spec fn ends_line(s: Seq<char>) -> bool {
    s.len() == 0 || s.last() == '\n'
}

/// One line in front of a text.
pub proof fn lemma_lines_cons(l: Seq<char>, s: Seq<char>)
    requires
        no_break(l),
    ensures
        lines(l + "\n"@ + s) == seq![chomp(l)] + lines(s),
{
    reveal_strlit("\n");
    let x = l + "\n"@ + s;
    let n = l.len() as int;
    assert forall|k: int| 0 <= k < n implies x[k] != '\n' by {
        assert(l.contains(l[k]));
    }
    assert(x[n] == '\n');
    lemma_index_of_at(x, '\n', n);
    assert(x.take(n) =~= l);
    assert(x.skip(n + 1) =~= s);
}

pub proof fn lemma_lines_one(l: Seq<char>)
    requires
        no_break(l),
    ensures
        lines(l + "\n"@) == seq![chomp(l)],
{
    lemma_lines_cons(l, Seq::empty());
    assert(l + "\n"@ + Seq::<char>::empty() =~= l + "\n"@);
    assert(lines(Seq::<char>::empty()) =~= Seq::<Seq<char>>::empty());
    assert(seq![chomp(l)] + Seq::<Seq<char>>::empty() =~= seq![chomp(l)]);
}

/// Texts joined at a line break have the lines of both.
pub proof fn lemma_lines_concat(x: Seq<char>, y: Seq<char>)
    requires
        ends_line(x),
    ensures
        lines(x + y) == lines(x) + lines(y),
    decreases x.len(),
{
    if x.len() == 0 {
        assert(x + y =~= y);
        assert(lines(x) + lines(y) =~= lines(y));
    } else {
        lemma_index_of(x, '\n');
        let i = index_of(x, '\n');
        if i == x.len() {
            assert(x[x.len() - 1] != '\n');
            assert(false);
        }
        let rest = x.skip(i + 1);
        assert forall|k: int| 0 <= k < i implies (x + y)[k] != '\n' by {
            assert((x + y)[k] == x[k]);
        }
        lemma_index_of_at(x + y, '\n', i);
        assert((x + y).take(i) =~= x.take(i));
        assert((x + y).skip(i + 1) =~= rest + y);
        if rest.len() > 0 {
            assert(rest.last() == x.last());
        }
        lemma_lines_concat(rest, y);
        assert(seq![chomp(x.take(i))] + (lines(rest) + lines(y)) =~= lines(x) + lines(y));
    }
}

/// No line holds a line break.
pub proof fn lemma_line_no_break(s: Seq<char>, i: int)
    requires
        0 <= i < lines(s).len(),
    ensures
        !lines(s)[i].contains('\n'),
    decreases s.len(),
{
    if s.len() > 0 {
        lemma_index_of(s, '\n');
        let k = index_of(s, '\n');
        if k < s.len() {
            let l = s.take(k);
            assert(!chomp(l).contains('\n')) by {
                assert forall|j: int| 0 <= j < chomp(l).len() implies chomp(l)[j] != '\n' by {
                    assert(chomp(l)[j] == s[j]);
                }
            }
            if i > 0 {
                lemma_line_no_break(s.skip(k + 1), i - 1);
                assert(lines(s)[i] == lines(s.skip(k + 1))[i - 1]);
            }
        } else {
            assert(!s.contains('\n'));
        }
    }
}

/// Nor does a trimmed line.
pub proof fn lemma_solid_no_break(s: Seq<char>, i: int)
    requires
        0 <= i < solid_lines(s).len(),
    ensures
        !solid_lines(s)[i].contains('\n'),
{
    assert forall|k: int| 0 <= k < lines(s).len() implies !(#[trigger] lines(s)[k]).contains(
        '\n',
    ) by {
        lemma_line_no_break(s, k);
    }
    lemma_nonblank_no_break(lines(s), i);
}

proof fn lemma_nonblank_no_break(ls: Seq<Seq<char>>, i: int)
    requires
        forall|k: int| 0 <= k < ls.len() ==> !(#[trigger] ls[k]).contains('\n'),
        0 <= i < ls.filter_map(nonblank()).len(),
    ensures
        !ls.filter_map(nonblank())[i].contains('\n'),
    decreases ls.len(),
{
    if ls.len() > 0 {
        let rest = ls.drop_last();
        let kept = rest.filter_map(nonblank());
        if i < kept.len() {
            assert forall|k: int| 0 <= k < rest.len() implies !(#[trigger] rest[k]).contains(
                '\n',
            ) by {
                assert(rest[k] == ls[k]);
            }
            lemma_nonblank_no_break(rest, i);
        } else {
            let l = ls[ls.len() - 1];
            lemma_trim_ends(l);
            let t = trim(l);
            assert forall|k: int| 0 <= k < t.len() implies t[k] != '\n' by {
                assert(l.contains(t[k]));
            }
        }
    }
}

/// The lines `ls`, each trimmed and ended.
pub open spec fn trimmed_lines(ls: Seq<Seq<char>>) -> Seq<char>
    decreases ls.len(),
{
    if ls.len() == 0 {
        Seq::empty()
    } else {
        trim(ls[0]) + "\n"@ + trimmed_lines(ls.drop_first())
    }
}

/// The lines of `s`, the last one ended too.
pub open spec fn ended_lines(s: Seq<char>) -> Seq<Seq<char>> {
    lines(s + "\n"@)
}

/// `s` with every line trimmed, and trimmed as a whole.
pub open spec fn settled(s: Seq<char>) -> Seq<char> {
    trim(trimmed_lines(lines(s)))
}

/// No white space stands next to a line break or at either end.
pub open spec fn tidy(s: Seq<char>) -> bool {
    &&& line_tidy(s)
    &&& s.len() > 0 ==> s[0] != '\n' && s.last() != '\n'
}

/// No white space but a line break stands next to a line break or at either end.
pub open spec fn line_tidy(s: Seq<char>) -> bool {
    forall|i: int|
        0 <= i < s.len() && #[trigger] is_white_space(s[i]) && s[i] != '\n' ==> 0 < i < s.len() - 1
            && s[i - 1] != '\n' && s[i + 1] != '\n'
}

pub proof fn lemma_trimmed_lines_concat(a: Seq<Seq<char>>, b: Seq<Seq<char>>)
    ensures
        trimmed_lines(a + b) == trimmed_lines(a) + trimmed_lines(b),
    decreases a.len(),
{
    if a.len() == 0 {
        assert(a + b =~= b);
        assert(trimmed_lines(a) + trimmed_lines(b) =~= trimmed_lines(b));
    } else {
        lemma_trimmed_lines_concat(a.drop_first(), b);
        assert((a + b).drop_first() =~= a.drop_first() + b);
        assert(trimmed_lines(a + b) =~= trimmed_lines(a) + trimmed_lines(b));
    }
}

/// Ending the last line of a text does not change what it settles to.
pub proof fn lemma_settled_ended(s: Seq<char>)
    ensures
        trim(trimmed_lines(ended_lines(s))) == settled(s),
    decreases s.len(),
{
    reveal_strlit("\n");
    let nl = "\n"@;
    if ends_line(s) {
        lemma_lines_concat(s, nl);
        lemma_lines_one(Seq::empty());
        assert(Seq::<char>::empty() + nl =~= nl);
        let last = seq![chomp(Seq::<char>::empty())];
        assert(lines(nl) == last);
        lemma_trimmed_lines_concat(lines(s), last);
        lemma_trim_same(Seq::empty());
        assert(trimmed_lines(last) =~= nl) by {
            assert(last.drop_first() =~= Seq::<Seq<char>>::empty());
            assert(trimmed_lines(Seq::<Seq<char>>::empty()) =~= Seq::<char>::empty());
        }
        assert(is_blank(nl));
        lemma_trim_end_pad(trimmed_lines(lines(s)), nl);
    } else {
        lemma_trimmed_lines_unended(s);
    }
}

pub proof fn lemma_trimmed_lines_unended(s: Seq<char>)
    requires
        !ends_line(s),
    ensures
        trimmed_lines(lines(s + "\n"@)) == trimmed_lines(lines(s)),
    decreases s.len(),
{
    reveal_strlit("\n");
    let nl = "\n"@;
    lemma_index_of(s, '\n');
    let i = index_of(s, '\n');
    if i == s.len() {
        assert(no_break(s)) by {
            assert forall|k: int| 0 <= k < s.len() implies s[k] != '\n' by {}
        }
        lemma_lines_one(s);
        lemma_trim_chomp(s);
        assert(seq![chomp(s)].drop_first() =~= seq![s].drop_first());
        assert(trimmed_lines(seq![chomp(s)]) == trimmed_lines(seq![s]));
    } else {
        let l = s.take(i);
        let rest = s.skip(i + 1);
        assert(rest.len() > 0 && rest.last() == s.last()) by {
            if rest.len() == 0 {
                assert(s.last() == s[i]);
            }
        }
        lemma_trimmed_lines_unended(rest);
        assert forall|k: int| 0 <= k < i implies (s + nl)[k] != '\n' by {
            assert((s + nl)[k] == s[k]);
        }
        lemma_index_of_at(s + nl, '\n', i);
        assert((s + nl).take(i) =~= l);
        assert((s + nl).skip(i + 1) =~= rest + nl);
        let a = seq![chomp(l)];
        assert(lines(s) == a + lines(rest));
        assert(lines(s + nl) == a + lines(rest + nl));
        lemma_trimmed_lines_concat(a, lines(rest));
        lemma_trimmed_lines_concat(a, lines(rest + nl));
    }
}

/// A tidy text is already settled.
pub proof fn lemma_tidy_settled(s: Seq<char>)
    requires
        tidy(s),
    ensures
        settled(s) == s,
{
    reveal_strlit("\n");
    if s.len() == 0 {
        assert(trimmed_lines(lines(s)) =~= Seq::<char>::empty());
        lemma_trim_same(s);
        assert(settled(s) =~= s);
    } else {
        lemma_line_tidy(s);
        lemma_trim_end_pad(s, "\n"@);
        assert(!is_white_space(s[0])) by {
            if is_white_space(s[0]) {
                assert(s[0] != '\n');
            }
        }
        assert(!is_white_space(s.last())) by {
            if is_white_space(s[s.len() - 1]) {
                assert(s[s.len() - 1] != '\n');
            }
        }
        lemma_trim_same(s);
    }
}

proof fn lemma_line_tidy(s: Seq<char>)
    requires
        line_tidy(s),
        !ends_line(s),
    ensures
        trimmed_lines(lines(s)) == s + "\n"@,
    decreases s.len(),
{
    reveal_strlit("\n");
    lemma_index_of(s, '\n');
    let i = index_of(s, '\n');
    let l = s.take(i);
    assert(l.len() > 0 ==> !is_white_space(l[0]) && !is_white_space(l.last())) by {
        if l.len() > 0 {
            assert(l[0] == s[0] && s[0] != '\n');
            assert(l.last() == s[i - 1] && s[i - 1] != '\n');
            assert(i < s.len() ==> s[i] == '\n');
        }
    }
    lemma_trim_same(l);
    assert(chomp(l) == l);
    if i == s.len() {
        assert(l =~= s);
        assert(lines(s) == seq![s]);
        assert(seq![s].drop_first() =~= Seq::<Seq<char>>::empty());
        assert(trimmed_lines(Seq::<Seq<char>>::empty()) =~= Seq::<char>::empty());
        assert(trimmed_lines(seq![s]) =~= s + "\n"@);
    } else {
        let rest = s.skip(i + 1);
        assert(rest.len() > 0 && rest.last() == s.last()) by {
            if rest.len() == 0 {
                assert(s.last() == s[i]);
            }
        }
        assert(line_tidy(rest)) by {
            assert forall|k: int|
                0 <= k < rest.len() && #[trigger] is_white_space(rest[k]) && rest[k]
                    != '\n' implies 0 < k < rest.len() - 1 && rest[k - 1] != '\n' && rest[k + 1]
                != '\n' by {
                assert(rest[k] == s[k + i + 1]);
            }
        }
        lemma_line_tidy(rest);
        assert(lines(s) == seq![l] + lines(rest));
        assert(lines(s).drop_first() =~= lines(rest));
        assert(trimmed_lines(lines(s)) =~= l + "\n"@ + (rest + "\n"@));
        assert(s =~= l + "\n"@ + rest);
    }
}

/// The lines of a text whose last line is then ended: at most the carriage
/// return of that line goes.
pub proof fn lemma_lines_ended(s: Seq<char>)
    requires
        !ends_line(s),
    ensures
        lines(s).len() > 0,
        lines(s + "\n"@) == lines(s).drop_last().push(chomp(lines(s).last())),
    decreases s.len(),
{
    reveal_strlit("\n");
    let nl = "\n"@;
    lemma_index_of(s, '\n');
    let i = index_of(s, '\n');
    if i == s.len() {
        assert(no_break(s)) by {
            assert forall|k: int| 0 <= k < s.len() implies s[k] != '\n' by {}
        }
        lemma_lines_one(s);
        assert(lines(s) =~= seq![s]);
        assert(seq![s].drop_last().push(chomp(s)) =~= seq![chomp(s)]);
    } else {
        let l = s.take(i);
        let rest = s.skip(i + 1);
        assert(rest.len() > 0 && rest.last() == s.last()) by {
            if rest.len() == 0 {
                assert(s.last() == s[i]);
            }
        }
        lemma_lines_ended(rest);
        assert forall|k: int| 0 <= k < i implies (s + nl)[k] != '\n' by {
            assert((s + nl)[k] == s[k]);
        }
        lemma_index_of_at(s + nl, '\n', i);
        assert((s + nl).take(i) =~= l);
        assert((s + nl).skip(i + 1) =~= rest + nl);
        let a = seq![chomp(l)];
        assert(lines(s) == a + lines(rest));
        assert(lines(s + nl) == a + lines(rest + nl));
        assert(lines(s).drop_last().push(chomp(lines(s).last())) =~= a + lines(
            rest,
        ).drop_last().push(chomp(lines(rest).last())));
    }
}

/// Trimming the start of a text drops its blank front.
pub proof fn lemma_trim_start_split(s: Seq<char>) -> (k: int)
    ensures
        0 <= k <= s.len(),
        trim_start(s) == s.skip(k),
        forall|i: int| 0 <= i < k ==> is_white_space(#[trigger] s[i]),
        k == s.len() || !is_white_space(s[k]),
    decreases s.len(),
{
    if s.len() > 0 && is_white_space(s[0]) {
        let t = s.drop_first();
        let k = lemma_trim_start_split(t);
        assert(t.skip(k) =~= s.skip(k + 1));
        assert forall|i: int| 0 <= i < k + 1 implies is_white_space(#[trigger] s[i]) by {
            if i > 0 {
                assert(t[i - 1] == s[i]);
            }
        }
        k + 1
    } else {
        assert(s.skip(0) =~= s);
        0
    }
}

/// Trimming the start of a blank text before a solid one.
pub proof fn lemma_trim_start_past(w: Seq<char>, s: Seq<char>)
    requires
        is_blank(w),
        s.len() > 0,
        !is_white_space(s[0]),
    ensures
        trim_start(w + s) == s,
{
    let x = w + s;
    assert forall|i: int| 0 <= i < w.len() implies is_white_space(#[trigger] x[i]) by {
        assert(x[i] == w[i]);
    }
    lemma_trim_start_at(x, w.len() as int);
    assert(x.skip(w.len() as int) =~= s);
}

// ── Splitting at a character ───────────────────────────────────────────────

pub proof fn lemma_find_char(s: Seq<char>, c: char)
    ensures
        find(s, seq![c]) == if index_of(s, c) < s.len() {
            Some(index_of(s, c))
        } else {
            None
        },
{
    lemma_index_of(s, c);
    let k = index_of(s, c);
    assert forall|i: int| 0 <= i <= s.len() implies (#[trigger] has_prefix(s.skip(i), seq![c])
        <==> i < s.len() && s[i] == c) by {
        if i < s.len() {
            assert(s.skip(i).take(1)[0] == s[i]);
            if s[i] == c {
                assert(s.skip(i).take(1) =~= seq![c]);
            }
        }
    }
    if k < s.len() {
        lemma_find_at(s, seq![c], k);
    } else {
        lemma_find_none(s, seq![c]);
    }
}

/// A piece without the separator in front of a text.
pub proof fn lemma_split_cons(a: Seq<char>, c: char, b: Seq<char>)
    requires
        !a.contains(c),
    ensures
        split(a + seq![c] + b, seq![c]) == seq![a] + split(b, seq![c]),
{
    let x = a + seq![c] + b;
    let n = a.len() as int;
    assert forall|k: int| 0 <= k < n implies x[k] != c by {
        assert(a.contains(a[k]));
    }
    assert(x[n] == c);
    lemma_index_of_at(x, c, n);
    lemma_find_char(x, c);
    assert(x.take(n) =~= a);
    assert(x.skip(n + 1) =~= b);
}

pub proof fn lemma_split_one(a: Seq<char>, c: char)
    requires
        !a.contains(c),
    ensures
        split(a, seq![c]) == seq![a],
{
    assert forall|k: int| 0 <= k < a.len() implies a[k] != c by {
        assert(a.contains(a[k]));
    }
    lemma_index_of_at(a, c, a.len() as int);
    lemma_find_char(a, c);
}

pub proof fn lemma_filter_map_concat<A, B>(a: Seq<A>, b: Seq<A>, f: spec_fn(A) -> Option<B>)
    ensures
        (a + b).filter_map(f) == a.filter_map(f) + b.filter_map(f),
    decreases b.len(),
{
    if b.len() == 0 {
        assert(a + b =~= a);
        assert(a.filter_map(f) + b.filter_map(f) =~= a.filter_map(f));
    } else {
        assert((a + b).drop_last() =~= a + b.drop_last());
        lemma_filter_map_concat(a, b.drop_last(), f);
        assert((a + b).filter_map(f) =~= a.filter_map(f) + b.filter_map(f));
    }
}

// ── Trimmed lines ──────────────────────────────────────────────────────────

pub proof fn lemma_solid_concat(x: Seq<char>, y: Seq<char>)
    requires
        ends_line(x),
    ensures
        solid_lines(x + y) == solid_lines(x) + solid_lines(y),
{
    lemma_lines_concat(x, y);
    lemma_filter_map_concat(lines(x), lines(y), nonblank());
}

pub proof fn lemma_nonblank_one(l: Seq<char>)
    ensures
        seq![l].filter_map(nonblank()) == if trim(l).len() > 0 {
            seq![trim(l)]
        } else {
            Seq::empty()
        },
{
    let s = seq![l];
    assert(s.drop_last() =~= Seq::<Seq<char>>::empty());
    assert(s.drop_last().filter_map(nonblank()) =~= Seq::<Seq<char>>::empty());
    assert(s.filter_map(nonblank()) =~= if trim(l).len() > 0 {
        seq![trim(l)]
    } else {
        Seq::empty()
    });
}

pub proof fn lemma_solid_one(l: Seq<char>)
    requires
        no_break(l),
    ensures
        solid_lines(l + "\n"@) == if trim(l).len() > 0 {
            seq![trim(l)]
        } else {
            Seq::empty()
        },
{
    lemma_lines_one(l);
    lemma_trim_chomp(l);
    lemma_nonblank_one(chomp(l));
}

pub proof fn lemma_solid_blank(b: Seq<char>)
    requires
        is_blank(b),
    ensures
        solid_lines(b) == Seq::<Seq<char>>::empty(),
    decreases b.len(),
{
    if b.len() == 0 {
        assert(lines(b) =~= Seq::<Seq<char>>::empty());
    } else {
        lemma_index_of(b, '\n');
        let i = index_of(b, '\n');
        if i < b.len() {
            let l = b.take(i);
            let rest = b.skip(i + 1);
            assert(is_blank(l));
            assert(is_blank(rest));
            lemma_trim_blank(l);
            lemma_trim_chomp(l);
            lemma_nonblank_one(chomp(l));
            lemma_solid_blank(rest);
            lemma_filter_map_concat(seq![chomp(l)], lines(rest), nonblank());
        } else {
            lemma_trim_blank(b);
            lemma_nonblank_one(b);
        }
    }
}

/// Blank text at the end adds no line but blank ones.
pub proof fn lemma_solid_pad(x: Seq<char>, b: Seq<char>)
    requires
        is_blank(b),
    ensures
        solid_lines(x + b) == solid_lines(x),
    decreases x.len(),
{
    if x.len() == 0 {
        assert(x + b =~= b);
        lemma_solid_blank(b);
        lemma_solid_blank(x);
    } else {
        lemma_index_of(x, '\n');
        let i = index_of(x, '\n');
        if i < x.len() {
            let rest = x.skip(i + 1);
            let l = seq![chomp(x.take(i))];
            assert forall|k: int| 0 <= k < i implies (x + b)[k] != '\n' by {
                assert((x + b)[k] == x[k]);
            }
            lemma_index_of_at(x + b, '\n', i);
            assert((x + b).take(i) =~= x.take(i));
            assert((x + b).skip(i + 1) =~= rest + b);
            lemma_solid_pad(rest, b);
            lemma_filter_map_concat(l, lines(rest), nonblank());
            lemma_filter_map_concat(l, lines(rest + b), nonblank());
        } else {
            assert(lines(x) == seq![x]);
            lemma_nonblank_one(x);
            lemma_index_of(b, '\n');
            let j = index_of(b, '\n');
            let y = x + b;
            let n = x.len() as int;
            assert forall|k: int| 0 <= k < n + j implies y[k] != '\n' by {
                if k < n {
                    assert(y[k] == x[k]);
                } else {
                    assert(y[k] == b[k - n]);
                }
            }
            lemma_index_of_at(y, '\n', n + j);
            let b1 = b.take(j);
            assert(is_blank(b1));
            lemma_trim_end_pad(x, b1);
            if j < b.len() {
                assert(y.take(n + j) =~= x + b1);
                let rest = b.skip(j + 1);
                assert(y.skip(n + j + 1) =~= rest);
                assert(is_blank(rest));
                lemma_trim_chomp(x + b1);
                lemma_nonblank_one(chomp(x + b1));
                lemma_solid_blank(rest);
                lemma_filter_map_concat(seq![chomp(x + b1)], lines(rest), nonblank());
                assert(solid_lines(y) =~= solid_lines(x));
            } else {
                assert(b1 =~= b);
                lemma_nonblank_one(y);
            }
        }
    }
}

/// A text ends where its last solid character stands, and blank text follows.
pub proof fn lemma_trim_end_split(s: Seq<char>) -> (b: Seq<char>)
    ensures
        is_blank(b),
        s == trim_end(s) + b,
{
    let (i, j) = lemma_core_exists(s);
    let k = if i < j { j } else { 0 };
    lemma_trim_end_at(s, k);
    assert(s =~= s.take(k) + s.skip(k));
    s.skip(k)
}

// ── Trimmed texts ──────────────────────────────────────────────────────────

/// Trimming brings no character in.
pub proof fn lemma_trim_lacks(s: Seq<char>, c: char)
    requires
        !s.contains(c),
    ensures
        !trim(s).contains(c),
{
    let (i, j) = lemma_core_exists(s);
    lemma_trim_is_core(s, i, j);
    assert forall|k: int| 0 <= k < trim(s).len() implies trim(s)[k] != c by {
        assert(s.contains(s[i + k]));
    }
}

/// Where in a text its trimming stands.
proof fn lemma_trim_place(s: Seq<char>) -> (r: (int, int))
    ensures
        0 <= r.0 <= r.1 <= s.len(),
        trim(s) == s.subrange(r.0, r.1),
        r.0 < r.1 ==> !is_white_space(s[r.0]) && !is_white_space(s[r.1 - 1]),
{
    let (i, j) = lemma_core_exists(s);
    lemma_trim_is_core(s, i, j);
    (i, j)
}

/// Trimming a text of tidy lines makes it tidy.
pub proof fn lemma_trim_tidies(s: Seq<char>)
    requires
        line_tidy(s),
    ensures
        tidy(trim(s)),
{
    let (i, j) = lemma_trim_place(s);
    let t = trim(s);
    assert forall|k: int|
        0 <= k < t.len() && #[trigger] is_white_space(t[k]) && t[k] != '\n' implies 0 < k < t.len()
        - 1 && t[k - 1] != '\n' && t[k + 1] != '\n' by {
        assert(is_white_space(s[i + k]));
    }
}

/// One more trimmed line keeps the lines tidy.
pub proof fn lemma_line_tidy_push(c: Seq<char>, l: Seq<char>)
    requires
        line_tidy(c),
        ends_line(c),
        no_break(l),
        l.len() > 0 ==> !is_white_space(l[0]) && !is_white_space(l.last()),
    ensures
        line_tidy(c + (l + "\n"@)),
        ends_line(c + (l + "\n"@)),
{
    reveal_strlit("\n");
    let s = c + (l + "\n"@);
    let n = c.len() as int;
    assert(s.last() == '\n');
    assert forall|i: int|
        0 <= i < s.len() && #[trigger] is_white_space(s[i]) && s[i] != '\n' implies 0 < i < s.len()
        - 1 && s[i - 1] != '\n' && s[i + 1] != '\n' by {
        if i < n {
            assert(c[i] == s[i]);
            assert(c[i - 1] == s[i - 1] && c[i + 1] == s[i + 1]);
        } else {
            let k = i - n;
            assert(k < l.len());
            assert(l[k] == s[i]);
            assert(k != 0 && k != l.len() - 1);
            assert(l.contains(l[k - 1]) && l.contains(l[k + 1]));
            assert(s[i - 1] == l[k - 1] && s[i + 1] == l[k + 1]);
        }
    }
}

/// Each line of a text is, but for white space, a line of the text with white
/// space in front.
proof fn lemma_lines_behind(w: Seq<char>, t: Seq<char>, k: int) -> (m: int)
    requires
        is_blank(w),
        0 <= k < ended_lines(t).len(),
    ensures
        0 <= m < ended_lines(w + t).len(),
        trim(ended_lines(w + t)[m]) == trim(ended_lines(t)[k]),
    decreases w.len(),
{
    reveal_strlit("\n");
    let nl = "\n"@;
    lemma_index_of(w, '\n');
    let i = index_of(w, '\n');
    if i < w.len() {
        let l = w.take(i);
        let rest = w.skip(i + 1);
        assert(no_break(l)) by {
            assert forall|q: int| 0 <= q < l.len() implies l[q] != '\n' by {
                assert(l[q] == w[q]);
            }
        }
        assert(is_blank(rest)) by {
            assert forall|q: int| 0 <= q < rest.len() implies is_white_space(
                #[trigger] rest[q],
            ) by {
                assert(rest[q] == w[q + i + 1]);
            }
        }
        let m = lemma_lines_behind(rest, t, k);
        lemma_lines_cons(l, rest + t + nl);
        assert(w + t + nl =~= l + nl + (rest + t + nl));
        assert(ended_lines(w + t)[m + 1] == ended_lines(rest + t)[m]);
        m + 1
    } else {
        lemma_index_of(t + nl, '\n');
        let j = index_of(t + nl, '\n');
        assert((t + nl).last() == '\n');
        let l = (t + nl).take(j);
        let rest = (t + nl).skip(j + 1);
        assert(no_break(l)) by {
            assert forall|q: int| 0 <= q < l.len() implies l[q] != '\n' by {
                assert(l[q] == (t + nl)[q]);
            }
        }
        assert(no_break(w + l)) by {
            assert forall|q: int| 0 <= q < (w + l).len() implies (w + l)[q] != '\n' by {
                if q >= w.len() {
                    assert(l.contains(l[q - w.len()]));
                }
            }
        }
        assert(t + nl =~= l + nl + rest);
        assert(w + t + nl =~= (w + l) + nl + rest);
        lemma_lines_cons(l, rest);
        lemma_lines_cons(w + l, rest);
        if k == 0 {
            lemma_trim_chomp(l);
            lemma_trim_chomp(w + l);
            lemma_trim_start_pad(w, l);
        }
        k
    }
}

/// Each line of a text is, but for white space, a line of the text with white
/// space behind.
proof fn lemma_lines_before(t: Seq<char>, w: Seq<char>, k: int)
    requires
        is_blank(w),
        0 <= k < ended_lines(t).len(),
    ensures
        k < ended_lines(t + w).len(),
        trim(ended_lines(t + w)[k]) == trim(ended_lines(t)[k]),
    decreases t.len(),
{
    reveal_strlit("\n");
    let nl = "\n"@;
    lemma_index_of(t, '\n');
    let i = index_of(t, '\n');
    let l = t.take(i);
    assert(no_break(l)) by {
        assert forall|q: int| 0 <= q < l.len() implies l[q] != '\n' by {
            assert(l[q] == t[q]);
        }
    }
    if i < t.len() {
        let rest = t.skip(i + 1);
        assert(t + nl =~= l + nl + (rest + nl));
        assert(t + w + nl =~= l + nl + (rest + w + nl));
        lemma_lines_cons(l, rest + nl);
        lemma_lines_cons(l, rest + w + nl);
        if k > 0 {
            lemma_lines_before(rest, w, k - 1);
        }
    } else {
        assert(l =~= t);
        lemma_lines_one(t);
        lemma_index_of(w + nl, '\n');
        let j = index_of(w + nl, '\n');
        assert((w + nl).last() == '\n');
        let v = (w + nl).take(j);
        let rest = (w + nl).skip(j + 1);
        assert(is_blank(v)) by {
            assert forall|q: int| 0 <= q < v.len() implies is_white_space(#[trigger] v[q]) by {
                assert(v[q] == w[q]);
            }
        }
        assert(no_break(t + v)) by {
            assert forall|q: int| 0 <= q < (t + v).len() implies (t + v)[q] != '\n' by {
                if q < t.len() {
                    assert(l.contains(l[q]));
                } else {
                    assert((t + v)[q] == (w + nl)[q - t.len()]);
                }
            }
        }
        assert(w + nl =~= v + nl + rest);
        assert(t + w + nl =~= (t + v) + nl + rest);
        lemma_lines_cons(t + v, rest);
        lemma_trim_chomp(t);
        lemma_trim_chomp(t + v);
        lemma_trim_end_pad(t, v);
    }
}

/// Each line of a trimmed text is, but for white space, a line of the text.
pub proof fn lemma_lines_of_trim(s: Seq<char>, k: int) -> (m: int)
    requires
        0 <= k < ended_lines(trim(s)).len(),
    ensures
        0 <= m < ended_lines(s).len(),
        trim(ended_lines(s)[m]) == trim(ended_lines(trim(s))[k]),
{
    let (i, j) = lemma_core_exists(s);
    lemma_trim_is_core(s, i, j);
    let front = s.take(i);
    let back = s.skip(j);
    let t = trim(s);
    assert(is_blank(front)) by {
        assert forall|q: int| 0 <= q < front.len() implies is_white_space(#[trigger] front[q]) by {
            assert(front[q] == s[q]);
        }
    }
    assert(is_blank(back)) by {
        assert forall|q: int| 0 <= q < back.len() implies is_white_space(#[trigger] back[q]) by {
            assert(back[q] == s[q + j]);
        }
    }
    lemma_lines_before(t, back, k);
    let m = lemma_lines_behind(front, t + back, k);
    assert(front + (t + back) =~= s);
    m
}

/// The pieces between separators hold none, nor anything else that is not there.
pub proof fn lemma_split_lacks(s: Seq<char>, c: char, d: char, i: int)
    requires
        0 <= i < split(s, seq![c]).len(),
        d == c || !s.contains(d),
    ensures
        !split(s, seq![c])[i].contains(d),
    decreases s.len(),
{
    lemma_index_of(s, c);
    lemma_find_char(s, c);
    let k = index_of(s, c);
    if k < s.len() {
        let rest = s.skip(k + 1);
        assert(split(s, seq![c]) == seq![s.take(k)] + split(rest, seq![c]));
        if i == 0 {
            assert forall|q: int| 0 <= q < k implies s.take(k)[q] != d by {
                assert(s.contains(s[q]));
            }
        } else {
            if d != c {
                assert forall|q: int| 0 <= q < rest.len() implies rest[q] != d by {
                    assert(s.contains(s[q + k + 1]));
                }
            }
            lemma_split_lacks(rest, c, d, i - 1);
        }
    } else {
        assert(split(s, seq![c]) == seq![s]);
    }
}

/// What is kept of a list of texts is trimmed and not blank; keeping it again
/// changes nothing.
pub proof fn lemma_nonblank_kept(ls: Seq<Seq<char>>)
    ensures
        ls.filter_map(nonblank()).filter_map(nonblank()) == ls.filter_map(nonblank()),
    decreases ls.len(),
{
    if ls.len() > 0 {
        let rest = ls.drop_last();
        lemma_nonblank_kept(rest);
        let kept = rest.filter_map(nonblank());
        let t = trim(ls.last());
        lemma_trim_ends(ls.last());
        lemma_trim_same(t);
        if t.len() > 0 {
            assert(ls.filter_map(nonblank()) == kept + seq![t]);
            lemma_filter_map_concat(kept, seq![t], nonblank());
            lemma_nonblank_one(t);
        }
    }
}

/// What is kept of a list of texts lacks what all of them lack.
pub proof fn lemma_nonblank_lacks(ls: Seq<Seq<char>>, c: char, i: int)
    requires
        forall|k: int| 0 <= k < ls.len() ==> !(#[trigger] ls[k]).contains(c),
        0 <= i < ls.filter_map(nonblank()).len(),
    ensures
        !ls.filter_map(nonblank())[i].contains(c),
    decreases ls.len(),
{
    if ls.len() > 0 {
        let rest = ls.drop_last();
        let kept = rest.filter_map(nonblank());
        if i < kept.len() {
            assert forall|k: int| 0 <= k < rest.len() implies !(#[trigger] rest[k]).contains(c) by {
                assert(rest[k] == ls[k]);
            }
            lemma_nonblank_lacks(rest, c, i);
        } else {
            assert(!ls[ls.len() - 1].contains(c));
            lemma_trim_lacks(ls.last(), c);
        }
    }
}

} // verus!
