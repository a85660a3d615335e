//! The functions of the standard library and of other crates that the library
//! relies on, with what it believes of each. Nothing in this file is proved;
//! everything else in the crate is.
use vstd::prelude::*;

use crate::text::{has_prefix, is_white_space, trim_start};

verus! {

// ── Strings ────────────────────────────────────────────────────────────────

/// `String::push`: the string grows by the given character at its end.
pub assume_specification[ String::push ](s: &mut String, c: char)
    ensures
        final(s)@ == old(s)@.push(c),
;

/// Characters whose lower case the library knows without asking: ASCII, and
/// the CJK unified ideographs, which have no case.
pub open spec fn plainly_cased(c: char) -> bool {
    (c as u32) < 0x80 || 0x4e00 <= (c as u32) <= 0x9fff
}

/// The lower case of one plainly cased character.
pub open spec fn plain_lower(c: char) -> char {
    if 'A' <= c <= 'Z' {
        (c as u32 + 32) as char
    } else {
        c
    }
}

/// What `str::to_lowercase` returns for `s`.
pub uninterp spec fn unicode_lowercase(s: Seq<char>) -> Seq<char>;

/// The lower case of `s`: character by character where every character is
/// plainly cased, else `mapped`.
pub open spec fn lowercase_or(s: Seq<char>, mapped: Seq<char>) -> Seq<char> {
    if forall|i: int| 0 <= i < s.len() ==> plainly_cased(#[trigger] s[i]) {
        s.map_values(|c: char| plain_lower(c))
    } else {
        mapped
    }
}

/// The lower case of `s`.
pub open spec fn lowercase(s: Seq<char>) -> Seq<char> {
    lowercase_or(s, unicode_lowercase(s))
}

/// `str::to_lowercase`. ASCII letters are mapped one by one and characters of
/// scripts without case stay; any other string is mapped by Unicode's rules,
/// which the contract names and does not write out.
#[verifier::external_body]
pub(crate) fn to_lower(s: &str) -> (r: String)
    ensures
        r@ == lowercase_or(s@, unicode_lowercase(s@)),
{
    s.to_lowercase()
}

/// What `format!("{:?}", s)` gives for a string `s`.
pub uninterp spec fn debug_text(s: Seq<char>) -> Seq<char>;

/// Characters that the `Debug` form of a string shows as they are.
pub open spec fn shown_as_is(c: char) -> bool {
    ' ' <= c <= '~' && c != '"' && c != '\\'
}

/// The `Debug` form of `s`: `s` in quotation marks where every character is
/// shown as it is, else `escaped`.
pub open spec fn quoted_or(s: Seq<char>, escaped: Seq<char>) -> Seq<char> {
    if forall|i: int| 0 <= i < s.len() ==> shown_as_is(#[trigger] s[i]) {
        seq!['"'] + s + seq!['"']
    } else {
        escaped
    }
}

/// The `Debug` form of `s`.
pub open spec fn quoted(s: Seq<char>) -> Seq<char> {
    quoted_or(s, debug_text(s))
}

/// The `Debug` formatting of a `str`: quotation marks round it, and printable
/// ASCII other than quotation marks and backslashes as it is. Which other
/// characters are escaped, and how, the contract names and does not write out.
#[verifier::external_body]
pub(crate) fn debug_quoted(s: &str) -> (r: String)
    ensures
        r@ == quoted_or(s@, debug_text(s@)),
{
    format!("{:?}", s)
}

// ── Classes of characters ──────────────────────────────────────────────────

/// What `char::is_alphanumeric` returns for a character beyond ASCII.
pub uninterp spec fn unicode_alphanumeric(c: char) -> bool;

/// Letters and digits: those of ASCII, and beyond it those that `other` tells.
pub open spec fn alphanumeric_or(c: char, other: bool) -> bool {
    if (c as u32) < 0x80 {
        'a' <= c <= 'z' || 'A' <= c <= 'Z' || '0' <= c <= '9'
    } else {
        other
    }
}

pub open spec fn alphanumeric(c: char) -> bool {
    alphanumeric_or(c, unicode_alphanumeric(c))
}

/// `char::is_alphanumeric`: in ASCII, the letters and digits; beyond it, what
/// Unicode's tables say, which the contract names.
#[verifier::external_body]
pub(crate) fn is_alphanumeric(c: char) -> (r: bool)
    ensures
        r == alphanumeric_or(c, unicode_alphanumeric(c)),
{
    c.is_alphanumeric()
}

/// What `char::is_uppercase` returns for a character beyond ASCII.
pub uninterp spec fn unicode_uppercase(c: char) -> bool;

/// Capital letters: those of ASCII, and beyond it those that `other` tells.
pub open spec fn uppercase_or(c: char, other: bool) -> bool {
    if (c as u32) < 0x80 {
        'A' <= c <= 'Z'
    } else {
        other
    }
}

pub open spec fn uppercase(c: char) -> bool {
    uppercase_or(c, unicode_uppercase(c))
}

/// `char::is_uppercase`: in ASCII, `A` to `Z`; beyond it, what Unicode's tables
/// say, which the contract names.
#[verifier::external_body]
pub(crate) fn is_uppercase(c: char) -> (r: bool)
    ensures
        r == uppercase_or(c, unicode_uppercase(c)),
{
    c.is_uppercase()
}

/// What `char::is_lowercase` returns for a character beyond ASCII.
pub uninterp spec fn unicode_small(c: char) -> bool;

/// Small letters: those of ASCII, and beyond it those that `other` tells.
pub open spec fn small_or(c: char, other: bool) -> bool {
    if (c as u32) < 0x80 {
        'a' <= c <= 'z'
    } else {
        other
    }
}

pub open spec fn small(c: char) -> bool {
    small_or(c, unicode_small(c))
}

/// `char::is_lowercase`: in ASCII, `a` to `z`; beyond it, what Unicode's tables
/// say, which the contract names.
#[verifier::external_body]
pub(crate) fn is_small(c: char) -> (r: bool)
    ensures
        r == small_or(c, unicode_small(c)),
{
    c.is_lowercase()
}

// ── Line patterns ──────────────────────────────────────────────────────────

/// `- [Todo] [TASK-000] description`, where the id may be left out.
pub const TASK_LINE: &'static str =
    "^-\\s*\\[(Todo|InProgress|Done|Blocked)\\]\\s*(?:\\[(TASK-\\d{3})\\]\\s*)?(.*)";

/// `- [ ] description`.
pub const CHECKBOX_LINE: &'static str = "^-\\s*\\[\\s*\\]\\s*(.*)";

/// `- description`.
pub const BULLET_LINE: &'static str = "^-\\s+(.*)";

/// `- [Done] [id]` and whatever follows; also for the other final statuses.
pub const ARCHIVED_LINE: &'static str =
    "^-\\s*\\[(Done|Superseded|Cancelled)\\]\\s*\\[([A-Za-z0-9_-]+)\\]";

/// Whether `c`, which is not ASCII, is a decimal digit by Unicode's tables, so
/// that the class `\d` of a `regex::Regex` matches it.
pub uninterp spec fn unicode_digit(c: char) -> bool;

/// The characters that the class `\d` matches: `0` to `9`, and those beyond
/// ASCII that `other` tells.
pub open spec fn is_digit(c: char, other: spec_fn(char) -> bool) -> bool {
    if (c as u32) < 0x80 {
        '0' <= c <= '9'
    } else {
        other(c)
    }
}

/// What follows a dash, optional white space and an opening bracket.
pub open spec fn after_open_bracket(t: Seq<char>) -> Option<Seq<char>> {
    let u = trim_start(t.skip(1));
    if t.len() > 0 && t[0] == '-' && u.len() > 0 && u[0] == '[' {
        Some(u.skip(1))
    } else {
        None
    }
}

/// The word of `words` that stands, with a closing bracket after it, at the
/// start of `u`.
pub open spec fn bracketed_word(u: Seq<char>, words: Seq<Seq<char>>) -> Option<Seq<char>>
    decreases words.len(),
{
    if words.len() == 0 {
        None
    } else if has_prefix(u, words[0] + seq![']']) {
        Some(words[0])
    } else {
        bracketed_word(u, words.drop_first())
    }
}

/// Whether `r` begins with `[TASK-` and three digits and a closing bracket.
pub open spec fn has_task_id(r: Seq<char>, other: spec_fn(char) -> bool) -> bool {
    &&& r.len() >= 10
    &&& r.take(6) == "[TASK-"@
    &&& is_digit(r[6], other)
    &&& is_digit(r[7], other)
    &&& is_digit(r[8], other)
    &&& r[9] == ']'
}

pub open spec fn task_line_words() -> Seq<Seq<char>> {
    seq!["Todo"@, "InProgress"@, "Done"@, "Blocked"@]
}

/// The groups of `TASK_LINE` in a line: the line, the status, the id and the
/// rest; `other` tells the digits beyond ASCII.
pub open spec fn task_line_groups_by(
    t: Seq<char>,
    other: spec_fn(char) -> bool,
) -> Option<Seq<Option<Seq<char>>>> {
    match after_open_bracket(t) {
        None => None,
        Some(u) => match bracketed_word(u, task_line_words()) {
            None => None,
            Some(w) => {
                let r = trim_start(u.skip(w.len() as int + 1));
                if has_task_id(r, other) {
                    Some(seq![Some(t), Some(w), Some(r.subrange(1, 9)), Some(trim_start(r.skip(10)))])
                } else {
                    Some(seq![Some(t), Some(w), None, Some(r)])
                }
            },
        },
    }
}

/// The groups of `TASK_LINE` in a line.
pub open spec fn task_line_groups(t: Seq<char>) -> Option<Seq<Option<Seq<char>>>> {
    task_line_groups_by(t, |c: char| unicode_digit(c))
}

/// The groups of `CHECKBOX_LINE` in a line: the line and what follows the box.
pub open spec fn checkbox_line_groups(t: Seq<char>) -> Option<Seq<Option<Seq<char>>>> {
    match after_open_bracket(t) {
        None => None,
        Some(u) => {
            let v = trim_start(u);
            if v.len() > 0 && v[0] == ']' {
                Some(seq![Some(t), Some(trim_start(v.skip(1)))])
            } else {
                None
            }
        },
    }
}

/// The groups of `BULLET_LINE` in a line: the line and what follows the dash.
pub open spec fn bullet_line_groups(t: Seq<char>) -> Option<Seq<Option<Seq<char>>>> {
    if t.len() > 1 && t[0] == '-' && is_white_space(t[1]) {
        Some(seq![Some(t), Some(trim_start(t.skip(1)))])
    } else {
        None
    }
}

pub open spec fn is_id_char(c: char) -> bool {
    'A' <= c <= 'Z' || 'a' <= c <= 'z' || '0' <= c <= '9' || c == '_' || c == '-'
}

/// The length of the run of id characters at the start of `s`.
pub open spec fn id_len(s: Seq<char>) -> int
    decreases s.len(),
{
    if s.len() == 0 || !is_id_char(s[0]) {
        0
    } else {
        1 + id_len(s.drop_first())
    }
}

pub open spec fn archived_line_words() -> Seq<Seq<char>> {
    seq!["Done"@, "Superseded"@, "Cancelled"@]
}

/// The id in a line that `ARCHIVED_LINE` matches: a bracketed final status and
/// then a bracketed run of id characters.
pub open spec fn archived_line_id(t: Seq<char>) -> Option<Seq<char>> {
    match after_open_bracket(t) {
        None => None,
        Some(u) => match bracketed_word(u, archived_line_words()) {
            None => None,
            Some(w) => {
                let r = trim_start(u.skip(w.len() as int + 1));
                let id = r.skip(1);
                let n = id_len(id);
                if r.len() > 0 && r[0] == '[' && 0 < n < id.len() && id[n] == ']' {
                    Some(id.take(n))
                } else {
                    None
                }
            },
        },
    }
}

/// The texts of the groups of a match.
pub open spec fn groups_view(r: Option<Vec<Option<String>>>) -> Option<Seq<Option<Seq<char>>>> {
    match r {
        None => None,
        Some(groups) => Some(
            groups@.map_values(
                |g: Option<String>|
                    match g {
                        Some(s) => Some(s@),
                        None => None,
                    },
            ),
        ),
    }
}

/// `regex::Regex::new` on one of the patterns above and `Regex::captures` on one
/// line of text: the groups of the first match, the whole match being the first
/// group, or nothing where the pattern does not match.
///
/// In these patterns every repetition ends where its class of characters ends,
/// so what each group holds follows from the text before it.
#[verifier::external_body]
pub(crate) fn captures(pattern: &str, text: &str) -> (r: Option<Vec<Option<String>>>)
    requires
        pattern@ == TASK_LINE@ || pattern@ == CHECKBOX_LINE@ || pattern@ == BULLET_LINE@ || pattern@
            == ARCHIVED_LINE@,
        !text@.contains('\n'),
    ensures
        pattern@ == TASK_LINE@ ==> groups_view(r) == task_line_groups_by(
            text@,
            |c: char| unicode_digit(c),
        ),
        pattern@ == CHECKBOX_LINE@ ==> groups_view(r) == checkbox_line_groups(text@),
        pattern@ == BULLET_LINE@ ==> groups_view(r) == bullet_line_groups(text@),
        pattern@ == ARCHIVED_LINE@ ==> match archived_line_id(text@) {
            Some(id) => r matches Some(groups) && groups@.len() == 3 && groups@[2] is Some
                && groups@[2]->0@ == id,
            None => r is None,
        },
{
    let re = regex::Regex::new(pattern).unwrap();
    re.captures(text).map(
        |caps| caps.iter().map(|group| group.map(|m| m.as_str().to_string())).collect(),
    )
}

} // verus!
