//! `traps.md` and the traps it holds.
//!
//! ```markdown
//! ## Trap: {error_signature}
//!
//! ### Context
//! {context}
//!
//! ### Root Cause
//! {root_cause}
//!
//! ### Solution
//! {solution}
//!
//! ### Prevention
//! {prevention}
//! ```
//!
//! The sections `Root Cause` and `Prevention` are left out where they are empty.
use vstd::prelude::*;

use crate::engine::projection::ParseError;
use crate::lines::{
    ended_lines, ends_line, lemma_lines_concat, lemma_lines_one, lemma_settled_ended,
    lemma_tidy_settled, lemma_trim_after_word, lemma_trim_chomp, lemma_trim_end_pad,
    lemma_trim_same, lemma_trim_start_pad, no_break, settled, tidy, trimmed_lines,
};
use crate::models::{trap_views, Trap, TrapView};
use crate::text::{
    after_literal, append_chars, contents, has_prefix, is_blank, is_literal, is_white_space, join,
    joined, lines, lines_of, string_of, texts, to_chars, trim, trimmed,
};

verus! {

// ── What a text of traps means ─────────────────────────────────────────────

/// Where in a trap a line stands.
#[derive(Debug, Clone, Copy, PartialEq, Eq, Structural)]
pub enum TrapSection {
    Header,
    Context,
    RootCause,
    Solution,
    Prevention,
}

/// The section that a (trimmed) line opens.
pub open spec fn trap_section(line: Seq<char>) -> Option<TrapSection> {
    if line == "### Context"@ {
        Some(TrapSection::Context)
    } else if line == "### Root Cause"@ {
        Some(TrapSection::RootCause)
    } else if line == "### Solution"@ {
        Some(TrapSection::Solution)
    } else if line == "### Prevention"@ {
        Some(TrapSection::Prevention)
    } else {
        None
    }
}

pub open spec fn opens_trap(line: Seq<char>) -> bool {
    has_prefix(line, "## Trap:"@)
}

/// How far the reading of a text has come: the traps that are complete, the
/// one that is open with its raw section texts, and the section being read.
#[verifier::ext_equal]
pub struct TrapScan {
    pub traps: Seq<TrapView>,
    pub open: Option<TrapView>,
    pub section: TrapSection,
}

pub open spec fn trap_scan_start() -> TrapScan {
    TrapScan { traps: Seq::empty(), open: None, section: TrapSection::Header }
}

/// A trap about which only its signature is known.
pub open spec fn bare_trap(error_signature: Seq<char>) -> TrapView {
    TrapView {
        error_signature,
        context: Seq::empty(),
        solution: Seq::empty(),
        root_cause: Seq::empty(),
        prevention: Seq::empty(),
    }
}

/// `trap` with `more` at the end of one of its sections.
pub open spec fn extend_trap(trap: TrapView, section: TrapSection, more: Seq<char>) -> TrapView {
    match section {
        TrapSection::Header => trap,
        TrapSection::Context => TrapView { context: trap.context + more, ..trap },
        TrapSection::RootCause => TrapView { root_cause: trap.root_cause + more, ..trap },
        TrapSection::Solution => TrapView { solution: trap.solution + more, ..trap },
        TrapSection::Prevention => TrapView { prevention: trap.prevention + more, ..trap },
    }
}

/// `trap` with its section texts trimmed.
pub open spec fn close_trap(trap: TrapView) -> TrapView {
    TrapView {
        error_signature: trap.error_signature,
        context: trim(trap.context),
        solution: trim(trap.solution),
        root_cause: trim(trap.root_cause),
        prevention: trim(trap.prevention),
    }
}

/// The traps read so far, the open one included.
pub open spec fn traps_of(scan: TrapScan) -> Seq<TrapView> {
    match scan.open {
        Some(trap) => scan.traps.push(close_trap(trap)),
        None => scan.traps,
    }
}

/// Reading one more line.
pub open spec fn trap_step(scan: TrapScan, raw: Seq<char>) -> TrapScan {
    let line = trim(raw);
    if opens_trap(line) {
        TrapScan {
            traps: traps_of(scan),
            open: Some(bare_trap(trim(line.skip("## Trap:"@.len() as int)))),
            section: TrapSection::Header,
        }
    } else {
        match (scan.open, trap_section(line)) {
            (None, _) => scan,
            (Some(_), Some(section)) => TrapScan { section, ..scan },
            (Some(trap), None) => TrapScan {
                open: Some(extend_trap(trap, scan.section, line + "\n"@)),
                ..scan
            },
        }
    }
}

/// Reading the lines `ls` in turn.
pub open spec fn scan_traps(scan: TrapScan, ls: Seq<Seq<char>>) -> TrapScan
    decreases ls.len(),
{
    if ls.len() == 0 {
        scan
    } else {
        scan_traps(trap_step(scan, ls[0]), ls.drop_first())
    }
}

/// The traps that the text `md` holds.
pub open spec fn traps_in(md: Seq<char>) -> Seq<TrapView> {
    traps_of(scan_traps(trap_scan_start(), lines(md)))
}

/// A section under its heading, where there is something in it.
pub open spec fn optional_section(heading: Seq<char>, body: Seq<char>) -> Seq<char> {
    if body.len() == 0 {
        Seq::empty()
    } else {
        heading + body + "\n"@
    }
}

/// The text of one trap.
pub open spec fn trap_text(t: TrapView) -> Seq<char> {
    "## Trap: "@ + t.error_signature + "\n\n### Context\n"@ + t.context + "\n"@ + optional_section(
        "\n### Root Cause\n"@,
        t.root_cause,
    ) + "\n### Solution\n"@ + t.solution + "\n"@ + optional_section(
        "\n### Prevention\n"@,
        t.prevention,
    )
}

/// The text of a list of traps: one after the other, with an empty line between.
pub open spec fn traps_text(ts: Seq<TrapView>) -> Seq<char> {
    join(ts.map_values(|t: TrapView| trap_text(t)), "\n"@)
}

// ── Reading and writing ────────────────────────────────────────────────────

struct TrapReader {
    traps: Vec<Trap>,
    open: Option<Trap>,
    section: TrapSection,
}

impl TrapReader {
    spec fn scan(self) -> TrapScan {
        TrapScan {
            traps: trap_views(self.traps@),
            open: match self.open {
                Some(t) => Some(t@),
                None => None,
            },
            section: self.section,
        }
    }

    fn finish(self) -> (r: Vec<Trap>)
        ensures
            trap_views(r@) == traps_of(self.scan()),
    {
        let mut traps = self.traps;
        match self.open {
            Some(trap) => {
                let closed = Trap {
                    error_signature: trap.error_signature,
                    context: trimmed_string(trap.context.as_str()),
                    solution: trimmed_string(trap.solution.as_str()),
                    root_cause: trimmed_string(trap.root_cause.as_str()),
                    prevention: trimmed_string(trap.prevention.as_str()),
                };
                let ghost before = traps@;
                traps.push(closed);
                assert(trap_views(traps@) =~= trap_views(before).push(closed@));
            },
            None => {},
        }
        traps
    }

    fn step(self, raw: &[char]) -> (r: TrapReader)
        ensures
            r.scan() == trap_step(self.scan(), raw@),
    {
        let line = trimmed(raw);
        if let Some(rest) = after_literal(line, "## Trap:") {
            let open = Trap {
                error_signature: string_of(trimmed(rest)),
                context: String::new(),
                solution: String::new(),
                root_cause: String::new(),
                prevention: String::new(),
            };
            assert(open@ =~= bare_trap(trim(rest@)));
            return TrapReader {
                traps: self.finish(),
                open: Some(open),
                section: TrapSection::Header,
            };
        }
        let TrapReader { traps, open, section } = self;
        match open {
            None => TrapReader { traps, open: None, section },
            Some(trap) => {
                if is_literal(line, "### Context") {
                    return TrapReader { traps, open: Some(trap), section: TrapSection::Context };
                }
                if is_literal(line, "### Root Cause") {
                    return TrapReader { traps, open: Some(trap), section: TrapSection::RootCause };
                }
                if is_literal(line, "### Solution") {
                    return TrapReader { traps, open: Some(trap), section: TrapSection::Solution };
                }
                if is_literal(line, "### Prevention") {
                    return TrapReader { traps, open: Some(trap), section: TrapSection::Prevention };
                }
                let mut trap = trap;
                match section {
                    TrapSection::Header => {},
                    TrapSection::Context => append_line(&mut trap.context, line),
                    TrapSection::RootCause => append_line(&mut trap.root_cause, line),
                    TrapSection::Solution => append_line(&mut trap.solution, line),
                    TrapSection::Prevention => append_line(&mut trap.prevention, line),
                }
                TrapReader { traps, open: Some(trap), section }
            },
        }
    }
}

/// `s` without white space at either end.
pub fn trimmed_string(s: &str) -> (r: String)
    ensures
        r@ == trim(s@),
{
    let chars = to_chars(s);
    string_of(trimmed(chars.as_slice()))
}

/// Appends a line and its ending.
pub fn append_line(out: &mut String, line: &[char])
    ensures
        final(out)@ == old(out)@ + (line@ + "\n"@),
{
    let ghost before = out@;
    append_chars(out, line);
    out.append("\n");
    assert(out@ =~= before + (line@ + "\n"@));
}

/// Parse traps.md content into a vector of traps.
///
/// Text before the first trap is passed over; an empty text holds no trap.
pub fn parse_traps(md: &str) -> (r: Result<Vec<Trap>, ParseError>)
    ensures
        r matches Ok(traps) && trap_views(traps@) == traps_in(md@),
{
    let chars = to_chars(md);
    let ls = lines_of(chars.as_slice());
    let ghost all = lines(md@);
    let mut reader = TrapReader { traps: Vec::new(), open: None, section: TrapSection::Header };
    assert(reader.scan() =~= trap_scan_start());
    let mut i: usize = 0;
    assert(all.skip(0) =~= all);
    while i < ls.len()
        invariant
            i <= ls@.len(),
            all == contents(ls@),
            scan_traps(reader.scan(), all.skip(i as int)) == scan_traps(trap_scan_start(), all),
        decreases ls@.len() - i,
    {
        assert(all.skip(i as int)[0] == ls@[i as int]@);
        assert(all.skip(i as int).drop_first() =~= all.skip(i + 1));
        reader = reader.step(ls[i]);
        i = i + 1;
    }
    Ok(reader.finish())
}

/// Render a single trap to Markdown.
pub fn render_trap(trap: &Trap) -> (r: String)
    ensures
        r@ == trap_text(trap@),
{
    let mut md = String::new();
    md.append("## Trap: ");
    md.append(trap.error_signature.as_str());
    md.append("\n\n### Context\n");
    md.append(trap.context.as_str());
    md.append("\n");
    if !trap.root_cause.as_str().is_empty() {
        md.append("\n### Root Cause\n");
        md.append(trap.root_cause.as_str());
        md.append("\n");
    }
    md.append("\n### Solution\n");
    md.append(trap.solution.as_str());
    md.append("\n");
    if !trap.prevention.as_str().is_empty() {
        md.append("\n### Prevention\n");
        md.append(trap.prevention.as_str());
        md.append("\n");
    }
    assert(md@ =~= trap_text(trap@));
    md
}

/// Render all traps, separated by a blank line.
pub fn render_traps(traps: &[Trap]) -> (r: String)
    ensures
        r@ == traps_text(trap_views(traps@)),
{
    let mut parts: Vec<String> = Vec::new();
    let mut i: usize = 0;
    while i < traps.len()
        invariant
            i <= traps@.len(),
            parts@.len() == i,
            forall|j: int| 0 <= j < i ==> (#[trigger] parts@[j])@ == trap_text(traps@[j]@),
        decreases traps@.len() - i,
    {
        parts.push(render_trap(&traps[i]));
        i = i + 1;
    }
    assert(texts(parts@) =~= trap_views(traps@).map_values(|t: TrapView| trap_text(t)));
    joined(&parts, "\n")
}

// ── Reading back what was written ──────────────────────────────────────────

/// Whether no line of `body` would be taken for the start of a trap or of one
/// of its sections.
pub open spec fn plain_trap_body(body: Seq<char>) -> bool {
    forall|i: int|
        0 <= i < ended_lines(body).len() ==> plain_trap_line(#[trigger] ended_lines(body)[i])
}

pub open spec fn plain_trap_line(raw: Seq<char>) -> bool {
    !opens_trap(trim(raw)) && trap_section(trim(raw)) is None
}

/// The traps whose text can be read back: the signature is one line, and no
/// line of a section looks like a heading.
pub open spec fn readable_trap(t: TrapView) -> bool {
    &&& no_break(t.error_signature)
    &&& plain_trap_body(t.context)
    &&& plain_trap_body(t.root_cause)
    &&& plain_trap_body(t.solution)
    &&& plain_trap_body(t.prevention)
}

/// `t` with its signature trimmed and each section text settled.
pub open spec fn settled_trap(t: TrapView) -> TrapView {
    TrapView {
        error_signature: trim(t.error_signature),
        context: settled(t.context),
        solution: settled(t.solution),
        root_cause: settled(t.root_cause),
        prevention: settled(t.prevention),
    }
}

/// No field of `t` has white space next to a line break or at an end.
pub open spec fn tidy_trap(t: TrapView) -> bool {
    &&& tidy(t.error_signature)
    &&& tidy(t.context)
    &&& tidy(t.solution)
    &&& tidy(t.root_cause)
    &&& tidy(t.prevention)
}

spec fn scan_text(scan: TrapScan, x: Seq<char>) -> TrapScan {
    scan_traps(scan, lines(x))
}

proof fn lemma_scan_concat(scan: TrapScan, a: Seq<Seq<char>>, b: Seq<Seq<char>>)
    ensures
        scan_traps(scan, a + b) == scan_traps(scan_traps(scan, a), b),
    decreases a.len(),
{
    if a.len() == 0 {
        assert(a + b =~= b);
    } else {
        assert((a + b).drop_first() =~= a.drop_first() + b);
        lemma_scan_concat(trap_step(scan, a[0]), a.drop_first(), b);
    }
}

proof fn lemma_scan_text(scan: TrapScan, x: Seq<char>, y: Seq<char>)
    requires
        ends_line(x),
    ensures
        scan_text(scan, x + y) == scan_text(scan_text(scan, x), y),
{
    lemma_lines_concat(x, y);
    lemma_scan_concat(scan, lines(x), lines(y));
}

proof fn lemma_scan_line(scan: TrapScan, l: Seq<char>)
    requires
        no_break(l),
    ensures
        scan_text(scan, l + "\n"@) == trap_step(scan, l),
{
    lemma_lines_one(l);
    lemma_trim_chomp(l);
    let ls = lines(l + "\n"@);
    assert(ls.drop_first() =~= Seq::<Seq<char>>::empty());
    assert(scan_traps(trap_step(scan, ls[0]), ls.drop_first()) == trap_step(scan, ls[0]));
}

proof fn lemma_scan_plain(scan: TrapScan, t: TrapView, ls: Seq<Seq<char>>)
    requires
        scan.open == Some(t),
        forall|i: int| 0 <= i < ls.len() ==> plain_trap_line(#[trigger] ls[i]),
    ensures
        scan_traps(scan, ls) == (TrapScan {
            open: Some(extend_trap(t, scan.section, trimmed_lines(ls))),
            ..scan
        }),
    decreases ls.len(),
{
    if ls.len() == 0 {
        assert(extend_trap(t, scan.section, trimmed_lines(ls)) =~= t);
    } else {
        let line = trim(ls[0]) + "\n"@;
        let next = trap_step(scan, ls[0]);
        let u = extend_trap(t, scan.section, line);
        assert(next == (TrapScan { open: Some(u), ..scan }));
        let rest = ls.drop_first();
        assert forall|i: int| 0 <= i < rest.len() implies plain_trap_line(#[trigger] rest[i]) by {
            assert(rest[i] == ls[i + 1]);
        }
        lemma_scan_plain(next, u, rest);
        assert(extend_trap(u, scan.section, trimmed_lines(rest)) =~= extend_trap(
            t,
            scan.section,
            trimmed_lines(ls),
        ));
    }
}

proof fn lemma_plain_facts()
    ensures
        is_blank("\n"@),
        "\n"@.len() == 1,
        "\n"@[0] == '\n',
        plain_trap_line(Seq::empty()),
{
    reveal_strlit("\n");
    reveal_strlit("## Trap:");
    reveal_strlit("### Context");
    reveal_strlit("### Root Cause");
    reveal_strlit("### Solution");
    reveal_strlit("### Prevention");
    lemma_trim_same(Seq::empty());
}

/// A section heading stands on a line of its own.
proof fn lemma_heading_solid(h: Seq<char>)
    requires
        trap_section(h) is Some,
    ensures
        no_break(h),
        trim(h) == h,
        !opens_trap(h),
{
    reveal_strlit("### Context");
    reveal_strlit("### Root Cause");
    reveal_strlit("### Solution");
    reveal_strlit("### Prevention");
    reveal_strlit("## Trap:");
    lemma_trim_same(h);
    assert(h[2] == '#');
    assert("## Trap:"@[2] == ' ');
    assert(h.take(8)[2] == h[2]);
}

/// A section: an empty line, its heading and its body.
spec fn section_text(h: Seq<char>, body: Seq<char>) -> Seq<char> {
    "\n"@ + h + "\n"@ + (body + "\n"@)
}

/// What reading a section makes of the open trap.
spec fn with_section(
    t: TrapView,
    before: TrapSection,
    section: TrapSection,
    body: Seq<char>,
) -> TrapView {
    extend_trap(extend_trap(t, before, "\n"@), section, trimmed_lines(ended_lines(body)))
}

proof fn lemma_scan_section(
    scan: TrapScan,
    t: TrapView,
    h: Seq<char>,
    section: TrapSection,
    body: Seq<char>,
)
    requires
        scan.open == Some(t),
        trap_section(h) == Some(section),
        plain_trap_body(body),
    ensures
        scan_text(scan, section_text(h, body)) == (TrapScan {
            open: Some(with_section(t, scan.section, section, body)),
            section,
            ..scan
        }),
        ends_line(section_text(h, body)),
{
    lemma_plain_facts();
    lemma_heading_solid(h);
    let nl = "\n"@;
    let e = Seq::<char>::empty();
    lemma_ends(nl + h);
    lemma_scan_text(scan, nl + h + nl, body + nl);
    assert(nl + h + nl =~= (e + nl) + (h + nl));
    lemma_ends(e);
    lemma_scan_text(scan, e + nl, h + nl);
    lemma_scan_line(scan, e);
    lemma_trim_same(e);
    assert(e + nl =~= nl);
    let s1 = trap_step(scan, e);
    lemma_scan_line(s1, h);
    let s2 = trap_step(s1, h);
    lemma_scan_plain(s2, extend_trap(t, scan.section, nl), ended_lines(body));
    assert(section_text(h, body).last() == '\n');
}

proof fn lemma_header_facts()
    ensures
        "## Trap: "@ == "## Trap:"@ + " "@,
        is_blank(" "@),
        no_break("## Trap: "@),
        !is_white_space("## Trap:"@[0]),
        !is_white_space("## Trap:"@.last()),
        "## Trap:"@.len() == 8,
{
    reveal_strlit(" ");
    reveal_strlit("## Trap: ");
    reveal_strlit("## Trap:");
    assert("## Trap: "@ =~= "## Trap:"@ + " "@);
}

/// The text of a trap as its header line and its sections.
proof fn lemma_trap_text_sections(t: TrapView)
    ensures
        trap_text(t) == "## Trap: "@ + t.error_signature + "\n"@ + section_text(
            "### Context"@,
            t.context,
        ) + (if t.root_cause.len() == 0 {
            Seq::<char>::empty()
        } else {
            section_text("### Root Cause"@, t.root_cause)
        }) + section_text("### Solution"@, t.solution) + (if t.prevention.len() == 0 {
            Seq::<char>::empty()
        } else {
            section_text("### Prevention"@, t.prevention)
        }),
{
    reveal_strlit("\n\n### Context\n");
    reveal_strlit("\n### Root Cause\n");
    reveal_strlit("\n### Solution\n");
    reveal_strlit("\n### Prevention\n");
    reveal_strlit("### Context");
    reveal_strlit("### Root Cause");
    reveal_strlit("### Solution");
    reveal_strlit("### Prevention");
    reveal_strlit("\n");
    assert("\n\n### Context\n"@ =~= "\n"@ + ("\n"@ + "### Context"@ + "\n"@));
    assert("\n### Root Cause\n"@ =~= "\n"@ + "### Root Cause"@ + "\n"@);
    assert("\n### Solution\n"@ =~= "\n"@ + "### Solution"@ + "\n"@);
    assert("\n### Prevention\n"@ =~= "\n"@ + "### Prevention"@ + "\n"@);
    let nl = "\n"@;
    let sig = t.error_signature;
    let head = "## Trap: "@ + sig;
    assert(head + (nl + (nl + "### Context"@ + nl)) + t.context + nl =~= head + nl + section_text(
        "### Context"@,
        t.context,
    ));
    let a = head + nl + section_text("### Context"@, t.context);
    let b = a + (if t.root_cause.len() == 0 {
        Seq::<char>::empty()
    } else {
        section_text("### Root Cause"@, t.root_cause)
    });
    assert(a + optional_section("\n### Root Cause\n"@, t.root_cause) =~= b);
    let c = b + section_text("### Solution"@, t.solution);
    assert(b + "\n### Solution\n"@ + t.solution + nl =~= c);
    let d = c + (if t.prevention.len() == 0 {
        Seq::<char>::empty()
    } else {
        section_text("### Prevention"@, t.prevention)
    });
    assert(c + optional_section("\n### Prevention\n"@, t.prevention) =~= d);
}

/// The header line of a trap closes what was open and opens the trap.
proof fn lemma_scan_header(scan: TrapScan, sig: Seq<char>)
    requires
        no_break(sig),
    ensures
        scan_text(scan, "## Trap: "@ + sig + "\n"@) == (TrapScan {
            traps: traps_of(scan),
            open: Some(bare_trap(trim(sig))),
            section: TrapSection::Header,
        }),
{
    lemma_header_facts();
    let l = "## Trap: "@ + sig;
    assert(no_break(l)) by {
        assert forall|k: int| 0 <= k < l.len() implies l[k] != '\n' by {
            if k < "## Trap: "@.len() {
                assert("## Trap: "@.contains("## Trap: "@[k]));
            } else {
                assert(sig.contains(sig[k - "## Trap: "@.len()]));
            }
        }
    }
    lemma_scan_line(scan, l);
    assert(l =~= "## Trap:"@ + (" "@ + sig));
    lemma_trim_after_word("## Trap:"@, " "@ + sig);
    lemma_trim_start_pad(" "@, sig);
}

/// Empty lines at the end of a section do not change the trap.
proof fn lemma_close_padded(t: TrapView, section: TrapSection)
    ensures
        close_trap(extend_trap(t, section, "\n"@)) == close_trap(t),
{
    lemma_plain_facts();
    lemma_trim_end_pad(t.context, "\n"@);
    lemma_trim_end_pad(t.solution, "\n"@);
    lemma_trim_end_pad(t.root_cause, "\n"@);
    lemma_trim_end_pad(t.prevention, "\n"@);
}

/// A text that ends with an ended body ends a line.
proof fn lemma_ends(x: Seq<char>)
    ensures
        ends_line(x + "\n"@),
{
    lemma_plain_facts();
    assert((x + "\n"@).last() == '\n');
}

proof fn lemma_scan_trap(scan: TrapScan, t: TrapView) -> (r: TrapScan)
    requires
        readable_trap(t),
    ensures
        r == scan_text(scan, trap_text(t)),
        r.traps == traps_of(scan),
        r.open is Some,
        close_trap(r.open->0) == settled_trap(t),
        ends_line(trap_text(t)),
{
    lemma_trap_text_sections(t);
    lemma_section_kinds();
    let e = Seq::<char>::empty();
    let x1 = "## Trap: "@ + t.error_signature + "\n"@;
    let s1 = scan_text(scan, x1);
    let u1 = bare_trap(trim(t.error_signature));
    lemma_scan_header(scan, t.error_signature);
    lemma_ends("## Trap: "@ + t.error_signature);
    let sec2 = section_text("### Context"@, t.context);
    let x2 = x1 + sec2;
    lemma_scan_text(scan, x1, sec2);
    lemma_scan_section(s1, u1, "### Context"@, TrapSection::Context, t.context);
    let s2 = scan_text(scan, x2);
    let u2 = with_section(u1, TrapSection::Header, TrapSection::Context, t.context);
    assert(s2.open == Some(u2));
    assert(ends_line(x2)) by {
        assert(x2.last() == sec2.last());
    }
    let sec3 = section_text("### Root Cause"@, t.root_cause);
    let (x3, u3) = if t.root_cause.len() == 0 {
        assert(x2 + e =~= x2);
        (x2, u2)
    } else {
        lemma_scan_text(scan, x2, sec3);
        lemma_scan_section(s2, u2, "### Root Cause"@, TrapSection::RootCause, t.root_cause);
        assert((x2 + sec3).last() == sec3.last());
        (x2 + sec3, with_section(u2, TrapSection::Context, TrapSection::RootCause, t.root_cause))
    };
    let s3 = scan_text(scan, x3);
    assert(s3.open == Some(u3) && s3.traps == traps_of(scan));
    let sec4 = section_text("### Solution"@, t.solution);
    let x4 = x3 + sec4;
    lemma_scan_text(scan, x3, sec4);
    lemma_scan_section(s3, u3, "### Solution"@, TrapSection::Solution, t.solution);
    let s4 = scan_text(scan, x4);
    let u4 = with_section(u3, s3.section, TrapSection::Solution, t.solution);
    assert(s4.open == Some(u4));
    assert(ends_line(x4)) by {
        assert(x4.last() == sec4.last());
    }
    let sec5 = section_text("### Prevention"@, t.prevention);
    let (x5, u5) = if t.prevention.len() == 0 {
        assert(x4 + e =~= x4);
        (x4, u4)
    } else {
        lemma_scan_text(scan, x4, sec5);
        lemma_scan_section(s4, u4, "### Prevention"@, TrapSection::Prevention, t.prevention);
        assert((x4 + sec5).last() == sec5.last());
        (x4 + sec5, with_section(u4, TrapSection::Solution, TrapSection::Prevention, t.prevention))
    };
    assert(x5 == trap_text(t));
    lemma_close_sections(t, u2, u3, u4, u5);
    scan_text(scan, x5)
}

proof fn lemma_section_kinds()
    ensures
        trap_section("### Context"@) == Some(TrapSection::Context),
        trap_section("### Root Cause"@) == Some(TrapSection::RootCause),
        trap_section("### Solution"@) == Some(TrapSection::Solution),
        trap_section("### Prevention"@) == Some(TrapSection::Prevention),
{
    reveal_strlit("### Context");
    reveal_strlit("### Root Cause");
    reveal_strlit("### Solution");
    reveal_strlit("### Prevention");
    assert("### Context"@[4] == 'C' && "### Root Cause"@[4] == 'R' && "### Solution"@[4] == 'S'
        && "### Prevention"@[4] == 'P');
}

proof fn lemma_close_sections(t: TrapView, u2: TrapView, u3: TrapView, u4: TrapView, u5: TrapView)
    requires
        u2 == with_section(
            bare_trap(trim(t.error_signature)),
            TrapSection::Header,
            TrapSection::Context,
            t.context,
        ),
        u3 == if t.root_cause.len() == 0 {
            u2
        } else {
            with_section(u2, TrapSection::Context, TrapSection::RootCause, t.root_cause)
        },
        u4 == with_section(
            u3,
            if t.root_cause.len() == 0 {
                TrapSection::Context
            } else {
                TrapSection::RootCause
            },
            TrapSection::Solution,
            t.solution,
        ),
        u5 == if t.prevention.len() == 0 {
            u4
        } else {
            with_section(u4, TrapSection::Solution, TrapSection::Prevention, t.prevention)
        },
    ensures
        close_trap(u5) == settled_trap(t),
{
    lemma_plain_facts();
    let nl = "\n"@;
    let e = Seq::<char>::empty();
    let c1 = trimmed_lines(ended_lines(t.context));
    let c2 = trimmed_lines(ended_lines(t.root_cause));
    let c3 = trimmed_lines(ended_lines(t.solution));
    let c4 = trimmed_lines(ended_lines(t.prevention));
    assert(e + c1 =~= c1 && e + c2 =~= c2 && e + c3 =~= c3 && e + c4 =~= c4);
    lemma_settled_ended(t.context);
    lemma_settled_ended(t.root_cause);
    lemma_settled_ended(t.solution);
    lemma_settled_ended(t.prevention);
    lemma_trim_end_pad(c1, nl);
    lemma_trim_end_pad(c2, nl);
    lemma_trim_end_pad(c3, nl);
    lemma_trim_same(e);
    lemma_tidy_settled(e);
    assert(u5.context == c1 + nl);
    if t.root_cause.len() == 0 {
        assert(t.root_cause =~= e);
        assert(u5.root_cause == e);
    } else {
        assert(u5.root_cause == c2 + nl);
    }
    if t.prevention.len() == 0 {
        assert(t.prevention =~= e);
        assert(u5.prevention == e);
        assert(u5.solution == c3);
    } else {
        assert(u5.prevention == c4);
        assert(u5.solution == c3 + nl);
    }
    assert(close_trap(u5) =~= settled_trap(t));
}

proof fn lemma_scan_all(scan: TrapScan, ts: Seq<TrapView>)
    requires
        forall|i: int| 0 <= i < ts.len() ==> readable_trap(#[trigger] ts[i]),
    ensures
        traps_of(scan_text(scan, traps_text(ts))) == traps_of(scan) + ts.map_values(
            |t: TrapView| settled_trap(t),
        ),
    decreases ts.len(),
{
    let parts = ts.map_values(|t: TrapView| trap_text(t));
    let want = ts.map_values(|t: TrapView| settled_trap(t));
    if ts.len() == 0 {
        assert(lines(traps_text(ts)) =~= Seq::<Seq<char>>::empty());
        assert(want =~= Seq::<TrapView>::empty());
        assert(traps_of(scan) + want =~= traps_of(scan));
    } else {
        let t = ts[0];
        let r = lemma_scan_trap(scan, t);
        assert(traps_of(r) =~= traps_of(scan).push(settled_trap(t)));
        let rest = ts.drop_first();
        if ts.len() == 1 {
            assert(traps_text(ts) == trap_text(t));
            assert(traps_of(scan) + want =~= traps_of(scan).push(settled_trap(t)));
        } else {
            assert(parts.drop_first() =~= rest.map_values(|t: TrapView| trap_text(t)));
            let nl = "\n"@;
            let e = Seq::<char>::empty();
            assert(traps_text(ts) =~= trap_text(t) + (nl + traps_text(rest)));
            lemma_scan_text(scan, trap_text(t), nl + traps_text(rest));
            lemma_plain_facts();
            assert(e + nl =~= nl);
            lemma_scan_line(r, e);
            lemma_trim_same(e);
            lemma_ends(e);
            lemma_scan_text(r, nl, traps_text(rest));
            let r2 = scan_text(r, nl);
            lemma_close_padded(r.open->0, r.section);
            assert(traps_of(r2) =~= traps_of(r));
            assert forall|i: int| 0 <= i < rest.len() implies readable_trap(#[trigger] rest[i]) by {
                assert(rest[i] == ts[i + 1]);
            }
            lemma_scan_all(r2, rest);
            assert(traps_of(r2) + rest.map_values(|t: TrapView| settled_trap(t)) =~= traps_of(scan)
                + want);
        }
    }
}

/// Reading back rendered traps gives the traps, with every text settled.
pub proof fn law_traps_read_back(ts: Seq<TrapView>)
    requires
        forall|i: int| 0 <= i < ts.len() ==> readable_trap(#[trigger] ts[i]),
    ensures
        traps_in(traps_text(ts)) == ts.map_values(|t: TrapView| settled_trap(t)),
{
    lemma_scan_all(trap_scan_start(), ts);
    assert(traps_of(trap_scan_start()) + ts.map_values(|t: TrapView| settled_trap(t))
        =~= ts.map_values(|t: TrapView| settled_trap(t)));
}

/// Reading back rendered traps gives the very same traps where no text has
/// white space next to a line break or at an end.
pub proof fn law_tidy_traps_read_back(ts: Seq<TrapView>)
    requires
        forall|i: int| 0 <= i < ts.len() ==> readable_trap(#[trigger] ts[i]) && tidy_trap(ts[i]),
    ensures
        traps_in(traps_text(ts)) == ts,
{
    law_traps_read_back(ts);
    assert forall|i: int| 0 <= i < ts.len() implies settled_trap(#[trigger] ts[i]) == ts[i] by {
        let t = ts[i];
        lemma_tidy_settled(t.context);
        lemma_tidy_settled(t.solution);
        lemma_tidy_settled(t.root_cause);
        lemma_tidy_settled(t.prevention);
        assert(trim(t.error_signature) == t.error_signature) by {
            let s = t.error_signature;
            if s.len() > 0 {
                assert(!is_white_space(s[0]) && !is_white_space(s[s.len() - 1]));
            }
            lemma_trim_same(s);
        }
    }
    assert(ts.map_values(|t: TrapView| settled_trap(t)) =~= ts);
}

} // verus!
