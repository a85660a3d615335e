//! `decisions.md` and the architecture decision records it holds.
//!
//! ```markdown
//! ## ADR-{id}: {title}
//!
//! **Status:** {status}
//!
//! ### Context
//! {context}
//!
//! ### Decision
//! {decision}
//!
//! **Tags:** {tag1}, {tag2}
//! ```
use vstd::prelude::*;
use vstd::slice::slice_subrange;

use crate::engine::projection::ParseError;
use crate::engine::projection::traps::{append_line, trimmed_string};
use crate::lines::{
    ended_lines, ends_line, lemma_core_exists, lemma_filter_map_concat, lemma_line_no_break,
    lemma_line_tidy_push, lemma_lines_concat, lemma_lines_of_trim, lemma_lines_one,
    lemma_nonblank_kept, lemma_nonblank_lacks, lemma_settled_ended, lemma_split_cons,
    lemma_split_lacks, lemma_split_one, lemma_tidy_settled, lemma_trim_after_word, lemma_trim_chomp,
    lemma_trim_end_pad, lemma_trim_ends, lemma_trim_is_core, lemma_trim_lacks, lemma_trim_same,
    lemma_trim_start_pad, lemma_trim_tidies, line_tidy, no_break, settled, tidy, trimmed_lines,
};
use crate::models::{
    adr_status_of, adr_views, law_adr_status_names_read_back, AdrStatus, AdrView, ADR,
};
use crate::text::{
    after_literal, contents, has_prefix, index_of, is_blank, is_literal, is_white_space, join,
    joined, lemma_index_of, lemma_index_of_at, lemma_trim_end_at, lines, lines_of, nonblank,
    position_of, split, split_on, string_of, texts, to_chars, trim, trim_end, trimmed,
};

verus! {

// ── What a text of decisions means ─────────────────────────────────────────

/// Where in an ADR a line stands.
#[derive(Debug, Clone, Copy, PartialEq, Eq, Structural)]
pub enum AdrSection {
    Header,
    Context,
    Decision,
}

/// The section that a (trimmed) line opens.
pub open spec fn adr_section(line: Seq<char>) -> Option<AdrSection> {
    if line == "### Context"@ {
        Some(AdrSection::Context)
    } else if line == "### Decision"@ {
        Some(AdrSection::Decision)
    } else {
        None
    }
}

pub open spec fn opens_adr(line: Seq<char>) -> bool {
    has_prefix(line, "## ADR-"@)
}

/// How far the reading of a text has come: the ADRs that are complete, the one
/// that is open with its raw section texts, the section being read, and the
/// status line that was read last.
#[verifier::ext_equal]
pub struct AdrScan {
    pub adrs: Seq<AdrView>,
    pub open: Option<AdrView>,
    pub section: AdrSection,
    pub status: Seq<char>,
}

pub open spec fn adr_scan_start() -> AdrScan {
    AdrScan {
        adrs: Seq::empty(),
        open: None,
        section: AdrSection::Header,
        status: Seq::empty(),
    }
}

/// An ADR about which only its id and title are known.
pub open spec fn bare_adr(id: Seq<char>, title: Seq<char>) -> AdrView {
    AdrView {
        id,
        title,
        status: AdrStatus::Proposed,
        context: Seq::empty(),
        decision: Seq::empty(),
        tags: Seq::empty(),
    }
}

/// The ADR that a header line opens. A header without a colon opens none.
pub open spec fn adr_header(line: Seq<char>) -> Option<AdrView> {
    let header = trim(line.skip("## "@.len() as int));
    let colon = index_of(header, ':');
    if 0 <= colon < header.len() {
        Some(bare_adr(trim(header.take(colon)), trim(header.skip(colon + 1))))
    } else {
        None
    }
}

/// `adr` with `more` at the end of one of its sections.
pub open spec fn extend_adr(adr: AdrView, section: AdrSection, more: Seq<char>) -> AdrView {
    match section {
        AdrSection::Header => adr,
        AdrSection::Context => AdrView { context: adr.context + more, ..adr },
        AdrSection::Decision => AdrView { decision: adr.decision + more, ..adr },
    }
}

/// The status that a status line stands for; one that is not known counts as
/// `Proposed`.
pub open spec fn status_or_proposed(status: Seq<char>) -> AdrStatus {
    match adr_status_of(status) {
        Some(s) => s,
        None => AdrStatus::Proposed,
    }
}

/// `adr` with its section texts trimmed and its status read.
pub open spec fn close_adr(adr: AdrView, status: Seq<char>) -> AdrView {
    AdrView {
        status: status_or_proposed(status),
        context: trim(adr.context),
        decision: trim(adr.decision),
        ..adr
    }
}

/// The ADRs read so far, the open one included.
pub open spec fn adrs_of(scan: AdrScan) -> Seq<AdrView> {
    match scan.open {
        Some(adr) => scan.adrs.push(close_adr(adr, scan.status)),
        None => scan.adrs,
    }
}

/// The tags in a comma-separated list.
pub open spec fn tag_list(list: Seq<char>) -> Seq<Seq<char>> {
    split(list, ","@).filter_map(nonblank())
}

/// Reading one more line.
pub open spec fn adr_step(scan: AdrScan, raw: Seq<char>) -> AdrScan {
    let line = trim(raw);
    if opens_adr(line) {
        AdrScan {
            adrs: adrs_of(scan),
            open: adr_header(line),
            section: AdrSection::Header,
            status: scan.status,
        }
    } else {
        match scan.open {
            None => scan,
            Some(adr) => if has_prefix(line, "**Status:**"@) {
                AdrScan { status: trim(line.skip("**Status:**"@.len() as int)), ..scan }
            } else if adr_section(line) is Some {
                AdrScan { section: adr_section(line)->0, ..scan }
            } else if has_prefix(line, "**Tags:**"@) {
                AdrScan {
                    open: Some(
                        AdrView { tags: tag_list(line.skip("**Tags:**"@.len() as int)), ..adr },
                    ),
                    ..scan
                }
            } else {
                AdrScan { open: Some(extend_adr(adr, scan.section, line + "\n"@)), ..scan }
            },
        }
    }
}

/// Reading the lines `ls` in turn.
pub open spec fn scan_adrs(scan: AdrScan, ls: Seq<Seq<char>>) -> AdrScan
    decreases ls.len(),
{
    if ls.len() == 0 {
        scan
    } else {
        scan_adrs(adr_step(scan, ls[0]), ls.drop_first())
    }
}

/// The ADRs that the text `md` holds.
pub open spec fn adrs_in(md: Seq<char>) -> Seq<AdrView> {
    adrs_of(scan_adrs(adr_scan_start(), lines(md)))
}

/// The line of tags, where there are any.
pub open spec fn tags_text(tags: Seq<Seq<char>>) -> Seq<char> {
    if tags.len() == 0 {
        Seq::empty()
    } else {
        "\n**Tags:** "@ + join(tags, ", "@) + "\n"@
    }
}

/// The text of one ADR.
pub open spec fn adr_text(a: AdrView) -> Seq<char> {
    "## "@ + a.id + ": "@ + a.title + "\n\n**Status:** "@ + a.status.name() + "\n\n### Context\n"@
        + a.context + "\n\n### Decision\n"@ + a.decision + "\n"@ + tags_text(a.tags)
}

/// The text of a list of ADRs: one after the other, with an empty line between.
pub open spec fn adrs_text(adrs: Seq<AdrView>) -> Seq<char> {
    join(adrs.map_values(|a: AdrView| adr_text(a)), "\n"@)
}

pub open spec fn is_active() -> spec_fn(AdrView) -> bool {
    |a: AdrView| a.status.active()
}

pub open spec fn is_stale() -> spec_fn(AdrView) -> bool {
    |a: AdrView| !a.status.active()
}

/// The text of `decisions.md`: the given ADRs, under a pointer to the archive
/// where the archive holds others.
pub open spec fn decisions_file_text(active: Seq<AdrView>, any_stale: bool) -> Seq<char> {
    if any_stale {
        "> Historical decisions are in [decisions_archive.md](./decisions_archive.md)\n\n"@
            + adrs_text(active)
    } else {
        adrs_text(active)
    }
}

// ── Reading and writing ────────────────────────────────────────────────────

struct AdrReader {
    adrs: Vec<ADR>,
    open: Option<ADR>,
    section: AdrSection,
    status: String,
}

impl AdrReader {
    spec fn scan(self) -> AdrScan {
        AdrScan {
            adrs: adr_views(self.adrs@),
            open: match self.open {
                Some(a) => Some(a@),
                None => None,
            },
            section: self.section,
            status: self.status@,
        }
    }

    fn finish(self) -> (r: (Vec<ADR>, String))
        ensures
            adr_views(r.0@) == adrs_of(self.scan()),
            r.1@ == self.status@,
    {
        let mut adrs = self.adrs;
        match self.open {
            Some(adr) => {
                let status = match AdrStatus::from_str(self.status.as_str()) {
                    Ok(s) => s,
                    Err(_) => AdrStatus::Proposed,
                };
                let ghost open = adr@;
                let closed = ADR {
                    id: adr.id,
                    title: adr.title,
                    status,
                    context: trimmed_string(adr.context.as_str()),
                    decision: trimmed_string(adr.decision.as_str()),
                    tags: adr.tags,
                };
                assert(closed@ =~= close_adr(open, self.status@));
                let ghost before = adrs@;
                adrs.push(closed);
                assert(adr_views(adrs@) =~= adr_views(before).push(closed@));
            },
            None => {},
        }
        (adrs, self.status)
    }

    fn step(self, raw: &[char]) -> (r: AdrReader)
        ensures
            r.scan() == adr_step(self.scan(), raw@),
    {
        let line = trimmed(raw);
        if after_literal(line, "## ADR-").is_some() {
            let open = open_adr(line);
            let (adrs, status) = self.finish();
            return AdrReader { adrs, open, section: AdrSection::Header, status };
        }
        let AdrReader { adrs, open, section, status } = self;
        match open {
            None => AdrReader { adrs, open: None, section, status },
            Some(adr) => {
                if let Some(rest) = after_literal(line, "**Status:**") {
                    let status = string_of(trimmed(rest));
                    return AdrReader { adrs, open: Some(adr), section, status };
                }
                if is_literal(line, "### Context") {
                    return AdrReader { adrs, open: Some(adr), section: AdrSection::Context, status };
                }
                if is_literal(line, "### Decision") {
                    return AdrReader { adrs, open: Some(adr), section: AdrSection::Decision, status };
                }
                let mut adr = adr;
                if let Some(rest) = after_literal(line, "**Tags:**") {
                    adr.tags = read_tags(rest);
                    return AdrReader { adrs, open: Some(adr), section, status };
                }
                match section {
                    AdrSection::Header => {},
                    AdrSection::Context => append_line(&mut adr.context, line),
                    AdrSection::Decision => append_line(&mut adr.decision, line),
                }
                AdrReader { adrs, open: Some(adr), section, status }
            },
        }
    }
}

fn open_adr(line: &[char]) -> (r: Option<ADR>)
    requires
        opens_adr(line@),
    ensures
        match r {
            Some(a) => adr_header(line@) == Some(a@),
            None => adr_header(line@) is None,
        },
{
    proof {
        reveal_strlit("## ADR-");
        reveal_strlit("## ");
    }
    assert(line@.subrange(3, line@.len() as int) =~= line@.skip(3));
    let header = trimmed(slice_subrange(line, 3, line.len()));
    let colon = position_of(header, ':');
    if colon < header.len() {
        assert(header@.subrange(0, colon as int) =~= header@.take(colon as int));
        assert(header@.subrange(colon + 1, header@.len() as int) =~= header@.skip(colon + 1));
        let adr = ADR {
            id: string_of(trimmed(slice_subrange(header, 0, colon))),
            title: string_of(trimmed(slice_subrange(header, colon + 1, header.len()))),
            status: AdrStatus::Proposed,
            context: String::new(),
            decision: String::new(),
            tags: Vec::new(),
        };
        assert(adr@.tags =~= Seq::<Seq<char>>::empty());
        Some(adr)
    } else {
        None
    }
}

fn read_tags(list: &[char]) -> (r: Vec<String>)
    ensures
        texts(r@) == tag_list(list@),
{
    let comma = to_chars(",");
    proof {
        reveal_strlit(",");
    }
    let pieces = split_on(list, comma.as_slice());
    let ghost all = split(list@, ","@);
    let mut tags: Vec<String> = Vec::new();
    let mut i: usize = 0;
    while i < pieces.len()
        invariant
            i <= pieces@.len(),
            all == contents(pieces@),
            texts(tags@) == all.take(i as int).filter_map(nonblank()),
        decreases pieces@.len() - i,
    {
        assert(all.take(i + 1).drop_last() =~= all.take(i as int));
        assert(all.take(i + 1).last() == pieces@[i as int]@);
        let tag = trimmed(pieces[i]);
        if tag.len() > 0 {
            let ghost before = tags@;
            tags.push(string_of(tag));
            assert(texts(tags@) =~= texts(before) + seq![tag@]);
        }
        i = i + 1;
    }
    assert(all.take(i as int) =~= all);
    tags
}

/// Parse decisions.md content into a vector of ADRs.
///
/// ADRs with a malformed header are passed over; an empty text holds no ADR.
pub fn parse_decisions(md: &str) -> (r: Result<Vec<ADR>, ParseError>)
    ensures
        r matches Ok(adrs) && adr_views(adrs@) == adrs_in(md@),
{
    let chars = to_chars(md);
    let ls = lines_of(chars.as_slice());
    let ghost all = lines(md@);
    let mut reader = AdrReader {
        adrs: Vec::new(),
        open: None,
        section: AdrSection::Header,
        status: String::new(),
    };
    assert(reader.scan() =~= adr_scan_start());
    let mut i: usize = 0;
    assert(all.skip(0) =~= all);
    while i < ls.len()
        invariant
            i <= ls@.len(),
            all == contents(ls@),
            scan_adrs(reader.scan(), all.skip(i as int)) == scan_adrs(adr_scan_start(), all),
        decreases ls@.len() - i,
    {
        assert(all.skip(i as int)[0] == ls@[i as int]@);
        assert(all.skip(i as int).drop_first() =~= all.skip(i + 1));
        reader = reader.step(ls[i]);
        i = i + 1;
    }
    let (adrs, _) = reader.finish();
    Ok(adrs)
}

/// Render a single ADR to Markdown.
pub fn render_decision(adr: &ADR) -> (r: String)
    ensures
        r@ == adr_text(adr@),
{
    let mut md = String::new();
    md.append("## ");
    md.append(adr.id.as_str());
    md.append(": ");
    md.append(adr.title.as_str());
    md.append("\n\n**Status:** ");
    md.append(adr.status.label());
    md.append("\n\n### Context\n");
    md.append(adr.context.as_str());
    md.append("\n\n### Decision\n");
    md.append(adr.decision.as_str());
    md.append("\n");
    if adr.tags.len() > 0 {
        md.append("\n**Tags:** ");
        let list = joined(&adr.tags, ", ");
        md.append(list.as_str());
        md.append("\n");
    }
    assert(md@ =~= adr_text(adr@));
    md
}

/// Render all ADRs, separated by a blank line.
pub fn render_decisions(adrs: &[ADR]) -> (r: String)
    ensures
        r@ == adrs_text(adr_views(adrs@)),
{
    let mut parts: Vec<String> = Vec::new();
    let mut i: usize = 0;
    while i < adrs.len()
        invariant
            i <= adrs@.len(),
            parts@.len() == i,
            forall|j: int| 0 <= j < i ==> (#[trigger] parts@[j])@ == adr_text(adrs@[j]@),
        decreases adrs@.len() - i,
    {
        parts.push(render_decision(&adrs[i]));
        i = i + 1;
    }
    assert(texts(parts@) =~= adr_views(adrs@).map_values(|a: AdrView| adr_text(a)));
    joined(&parts, "\n")
}

/// The ADRs that are active, or those that are not, in their order.
pub fn adrs_by_activity(adrs: &[ADR], active: bool) -> (r: Vec<ADR>)
    ensures
        adr_views(r@) == adr_views(adrs@).filter(
            if active {
                is_active()
            } else {
                is_stale()
            },
        ),
{
    let mut out: Vec<ADR> = Vec::new();
    let ghost all = adr_views(adrs@);
    let ghost keep = if active { is_active() } else { is_stale() };
    let mut i: usize = 0;
    proof {
        reveal(Seq::filter);
    }
    assert(adr_views(out@) =~= all.take(0).filter(keep));
    while i < adrs.len()
        invariant
            i <= adrs@.len(),
            all == adr_views(adrs@),
            keep == if active { is_active() } else { is_stale() },
            adr_views(out@) == all.take(i as int).filter(keep),
        decreases adrs@.len() - i,
    {
        proof {
            reveal(Seq::filter);
            assert(all.take(i + 1).drop_last() =~= all.take(i as int));
            assert(all.take(i + 1).last() == adrs@[i as int]@);
        }
        if adrs[i].status.is_active() == active {
            let ghost before = out@;
            let copy = adrs[i].clone();
            out.push(copy);
            assert(adr_views(out@) =~= adr_views(before).push(copy@));
        }
        i = i + 1;
    }
    assert(all.take(i as int) =~= all);
    out
}

/// Write `decisions.md` with the given ADRs, and whether the archive holds others.
pub fn render_decisions_file(active: &[ADR], any_stale: bool) -> (r: String)
    ensures
        r@ == decisions_file_text(adr_views(active@), any_stale),
{
    let mut md = String::new();
    if any_stale {
        md.append("> Historical decisions are in [decisions_archive.md](./decisions_archive.md)\n\n");
    }
    let body = render_decisions(active);
    md.append(body.as_str());
    assert(md@ =~= decisions_file_text(adr_views(active@), any_stale));
    md
}

/// Render active ADRs (Accepted, Proposed) to Markdown, with a header
/// linking to the archive when stale decisions exist.
pub fn render_active_decisions(adrs: &[ADR]) -> (r: String)
    ensures
        r@ == decisions_file_text(
            adr_views(adrs@).filter(is_active()),
            adr_views(adrs@).filter(is_stale()).len() > 0,
        ),
{
    let active = adrs_by_activity(adrs, true);
    let stale = adrs_by_activity(adrs, false);
    assert(adr_views(stale@).len() == stale@.len());
    render_decisions_file(active.as_slice(), stale.len() > 0)
}

/// Render stale ADRs (Superseded, Rejected, Archived) to Markdown.
pub fn render_stale_decisions(adrs: &[ADR]) -> (r: String)
    ensures
        r@ == adrs_text(adr_views(adrs@).filter(is_stale())),
{
    let stale = adrs_by_activity(adrs, false);
    render_decisions(stale.as_slice())
}

// ── Reading back what was written ──────────────────────────────────────────

pub open spec fn plain_adr_line(raw: Seq<char>) -> bool {
    let line = trim(raw);
    &&& !opens_adr(line)
    &&& !has_prefix(line, "**Status:**"@)
    &&& adr_section(line) is None
    &&& !has_prefix(line, "**Tags:**"@)
}

/// Whether no line of `body` would be taken for a part of an ADR's frame.
pub open spec fn plain_adr_body(body: Seq<char>) -> bool {
    forall|i: int|
        0 <= i < ended_lines(body).len() ==> plain_adr_line(#[trigger] ended_lines(body)[i])
}

/// The ADRs whose text can be read back: the id is `ADR-` and more without a
/// colon, id, title and tags are one line each, no tag holds a comma, and no
/// line of a section looks like a part of the frame.
pub open spec fn readable_adr(a: AdrView) -> bool {
    &&& has_prefix(a.id, "ADR-"@)
    &&& !a.id.contains(':')
    &&& no_break(a.id)
    &&& no_break(a.title)
    &&& plain_adr_body(a.context)
    &&& plain_adr_body(a.decision)
    &&& forall|i: int|
        0 <= i < a.tags.len() ==> no_break(#[trigger] a.tags[i]) && !a.tags[i].contains(',')
}

/// `a` with id, title and tags trimmed, blank tags dropped, and each section
/// text settled.
pub open spec fn settled_adr(a: AdrView) -> AdrView {
    AdrView {
        id: trim(a.id),
        title: trim(a.title),
        status: a.status,
        context: settled(a.context),
        decision: settled(a.decision),
        tags: a.tags.filter_map(nonblank()),
    }
}

/// No field of `a` has white space next to a line break or at an end, and no
/// tag is empty.
pub open spec fn tidy_adr(a: AdrView) -> bool {
    &&& tidy(a.id)
    &&& tidy(a.title)
    &&& tidy(a.context)
    &&& tidy(a.decision)
    &&& forall|i: int| 0 <= i < a.tags.len() ==> tidy(#[trigger] a.tags[i]) && a.tags[i].len() > 0
}

spec fn scan_text(scan: AdrScan, x: Seq<char>) -> AdrScan {
    scan_adrs(scan, lines(x))
}

proof fn lemma_scan_concat(scan: AdrScan, a: Seq<Seq<char>>, b: Seq<Seq<char>>)
    ensures
        scan_adrs(scan, a + b) == scan_adrs(scan_adrs(scan, a), b),
    decreases a.len(),
{
    if a.len() == 0 {
        assert(a + b =~= b);
    } else {
        assert((a + b).drop_first() =~= a.drop_first() + b);
        lemma_scan_concat(adr_step(scan, a[0]), a.drop_first(), b);
    }
}

proof fn lemma_scan_text(scan: AdrScan, x: Seq<char>, y: Seq<char>)
    requires
        ends_line(x),
    ensures
        scan_text(scan, x + y) == scan_text(scan_text(scan, x), y),
{
    lemma_lines_concat(x, y);
    lemma_scan_concat(scan, lines(x), lines(y));
}

proof fn lemma_scan_line(scan: AdrScan, l: Seq<char>)
    requires
        no_break(l),
    ensures
        scan_text(scan, l + "\n"@) == adr_step(scan, l),
        ends_line(l + "\n"@),
{
    reveal_strlit("\n");
    lemma_lines_one(l);
    lemma_trim_chomp(l);
    let ls = lines(l + "\n"@);
    assert(ls.drop_first() =~= Seq::<Seq<char>>::empty());
    assert(scan_adrs(adr_step(scan, ls[0]), ls.drop_first()) == adr_step(scan, ls[0]));
}

/// One more line at the end of a text.
proof fn lemma_scan_then_line(scan: AdrScan, x: Seq<char>, l: Seq<char>)
    requires
        ends_line(x),
        no_break(l),
    ensures
        scan_text(scan, x + (l + "\n"@)) == adr_step(scan_text(scan, x), l),
        ends_line(x + (l + "\n"@)),
{
    reveal_strlit("\n");
    lemma_scan_text(scan, x, l + "\n"@);
    lemma_scan_line(scan_text(scan, x), l);
    assert((x + (l + "\n"@)).last() == (l + "\n"@).last());
}

/// An empty line at the end of a text.
proof fn lemma_scan_then_empty(scan: AdrScan, x: Seq<char>)
    requires
        ends_line(x),
    ensures
        scan_text(scan, x + "\n"@) == ({
            let s = scan_text(scan, x);
            match s.open {
                Some(a) => AdrScan { open: Some(extend_adr(a, s.section, "\n"@)), ..s },
                None => s,
            }
        }),
        ends_line(x + "\n"@),
{
    let e = Seq::<char>::empty();
    lemma_scan_then_line(scan, x, e);
    lemma_empty_line_plain();
    assert(e + "\n"@ =~= "\n"@);
}

proof fn lemma_empty_line_plain()
    ensures
        plain_adr_line(Seq::empty()),
        trim(Seq::<char>::empty()) == Seq::<char>::empty(),
        is_blank("\n"@),
{
    reveal_strlit("\n");
    reveal_strlit("## ADR-");
    reveal_strlit("**Status:**");
    reveal_strlit("**Tags:**");
    reveal_strlit("### Context");
    reveal_strlit("### Decision");
    lemma_trim_same(Seq::empty());
}

proof fn lemma_scan_plain(scan: AdrScan, a: AdrView, ls: Seq<Seq<char>>)
    requires
        scan.open == Some(a),
        forall|i: int| 0 <= i < ls.len() ==> plain_adr_line(#[trigger] ls[i]),
    ensures
        scan_adrs(scan, ls) == (AdrScan {
            open: Some(extend_adr(a, scan.section, trimmed_lines(ls))),
            ..scan
        }),
    decreases ls.len(),
{
    if ls.len() == 0 {
        assert(extend_adr(a, scan.section, trimmed_lines(ls)) =~= a);
    } else {
        let line = trim(ls[0]) + "\n"@;
        let next = adr_step(scan, ls[0]);
        let u = extend_adr(a, scan.section, line);
        assert(next == (AdrScan { open: Some(u), ..scan }));
        let rest = ls.drop_first();
        assert forall|i: int| 0 <= i < rest.len() implies plain_adr_line(#[trigger] rest[i]) by {
            assert(rest[i] == ls[i + 1]);
        }
        lemma_scan_plain(next, u, rest);
        assert(extend_adr(u, scan.section, trimmed_lines(rest)) =~= extend_adr(
            a,
            scan.section,
            trimmed_lines(ls),
        ));
    }
}

/// A section heading and a body at the end of a text.
proof fn lemma_scan_then_section(
    scan: AdrScan,
    x: Seq<char>,
    h: Seq<char>,
    section: AdrSection,
    body: Seq<char>,
)
    requires
        ends_line(x),
        scan_text(scan, x).open is Some,
        adr_section(h) == Some(section),
        plain_adr_body(body),
    ensures
        scan_text(scan, x + (h + "\n"@) + (body + "\n"@)) == ({
            let s = scan_text(scan, x);
            AdrScan {
                open: Some(extend_adr(s.open->0, section, trimmed_lines(ended_lines(body)))),
                section,
                ..s
            }
        }),
        ends_line(x + (h + "\n"@) + (body + "\n"@)),
{
    reveal_strlit("\n");
    reveal_strlit("## ADR-");
    reveal_strlit("**Status:**");
    reveal_strlit("### Context");
    reveal_strlit("### Decision");
    lemma_trim_same(h);
    assert(h[2] == '#' && "## ADR-"@[2] == ' ' && "**Status:**"@[0] == '*' && h[0] == '#');
    assert(h.take(7)[2] == h[2]);
    assert(h.take(11)[0] == h[0]);
    lemma_scan_then_line(scan, x, h);
    let s = scan_text(scan, x);
    let y = x + (h + "\n"@);
    lemma_scan_text(scan, y, body + "\n"@);
    lemma_scan_plain(adr_step(s, h), s.open->0, ended_lines(body));
    assert((y + (body + "\n"@)).last() == '\n');
}

/// A header line opens the ADR that it names.
proof fn lemma_adr_header(id: Seq<char>, title: Seq<char>)
    requires
        has_prefix(id, "ADR-"@),
        !id.contains(':'),
    ensures
        opens_adr(trim("## "@ + id + ": "@ + title)),
        adr_header(trim("## "@ + id + ": "@ + title)) == Some(bare_adr(trim(id), trim(title))),
{
    reveal_strlit("## ");
    reveal_strlit("## ADR-");
    reveal_strlit("ADR-");
    reveal_strlit(": ");
    let p = "## "@ + id + seq![':'];
    let rest = seq![' '] + title;
    assert("## "@ + id + ": "@ + title =~= p + rest);
    lemma_trim_after_word(p, rest);
    let line = trim(p + rest);
    let tail = trim_end(rest);
    assert(line == p + tail);
    assert(id.take(4) == "ADR-"@);
    assert(line.take(7) =~= "## "@ + id.take(4));
    assert("## ADR-"@ =~= "## "@ + "ADR-"@);
    let cut = line.skip(3);
    assert(cut =~= id + seq![':'] + tail);
    assert(id[0] == id.take(4)[0]);
    crate::lines::lemma_trim_ends(p + rest);
    assert(cut.last() == line.last());
    lemma_trim_same(cut);
    let n = id.len() as int;
    assert forall|k: int| 0 <= k < n implies cut[k] != ':' by {
        assert(id.contains(id[k]));
    }
    lemma_index_of_at(cut, ':', n);
    assert(cut.take(n) =~= id);
    assert(cut.skip(n + 1) =~= tail);
    assert(line.skip(p.len() as int) =~= tail);
    assert(is_blank(seq![' ']));
    lemma_trim_start_pad(seq![' '], title);
}

/// The header line of an ADR closes what was open and opens the ADR.
proof fn lemma_scan_header(scan: AdrScan, id: Seq<char>, title: Seq<char>)
    requires
        has_prefix(id, "ADR-"@),
        !id.contains(':'),
        no_break(id),
        no_break(title),
    ensures
        scan_text(scan, "## "@ + id + ": "@ + title + "\n"@) == (AdrScan {
            adrs: adrs_of(scan),
            open: Some(bare_adr(trim(id), trim(title))),
            section: AdrSection::Header,
            status: scan.status,
        }),
        ends_line("## "@ + id + ": "@ + title + "\n"@),
{
    lemma_adr_header(id, title);
    let l = "## "@ + id + ": "@ + title;
    assert(no_break(l)) by {
        reveal_strlit("## ");
        reveal_strlit(": ");
        assert forall|k: int| 0 <= k < l.len() implies l[k] != '\n' by {
            let n = id.len() as int;
            if 3 <= k < n + 3 {
                assert(id.contains(id[k - 3]));
            } else if k >= n + 5 {
                assert(title.contains(title[k - n - 5]));
            }
        }
    }
    lemma_scan_line(scan, l);
}

proof fn lemma_tags_padded(y: Seq<char>, b: Seq<char>)
    requires
        is_blank(b),
    ensures
        tag_list(y + b) == tag_list(y),
    decreases y.len(),
{
    reveal_strlit(",");
    let c = ',';
    assert(","@ =~= seq![c]);
    assert(!b.contains(c)) by {
        assert forall|k: int| 0 <= k < b.len() implies b[k] != c by {}
    }
    let f = nonblank();
    lemma_index_of(y, c);
    let k = index_of(y, c);
    if k == y.len() {
        assert(!y.contains(c));
        assert(!(y + b).contains(c)) by {
            assert forall|i: int| 0 <= i < (y + b).len() implies (y + b)[i] != c by {
                if i >= y.len() {
                    assert(b.contains(b[i - y.len()]));
                }
            }
        }
        lemma_split_one(y, c);
        lemma_split_one(y + b, c);
        lemma_trim_end_pad(y, b);
        lemma_filter_map_one(y, f);
        lemma_filter_map_one(y + b, f);
    } else {
        let head = y.take(k);
        let rest = y.skip(k + 1);
        assert(!head.contains(c)) by {
            assert forall|i: int| 0 <= i < head.len() implies head[i] != c by {}
        }
        assert(y =~= head + seq![c] + rest);
        assert(y + b =~= head + seq![c] + (rest + b));
        lemma_split_cons(head, c, rest);
        lemma_split_cons(head, c, rest + b);
        lemma_filter_map_concat(seq![head], split(rest, seq![c]), f);
        lemma_filter_map_concat(seq![head], split(rest + b, seq![c]), f);
        lemma_tags_padded(rest, b);
    }
}

proof fn lemma_filter_map_one(x: Seq<char>, f: spec_fn(Seq<char>) -> Option<Seq<char>>)
    ensures
        seq![x].filter_map(f) == match f(x) {
            Some(y) => seq![y],
            None => Seq::empty(),
        },
{
    let s = seq![x];
    assert(s.drop_last() =~= Seq::<Seq<char>>::empty());
    assert(s.drop_last().filter_map(f) =~= Seq::<Seq<char>>::empty());
    assert(s.filter_map(f) =~= match f(x) {
        Some(y) => seq![y],
        None => Seq::empty(),
    });
}

proof fn lemma_tags_read_back(w: Seq<char>, tags: Seq<Seq<char>>)
    requires
        is_blank(w),
        tags.len() > 0,
        forall|i: int| 0 <= i < tags.len() ==> !(#[trigger] tags[i]).contains(','),
    ensures
        tag_list(w + join(tags, ", "@)) == tags.filter_map(nonblank()),
    decreases tags.len(),
{
    reveal_strlit(",");
    reveal_strlit(", ");
    let c = ',';
    let f = nonblank();
    assert(","@ =~= seq![c]);
    assert(", "@ =~= seq![c] + seq![' ']);
    let t = tags[0];
    let head = w + t;
    assert(!head.contains(c)) by {
        assert forall|i: int| 0 <= i < head.len() implies head[i] != c by {
            if i < w.len() {
                assert(is_white_space(w[i]));
            } else {
                assert(t.contains(t[i - w.len()]));
            }
        }
    }
    lemma_trim_start_pad(w, t);
    lemma_filter_map_one(head, f);
    lemma_filter_map_one(t, f);
    if tags.len() == 1 {
        lemma_split_one(head, c);
        assert(tags =~= seq![t]);
    } else {
        let rest = tags.drop_first();
        let tail = seq![' '] + join(rest, ", "@);
        assert(w + join(tags, ", "@) =~= head + seq![c] + tail);
        lemma_split_cons(head, c, tail);
        lemma_filter_map_concat(seq![head], split(tail, seq![c]), f);
        assert forall|i: int| 0 <= i < rest.len() implies !(#[trigger] rest[i]).contains(',') by {
            assert(rest[i] == tags[i + 1]);
        }
        assert(is_blank(seq![' ']));
        lemma_tags_read_back(seq![' '], rest);
        assert(tags =~= seq![t] + rest);
        lemma_filter_map_concat(seq![t], rest, f);
    }
}

proof fn lemma_join_no_break(tags: Seq<Seq<char>>)
    requires
        forall|i: int| 0 <= i < tags.len() ==> no_break(#[trigger] tags[i]),
    ensures
        no_break(join(tags, ", "@)),
    decreases tags.len(),
{
    reveal_strlit(", ");
    if tags.len() == 1 {
        assert(no_break(tags[0]));
    } else if tags.len() > 1 {
        let rest = tags.drop_first();
        assert forall|i: int| 0 <= i < rest.len() implies no_break(#[trigger] rest[i]) by {
            assert(rest[i] == tags[i + 1]);
        }
        lemma_join_no_break(rest);
        let x = join(tags, ", "@);
        let r = join(rest, ", "@);
        let n = tags[0].len() as int;
        assert forall|i: int| 0 <= i < x.len() implies x[i] != '\n' by {
            if i < n {
                assert(tags[0].contains(tags[0][i]));
            } else if i >= n + 2 {
                assert(r.contains(r[i - n - 2]));
            }
        }
    }
}

/// The line of tags at the end of a text.
proof fn lemma_scan_then_tags(scan: AdrScan, x: Seq<char>, a: AdrView, tags: Seq<Seq<char>>)
    requires
        ends_line(x),
        scan_text(scan, x).open == Some(a),
        tags.len() > 0,
        forall|i: int|
            0 <= i < tags.len() ==> no_break(#[trigger] tags[i]) && !tags[i].contains(','),
    ensures
        scan_text(scan, x + ("**Tags:** "@ + join(tags, ", "@) + "\n"@)) == (AdrScan {
            open: Some(AdrView { tags: tags.filter_map(nonblank()), ..a }),
            ..scan_text(scan, x)
        }),
        ends_line(x + ("**Tags:** "@ + join(tags, ", "@) + "\n"@)),
{
    reveal_strlit("**Tags:** ");
    reveal_strlit("**Tags:**");
    reveal_strlit("**Status:**");
    reveal_strlit("## ADR-");
    reveal_strlit("### Context");
    reveal_strlit("### Decision");
    let list = join(tags, ", "@);
    let l = "**Tags:** "@ + list;
    lemma_join_no_break(tags);
    assert(no_break(l)) by {
        assert forall|i: int| 0 <= i < l.len() implies l[i] != '\n' by {
            if i >= 10 {
                assert(list.contains(list[i - 10]));
            }
        }
    }
    lemma_scan_then_line(scan, x, l);
    let p = "**Tags:**"@;
    let rest = seq![' '] + list;
    assert(l =~= p + rest);
    lemma_trim_after_word(p, rest);
    let line = trim(l);
    assert(line[0] == '*' && line[2] == 'T') by {
        assert(line.take(9)[0] == line[0]);
        assert(line.take(9)[2] == line[2]);
    }
    assert(!opens_adr(line)) by {
        assert(line.take(7)[0] == line[0]);
    }
    assert(!has_prefix(line, "**Status:**"@)) by {
        assert("**Status:**"@[2] == 'S');
        assert(line.len() >= 11 ==> line.take(11)[2] == line[2]);
    }
    assert("### Context"@[0] == '#' && "### Decision"@[0] == '#');
    assert(line.skip(9) =~= trim_end(rest));
    let (i, j) = lemma_core_exists(rest);
    let k = if i < j { j } else { 0 };
    lemma_trim_end_at(rest, k);
    assert(rest =~= rest.take(k) + rest.skip(k));
    assert(is_blank(rest.skip(k)));
    lemma_tags_padded(rest.take(k), rest.skip(k));
    assert(is_blank(seq![' ']));
    lemma_tags_read_back(seq![' '], tags);
}

/// The status line at the end of a text.
proof fn lemma_scan_then_status(scan: AdrScan, x: Seq<char>, status: AdrStatus)
    requires
        ends_line(x),
        scan_text(scan, x).open is Some,
    ensures
        scan_text(scan, x + ("**Status:** "@ + status.name() + "\n"@)) == (AdrScan {
            status: status.name(),
            ..scan_text(scan, x)
        }),
        ends_line(x + ("**Status:** "@ + status.name() + "\n"@)),
{
    reveal_strlit("**Status:** ");
    reveal_strlit("**Status:**");
    reveal_strlit("## ADR-");
    reveal_strlit("Proposed");
    reveal_strlit("Accepted");
    reveal_strlit("Superseded");
    reveal_strlit("Rejected");
    reveal_strlit("Archived");
    let name = status.name();
    let l = "**Status:** "@ + name;
    assert(no_break(l));
    lemma_scan_then_line(scan, x, l);
    let p = "**Status:**"@;
    assert(l =~= p + (seq![' '] + name));
    lemma_trim_after_word(p, seq![' '] + name);
    let line = trim(l);
    assert(!opens_adr(line)) by {
        assert(line.take(11)[0] == line[0]);
        assert(line.take(7)[0] == line[0]);
    }
    assert(is_blank(seq![' ']));
    lemma_trim_start_pad(seq![' '], name);
    lemma_trim_same(name);
}

/// The text of an ADR as its lines and sections.
proof fn lemma_adr_text_parts(a: AdrView)
    ensures
        adr_text(a) == {
            let nl = "\n"@;
            let x1 = "## "@ + a.id + ": "@ + a.title + nl;
            let x2 = x1 + nl + ("**Status:** "@ + a.status.name() + nl);
            let x3 = x2 + nl + ("### Context"@ + nl) + (a.context + nl);
            let x4 = x3 + nl + ("### Decision"@ + nl) + (a.decision + nl);
            if a.tags.len() == 0 {
                x4
            } else {
                x4 + nl + ("**Tags:** "@ + join(a.tags, ", "@) + nl)
            }
        },
{
    reveal_strlit("\n");
    reveal_strlit("\n\n**Status:** ");
    reveal_strlit("**Status:** ");
    reveal_strlit("\n\n### Context\n");
    reveal_strlit("### Context");
    reveal_strlit("\n\n### Decision\n");
    reveal_strlit("### Decision");
    reveal_strlit("\n**Tags:** ");
    reveal_strlit("**Tags:** ");
    let nl = "\n"@;
    assert("\n\n**Status:** "@ =~= nl + nl + "**Status:** "@);
    assert("\n\n### Context\n"@ =~= nl + nl + "### Context"@ + nl);
    assert("\n\n### Decision\n"@ =~= nl + nl + "### Decision"@ + nl);
    assert("\n**Tags:** "@ =~= nl + "**Tags:** "@);
    let x0 = "## "@ + a.id + ": "@ + a.title;
    let name = a.status.name();
    let x2 = x0 + nl + nl + ("**Status:** "@ + name + nl);
    assert(x0 + (nl + nl + "**Status:** "@) + name + (nl + nl + "### Context"@ + nl) + a.context
        =~= x2 + nl + ("### Context"@ + nl) + a.context);
    let x3 = x2 + nl + ("### Context"@ + nl) + (a.context + nl);
    assert(x2 + nl + ("### Context"@ + nl) + a.context + (nl + nl + "### Decision"@ + nl)
        + a.decision + nl =~= x3 + nl + ("### Decision"@ + nl) + (a.decision + nl));
    let x4 = x3 + nl + ("### Decision"@ + nl) + (a.decision + nl);
    if a.tags.len() == 0 {
        assert(x4 + tags_text(a.tags) =~= x4);
    } else {
        assert(x4 + tags_text(a.tags) =~= x4 + nl + ("**Tags:** "@ + join(a.tags, ", "@) + nl));
    }
}

proof fn lemma_adr_sections()
    ensures
        adr_section("### Context"@) == Some(AdrSection::Context),
        adr_section("### Decision"@) == Some(AdrSection::Decision),
{
    reveal_strlit("### Context");
    reveal_strlit("### Decision");
    assert("### Context"@[4] == 'C' && "### Decision"@[4] == 'D');
}

proof fn lemma_scan_adr(scan: AdrScan, a: AdrView) -> (r: AdrScan)
    requires
        readable_adr(a),
    ensures
        r == scan_text(scan, adr_text(a)),
        r.adrs == adrs_of(scan),
        r.open is Some,
        close_adr(r.open->0, r.status) == settled_adr(a),
        ends_line(adr_text(a)),
{
    lemma_adr_text_parts(a);
    lemma_adr_sections();
    let nl = "\n"@;
    let x1 = "## "@ + a.id + ": "@ + a.title + nl;
    lemma_scan_header(scan, a.id, a.title);
    let u1 = bare_adr(trim(a.id), trim(a.title));
    lemma_scan_then_empty(scan, x1);
    lemma_scan_then_status(scan, x1 + nl, a.status);
    let x2 = x1 + nl + ("**Status:** "@ + a.status.name() + nl);
    lemma_scan_then_empty(scan, x2);
    lemma_scan_then_section(scan, x2 + nl, "### Context"@, AdrSection::Context, a.context);
    let x3 = x2 + nl + ("### Context"@ + nl) + (a.context + nl);
    let c1 = trimmed_lines(ended_lines(a.context));
    let u3 = extend_adr(u1, AdrSection::Context, c1);
    assert(scan_text(scan, x3).open == Some(u3));
    lemma_scan_then_empty(scan, x3);
    let u3b = extend_adr(u3, AdrSection::Context, nl);
    lemma_scan_then_section(scan, x3 + nl, "### Decision"@, AdrSection::Decision, a.decision);
    let x4 = x3 + nl + ("### Decision"@ + nl) + (a.decision + nl);
    let c2 = trimmed_lines(ended_lines(a.decision));
    let u4 = extend_adr(u3b, AdrSection::Decision, c2);
    assert(scan_text(scan, x4).open == Some(u4));
    let e = Seq::<char>::empty();
    lemma_empty_line_plain();
    assert(e + c1 =~= c1 && e + c2 =~= c2);
    lemma_settled_ended(a.context);
    lemma_settled_ended(a.decision);
    lemma_trim_end_pad(c1, nl);
    lemma_trim_end_pad(c2, nl);
    law_adr_status_names_read_back(a.status);
    if a.tags.len() == 0 {
        assert(a.tags.filter_map(nonblank()) =~= Seq::<Seq<char>>::empty());
        assert(close_adr(u4, a.status.name()) =~= settled_adr(a));
        scan_text(scan, x4)
    } else {
        lemma_scan_then_empty(scan, x4);
        let u5 = extend_adr(u4, AdrSection::Decision, nl);
        lemma_scan_then_tags(scan, x4 + nl, u5, a.tags);
        let u6 = AdrView { tags: a.tags.filter_map(nonblank()), ..u5 };
        assert(close_adr(u6, a.status.name()) =~= settled_adr(a));
        scan_text(scan, adr_text(a))
    }
}

/// An empty line after an ADR does not change it.
proof fn lemma_scan_adr_apart(scan: AdrScan, a: AdrView)
    requires
        readable_adr(a),
    ensures
        adrs_of(scan_text(scan, adr_text(a) + "\n"@)) == adrs_of(scan).push(settled_adr(a)),
        ends_line(adr_text(a) + "\n"@),
{
    let nl = "\n"@;
    let r = lemma_scan_adr(scan, a);
    lemma_scan_then_empty(scan, adr_text(a));
    let u = r.open->0;
    let r2 = scan_text(scan, adr_text(a) + nl);
    lemma_empty_line_plain();
    lemma_trim_end_pad(u.context, nl);
    lemma_trim_end_pad(u.decision, nl);
    assert(close_adr(r2.open->0, r2.status) =~= close_adr(u, r.status));
}

proof fn lemma_scan_all(scan: AdrScan, adrs: Seq<AdrView>)
    requires
        forall|i: int| 0 <= i < adrs.len() ==> readable_adr(#[trigger] adrs[i]),
    ensures
        adrs_of(scan_text(scan, adrs_text(adrs))) == adrs_of(scan) + adrs.map_values(
            |a: AdrView| settled_adr(a),
        ),
    decreases adrs.len(),
{
    let parts = adrs.map_values(|a: AdrView| adr_text(a));
    let want = adrs.map_values(|a: AdrView| settled_adr(a));
    if adrs.len() == 0 {
        assert(lines(adrs_text(adrs)) =~= Seq::<Seq<char>>::empty());
        assert(adrs_of(scan) + want =~= adrs_of(scan));
    } else {
        let a = adrs[0];
        let rest = adrs.drop_first();
        if adrs.len() == 1 {
            let r = lemma_scan_adr(scan, a);
            assert(adrs_text(adrs) == adr_text(a));
            assert(adrs_of(scan) + want =~= adrs_of(scan).push(settled_adr(a)));
        } else {
            assert(parts.drop_first() =~= rest.map_values(|a: AdrView| adr_text(a)));
            let nl = "\n"@;
            assert(adrs_text(adrs) =~= adr_text(a) + nl + adrs_text(rest));
            lemma_scan_adr_apart(scan, a);
            lemma_scan_text(scan, adr_text(a) + nl, adrs_text(rest));
            assert forall|i: int| 0 <= i < rest.len() implies readable_adr(#[trigger] rest[i]) by {
                assert(rest[i] == adrs[i + 1]);
            }
            let r2 = scan_text(scan, adr_text(a) + nl);
            lemma_scan_all(r2, rest);
            assert(adrs_of(scan).push(settled_adr(a)) + rest.map_values(
                |a: AdrView| settled_adr(a),
            ) =~= adrs_of(scan) + want);
        }
    }
}

/// Reading back rendered ADRs gives the ADRs, with every text settled.
pub proof fn law_adrs_read_back(adrs: Seq<AdrView>)
    requires
        forall|i: int| 0 <= i < adrs.len() ==> readable_adr(#[trigger] adrs[i]),
    ensures
        adrs_in(adrs_text(adrs)) == adrs.map_values(|a: AdrView| settled_adr(a)),
{
    lemma_scan_all(adr_scan_start(), adrs);
    assert(adrs_of(adr_scan_start()) + adrs.map_values(|a: AdrView| settled_adr(a))
        =~= adrs.map_values(|a: AdrView| settled_adr(a)));
}

/// Reading back rendered ADRs gives the very same ADRs where no text has white
/// space next to a line break or at an end and no tag is empty.
pub proof fn law_tidy_adrs_read_back(adrs: Seq<AdrView>)
    requires
        forall|i: int|
            0 <= i < adrs.len() ==> readable_adr(#[trigger] adrs[i]) && tidy_adr(adrs[i]),
    ensures
        adrs_in(adrs_text(adrs)) == adrs,
{
    law_adrs_read_back(adrs);
    assert forall|i: int| 0 <= i < adrs.len() implies settled_adr(#[trigger] adrs[i])
        == adrs[i] by {
        let a = adrs[i];
        lemma_tidy_settled(a.context);
        lemma_tidy_settled(a.decision);
        lemma_tidy_trim(a.id);
        lemma_tidy_trim(a.title);
        lemma_tidy_tags(a.tags);
    }
    assert(adrs.map_values(|a: AdrView| settled_adr(a)) =~= adrs);
}

proof fn lemma_tidy_trim(s: Seq<char>)
    requires
        tidy(s),
    ensures
        trim(s) == s,
{
    if s.len() > 0 {
        assert(!is_white_space(s[0]) && !is_white_space(s[s.len() - 1]));
    }
    lemma_trim_same(s);
}

proof fn lemma_tidy_tags(tags: Seq<Seq<char>>)
    requires
        forall|i: int| 0 <= i < tags.len() ==> tidy(#[trigger] tags[i]) && tags[i].len() > 0,
    ensures
        tags.filter_map(nonblank()) == tags,
    decreases tags.len(),
{
    if tags.len() > 0 {
        let rest = tags.drop_last();
        assert forall|i: int| 0 <= i < rest.len() implies tidy(#[trigger] rest[i]) && rest[i].len()
            > 0 by {
            assert(rest[i] == tags[i]);
        }
        lemma_tidy_tags(rest);
        lemma_tidy_trim(tags.last());
        assert(tags =~= rest + seq![tags.last()]);
    }
}

/// Reading back the active ADRs gives them and no others, with or without the
/// pointer to the archive above them.
pub proof fn law_noted_adrs_read_back(adrs: Seq<AdrView>, noted: bool)
    requires
        forall|i: int| 0 <= i < adrs.len() ==> readable_adr(#[trigger] adrs[i]),
    ensures
        adrs_in(
            if noted {
                "> Historical decisions are in [decisions_archive.md](./decisions_archive.md)\n\n"@
                    + adrs_text(adrs.filter(is_active()))
            } else {
                adrs_text(adrs.filter(is_active()))
            },
        ) == adrs.filter(is_active()).map_values(|a: AdrView| settled_adr(a)),
{
    let active = adrs.filter(is_active());
    assert forall|i: int| 0 <= i < active.len() implies readable_adr(#[trigger] active[i]) by {
        lemma_filter_from(adrs, is_active(), i);
    }
    law_adrs_read_back(active);
    if noted {
        let note = "> Historical decisions are in [decisions_archive.md](./decisions_archive.md)"@;
        let fused = "> Historical decisions are in [decisions_archive.md](./decisions_archive.md)\n\n"@;
        let nl = "\n"@;
        reveal_strlit("> Historical decisions are in [decisions_archive.md](./decisions_archive.md)");
        reveal_strlit(
            "> Historical decisions are in [decisions_archive.md](./decisions_archive.md)\n\n",
        );
        reveal_strlit("\n");
        reveal_strlit("## ADR-");
        assert(fused =~= note + nl + nl);
        lemma_trim_same(note);
        let start = adr_scan_start();
        lemma_scan_line(start, note);
        assert(!opens_adr(note)) by {
            assert(note.take(7)[0] == note[0]);
        }
        lemma_scan_then_empty(start, note + nl);
        lemma_scan_text(start, note + nl + nl, adrs_text(active));
    }
}

/// Reading back the rendered active ADRs gives them and no others.
pub proof fn law_active_adrs_read_back(adrs: Seq<AdrView>)
    requires
        forall|i: int| 0 <= i < adrs.len() ==> readable_adr(#[trigger] adrs[i]),
    ensures
        adrs_in(
            decisions_file_text(adrs.filter(is_active()), adrs.filter(is_stale()).len() > 0),
        ) == adrs.filter(is_active()).map_values(|a: AdrView| settled_adr(a)),
{
    law_noted_adrs_read_back(adrs, adrs.filter(is_stale()).len() > 0);
}

/// Reading back `decisions_archive.md` gives the stale ADRs and no others.
pub proof fn law_stale_adrs_read_back(adrs: Seq<AdrView>)
    requires
        forall|i: int| 0 <= i < adrs.len() ==> readable_adr(#[trigger] adrs[i]),
    ensures
        adrs_in(adrs_text(adrs.filter(is_stale()))) == adrs.filter(is_stale()).map_values(
            |a: AdrView| settled_adr(a),
        ),
{
    let stale = adrs.filter(is_stale());
    assert forall|i: int| 0 <= i < stale.len() implies readable_adr(#[trigger] stale[i]) by {
        lemma_filter_from(adrs, is_stale(), i);
    }
    law_adrs_read_back(stale);
}

// ── What is read can be written and read again ─────────────────────────────

/// A section text as it is collected: ended, trimmed, plain lines.
spec fn raw_body(c: Seq<char>) -> bool {
    &&& ends_line(c)
    &&& line_tidy(c)
    &&& forall|i: int| 0 <= i < lines(c).len() ==> plain_adr_line(#[trigger] lines(c)[i])
}

proof fn lemma_raw_push(c: Seq<char>, l: Seq<char>)
    requires
        raw_body(c),
        no_break(l),
        trim(l) == l,
        plain_adr_line(l),
    ensures
        raw_body(c + (l + "\n"@)),
{
    lemma_trim_ends(l);
    lemma_line_tidy_push(c, l);
    lemma_lines_concat(c, l + "\n"@);
    lemma_lines_one(l);
    lemma_trim_chomp(l);
}

proof fn lemma_raw_closed(c: Seq<char>)
    requires
        raw_body(c),
    ensures
        plain_adr_body(trim(c)),
        settled(trim(c)) == trim(c),
{
    lemma_trim_tidies(c);
    lemma_tidy_settled(trim(c));
    lemma_empty_line_plain();
    lemma_lines_concat(c, "\n"@);
    lemma_lines_one(Seq::empty());
    assert(Seq::<char>::empty() + "\n"@ =~= "\n"@);
    assert(ended_lines(c) == lines(c) + seq![Seq::empty()]);
    let t = trim(c);
    assert forall|i: int| 0 <= i < ended_lines(t).len() implies plain_adr_line(
        #[trigger] ended_lines(t)[i],
    ) by {
        let m = lemma_lines_of_trim(c, i);
        assert(plain_adr_line(ended_lines(c)[m]));
    }
}

/// What holds of the id, the title and the tags of an ADR that was read.
spec fn read_frame(a: AdrView) -> bool {
    &&& has_prefix(a.id, "ADR-"@)
    &&& !a.id.contains(':')
    &&& no_break(a.id)
    &&& trim(a.id) == a.id
    &&& no_break(a.title)
    &&& trim(a.title) == a.title
    &&& forall|i: int|
        0 <= i < a.tags.len() ==> no_break(#[trigger] a.tags[i]) && !a.tags[i].contains(',')
    &&& a.tags.filter_map(nonblank()) == a.tags
}

spec fn sound_scan(scan: AdrScan) -> bool {
    &&& forall|i: int| 0 <= i < scan.adrs.len() ==> read_adr(#[trigger] scan.adrs[i])
    &&& scan.open matches Some(a) ==> read_frame(a) && raw_body(a.context) && raw_body(a.decision)
}

/// An ADR that reading gives: it can be written, and reads back as it is.
pub open spec fn read_adr(a: AdrView) -> bool {
    readable_adr(a) && settled_adr(a) == a
}

proof fn lemma_closed_adrs(scan: AdrScan)
    requires
        sound_scan(scan),
    ensures
        forall|i: int| 0 <= i < adrs_of(scan).len() ==> read_adr(#[trigger] adrs_of(scan)[i]),
{
    if let Some(a) = scan.open {
        lemma_raw_closed(a.context);
        lemma_raw_closed(a.decision);
        let closed = close_adr(a, scan.status);
        assert(settled_adr(closed) =~= closed);
    }
}

proof fn lemma_header_frame(line: Seq<char>)
    requires
        no_break(line),
        trim(line) == line,
        opens_adr(line),
    ensures
        adr_header(line) matches Some(a) ==> read_frame(a) && raw_body(a.context) && raw_body(
            a.decision,
        ),
{
    reveal_strlit("## ADR-");
    reveal_strlit("ADR-");
    reveal_strlit("## ");
    let cut = line.skip(3);
    let header = trim(cut);
    assert(line.take(7) =~= "## ADR-"@);
    assert forall|k: int| 0 <= k < 4 implies cut[k] == "ADR-"@[k] by {
        assert(line.take(7)[k + 3] == "## ADR-"@[k + 3]);
    }
    lemma_trim_ends(line);
    assert(cut.last() == line.last());
    lemma_trim_same(cut);
    assert(!cut.contains('\n')) by {
        assert forall|k: int| 0 <= k < cut.len() implies cut[k] != '\n' by {
            assert(line.contains(line[k + 3]));
        }
    }
    lemma_index_of(header, ':');
    let colon = index_of(header, ':');
    if colon < header.len() {
        assert(colon >= 4) by {
            if colon < 4 {
                assert(header[colon] == "ADR-"@[colon]);
            }
        }
        let id = header.take(colon);
        let title = header.skip(colon + 1);
        let (i, j) = lemma_core_exists(id);
        lemma_trim_is_core(id, i, j);
        assert(id[0] == 'A' && id[3] == '-');
        assert(i == 0 && j >= 4);
        assert(trim(id).take(4) =~= "ADR-"@);
        assert(!id.contains('\n') && !id.contains(':')) by {
            assert forall|k: int| 0 <= k < id.len() implies id[k] != '\n' && id[k] != ':' by {
                assert(cut.contains(cut[k]));
            }
        }
        assert(!title.contains('\n')) by {
            assert forall|k: int| 0 <= k < title.len() implies title[k] != '\n' by {
                assert(cut.contains(cut[k + colon + 1]));
            }
        }
        lemma_trim_lacks(id, '\n');
        lemma_trim_lacks(id, ':');
        lemma_trim_lacks(title, '\n');
        lemma_trim_ends(id);
        lemma_trim_same(trim(id));
        lemma_trim_ends(title);
        lemma_trim_same(trim(title));
        let none = Seq::<Seq<char>>::empty();
        assert(none.filter_map(nonblank()) =~= none);
        assert(lines(Seq::<char>::empty()) =~= none);
    }
}

proof fn lemma_tags_read(list: Seq<char>)
    requires
        no_break(list),
    ensures
        tag_list(list).filter_map(nonblank()) == tag_list(list),
        forall|i: int|
            0 <= i < tag_list(list).len() ==> no_break(#[trigger] tag_list(list)[i]) && !tag_list(
                list,
            )[i].contains(','),
{
    reveal_strlit(",");
    assert(","@ =~= seq![',']);
    let pieces = split(list, seq![',']);
    lemma_nonblank_kept(pieces);
    assert forall|k: int| 0 <= k < pieces.len() implies !(#[trigger] pieces[k]).contains('\n')
        && !pieces[k].contains(',') by {
        lemma_split_lacks(list, ',', '\n', k);
        lemma_split_lacks(list, ',', ',', k);
    }
    assert forall|i: int| 0 <= i < tag_list(list).len() implies no_break(
        #[trigger] tag_list(list)[i],
    ) && !tag_list(list)[i].contains(',') by {
        lemma_nonblank_lacks(pieces, '\n', i);
        lemma_nonblank_lacks(pieces, ',', i);
    }
}

proof fn lemma_sound_step(scan: AdrScan, raw: Seq<char>)
    requires
        sound_scan(scan),
        no_break(raw),
    ensures
        sound_scan(adr_step(scan, raw)),
{
    let line = trim(raw);
    lemma_trim_lacks(raw, '\n');
    lemma_trim_ends(raw);
    lemma_trim_same(line);
    if opens_adr(line) {
        lemma_closed_adrs(scan);
        lemma_header_frame(line);
    } else if let Some(a) = scan.open {
        if has_prefix(line, "**Status:**"@) || adr_section(line) is Some {
        } else if has_prefix(line, "**Tags:**"@) {
            let list = line.skip("**Tags:**"@.len() as int);
            assert(no_break(list)) by {
                assert forall|k: int| 0 <= k < list.len() implies list[k] != '\n' by {
                    assert(line.contains(line[k + "**Tags:**"@.len()]));
                }
            }
            lemma_tags_read(list);
        } else {
            lemma_raw_push(a.context, line);
            lemma_raw_push(a.decision, line);
        }
    }
}

proof fn lemma_sound_scan(scan: AdrScan, ls: Seq<Seq<char>>)
    requires
        sound_scan(scan),
        forall|i: int| 0 <= i < ls.len() ==> no_break(#[trigger] ls[i]),
    ensures
        sound_scan(scan_adrs(scan, ls)),
    decreases ls.len(),
{
    if ls.len() > 0 {
        assert(no_break(ls[0]));
        lemma_sound_step(scan, ls[0]);
        let rest = ls.drop_first();
        assert forall|i: int| 0 <= i < rest.len() implies no_break(#[trigger] rest[i]) by {
            assert(rest[i] == ls[i + 1]);
        }
        lemma_sound_scan(adr_step(scan, ls[0]), rest);
    }
}

/// Whatever a text holds, each ADR that is read from it can be written, and reads
/// back as it is.
pub proof fn law_read_adrs_can_be_written(md: Seq<char>)
    ensures
        forall|i: int| 0 <= i < adrs_in(md).len() ==> read_adr(#[trigger] adrs_in(md)[i]),
{
    assert forall|i: int| 0 <= i < lines(md).len() implies no_break(#[trigger] lines(md)[i]) by {
        lemma_line_no_break(md, i);
    }
    lemma_sound_scan(adr_scan_start(), lines(md));
    lemma_closed_adrs(scan_adrs(adr_scan_start(), lines(md)));
}

/// Reading any text of decisions, writing what was read and reading that again
/// gives the same ADRs.
pub proof fn law_rewritten_adrs_stay(md: Seq<char>)
    ensures
        adrs_in(adrs_text(adrs_in(md))) == adrs_in(md),
{
    law_read_adrs_can_be_written(md);
    law_adrs_read_back(adrs_in(md));
    lemma_settled_all(adrs_in(md));
}

pub proof fn lemma_settled_all(adrs: Seq<AdrView>)
    requires
        forall|i: int| 0 <= i < adrs.len() ==> read_adr(#[trigger] adrs[i]),
    ensures
        adrs.map_values(|a: AdrView| settled_adr(a)) == adrs,
{
    let want = adrs.map_values(|a: AdrView| settled_adr(a));
    assert forall|i: int| 0 <= i < adrs.len() implies want[i] == adrs[i] by {
        assert(read_adr(adrs[i]));
    }
    assert(want =~= adrs);
}

/// What a filter keeps comes from the sequence.
pub proof fn lemma_filter_from<A>(s: Seq<A>, keep: spec_fn(A) -> bool, i: int)
    requires
        0 <= i < s.filter(keep).len(),
    ensures
        s.contains(s.filter(keep)[i]),
        keep(s.filter(keep)[i]),
    decreases s.len(),
{
    reveal(Seq::filter);
    if s.len() > 0 {
        let rest = s.drop_last();
        if i < rest.filter(keep).len() {
            lemma_filter_from(rest, keep, i);
            let k = choose|k: int| 0 <= k < rest.len() && rest[k] == rest.filter(keep)[i];
            assert(s[k] == rest[k]);
        } else {
            assert(s[s.len() - 1] == s.last());
        }
    }
}

/// A filter keeps what is to be kept.
pub proof fn lemma_filter_has<A>(s: Seq<A>, keep: spec_fn(A) -> bool, a: A)
    requires
        s.contains(a),
        keep(a),
    ensures
        s.filter(keep).contains(a),
    decreases s.len(),
{
    reveal(Seq::filter);
    let k = choose|k: int| 0 <= k < s.len() && s[k] == a;
    let rest = s.drop_last();
    if k < rest.len() {
        assert(rest[k] == a);
        lemma_filter_has(rest, keep, a);
        let q = choose|q: int| 0 <= q < rest.filter(keep).len() && rest.filter(keep)[q] == a;
        assert(s.filter(keep)[q] == a);
    } else {
        assert(s.filter(keep)[rest.filter(keep).len() as int] == a);
    }
}

} // verus!
