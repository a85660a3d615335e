//! The canonical names of project phases.
use vstd::prelude::*;

use crate::foreign::{lowercase, to_lower};
use crate::lines::{lemma_trim_ends, lemma_trim_same};
use crate::text::{is_literal, same_text, string_of, to_chars, trim, trimmed};

verus! {

/// The five canonical phases.
pub open spec fn is_canonical(p: Seq<char>) -> bool {
    p == "explore"@ || p == "plan"@ || p == "implement"@ || p == "verify"@ || p == "complete"@
}

/// The canonical phase that a lower-case Chinese or longer English name means.
pub open spec fn phase_alias(lower: Seq<char>) -> Option<Seq<char>> {
    if lower == "探索模式"@ || lower == "探索"@ || lower == "exploration"@ || lower
        == "divergence"@ {
        Some("explore"@)
    } else if lower == "规划"@ || lower == "计划"@ || lower == "架构设计"@ || lower == "planning"@
        || lower == "architecture design"@ {
        Some("plan"@)
    } else if lower == "执行模式"@ || lower == "实施"@ || lower == "实现"@ || lower == "开发"@
        || lower == "开发中"@ || lower == "开发阶段"@ || lower == "execution mode"@ || lower
        == "execution"@ || lower == "implementation"@ {
        Some("implement"@)
    } else if lower == "验证"@ || lower == "测试"@ || lower == "校验"@ || lower == "testing"@
        || lower == "verification"@ || lower == "validation"@ {
        Some("verify"@)
    } else if lower == "完成"@ || lower == "交付"@ || lower == "delivered"@ || lower
        == "completion"@ || lower == "done"@ {
        Some("complete"@)
    } else {
        None
    }
}

/// The canonical name of the phase `raw`; an unknown phase stays, trimmed.
pub open spec fn canonical_phase(raw: Seq<char>) -> Seq<char> {
    let t = trim(raw);
    if is_canonical(t) {
        t
    } else {
        match phase_alias(lowercase(t)) {
            Some(p) => p,
            None => t,
        }
    }
}

/// Normalize a phase string to its canonical short identifier.
///
/// Maps known Chinese and verbose English variants to the canonical set
/// `explore`, `plan`, `implement`, `verify`, `complete`. Already-canonical
/// strings are returned unchanged. Unknown inputs pass through, trimmed.
pub fn canonicalize_phase(raw: &str) -> (r: String)
    ensures
        r@ == canonical_phase(raw@),
{
    let chars = to_chars(raw);
    let t = trimmed(chars.as_slice());
    let phase = string_of(t);
    if is_literal(t, "explore") || is_literal(t, "plan") || is_literal(t, "implement")
        || is_literal(t, "verify") || is_literal(t, "complete") {
        return phase;
    }
    let lower = to_lower(phase.as_str());
    let l = lower.as_str();
    if same_text(l, "探索模式") || same_text(l, "探索") || same_text(l, "exploration")
        || same_text(l, "divergence") {
        "explore".to_owned()
    } else if same_text(l, "规划") || same_text(l, "计划") || same_text(l, "架构设计")
        || same_text(l, "planning") || same_text(l, "architecture design") {
        "plan".to_owned()
    } else if same_text(l, "执行模式") || same_text(l, "实施") || same_text(l, "实现")
        || same_text(l, "开发") || same_text(l, "开发中") || same_text(l, "开发阶段")
        || same_text(l, "execution mode") || same_text(l, "execution") || same_text(
        l,
        "implementation",
    ) {
        "implement".to_owned()
    } else if same_text(l, "验证") || same_text(l, "测试") || same_text(l, "校验") || same_text(
        l,
        "testing",
    ) || same_text(l, "verification") || same_text(l, "validation") {
        "verify".to_owned()
    } else if same_text(l, "完成") || same_text(l, "交付") || same_text(l, "delivered")
        || same_text(l, "completion") || same_text(l, "done") {
        "complete".to_owned()
    } else {
        phase
    }
}

// ── Laws ───────────────────────────────────────────────────────────────────

proof fn lemma_canonical_trimmed(p: Seq<char>)
    requires
        is_canonical(p),
    ensures
        trim(p) == p,
{
    reveal_strlit("explore");
    reveal_strlit("plan");
    reveal_strlit("implement");
    reveal_strlit("verify");
    reveal_strlit("complete");
    lemma_trim_same(p);
}

/// Normalizing a phase a second time changes nothing.
pub proof fn law_canonical_phase_idempotent(raw: Seq<char>)
    ensures
        canonical_phase(canonical_phase(raw)) == canonical_phase(raw),
{
    let t = trim(raw);
    lemma_trim_ends(raw);
    let p = canonical_phase(raw);
    if p != t {
        assert(is_canonical(p));
        lemma_canonical_trimmed(p);
    }
}

/// A phase whose name is known in any case or language ends up canonical.
pub proof fn law_known_phase_becomes_canonical(raw: Seq<char>)
    requires
        is_canonical(trim(raw)) || phase_alias(lowercase(trim(raw))) is Some,
    ensures
        is_canonical(canonical_phase(raw)),
{
}

/// A canonical phase is returned unchanged.
pub proof fn law_canonical_phase_unchanged(p: Seq<char>)
    requires
        is_canonical(p),
    ensures
        canonical_phase(p) == p,
{
    lemma_canonical_trimmed(p);
}

/// White space around a phase does not matter.
pub proof fn law_phase_ignores_outer_space(a: Seq<char>, raw: Seq<char>, b: Seq<char>)
    requires
        crate::text::is_blank(a),
        crate::text::is_blank(b),
    ensures
        canonical_phase(a + raw + b) == canonical_phase(raw),
{
    crate::lines::lemma_trim_pad(a, raw, b);
}

/// Every name of a phase is a name of one canonical phase, whatever the case of its
/// letters and the white space round it.
pub proof fn law_names_of_phases(raw: Seq<char>)
    ensures
        ({
            let name = lowercase(trim(raw));
            &&& name == "探索模式"@ || name == "探索"@ || name == "exploration"@
                || name == "divergence"@ ==> canonical_phase(raw) == "explore"@
            &&& name == "规划"@ || name == "计划"@ || name == "架构设计"@ || name == "planning"@
                || name == "architecture design"@ ==> canonical_phase(raw) == "plan"@
            &&& name == "执行模式"@ || name == "实施"@ || name == "实现"@ || name == "开发"@
                || name == "开发中"@ || name == "开发阶段"@ || name == "execution mode"@
                || name == "execution"@ || name == "implementation"@
                ==> canonical_phase(raw) == "implement"@
            &&& name == "验证"@ || name == "测试"@ || name == "校验"@ || name == "testing"@
                || name == "verification"@ || name == "validation"@
                ==> canonical_phase(raw) == "verify"@
            &&& name == "完成"@ || name == "交付"@ || name == "delivered"@
                || name == "completion"@ || name == "done"@
                ==> canonical_phase(raw) == "complete"@
        }),
{
    let t = trim(raw);
    let name = lowercase(t);
    reveal_strlit("explore");
    reveal_strlit("plan");
    reveal_strlit("implement");
    reveal_strlit("verify");
    reveal_strlit("complete");
    reveal_strlit("探索模式");
    reveal_strlit("探索");
    reveal_strlit("exploration");
    reveal_strlit("divergence");
    reveal_strlit("规划");
    reveal_strlit("计划");
    reveal_strlit("架构设计");
    reveal_strlit("planning");
    reveal_strlit("architecture design");
    reveal_strlit("执行模式");
    reveal_strlit("实施");
    reveal_strlit("实现");
    reveal_strlit("开发");
    reveal_strlit("开发中");
    reveal_strlit("开发阶段");
    reveal_strlit("execution mode");
    reveal_strlit("execution");
    reveal_strlit("implementation");
    reveal_strlit("验证");
    reveal_strlit("测试");
    reveal_strlit("校验");
    reveal_strlit("testing");
    reveal_strlit("verification");
    reveal_strlit("validation");
    reveal_strlit("完成");
    reveal_strlit("交付");
    reveal_strlit("delivered");
    reveal_strlit("completion");
    reveal_strlit("done");
    assert("explore"@.len() == 7 && "explore"@[0] == 'e' && "explore"@[1] == 'x');
    assert("plan"@.len() == 4 && "plan"@[0] == 'p' && "plan"@[1] == 'l');
    assert("implement"@.len() == 9 && "implement"@[0] == 'i' && "implement"@[1] == 'm');
    assert("verify"@.len() == 6 && "verify"@[0] == 'v' && "verify"@[1] == 'e');
    assert("complete"@.len() == 8 && "complete"@[0] == 'c' && "complete"@[1] == 'o');
    assert("探索模式"@.len() == 4 && "探索模式"@[0] == '探' && "探索模式"@[1] == '索');
    assert("探索"@.len() == 2 && "探索"@[0] == '探' && "探索"@[1] == '索');
    assert("exploration"@.len() == 11 && "exploration"@[0] == 'e' && "exploration"@[1] == 'x');
    assert("divergence"@.len() == 10 && "divergence"@[0] == 'd' && "divergence"@[1] == 'i');
    assert("规划"@.len() == 2 && "规划"@[0] == '规' && "规划"@[1] == '划');
    assert("计划"@.len() == 2 && "计划"@[0] == '计' && "计划"@[1] == '划');
    assert("架构设计"@.len() == 4 && "架构设计"@[0] == '架' && "架构设计"@[1] == '构');
    assert("planning"@.len() == 8 && "planning"@[0] == 'p' && "planning"@[1] == 'l');
    assert("architecture design"@.len() == 19 && "architecture design"@[0] == 'a' && "architecture design"@[1] == 'r');
    assert("执行模式"@.len() == 4 && "执行模式"@[0] == '执' && "执行模式"@[1] == '行');
    assert("实施"@.len() == 2 && "实施"@[0] == '实' && "实施"@[1] == '施');
    assert("实现"@.len() == 2 && "实现"@[0] == '实' && "实现"@[1] == '现');
    assert("开发"@.len() == 2 && "开发"@[0] == '开' && "开发"@[1] == '发');
    assert("开发中"@.len() == 3 && "开发中"@[0] == '开' && "开发中"@[1] == '发');
    assert("开发阶段"@.len() == 4 && "开发阶段"@[0] == '开' && "开发阶段"@[1] == '发');
    assert("execution mode"@.len() == 14 && "execution mode"@[0] == 'e' && "execution mode"@[1] == 'x');
    assert("execution"@.len() == 9 && "execution"@[0] == 'e' && "execution"@[1] == 'x');
    assert("implementation"@.len() == 14 && "implementation"@[0] == 'i' && "implementation"@[1] == 'm');
    assert("验证"@.len() == 2 && "验证"@[0] == '验' && "验证"@[1] == '证');
    assert("测试"@.len() == 2 && "测试"@[0] == '测' && "测试"@[1] == '试');
    assert("校验"@.len() == 2 && "校验"@[0] == '校' && "校验"@[1] == '验');
    assert("testing"@.len() == 7 && "testing"@[0] == 't' && "testing"@[1] == 'e');
    assert("verification"@.len() == 12 && "verification"@[0] == 'v' && "verification"@[1] == 'e');
    assert("validation"@.len() == 10 && "validation"@[0] == 'v' && "validation"@[1] == 'a');
    assert("完成"@.len() == 2 && "完成"@[0] == '完' && "完成"@[1] == '成');
    assert("交付"@.len() == 2 && "交付"@[0] == '交' && "交付"@[1] == '付');
    assert("delivered"@.len() == 9 && "delivered"@[0] == 'd' && "delivered"@[1] == 'e');
    assert("completion"@.len() == 10 && "completion"@[0] == 'c' && "completion"@[1] == 'o');
    assert("done"@.len() == 4 && "done"@[0] == 'd' && "done"@[1] == 'o');
    if is_canonical(t) {
        assert(lowercase(t) =~= t);
    }
}

/// What is no name of a phase stays as it is, trimmed.
pub proof fn law_other_phases_stay(raw: Seq<char>)
    requires
        lowercase(trim(raw)) != "探索模式"@,
        lowercase(trim(raw)) != "探索"@,
        lowercase(trim(raw)) != "exploration"@,
        lowercase(trim(raw)) != "divergence"@,
        lowercase(trim(raw)) != "规划"@,
        lowercase(trim(raw)) != "计划"@,
        lowercase(trim(raw)) != "架构设计"@,
        lowercase(trim(raw)) != "planning"@,
        lowercase(trim(raw)) != "architecture design"@,
        lowercase(trim(raw)) != "执行模式"@,
        lowercase(trim(raw)) != "实施"@,
        lowercase(trim(raw)) != "实现"@,
        lowercase(trim(raw)) != "开发"@,
        lowercase(trim(raw)) != "开发中"@,
        lowercase(trim(raw)) != "开发阶段"@,
        lowercase(trim(raw)) != "execution mode"@,
        lowercase(trim(raw)) != "execution"@,
        lowercase(trim(raw)) != "implementation"@,
        lowercase(trim(raw)) != "验证"@,
        lowercase(trim(raw)) != "测试"@,
        lowercase(trim(raw)) != "校验"@,
        lowercase(trim(raw)) != "testing"@,
        lowercase(trim(raw)) != "verification"@,
        lowercase(trim(raw)) != "validation"@,
        lowercase(trim(raw)) != "完成"@,
        lowercase(trim(raw)) != "交付"@,
        lowercase(trim(raw)) != "delivered"@,
        lowercase(trim(raw)) != "completion"@,
        lowercase(trim(raw)) != "done"@,
    ensures
        canonical_phase(raw) == trim(raw),
{
}

} // verus!
