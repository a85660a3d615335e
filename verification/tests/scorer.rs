use memguard::search::scorer::{
    contains_word, ngram_overlap, token_hit, truncate, Overlap, Query, TokenHit,
};

/// The share of n-grams of two texts.
fn ngram_jaccard(a: &str, b: &str, n: usize) -> f64 {
    match ngram_overlap(a, b, n) {
        Overlap::Nothing => 0.0,
        Overlap::Short { related } => {
            if related {
                0.5
            } else {
                0.0
            }
        }
        Overlap::Grams { shared, total } => 2.0 * shared as f64 / total as f64,
    }
}

/// The score of weighted fields: their weight for each exact hit, a quarter of it
/// times the share for each fuzzy one, and half of it for a phrase.
fn score_match_v3(query: &str, fields: &[(f64, &str)]) -> f64 {
    let q = Query::new(query);
    let mut total = 0.0;
    for &(weight, field) in fields {
        let found = q.field_hits(1, field);
        for hit in &found.hits {
            total += match *hit {
                TokenHit::Exact => weight,
                TokenHit::Fuzzy { shared, total } => {
                    weight * 0.25 * (2.0 * shared as f64 / total as f64)
                }
                TokenHit::Near => weight * 0.25 * 0.5,
                TokenHit::Miss => 0.0,
            };
        }
        if found.phrase {
            total += weight * 0.5;
        }
    }
    total
}


// ── Scoring tests (score_match_v3) ──────────────────────────────────────

#[test]
fn test_score_match_exact() {
    let s = score_match_v3("auth token", &[(1.0, "Authentication token validation")]);
    assert_eq!(s, 2.0);
}

#[test]
fn test_score_match_no_match() {
    let s = score_match_v3("database", &[(1.0, "HTTP routing")]);
    assert_eq!(s, 0.0);
}

#[test]
fn test_score_match_partial() {
    let s = score_match_v3(
        "login page",
        &[(1.0, "Implement user authentication and login flow")],
    );
    assert_eq!(s, 1.0); // "login" matches
}

// ── Word-boundary tests ─────────────────────────────────────────────────

#[test]
fn test_contains_word_exact() {
    assert!(contains_word("Authentication token validation", "auth"));
}

#[test]
fn test_contains_word_no_false_positive() {
    assert!(!contains_word("partition", "art"));
}

// ── N-gram Jaccard tests ────────────────────────────────────────────────

#[test]
fn test_ngram_jaccard_fuzzy_match() {
    let j = ngram_jaccard("auth", "authentication", 3);
    assert!(j > 0.25, "expected fuzzy match > 0.25, got {}", j);
}

#[test]
fn test_ngram_jaccard_no_false_match() {
    let j = ngram_jaccard("database", "authentication", 3);
    assert_eq!(j, 0.0);
}

// ── Scoring priority tests ──────────────────────────────────────────────

#[test]
fn test_score_v3_exact_ranks_above_fuzzy() {
    let exact = score_match_v3("auth", &[(10.0, "auth module")]);
    let fuzzy = score_match_v3("auth", &[(10.0, "unauthorized access")]);
    assert!(
        exact > fuzzy,
        "exact match ({}) should score higher than fuzzy match ({})",
        exact,
        fuzzy
    );
}

#[test]
fn test_score_v3_phrase_bonus() {
    let with_phrase = score_match_v3("auth token", &[(10.0, "auth token validation")]);
    let without_phrase = score_match_v3("auth token", &[(10.0, "auth and token validation")]);
    assert!(
        with_phrase > without_phrase,
        "phrase bonus should make contiguous match score higher"
    );
}

// ── Truncate tests ──────────────────────────────────────────────────────

#[test]
fn test_truncate_short() {
    assert_eq!(truncate("hello", 10), "hello");
}

#[test]
fn test_truncate_long() {
    let result = truncate("hello world this is long", 10);
    assert!(result.ends_with('…'));
    assert!(result.len() <= 13); // 10 chars + "…" (3 bytes)
}

#[test]
fn truncation_keeps_the_first_characters() {
    assert_eq!(truncate("hello world", 5), "hello…");
    assert_eq!(truncate("hello", 5), "hello");
    assert_eq!(truncate("", 0), "");
    assert_eq!(truncate("认证令牌", 2), "认证…");
}

#[test]
fn words_are_found_case_aside() {
    assert!(contains_word("LoginScreen", "screen"));
    assert!(contains_word("LoginScreen", "Login"));
    assert!(contains_word("snake_case_name", "CASE"));
    assert!(contains_word("kebab-case", "case"));
    assert!(!contains_word("Loginscreen", "screen"));
    assert!(contains_word("", ""));
    assert!(!contains_word("", "a"));
    // Letters beyond ASCII.
    assert!(contains_word("Über alles", "über"));
    assert!(contains_word("große Änderung", "änder"));
    assert!(contains_word("petitÉcole", "école"));
}

#[test]
fn overlap_counts_windows_once() {
    assert_eq!(ngram_overlap("auth", "authentication", 3), Overlap::Grams { shared: 2, total: 14 });
    assert_eq!(ngram_overlap("aaaa", "aaaa", 3), Overlap::Grams { shared: 1, total: 2 });
    assert_eq!(ngram_overlap("", "abc", 3), Overlap::Nothing);
    assert_eq!(ngram_overlap("ab", "cabd", 3), Overlap::Short { related: true });
    assert_eq!(ngram_overlap("AB", "cabd", 3), Overlap::Short { related: true });
    assert_eq!(ngram_overlap("ab", "ba", 3), Overlap::Short { related: false });
    assert_eq!(ngram_jaccard("abcd", "abcd", 3), 1.0);
    assert_eq!(ngram_jaccard("abcd", "bcde", 3), ngram_jaccard("bcde", "abcd", 3));
}

#[test]
fn tokens_hit_exactly_or_by_share() {
    assert_eq!(token_hit("auth", "auth module"), TokenHit::Exact);
    // "unauthorized" has ten trigrams, "auth" two: a share of a third.
    assert_eq!(token_hit("auth", "unauthorized"), TokenHit::Fuzzy { shared: 2, total: 12 });
    // With fifteen or more trigrams in all the share is a quarter or less.
    assert_eq!(token_hit("auth", "unauthorized access"), TokenHit::Miss);
    assert_eq!(token_hit("ui", "gui"), TokenHit::Near);
    assert_eq!(token_hit("xy", "gui"), TokenHit::Miss);
    assert_eq!(token_hit("abc", ""), TokenHit::Miss);
}

#[test]
fn a_phrase_needs_two_tokens() {
    let one = Query::new("auth").field_hits(10, "auth");
    assert!(!one.phrase);
    assert!(one.any());
    let two = Query::new("Auth Token").field_hits(10, "the AUTH token");
    assert!(two.phrase);
    assert_eq!(two.hits, vec![TokenHit::Exact, TokenHit::Exact]);
    assert_eq!(two.weight, 10);
    let none = Query::new("   ").field_hits(10, "anything");
    assert!(none.hits.is_empty() && !none.phrase && !none.any());
}
