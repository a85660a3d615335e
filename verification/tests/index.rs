use memguard::models::{AdrStatus, Trap, ADR};
use memguard::search::index::{rank, tokenize_field, EntryType, SearchIndex, SearchItem};
use memguard::search::scorer::{FieldHits, Query, TokenHit};
use std::time::Instant;

struct SearchResult {
    score: f64,
    item: SearchItem,
}

/// The score of a field of the given weight.
fn field_score(weight: f64, field: &FieldHits) -> f64 {
    let mut total = 0.0;
    for hit in &field.hits {
        total += match *hit {
            TokenHit::Exact => weight,
            TokenHit::Fuzzy { shared, total } => {
                weight * 0.25 * (2.0 * shared as f64 / total as f64)
            }
            TokenHit::Near => weight * 0.25 * 0.5,
            TokenHit::Miss => 0.0,
        };
    }
    if field.phrase {
        total += weight * 0.5;
    }
    total
}

fn score_match_v3(query: &str, fields: &[(f64, &str)]) -> f64 {
    let q = Query::new(query);
    fields.iter().map(|&(w, f)| field_score(w, &q.field_hits(1, f))).sum()
}

/// Score what the index finds, and keep the best.
fn search(index: &SearchIndex, query: &str, limit: usize, include_stale: bool) -> Vec<SearchResult> {
    let found = index.find(query, include_stale);
    let scores: Vec<f64> = found
        .iter()
        .map(|m| {
            let score: f64 = m.fields.iter().map(|f| field_score(f.weight as f64, f)).sum();
            if m.stale {
                score * 0.3
            } else {
                score
            }
        })
        .collect();
    let keys: Vec<u64> = scores.iter().map(|s| s.to_bits()).collect();
    rank(&keys, limit)
        .into_iter()
        .map(|i| SearchResult { score: scores[i], item: index.item(found[i].entry).unwrap() })
        .collect()
}


// ── Helpers ─────────────────────────────────────────────────────────

/// Build a test ADR with the given id/title/status and fixed fields.
fn adr(id: &str, title: &str, status: AdrStatus) -> ADR {
    ADR {
        id: id.into(),
        title: title.into(),
        status,
        context: format!("Context for {}.", id),
        decision: format!("Decision for {}.", id),
        tags: vec![],
    }
}

/// Build a test Trap with the given signature.
fn trap(sig: &str) -> Trap {
    Trap {
        error_signature: sig.into(),
        context: format!("Ctx {}.", sig),
        solution: format!("Sol {}.", sig),
        root_cause: format!("Rc {}.", sig),
        prevention: format!("Prev {}.", sig),
    }
}

/// Helper: brute-force search that iterates ALL items, same scoring as
/// `SearchIndex::search()`.  Returns (score, item_id_string).
fn brute_force(
    adrs: &[ADR],
    traps: &[Trap],
    query: &str,
    include_stale: bool,
) -> Vec<(f64, String)> {
    let mut results: Vec<(f64, String)> = Vec::new();

    for adr in adrs {
        if !include_stale
            && !matches!(adr.status, AdrStatus::Accepted | AdrStatus::Proposed)
        {
            continue;
        }
        let score = score_match_v3(
            query,
            &[
                (10.0, &adr.title),
                (2.0, &adr.context),
                (4.0, &adr.decision),
                (6.0, &adr.tags.join(" ")),
            ],
        );
        if score > 0.0 {
            let final_score =
                if !matches!(adr.status, AdrStatus::Accepted | AdrStatus::Proposed) {
                    score * 0.3
                } else {
                    score
                };
            results.push((final_score, adr.id.clone()));
        }
    }

    for t in traps {
        let score = score_match_v3(
            query,
            &[
                (15.0, &t.error_signature),
                (3.0, &t.context),
                (6.0, &t.solution),
                (8.0, &t.root_cause),
                (5.0, &t.prevention),
            ],
        );
        if score > 0.0 {
            results.push((score, t.error_signature.clone()));
        }
    }

    results.sort_by(|a, b| b.0.partial_cmp(&a.0).unwrap_or(std::cmp::Ordering::Equal));
    results
}

/// Run indexed search and return (score, item_id_string) tuples.
fn indexed_search(
    index: &SearchIndex,
    query: &str,
    limit: usize,
    include_stale: bool,
) -> Vec<(f64, String)> {
    search(index, query, limit, include_stale)
        .into_iter()
        .map(|r| match r.item {
            SearchItem::Adr(a) => (r.score, a.id),
            SearchItem::Trap(t) => (r.score, t.error_signature),
        })
        .collect()
}

// ── Tests ───────────────────────────────────────────────────────────

#[test]
fn test_inverted_index_correctness_matches_brute_force() {
    let adrs = vec![
        adr("ADR-001", "Use Vue 3 for frontend framework", AdrStatus::Accepted),
        adr("ADR-002", "Use Serde for serialization layer", AdrStatus::Accepted),
        adr(
            "ADR-003",
            "Deprecated: old router approach",
            AdrStatus::Superseded,
        ),
        adr("ADR-004", "Adopt PostgreSQL as primary database", AdrStatus::Accepted),
    ];

    let traps = vec![
        trap("NPE in auth handler"),
        trap("Race condition in state cache"),
    ];

    let index = SearchIndex::build(&adrs, &traps);
    assert!(!index.terms.is_empty(), "index should have terms");

    // Test queries with common terms (should use inverted index).
    let queries = vec![
        ("vue3 frontend", false),
        ("serde", false),
        ("router", true),  // needs include_stale to find Superseded ADR-003
        ("database", false),
        ("auth handler", false),
        ("race condition", false),
    ];

    for (q, include_stale) in &queries {
        let bf = brute_force(&adrs, &traps, q, *include_stale);
        let ix = indexed_search(&index, q, 20, *include_stale);
        assert_eq!(
            bf.len(),
            ix.len(),
            "query='{}' include_stale={}: result count mismatch (bf={}, ix={})",
            q,
            include_stale,
            bf.len(),
            ix.len()
        );
        for (i, ((bf_score, bf_id), (ix_score, ix_id))) in
            bf.iter().zip(ix.iter()).enumerate()
        {
            assert_eq!(
                bf_id, ix_id,
                "query='{}' include_stale={}: result {} id mismatch (bf={}, ix={})",
                q, include_stale, i, bf_id, ix_id
            );
            assert!(
                (bf_score - ix_score).abs() < 1e-9,
                "query='{}' include_stale={}: result {} score mismatch (bf={}, ix={})",
                q,
                include_stale,
                i,
                bf_score,
                ix_score
            );
        }
    }
}

#[test]
fn test_inverted_index_no_match_returns_empty() {
    let adrs = vec![adr("ADR-001", "Vue frontend", AdrStatus::Accepted)];
    let traps = vec![trap("Timeout error")];
    let index = SearchIndex::build(&adrs, &traps);

    let results = search(&index, "zzzz_nonexistent_xyz", 10, false);
    assert!(results.is_empty(), "non-matching query should return empty");
}

#[test]
fn test_inverted_index_fallback_when_index_empty() {
    // Index with no terms (empty data).
    let index = SearchIndex::build(&[], &[]);
    assert!(index.terms.is_empty());

    let results = search(&index, "anything", 10, false);
    assert!(results.is_empty());
}

#[test]
fn test_rebuild_performance_500_items() {
    let mut adrs = Vec::with_capacity(300);
    for i in 0..300 {
        let words = [
            "auth", "token", "database", "cache", "router", "api", "graphql",
            "rest", "websocket", "serialization", "validation", "logging",
            "metrics", "tracing", "security", "encryption", "compression",
            "streaming", "batching", "queueing", "scheduling", "monitoring",
            "vue3", "react", "angular", "svelte", "solid", "preact",
            "rust", "typescript", "golang", "python", "zig", "elixir",
            "postgresql", "sqlite", "redis", "mongodb", "elasticsearch",
            "kafka", "rabbitmq", "nats", "grpc", "protobuf", "avro",
        ];
        let t1 = words[i % words.len()];
        let t2 = words[(i * 7 + 3) % words.len()];
        let t3 = words[(i * 13 + 5) % words.len()];
        adrs.push(ADR {
            id: format!("ADR-{:03}", i),
            title: format!("Use {} with {} for module {}", t1, t2, i),
            status: if i % 5 == 0 {
                AdrStatus::Superseded
            } else {
                AdrStatus::Accepted
            },
            context: format!(
                "Context for {}: need {}, {}, and {} support.",
                t1, t2, t3, words[(i * 3) % words.len()]
            ),
            decision: format!(
                "Decision: adopt {} with {} integration and {} backend.",
                t1, t2, t3
            ),
            tags: vec![t1.to_string(), t2.to_string()],
        });
    }

    let mut traps = Vec::with_capacity(200);
    for i in 0..200 {
        let w = [
            "null", "pointer", "timeout", "deadlock", "race", "leak",
            "overflow", "corruption", "panic", "unwrap", "unwrap_err",
            "index", "bounds", "borrow", "lifetime",
        ];
        let w1 = w[i % w.len()];
        let w2 = w[(i * 5 + 2) % w.len()];
        traps.push(Trap {
            error_signature: format!("{} {} error in module {}", w1, w2, i),
            context: format!("Occurred when processing request {}.", i),
            solution: format!("Fix by adding proper {} guard.", w1),
            root_cause: format!("Missing {} check in {} handler.", w1, w2),
            prevention: format!("Add lint rule for {} patterns.", w1),
        });
    }

    let start = Instant::now();
    let index = SearchIndex::build(&adrs, &traps);
    let build_elapsed = start.elapsed();

    assert!(
        build_elapsed.as_millis() < 200,
        "build took {}ms, expected < 200ms for 500 items",
        build_elapsed.as_millis()
    );
    assert!(!index.terms.is_empty(), "index should have terms");

    // Verify a search also completes quickly.
    let start2 = Instant::now();
    let results = search(&index, "auth token database", 10, false);
    let search_elapsed = start2.elapsed();

    assert!(
        search_elapsed.as_millis() < 50,
        "search took {}ms, expected < 50ms with inverted index",
        search_elapsed.as_millis()
    );
    assert!(
        !results.is_empty(),
        "should find results for common terms in 500 items"
    );
}

#[test]
fn fields_are_cut_into_terms() {
    assert_eq!(tokenize_field("Use Vue-3, (for) the UI!"), vec!["use", "vue-3", "for", "the", "ui"]);
    assert!(tokenize_field(" -- ... ").is_empty());
    assert_eq!(tokenize_field("«Über» ÄÖ"), vec!["über", "äö"]);
}

#[test]
fn postings_name_each_holder_once() {
    let mut a = adr("ADR-001", "Cache the cache", AdrStatus::Accepted);
    a.tags = vec!["Cache".into(), "Two Words".into()];
    let b = adr("ADR-002", "No cache", AdrStatus::Accepted);
    let index = SearchIndex::build(&[a, b], &[trap("cache miss")]);
    assert_eq!(
        *index.terms.get("cache").unwrap(),
        vec![(EntryType::Adr, 0), (EntryType::Adr, 1), (EntryType::Trap, 0)]
    );
    assert!(index.terms.contains_key("two words"));
    assert!(!index.terms.contains_key("zebra"));
}

#[test]
fn unknown_terms_scan_every_entry() {
    // No entry holds "caching" as a term, so that all are compared.
    let index = SearchIndex::build(
        &[adr("ADR-001", "Cachings", AdrStatus::Accepted)],
        &[trap("unrelated")],
    );
    let found = index.find("caching", false);
    assert_eq!(found.len(), 1);
    assert_eq!(found[0].entry, (EntryType::Adr, 0));
}

#[test]
fn known_terms_limit_the_search() {
    // "auth" is a term of the first entry, so that only it is scored.
    let index = SearchIndex::build(
        &[
            adr("ADR-001", "auth", AdrStatus::Accepted),
            adr("ADR-002", "authentication", AdrStatus::Accepted),
        ],
        &[],
    );
    let found = index.find("auth", false);
    assert_eq!(found.len(), 1);
    assert_eq!(found[0].entry, (EntryType::Adr, 0));
}

#[test]
fn stale_adrs_are_found_when_asked_for() {
    let index = SearchIndex::build(&[adr("ADR-001", "router", AdrStatus::Rejected)], &[]);
    assert!(index.find("router", false).is_empty());
    let found = index.find("router", true);
    assert_eq!(found.len(), 1);
    assert!(found[0].stale);
    let weights: Vec<u32> = found[0].fields.iter().map(|f| f.weight).collect();
    assert_eq!(weights, vec![10, 2, 4, 6]);
    let results = search(&index, "router", 5, true);
    assert!((results[0].score - 3.0).abs() < 1e-9);
}

#[test]
fn trap_fields_have_their_weights() {
    let index = SearchIndex::build(&[], &[trap("deadlock")]);
    let found = index.find("deadlock", false);
    let weights: Vec<u32> = found[0].fields.iter().map(|f| f.weight).collect();
    assert_eq!(weights, vec![15, 3, 6, 8, 5]);
    let results = search(&index, "deadlock", 5, false);
    assert!((results[0].score - 37.0).abs() < 1e-9);
}

#[test]
fn ranking_is_stable_and_cut() {
    assert_eq!(rank(&vec![3, 9, 3, 7], 10), vec![1, 3, 0, 2]);
    assert_eq!(rank(&vec![3, 9, 3, 7], 3), vec![1, 3, 0]);
    assert!(rank(&vec![3, 9], 0).is_empty());
    assert!(rank(&vec![], 4).is_empty());
}

#[test]
fn the_stored_index_names_entries() {
    let adrs = vec![adr("ADR-001", "Cache layer", AdrStatus::Accepted)];
    let traps = vec![trap("cache")];
    let index = SearchIndex::build(&adrs, &traps);
    let doc = index.to_index_json(&adrs, &traps, 1_784_116_805);
    assert_eq!(doc.version, "v4");
    assert_eq!(doc.rebuilt_at, "2026-07-15T12:00:05Z");
    let cache = doc.terms.iter().find(|t| t.term == "cache").unwrap();
    let refs: Vec<(&str, &str)> =
        cache.refs.iter().map(|r| (r.kind.label(), r.id.as_str())).collect();
    assert_eq!(refs, vec![("adr", "ADR-001"), ("trap", "cache")]);
    // An entry that is gone has no name.
    let gone = index.to_index_json(&[], &traps, 0);
    let cache = gone.terms.iter().find(|t| t.term == "cache").unwrap();
    assert_eq!(cache.refs[0].id, "?");
    assert_eq!(gone.rebuilt_at, "1970-01-01T00:00:00Z");
}

#[test]
fn fields_and_queries_are_cut_alike() {
    let words = "Use Vue-3 for the UI 前端";
    assert_eq!(tokenize_field(words), Query::new(words).tokens);
}
