use wiki::rag::{
    build_fts_query, canonical_path, format_context_text, make_excerpt, query_runs, query_terms, select_context,
    MAX_QUERY_FALLBACK_TERMS,
};

#[test]
fn query_terms_prioritize_technical_identifiers_and_support_chinese() {
    let terms = query_terms("请分析 wiki harness 如何自动更新索引并返回任务证据");
    assert_eq!(terms.first().map(String::as_str), Some("harness"));
    assert!(terms.iter().any(|term| term == "wiki"));
    assert!(terms.iter().any(|term| term.chars().count() >= 2));
    assert!(terms.len() <= MAX_QUERY_FALLBACK_TERMS);
}

#[test]
fn query_terms_split_mixed_ascii_and_cjk_runs() {
    let terms = query_terms("index没有命中");
    assert!(terms.iter().any(|term| term == "index"));
    assert!(terms.iter().any(|term| term == "没有命中"));
}

#[test]
fn query_terms_rank_by_score_then_length_then_text() {
    assert_eq!(query_terms("what is the b2 API for config"), vec!["config", "api", "b2"]);
    assert_eq!(query_terms("abc abd"), vec!["abc", "abd"]);
    assert!(query_terms("the and of").is_empty());
}

#[test]
fn query_runs_split_at_kind_changes_and_other_characters() {
    assert_eq!(query_runs("a-b_c 中文x!y"), vec!["a-b_c", "中文", "x", "y"]);
}

#[test]
fn fts_query_quotes_each_word() {
    assert_eq!(build_fts_query(" role \"x\"  svc "), "\"role\" AND \"\"\"x\"\"\" AND \"svc\"");
    assert_eq!(build_fts_query("   "), "");
}

#[test]
fn page_ids_drop_one_markdown_suffix_in_any_case() {
    assert_eq!(canonical_path(" ./notes\\A.MD "), "notes/A");
    assert_eq!(canonical_path("a.md.md"), "a.md");
    assert_eq!(canonical_path("plain"), "plain");
}

#[test]
fn excerpts_join_non_blank_lines() {
    assert_eq!(make_excerpt("  one \n\n two\r\n"), "one two");
    let long = "x".repeat(400);
    let excerpt = make_excerpt(&long);
    assert_eq!(excerpt.chars().count(), 363);
    assert!(excerpt.ends_with("..."));
}

#[test]
fn context_keeps_whole_blocks_then_cuts_the_first_that_does_not_fit() {
    let blocks = vec!["aaaa".to_string(), "bbbb".to_string(), "cccc".to_string()];
    let all = select_context(&blocks, 100);
    assert_eq!(all.text, "aaaabbbbcccc");
    assert_eq!(all.selected, 3);
    assert!(!all.truncated);
    let cut = select_context(&blocks, 10);
    assert_eq!(cut.text, "aaaabbbbcc");
    assert_eq!(cut.selected, 3);
    assert!(cut.truncated);
    let exact = select_context(&blocks, 8);
    assert_eq!(exact.text, "aaaabbbb");
    assert_eq!(exact.selected, 2);
    assert!(exact.truncated);
    let report = format_context_text("q", &exact);
    assert_eq!(report, "== Graph-RAG context ==\nQuery: q\nSources: 2\nTruncated: true\n\naaaabbbb");
}

#[test]
fn search_bounds_clamp_limit_depth_and_recall() {
    let b = wiki::rag::search_bounds(0, 20);
    assert_eq!((b.limit, b.depth, b.recall), (1, 8, 20));
    let b = wiki::rag::search_bounds(10, 2);
    assert_eq!((b.limit, b.depth, b.recall), (10, 2, 80));
    let b = wiki::rag::search_bounds(usize::MAX, 0);
    assert_eq!((b.limit, b.depth, b.recall), (100, 0, 500));
}

#[test]
fn search_rejects_empty_query() {
    match wiki::rag::search_query("   ") {
        Err(error) => assert_eq!(error.message(), "wiki rag search query must be a non-empty string."),
        Ok(_) => panic!("empty query accepted"),
    }
    assert_eq!(wiki::rag::search_query("  role  ").ok(), Some("role".to_string()));
}

fn sample_block(index: usize, path: &str, excerpt: &str) -> String {
    format!(
        "[{index}] {path}:1-3\nHeading: Service > API\nScore: {:.3} (lexical {:.3}, graph {:.3}, vector {:.3})\nReasons: fts5\n{excerpt}\n\n",
        1.0, 1.0, 0.0, 0.0
    )
}

#[test]
fn context_is_bounded_and_keeps_source_metadata() {
    let hits = vec!["notes/a.md", "notes/b.md"];
    let blocks = vec![
        sample_block(1, "notes/a.md", "RoleService handles requests."),
        sample_block(2, "notes/b.md", "EquipBagSize is checked here."),
    ];
    let context = wiki::rag::bounded_context(hits.clone(), &blocks, 180);
    assert!(context.text.chars().count() <= 180);
    assert!(context.truncated);
    assert!(context.text.contains("notes/a.md"));
    assert!(!context.hits.is_empty());
    assert_eq!(context.hits[..], hits[..context.hits.len()]);
    let whole = wiki::rag::bounded_context(hits.clone(), &blocks, 2_000);
    assert!(!whole.truncated);
    assert_eq!(whole.hits, hits);
    assert_eq!(whole.text, blocks.concat());
}
