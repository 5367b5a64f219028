use wiki::search::ordered_pages;
use wiki::search::{
    check_request, excerpt_around, format_content, format_files, format_header, format_summary, limits, page_order,
    page_sort_key, MatchScore, Matcher, PageExcerpts, PageKey, PageLines, SearchError, SearchMode, SearchOptions,
    DEFAULT_HEAD_LIMIT, DEFAULT_PER_FILE_LIMIT,
};

fn default_opts(query: &str) -> SearchOptions {
    SearchOptions {
        query: query.to_string(),
        path: Some("docs".to_string()),
        mode: SearchMode::Summary,
        case_insensitive: true,
        regex: false,
        per_file_limit: DEFAULT_PER_FILE_LIMIT,
        head_limit: DEFAULT_HEAD_LIMIT,
        category: None,
        context: 2,
    }
}

#[test]
fn literal_matcher_finds_substring_case_insensitive_by_default() {
    let m = Matcher::compile("feast.ID", false, true).unwrap();
    let text = "import feast.ID\nfeast.id is used.\n";
    let hits = m.find_excerpts(text, 5, 200);
    assert_eq!(hits.len(), 2, "{:?}", hits);
}

#[test]
fn literal_matcher_does_not_treat_dot_as_regex_metacharacter() {
    let m = Matcher::compile("feast.ID", false, true).unwrap();
    let text = "feast.ID is the type. feastXID is unrelated.";
    let hits = m.find_excerpts(text, 5, 200);
    assert_eq!(hits.len(), 1, "{:?}", hits);
}

#[test]
fn literal_matcher_splits_multi_token_queries_into_an_unordered_and() {
    let m = Matcher::compile("arena 战斗 战报", false, true).unwrap();
    let tokens = m.tokens().expect("multi-token literal must report tokens");
    assert_eq!(tokens, vec!["arena", "战斗", "战报"]);
    let text = "前文\narena 起点\n中间任意文本\n战斗 在后\n更靠后的 战报 关键字\n";
    assert!(m.is_match(text), "expected all tokens to match; tokens={:?}", tokens);
    let ascii_text = "alpha\nbeta\ngamma\n";
    let m2 = Matcher::compile("alpha beta gamma", false, true).unwrap();
    assert!(m2.is_match(ascii_text), "ascii multi-token should match");
    assert!(m.is_match("arena 战报\n战斗 关键词"));
    assert!(!m.is_match("只有 arena 和 战报 没有 combat-token"));
    assert!(!m.is_match("只有 arena 和 战斗 缺最后一个 token"));
}

#[test]
fn literal_multi_token_query_matches_compact_cjk_terms() {
    let m = Matcher::compile("城池 任务", false, true).unwrap();
    let text = "本文介绍城池任务、声望和挑战。";
    assert!(m.is_match(text));
    assert_eq!(m.match_ranges(text).len(), 1, "compact CJK phrase should rank as a phrase");
    assert!(!m.is_match("本文只有城池和声望。"));
}

#[test]
fn regex_matcher_compiles_and_finds() {
    let m = Matcher::compile(r"feast\.\w+", true, false).unwrap();
    let text = "feast.ID and feast.Name";
    let hits = m.find_excerpts(text, 5, 200);
    assert_eq!(hits.len(), 2, "{:?}", hits);
}

#[test]
fn empty_query_is_rejected() {
    let err = Matcher::compile("", false, true).err().unwrap();
    assert!(err.contains("non-empty"), "{err}");
}

#[test]
fn invalid_regex_is_rejected() {
    let err = Matcher::compile("(unclosed", true, false).err().unwrap();
    assert!(err.contains("Invalid regex"), "{err}");
}

#[test]
fn excerpt_around_includes_the_matching_line() {
    let text = "header line\nfeast.ID is here\nfooter line\n";
    let body = excerpt_around(text, "header line\n".len(), "feast.ID".len(), 200);
    assert!(body.contains("feast.ID"), "{body}");
}

#[test]
fn excerpt_around_truncates_long_excerpts() {
    let long = "a".repeat(1000);
    let text = format!("before\n{long}\nafter");
    let body = excerpt_around(&text, "before\n".len() + 50, 1, 80);
    assert!(body.len() <= 80 + 5, "body length: {}", body.len());
    assert!(body.ends_with("..."), "{body}");
}

#[test]
fn excerpt_around_truncates_multibyte_text_at_a_character_boundary() {
    let text = "界".repeat(100);
    let body = excerpt_around(&text, 0, "界".len(), 80);
    assert_eq!(body, format!("{}...", "界".repeat(80)));
    assert!(body.is_char_boundary(body.len()));
}

#[test]
fn excerpt_around_keeps_two_preceding_lines() {
    let text = "l1\nl2\nl3\nl4 hit\nl5\n";
    assert_eq!(excerpt_around(text, 9, 2, 200), "l2\nl3\n\n\nl4 hit\n");
}

#[test]
fn search_rejects_invalid_category_path() {
    let mut opts = default_opts("x");
    opts.category = Some("../escape".to_string());
    let err = check_request(&opts).err().unwrap();
    assert!(matches!(err, SearchError::Invalid(_)));
    assert_eq!(
        err.message(),
        "wiki search category must be a relative area or nested directory; got \"../escape\"."
    );
}

#[test]
fn request_checks_accept_nested_categories_and_clamp_limits() {
    let mut opts = default_opts("x");
    opts.category = Some("notes/architecture".to_string());
    assert!(check_request(&opts).is_ok());
    opts.per_file_limit = 0;
    opts.head_limit = 10_000;
    assert_eq!(limits(&opts), (1, 500));
    assert!(check_request(&default_opts("")).is_err());
}

#[test]
fn content_matches_merge_overlapping_windows() {
    let m = Matcher::compile("hit", false, false).unwrap();
    let text = "a\nhit one\nb\nc\nd\nhit two\ne\n";
    let lines = m.find_content_matches(text, 1);
    let numbers: Vec<usize> = lines.iter().map(|(n, _)| *n).collect();
    assert_eq!(numbers, vec![1, 2, 3, 5, 6, 7]);
    assert_eq!(lines[1].1, "hit one");
    let merged = m.find_content_matches(text, 2);
    let numbers: Vec<usize> = merged.iter().map(|(n, _)| *n).collect();
    assert_eq!(numbers, vec![1, 2, 3, 4, 5, 6, 7]);
    assert!(m.find_content_matches("nothing", 3).is_empty());
}

#[test]
fn multi_token_scores_count_phrases_and_tokens() {
    let m = Matcher::compile("Role S2S", false, true).unwrap();
    let score = m.score("Role S2S is the exact phrase. role and s2s again.");
    assert_eq!(score, MatchScore { phrase_hits: 1, token_hits: 4 });
}

#[test]
fn pages_are_ordered_by_area_then_score_then_path() {
    let keys = vec![
        page_sort_key("projects/p.md", MatchScore { phrase_hits: 0, token_hits: 9 }),
        page_sort_key("notes/b.md", MatchScore { phrase_hits: 0, token_hits: 1 }),
        page_sort_key("notes/a.md", MatchScore { phrase_hits: 0, token_hits: 1 }),
        page_sort_key("notes/c.md", MatchScore { phrase_hits: 1, token_hits: 0 }),
        page_sort_key("misc/x.md", MatchScore { phrase_hits: 5, token_hits: 5 }),
    ];
    assert_eq!(keys[0].rank, 2);
    assert_eq!(keys[4].rank, 4);
    assert_eq!(page_order(&keys), vec![3, 2, 1, 0, 4]);
    let same = vec![
        PageKey { rank: 0, score: MatchScore { phrase_hits: 0, token_hits: 0 }, path: "a".to_string() },
        PageKey { rank: 0, score: MatchScore { phrase_hits: 0, token_hits: 0 }, path: "a".to_string() },
    ];
    assert_eq!(page_order(&same), vec![0, 1]);
}

#[test]
fn summary_report_lists_pages_with_area_labels_and_excerpts() {
    let header = format_header("Wiki search", "shared world", false, true, None);
    assert_eq!(header, "== Wiki search: \"shared world\" (literal, case-insensitive) ==\n");
    let pages = vec![
        PageExcerpts { relative: "notes\\architecture\\world.md".to_string(), excerpts: vec!["Use the shared world.\n".to_string()] },
        PageExcerpts { relative: "misc/x.md".to_string(), excerpts: vec!["a".to_string(), "b".to_string()] },
    ];
    let text = format_summary(&header, 1, &pages);
    assert_eq!(
        text,
        "== Wiki search: \"shared world\" (literal, case-insensitive) ==\nFound in 2 page(s); 3 total occurrence(s):\n\n### [[notes/architecture/world]] — Notes / source of truth\n> Use the shared world.\n\n(Partial: more than head_limit=1 pages contained the term. Raise the limit or narrow with `category` or `query`.)\n\n(Complete: 1 page(s), 3 occurrence(s) shown.)\n"
    );
    assert_eq!(format_summary(&header, 5, &Vec::new()), format!("{header}(No pages contain this term.)\n"));
}

#[test]
fn token_header_names_the_tokens() {
    let tokens = vec!["arena".to_string(), "战斗".to_string()];
    let header = format_header("Wiki search (content)", "arena 战斗", false, true, Some(&tokens));
    assert_eq!(
        header,
        "== Wiki search (content): \"arena 战斗\" (literal, unordered AND of 2 token(s); exact phrase preferred: [arena, 战斗]) ==\n"
    );
}

#[test]
fn files_and_content_reports() {
    assert_eq!(format_files(&Vec::new()), "(No files matched.)\n");
    assert_eq!(format_files(&vec!["a.md".to_string(), "d\\b.md".to_string()]), "a.md\nd/b.md\n");
    let files = vec![PageLines { relative: "a.md".to_string(), lines: vec![(2, "second line has target".to_string())] }];
    assert_eq!(format_content("H\n", 5, &files), "H\n\n--- a.md ---\n2: second line has target\n");
    assert_eq!(format_content("H\n", 5, &Vec::new()), "H\n(No matches.)\n");
}

#[test]
fn matching_files_keep_page_order_and_stop_at_the_head_limit() {
    let matcher = wiki::search::Matcher::compile("role", false, true).unwrap();
    let pages: Vec<(String, String)> = vec![
        ("a.md".to_string(), "Role here".to_string()),
        ("b.md".to_string(), "nothing".to_string()),
        ("c.md".to_string(), "the ROLE again".to_string()),
        ("d.md".to_string(), "role once more".to_string()),
    ];
    assert_eq!(wiki::search::matching_files(&matcher, &pages, 2), vec!["a.md".to_string(), "c.md".to_string()]);
    assert_eq!(wiki::search::matching_files(&matcher, &pages, 10).len(), 3);
    assert_eq!(wiki::search::matching_files(&matcher, &pages, 0), vec!["a.md".to_string()]);
}

#[test]
fn ordered_pages_put_notes_first_then_higher_scores() {
    let keys = vec![
        page_sort_key("projects/p.md", MatchScore { phrase_hits: 0, token_hits: 5 }),
        page_sort_key("notes/n.md", MatchScore { phrase_hits: 0, token_hits: 1 }),
        page_sort_key("projects/q.md", MatchScore { phrase_hits: 1, token_hits: 0 }),
    ];
    let slots = vec!["p", "n", "q"];
    assert_eq!(ordered_pages(&keys, slots), vec!["n", "q", "p"]);
}
