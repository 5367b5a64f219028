use wiki::ask::{parse_configured_provider, AnswerProviderMode};
use wiki::ask::{
    checked_generated_answer, collapse_whitespace, collect_quotes, content_terms, extractive_answer,
    has_valid_source_citation, normalize_base_endpoint, retrieval_step, search_queries, select_quote,
};

#[test]
fn natural_language_question_falls_back_to_identifier_query() {
    let queries = search_queries("What does RoleService do?");
    assert_eq!(queries[0], "What does RoleService do?");
    assert!(queries.iter().any(|query| query == "roleservice"));
}

#[test]
fn search_queries_lists_question_joined_terms_then_each_term_once() {
    let queries = search_queries("  How is the RoleService tied to EquipBagSize?  ");
    assert_eq!(
        queries,
        vec![
            "How is the RoleService tied to EquipBagSize?",
            "roleservice tied equipbagsize",
            "roleservice",
            "tied",
            "equipbagsize",
        ]
    );
}

#[test]
fn blank_question_gives_no_queries() {
    assert!(search_queries("   ").is_empty());
}

#[test]
fn content_terms_drop_stopwords_and_short_plain_words() {
    let terms = content_terms("What is a DB for v2_api and x-y?");
    assert_eq!(terms, vec!["db", "v2_api", "x-y"]);
}

#[test]
fn content_terms_keep_the_first_occurrence_only() {
    let terms = content_terms("alpha Alpha ALPHA beta");
    assert_eq!(terms, vec!["alpha", "beta"]);
}

#[test]
fn collapse_whitespace_joins_words_with_single_spaces() {
    assert_eq!(collapse_whitespace("  a\t\tb \n c  "), "a b c");
    assert_eq!(collapse_whitespace(" \n\t "), "");
}

#[test]
fn select_quote_prefers_the_sentence_that_mentions_a_term() {
    let quote = select_quote(
        "What does RoleService do?",
        "This page is general. RoleService validates permissions! Other text.",
    );
    assert_eq!(quote, "RoleService validates permissions");
}

#[test]
fn select_quote_falls_back_to_the_first_sentence() {
    let quote = select_quote("unrelated words here", "First   sentence.\nSecond one.");
    assert_eq!(quote, "First sentence");
}

#[test]
fn select_quote_of_punctuation_only_excerpt_is_the_trimmed_excerpt() {
    assert_eq!(select_quote("anything", "  ...  "), "...");
}

#[test]
fn select_quote_cuts_long_sentences_to_the_quote_budget() {
    let long = "word ".repeat(300);
    let quote = select_quote("nothing", &long);
    assert_eq!(quote.chars().count(), 600);
    assert!(quote.ends_with("..."));
}

#[test]
fn collected_quotes_keep_hit_positions_and_skip_empty_quotes() {
    let excerpts = vec![
        "RoleService validates permissions. It returns a source-aware result.".to_string(),
        "   ".to_string(),
        "Second page.".to_string(),
    ];
    let quotes = collect_quotes("What does RoleService do?", &excerpts);
    assert_eq!(quotes.len(), 2);
    assert_eq!(quotes[0].index, 1);
    assert_eq!(quotes[0].text, "RoleService validates permissions");
    assert_eq!(quotes[1].index, 3);
    assert_eq!(quotes[1].text, "Second page");
}

#[test]
fn collected_quotes_stop_after_eight_hits() {
    let excerpts: Vec<String> = (0..12).map(|i| format!("Excerpt {i}.")).collect();
    let quotes = collect_quotes("question", &excerpts);
    assert_eq!(quotes.len(), 8);
    assert_eq!(quotes[7].index, 8);
}

#[test]
fn extractive_answer_from_direct_evidence_is_certain() {
    let excerpts = vec!["RoleService validates permissions. It returns a source-aware result.".to_string()];
    let quotes = collect_quotes("What does RoleService do?", &excerpts);
    let answer = extractive_answer(&quotes, true, false, 2_000);
    assert!(!answer.uncertain);
    assert!(!answer.truncated);
    assert_eq!(
        answer.answer,
        "Extractive answer from indexed evidence:\n- RoleService validates permissions [1]\n"
    );
}

#[test]
fn extractive_answer_from_related_evidence_is_uncertain() {
    let excerpts = vec!["This page is linked from the service page.".to_string()];
    let quotes = collect_quotes("What does RoleService do?", &excerpts);
    let answer = extractive_answer(&quotes, false, false, 2_000);
    assert!(answer.uncertain);
    assert!(answer.answer.contains("uncertain"));
    assert!(answer.answer.contains("[1]"));
}

#[test]
fn extractive_answer_without_quotes_reports_missing_evidence() {
    let answer = extractive_answer(&Vec::new(), true, false, 2_000);
    assert!(answer.uncertain);
    assert!(answer.answer.contains("could not find indexed evidence"));
    let short = extractive_answer(&Vec::new(), true, false, 10);
    assert_eq!(short.answer, "I could...");
    assert!(short.truncated);
}

#[test]
fn extractive_answer_drops_lines_beyond_the_budget() {
    let excerpts = vec!["Alpha fact.".to_string(), "Beta fact.".to_string()];
    let quotes = collect_quotes("q", &excerpts);
    let budget = "Extractive answer from indexed evidence:\n- Alpha fact [1]\n".chars().count();
    let answer = extractive_answer(&quotes, true, false, budget);
    assert_eq!(answer.answer, "Extractive answer from indexed evidence:\n- Alpha fact [1]\n");
    assert!(answer.truncated);
    assert!(answer.uncertain);
}

#[test]
fn truncated_context_makes_the_answer_uncertain() {
    let quotes = collect_quotes("q", &vec!["Alpha fact.".to_string()]);
    let answer = extractive_answer(&quotes, true, true, 2_000);
    assert!(answer.uncertain);
    assert!(!answer.truncated);
}

#[test]
fn citations_must_name_a_supplied_source() {
    assert!(has_valid_source_citation("It holds [2].", 3));
    assert!(!has_valid_source_citation("It holds [4].", 3));
    assert!(!has_valid_source_citation("It holds [1].", 0));
    assert!(has_valid_source_citation("see [10]", 10));
}

#[test]
fn generated_answer_without_citation_carries_a_warning() {
    let (text, valid) = checked_generated_answer("  Plain answer.  ", 2, 2_000);
    assert!(!valid);
    assert_eq!(
        text,
        "Plain answer.\n\n[warning] The provider returned no valid source marker; treat this answer as uncertain."
    );
    let (cited, ok) = checked_generated_answer("Fact [1]", 2, 5);
    assert!(ok);
    assert_eq!(cited, "Fa...");
}

#[test]
fn base_urls_become_chat_completion_endpoints() {
    assert_eq!(normalize_base_endpoint(" https://api.example.com/ "), "https://api.example.com/v1/chat/completions");
    assert_eq!(normalize_base_endpoint("https://api.example.com/v1//"), "https://api.example.com/v1/chat/completions");
    assert_eq!(
        normalize_base_endpoint("https://api.example.com/v1/chat/completions"),
        "https://api.example.com/v1/chat/completions"
    );
}

#[test]
fn retrieval_keeps_first_hits_and_stops_at_direct_evidence() {
    let first = retrieval_step(true, 3, false);
    assert!(first.replace && !first.stop);
    let later = retrieval_step(false, 2, false);
    assert!(!later.replace && !later.stop);
    let direct = retrieval_step(false, 1, true);
    assert!(direct.replace && direct.stop);
    let empty = retrieval_step(true, 0, true);
    assert!(!empty.replace && !empty.stop);
}

#[test]
fn prompt_format_contains_source_constraints_and_line_ranges() {
    let question = "What does RoleService do?";
    let quotes = collect_quotes(question, &vec!["RoleService validates permissions.".to_string()]);
    let sources: Vec<wiki::ask::PromptSource> = quotes
        .iter()
        .map(|quote| wiki::ask::PromptSource {
            index: quote.index,
            path: "notes/service.md".to_string(),
            start_line: 4,
            end_line: 9,
            quote: quote.text.clone(),
        })
        .collect();
    let prompt = wiki::ask::build_prompt(question, &sources);
    assert!(prompt.contains("Answer only from the evidence below"));
    assert!(prompt.contains("[1] notes/service.md:4-9"));
    assert!(prompt.contains("RoleService validates permissions"));
    assert!(prompt.starts_with("You are an evidence-grounded assistant.\n\nQuestion:\nWhat does RoleService do?\n"));
    assert!(prompt.ends_with("Use only the source markers provided above."));
    let empty = wiki::ask::build_prompt("q", &Vec::new());
    assert!(empty.contains("(No indexed evidence was retrieved.)\n"));
}

#[test]
fn configured_provider_names_are_read_case_insensitively() {
    assert!(matches!(parse_configured_provider(" Extractive "), Ok(AnswerProviderMode::Extractive)));
    assert!(matches!(parse_configured_provider("OpenAI"), Ok(AnswerProviderMode::OpenAiCompatible)));
    assert!(matches!(parse_configured_provider("openai_compatible"), Ok(AnswerProviderMode::OpenAiCompatible)));
    match parse_configured_provider(" Other ") {
        Err(message) => assert_eq!(
            message,
            "invalid rag.provider 'other' in wiki.yaml; expected 'extractive' or 'openai-compatible'."
        ),
        Ok(_) => panic!("unknown provider accepted"),
    }
}

struct Hit {
    path: &'static str,
    start_line: usize,
    excerpt: &'static str,
    lexical: bool,
}

fn answer_hits(question: &str, hits: &[Hit], truncated: bool) -> wiki::ask::ExtractiveOutcome {
    let excerpts: Vec<String> = hits.iter().map(|hit| hit.excerpt.to_string()).collect();
    let lexical: Vec<bool> = hits.iter().map(|hit| hit.lexical).collect();
    wiki::ask::answer_from_evidence(question, &excerpts, &lexical, truncated, 2000)
}

#[test]
fn extractive_answer_quotes_direct_evidence_and_sources() {
    let hits = [Hit {
        path: "notes/service.md",
        start_line: 4,
        excerpt: "RoleService validates permissions. It returns a source-aware result.",
        lexical: true,
    }];
    let answer = answer_hits("What does RoleService do?", &hits, false);
    assert!(!answer.uncertain);
    assert!(answer.answer.contains("RoleService validates permissions"));
    let source = &hits[answer.sources[0].index - 1];
    assert_eq!(source.path, "notes/service.md");
    assert_eq!(source.start_line, 4);
}

#[test]
fn extractive_answer_marks_related_only_evidence_uncertain() {
    let hits = [Hit {
        path: "notes/guide.md",
        start_line: 4,
        excerpt: "This page is linked from the service page.",
        lexical: false,
    }];
    let answer = answer_hits("What does RoleService do?", &hits, false);
    assert!(answer.uncertain);
    assert!(answer.answer.contains("uncertain"));
    assert!(answer.answer.contains("[1]"));
    assert_eq!(hits[answer.sources[0].index - 1].path, "notes/guide.md");
}

#[test]
fn empty_context_returns_uncertain_answer_without_sources() {
    let answer = answer_hits("missing", &[], false);
    assert!(answer.uncertain);
    assert!(answer.sources.is_empty());
    assert!(answer.answer.contains("could not find indexed evidence"));
}

#[test]
fn answer_sources_are_numbered_by_hit_position() {
    let hits = [
        Hit { path: "a.md", start_line: 1, excerpt: "", lexical: false },
        Hit { path: "b.md", start_line: 2, excerpt: "RoleService checks roles.", lexical: true },
        Hit { path: "c.md", start_line: 3, excerpt: "RoleService logs access.", lexical: false },
    ];
    let answer = answer_hits("What does RoleService do?", &hits, false);
    let indexes: Vec<usize> = answer.sources.iter().map(|source| source.index).collect();
    assert_eq!(indexes, vec![2, 3]);
    assert!(answer.direct_evidence);
    assert!(!answer.uncertain);
    let cut = answer_hits("What does RoleService do?", &hits, true);
    assert!(cut.uncertain && cut.context_truncated);
}

fn timeout_for(value: &str) -> u64 {
    let options = wiki::ask::OpenAiCompatibleOptions {
        endpoint: Some("http://127.0.0.1:9000/v1/chat/completions".to_string()),
        model: Some("local".to_string()),
        api_key: None,
        api_key_env: None,
        timeout_secs: None,
    };
    let env = wiki::ask::ProviderEnv {
        llm_endpoint: None,
        openai_base_url: None,
        llm_model: None,
        openai_model: None,
        named_api_key: None,
        llm_api_key: None,
        openai_api_key: None,
        llm_timeout: Some(value.to_string()),
    };
    match wiki::ask::provider_settings(&options, &env) {
        Ok(settings) => settings.timeout_secs,
        Err(error) => panic!("unexpected error: {}", error.message()),
    }
}

#[test]
fn timeout_variable_is_read_as_an_unsigned_decimal() {
    assert_eq!(timeout_for("45"), 45);
    assert_eq!(timeout_for("+45"), 45);
    assert_eq!(timeout_for("045"), 45);
    assert_eq!(timeout_for(" 45"), 30);
    assert_eq!(timeout_for("45s"), 30);
    assert_eq!(timeout_for("-5"), 30);
    assert_eq!(timeout_for("+"), 30);
    assert_eq!(timeout_for(""), 30);
    assert_eq!(timeout_for("99999999999999999999"), 30);
    assert_eq!(timeout_for("0"), 1);
    assert_eq!(timeout_for("5000"), 300);
}
