use wiki::read::{epoch_to_calendar, extract_last_log_entries};

#[test]
fn epoch_to_calendar_handles_the_unix_epoch() {
    let (y, m, d, h, mi, s) = epoch_to_calendar(0).unwrap();
    assert_eq!((y, m, d, h, mi, s), (1970, 1, 1, 0, 0, 0));
}

#[test]
fn epoch_to_calendar_handles_a_known_instant() {
    let (y, m, d, _h, _mi, _s) = epoch_to_calendar(1_785_484_800).unwrap();
    assert_eq!((y, m, d), (2026, 7, 31));
}

#[test]
fn epoch_to_calendar_handles_a_leap_day_and_time_of_day() {
    let got = epoch_to_calendar(951_827_696).unwrap();
    assert_eq!(got, (2000, 2, 29, 12, 34, 56));
}

#[test]
fn extract_last_log_entries_picks_only_entries_with_marker_prefix() {
    let body = "noise line\n## [2026-08-01] setup | init | [[i]]\nmore noise\n## [2026-08-02] ingest | a | [[a]]\n";
    let out = extract_last_log_entries(body, 1);
    assert!(out.contains("## [2026-08-02]"), "{out}");
    assert!(!out.contains("## [2026-08-01]"), "{out}");
}

#[test]
fn extract_last_log_entries_falls_back_to_tail_when_no_markers() {
    let body = "line a\nline b\nline c\nline d\n";
    let out = extract_last_log_entries(body, 2);
    assert!(out.contains("line c"), "{out}");
    assert!(out.contains("line d"), "{out}");
    assert!(!out.contains("line a"), "{out}");
}

#[test]
fn extract_last_log_entries_preserves_selected_entry_bodies() {
    let body = "noise\r\n## [2026-08-01] setup\r\nfirst\r\n## [2026-08-02] ingest\r\nsecond";
    let out = extract_last_log_entries(body, 1);
    assert_eq!(out, "## [2026-08-02] ingest\nsecond\n");
}

#[test]
fn extract_last_log_entries_of_zero_is_empty() {
    assert_eq!(extract_last_log_entries("## [2026-08-01] a\n", 0), "");
}

use wiki::read::{read, scan_wiki, PageEntry, ReadError, ReadOptions, RootDocs, DEFAULT_INDEX_HEAD_LIMIT};

fn default_opts() -> ReadOptions {
    ReadOptions {
        path: Some("/wiki".to_string()),
        include_index: true,
        include_agents: true,
        include_log_last: 0,
        index_head_limit: DEFAULT_INDEX_HEAD_LIMIT,
        agents_head_limit: DEFAULT_INDEX_HEAD_LIMIT,
        strict: true,
    }
}

fn pages(paths: &[&str]) -> Vec<PageEntry> {
    paths
        .iter()
        .enumerate()
        .map(|(i, p)| PageEntry { relative: p.to_string(), modified: Some(1_700_000_000_000_000_000 + i as i128) })
        .collect()
}

fn docs(agents: Option<&str>, index: Option<&str>, log: Option<&str>) -> RootDocs {
    RootDocs { agents: agents.map(str::to_string), index: index.map(str::to_string), log: log.map(str::to_string) }
}

fn overview(opts: &ReadOptions, entries: &[&str], root: &RootDocs) -> String {
    match read(opts, true, true, &pages(entries), root) {
        Ok(text) => text,
        Err(error) => panic!("unexpected error: {}", error.message()),
    }
}

#[test]
fn read_returns_pages_categories_and_index_for_a_typical_wiki() {
    let mut opts = default_opts();
    opts.include_log_last = 1;
    let response = overview(
        &opts,
        &["index.md", "log.md", "sources/article-foo.md", "entities/feast.md"],
        &docs(None, Some("# Index\n\n## Sources\n- [[article-foo]]\n"), Some("noise\n## [2026-08-01] setup | init | [[index]]\n")),
    );
    assert!(response.contains("Pages: 4"), "{response}");
    assert!(response.contains("Categories: 2"), "{response}");
    assert!(response.contains("entities"), "{response}");
    assert!(response.contains("sources"), "{response}");
    assert!(response.contains("## [2026-08-01] setup"), "{response}");
    assert!(response.contains("Last modified:"), "{response}");
    assert!(response.contains("(Complete:"), "{response}");
}

#[test]
fn read_surfaces_agents_before_index_and_summarizes_knowledge_areas() {
    let response = overview(
        &default_opts(),
        &[
            "AGENTS.md",
            "index.md",
            "log.md",
            "notes/architecture/system.md",
            "ideas/heuristics.md",
            "projects/wiki-redesign/plan.md",
            "sdd/changes/article.md",
        ],
        &docs(
            Some("# Global context\n\nRead notes before advising.\n"),
            Some("# Index\n\n[[notes/architecture]]\n"),
            Some("## [2026-08-09] init | created knowledge base | [[AGENTS]]\n"),
        ),
    );
    assert!(response.contains("Pages: 7"), "{response}");
    assert!(response.contains("notes: 1 page(s) — verified source of truth"), "{response}");
    assert!(response.contains("ideas: 1 page(s) — original reasoning and preferences"), "{response}");
    assert!(response.contains("projects: 1 page(s) — active work and verification"), "{response}");
    assert!(response.contains("sdd: 1 page(s) — spec-driven changes and archives"), "{response}");
    let agents_at = response.find("== Global context (AGENTS.md) ==").unwrap();
    let index_at = response.find("== Index ==").unwrap();
    assert!(agents_at < index_at, "{response}");
    assert!(response.contains("Read notes before advising."), "{response}");
}

#[test]
fn read_keeps_legacy_index_wikis_compatible_when_agents_is_missing() {
    let response =
        overview(&default_opts(), &["index.md", "pages/existing.md"], &docs(None, Some("# Existing index\n"), None));
    assert!(response.contains("AGENTS.md not present"), "{response}");
    assert!(!response.contains("plain markdown tree"), "{response}");
    assert!(response.contains("# Existing index"), "{response}");
}

#[test]
fn read_omits_log_when_include_log_last_is_zero() {
    let response = overview(
        &default_opts(),
        &["index.md", "log.md"],
        &docs(None, Some("# Index\n"), Some("## [2026-08-01] setup | init | [[index]]\n")),
    );
    assert!(!response.contains("Recent log entries"), "{response}");
}

#[test]
fn scan_skips_unrequested_root_bodies() {
    let scan = scan_wiki(
        &pages(&["AGENTS.md", "index.md", "log.md"]),
        &docs(Some("# Rules\n"), Some("# Index\n"), Some("## [2026-08-01] setup\n")),
        false,
        false,
        0,
        200,
        200,
    );
    assert!(scan.agents_body.is_none());
    assert!(scan.index_body.is_none());
    assert!(scan.log_body.is_none());
}

#[test]
fn read_takes_only_the_last_n_log_entries() {
    let mut opts = default_opts();
    opts.include_index = false;
    opts.include_agents = false;
    opts.include_log_last = 2;
    let response = overview(
        &opts,
        &["log.md"],
        &docs(
            None,
            None,
            Some("## [2026-08-01] ingest | a | [[a]]\n## [2026-08-02] ingest | b | [[b]]\n## [2026-08-03] ingest | c | [[c]]\n"),
        ),
    );
    assert!(response.contains("## [2026-08-02]"), "{response}");
    assert!(response.contains("## [2026-08-03]"), "{response}");
    assert!(!response.contains("## [2026-08-01]"), "{response}");
}

#[test]
fn read_reports_missing_index_when_directory_has_no_index_md() {
    let response = overview(&default_opts(), &["entities/a.md"], &docs(None, None, None));
    assert!(response.contains("not present"), "{response}");
    assert!(response.contains("plain markdown tree"), "{response}");
}

#[test]
fn read_rejects_non_existent_path() {
    let opts = ReadOptions { path: Some("Z:/nope/definitely/not/here".to_string()), ..default_opts() };
    let err = read(&opts, false, false, &Vec::new(), &docs(None, None, None)).err().unwrap();
    assert!(matches!(err, ReadError::Invalid(_)));
    assert!(err.message().contains("does not exist"), "{}", err.message());
}

#[test]
fn read_rejects_file_path() {
    let opts = ReadOptions { path: Some("/wiki/a.md".to_string()), ..default_opts() };
    let err = read(&opts, true, false, &Vec::new(), &docs(None, None, None)).err().unwrap();
    assert!(matches!(err, ReadError::Invalid(_)));
    assert!(err.message().contains("not a directory"));
}

#[test]
fn read_partial_marker_when_index_exceeds_head_limit() {
    let big_index: String = (0..500).map(|i| format!("line {i}\n")).collect();
    let mut opts = default_opts();
    opts.index_head_limit = 50;
    let response = overview(&opts, &["index.md"], &docs(None, Some(&big_index), None));
    assert!(response.contains("Partial: index.md exceeded index_head_limit=50"), "{response}");
}

#[test]
fn read_truncates_agents_with_its_own_limit() {
    let big_agents: String = (0..100).map(|i| format!("rule {i}\n")).collect();
    let mut opts = default_opts();
    opts.agents_head_limit = 10;
    let response = overview(&opts, &["AGENTS.md"], &docs(Some(&big_agents), None, None));
    assert!(response.contains("Partial: AGENTS.md exceeded agents_head_limit=10"), "{response}");
    assert!(response.contains("rule 9"), "{response}");
    assert!(!response.contains("rule 10"), "{response}");
}

#[test]
fn read_handles_wiki_with_no_categories() {
    let response = overview(&default_opts(), &["index.md", "a.md"], &docs(None, Some("# Index\n"), None));
    assert!(response.contains("Categories: 0"), "{response}");
}

#[test]
fn read_indexes_pages_in_nested_category_directories() {
    let response = overview(
        &default_opts(),
        &["index.md", "projects/adventure-global-repair/plan.md", "notes/architecture/shared-ecs-world.md"],
        &docs(None, Some("# Index\n"), None),
    );
    assert!(response.contains("Pages: 3"), "{response}");
    assert!(response.contains("Categories: 2"), "{response}");
    assert!(response.contains("notes"), "{response}");
    assert!(response.contains("projects"), "{response}");
    assert!(response.contains("notes: 1 page(s)"), "{response}");
    assert!(response.contains("projects: 1 page(s)"), "{response}");
}
