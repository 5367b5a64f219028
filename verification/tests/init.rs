use wiki::init::{plan, render_index, render_log, KnowledgeAction, KnowledgeOptions};
use wiki::shared::knowledge_area_names;

fn options(url: Option<&str>, force: bool) -> KnowledgeOptions {
    KnowledgeOptions { dir: "kb".to_string(), url: url.map(str::to_string), force }
}

#[test]
fn index_lists_the_supplied_url_and_the_knowledge_areas() {
    let text = render_index(Some("https://example.com/vault"), "docs");
    assert!(text.contains("Source: <https://example.com/vault>"), "{text}");
    assert!(text.contains("[[AGENTS]]"), "{text}");
    assert!(text.contains("[[SDD]]"), "{text}");
    for name in knowledge_area_names() {
        assert!(text.contains(&format!("`{name}/`")), "{text}");
    }
    assert!(text.contains("## Catalog"), "{text}");
}

#[test]
fn index_omits_the_source_line_when_no_url_is_provided() {
    let text = render_index(None, "docs");
    assert!(!text.contains("Source:"), "{text}");
    assert!(text.contains("Root:"), "{text}");
    assert!(text.contains("`notes/`"), "{text}");
}

#[test]
fn plan_marks_every_seed_target_as_create_on_an_empty_directory() {
    let plan = plan(options(Some("https://example.com/vault"), false), "kb".to_string(), true, true, [false; 8]).unwrap();
    assert!(!plan.is_empty(), "an empty dir should plan writes");
    let actions: Vec<&'static str> = plan.preview().iter().map(|item| item.action.as_str()).collect();
    assert_eq!(actions, vec!["Create"; 8]);
    assert_eq!(plan.url(), Some("https://example.com/vault"));
}

#[test]
fn plan_rejects_an_explicitly_empty_source_url() {
    let error = plan(options(Some("  "), false), "kb".to_string(), true, true, [false; 8]).err().unwrap();
    assert!(error.contains("--url"), "{error}");
}

#[test]
fn plan_keeps_existing_files_unless_forced() {
    let kept = plan(options(None, false), "kb".to_string(), true, true, [true; 8]).unwrap();
    assert!(kept.is_empty());
    assert!(kept.preview().iter().all(|item| item.action == KnowledgeAction::Keep));
    let forced = plan(options(None, true), "kb".to_string(), true, true, [true; 8]).unwrap();
    let actions: Vec<&'static str> = forced.preview().iter().map(|item| item.action.as_str()).collect();
    assert_eq!(actions, vec!["Overwrite", "Overwrite", "Overwrite", "Overwrite", "Keep", "Keep", "Keep", "Keep"]);
}

#[test]
fn plan_rejects_a_path_that_points_to_a_file() {
    let error = plan(options(None, false), "kb".to_string(), true, false, [false; 8]).err().unwrap();
    assert!(error.contains("not a directory"), "{error}");
}

#[test]
fn log_entry_matches_the_wiki_parser_prefix() {
    let text = render_log(Some("https://example.com/vault"), "2026-08-09");
    let first_entry = text.lines().find(|line| line.starts_with("## [")).expect("a log entry");
    assert!(first_entry.starts_with("## [2"), "{first_entry}");
    assert!(first_entry.contains("init"), "{first_entry}");
    assert!(first_entry.contains("[[AGENTS]]"), "{first_entry}");
}

#[test]
fn commit_writes_every_seed_file_on_an_empty_directory() {
    let plan = plan(options(None, false), "kb".to_string(), true, true, [false; 8]).unwrap();
    let writes = wiki::init::seed_writes(&plan, "2024-01-02T03:04:05Z");
    let paths: Vec<&str> = writes.iter().map(|w| w.path.as_str()).collect();
    assert_eq!(paths, vec!["kb/AGENTS.md", "kb/index.md", "kb/log.md", "kb/SDD.md"]);
    assert!(writes[2].content.contains("## [2024-01-02T03:04:05Z] init | seed knowledge base"));
    assert!(writes[3].content.starts_with("# SDD — Spec-Driven Development\n"));
    let receipt = wiki::init::commit_receipt(&plan);
    assert_eq!(receipt.changed_targets, 4);
    assert_eq!(receipt.notes, vec!["Knowledge base ready at kb.".to_string()]);
}

#[test]
fn commit_without_force_keeps_existing_seed_files() {
    let plan = plan(options(None, false), "kb".to_string(), true, true, [true; 8]).unwrap();
    assert!(wiki::init::seed_writes(&plan, "t").is_empty());
    let receipt = wiki::init::commit_receipt(&plan);
    assert_eq!(receipt.changed_targets, 0);
    assert_eq!(receipt.notes.len(), 5);
    assert_eq!(receipt.notes[0], "Kept existing kb/AGENTS.md; pass --force to overwrite.");
    assert_eq!(receipt.notes[4], "No changes were needed.");
}

#[test]
fn seed_paths_join_a_directory_ending_in_a_slash_without_doubling_it() {
    let plan = plan(
        options(None, false),
        "/tmp/kb/".to_string(),
        false,
        false,
        [false; 8],
    )
    .unwrap();
    assert!(plan.preview().iter().all(|item| !item.path.contains("//")));
    assert!(plan.preview().iter().any(|item| item.path == "/tmp/kb/AGENTS.md"));
}
