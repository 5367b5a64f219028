use std::collections::BTreeSet;

use wiki::index::{
    chunk_limit, classify_page, command_head, dedupe_candidates, extract_entities, is_command_token,
    line_for_offset, looks_like_file_name, looks_like_identifier, looks_like_path, normalize_entity_name,
    EntityCandidate, IndexOptions, PageChange,
};

#[test]
fn rule_entity_extractor_finds_technical_entities_without_prose_commands() {
    let marker = '\x60';
    let text = format!(
        "# Role\n\nfn HandleRequest() {{}}\ntype RoleData struct {{}}\nUse {marker}RoleService{marker}, {marker}server.port{marker}, {marker}src/role.go{marker}, {marker}co_occurs_in_chunk{marker}, and {marker}wiki index{marker}.\nThe wiki is useful. Use --type identifier when filtering.\n"
    );
    let entities = extract_entities(&text, 1);
    let names: BTreeSet<(&str, &str)> = entities
        .iter()
        .map(|entity| (entity.entity_type.as_str(), entity.canonical_name.as_str()))
        .collect();
    assert!(names.contains(&("function", "HandleRequest")));
    assert!(names.contains(&("type", "RoleData")));
    assert!(names.contains(&("identifier", "RoleService")));
    assert!(names.contains(&("config", "server.port")));
    assert!(names.contains(&("path", "src/role.go")));
    assert!(names.contains(&("command", "wiki index")));
    assert!(!names.contains(&("identifier", "co_occurs_in_chunk")));
    assert!(!names.contains(&("type", "identifier")));
    assert!(!names.contains(&("command", "wiki is")));
    assert!(entities.iter().all(|entity| entity.start_line >= 1));
}

#[test]
fn entity_extractor_handles_non_ascii_inline_command_text() {
    let marker = '\x60';
    let text = format!("Use {marker}wiki 返回{marker}.\n");

    let entities = extract_entities(&text, 1);
    let command = entities
        .iter()
        .find(|entity| entity.entity_type == "command")
        .expect("expected an inline command entity");

    assert_eq!(command.canonical_name, "wiki 返回");
    assert_eq!(command.start_line, 1);
    assert_eq!(command.end_line, 1);
}

#[test]
fn extracted_entities_carry_byte_spans_lines_and_confidence() {
    let text = "intro\nfn build_index() {}\n";
    let entities = extract_entities(text, 10);
    assert_eq!(entities.len(), 1);
    let entity = &entities[0];
    assert_eq!(entity.entity_type, "function");
    assert_eq!(entity.canonical_name, "build_index");
    assert_eq!(entity.surface, "build_index");
    assert_eq!(entity.start_pos, 9);
    assert_eq!(entity.end_pos, 20);
    assert_eq!(entity.start_line, 11);
    assert_eq!(entity.end_line, 11);
    assert_eq!(entity.confidence, 95);
    assert_eq!(entity.extractor, "rule:rust-function");
}

#[test]
fn extracted_entities_are_ordered_by_position() {
    let marker = '\x60';
    let text = format!("{marker}docs/b.md{marker} then {marker}docs/a.md{marker}\n");
    let entities = extract_entities(&text, 1);
    let starts: Vec<usize> = entities.iter().map(|entity| entity.start_pos).collect();
    let mut sorted = starts.clone();
    sorted.sort();
    assert_eq!(starts, sorted);
    assert!(entities.iter().any(|entity| entity.canonical_name == "docs/b.md"));
    assert!(entities.iter().any(|entity| entity.canonical_name == "docs/a.md"));
}

fn candidate(kind: &str, name: &str, start: usize, confidence: u32, extractor: &str) -> EntityCandidate {
    EntityCandidate {
        canonical_name: name.to_string(),
        entity_type: kind.to_string(),
        surface: name.to_string(),
        start_pos: start,
        end_pos: start + name.len(),
        start_line: 1,
        end_line: 1,
        confidence,
        extractor: extractor.to_string(),
    }
}

#[test]
fn dedupe_keeps_the_first_most_confident_candidate_per_key() {
    let raw = vec![
        candidate("path", "src/a.rs", 4, 90, "rule:path"),
        candidate("path", "src/a.rs", 4, 92, "rule:inline-path"),
        candidate("path", "src/a.rs", 4, 92, "rule:other"),
        candidate("function", "main", 0, 95, "rule:rust-function"),
        candidate("identifier", "main", 0, 72, "rule:inline-identifier"),
    ];
    let kept = dedupe_candidates(&raw);
    let summary: Vec<(String, String, usize, u32, String)> = kept
        .iter()
        .map(|c| (c.entity_type.clone(), c.canonical_name.clone(), c.start_pos, c.confidence, c.extractor.clone()))
        .collect();
    assert_eq!(
        summary,
        vec![
            ("function".to_string(), "main".to_string(), 0, 95, "rule:rust-function".to_string()),
            ("identifier".to_string(), "main".to_string(), 0, 72, "rule:inline-identifier".to_string()),
            ("path".to_string(), "src/a.rs".to_string(), 4, 92, "rule:inline-path".to_string()),
        ]
    );
}

#[test]
fn entity_names_are_normalized() {
    assert_eq!(normalize_entity_name("path", " ./.\\src\\lib.rs, "), "src/lib.rs");
    assert_eq!(normalize_entity_name("command", "cargo build --release"), "cargo build");
    assert_eq!(command_head("  git   status  -s"), "git status");
    assert!(is_command_token("wiki index"));
    assert!(!is_command_token("wikis index"));
}

#[test]
fn inline_token_shapes_are_recognized() {
    assert!(looks_like_path("src/role.go"));
    assert!(!looks_like_path("src/role"));
    assert!(looks_like_file_name("Cargo.toml"));
    assert!(looks_like_identifier("RoleService"));
    assert!(looks_like_identifier("max_size"));
    assert!(!looks_like_identifier("plain"));
}

#[test]
fn line_numbers_count_breaks_before_the_offset() {
    let text: Vec<char> = "a\nbé\nc".chars().collect();
    assert_eq!(line_for_offset(&text, 0, 1), 1);
    assert_eq!(line_for_offset(&text, 2, 1), 2);
    assert_eq!(line_for_offset(&text, 6, 1), 3);
    assert_eq!(line_for_offset(&text, 100, 1), 3);
}

#[test]
fn pages_are_classified_by_hash() {
    assert!(matches!(classify_page(None, "h1", false), PageChange::Added));
    assert!(matches!(classify_page(Some("h1"), "h1", false), PageChange::Unchanged));
    assert!(matches!(classify_page(Some("h0"), "h1", false), PageChange::Updated));
    assert!(matches!(classify_page(Some("h1"), "h1", true), PageChange::Updated));
    let options = IndexOptions { path: None, rebuild: false, chunk_chars: 0 };
    assert_eq!(chunk_limit(&options), 1);
}
