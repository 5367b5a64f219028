use wiki::shared::{area_search_label, display_path, knowledge_area_for_relative_path, knowledge_area_names};

#[test]
fn knowledge_area_for_relative_path_matches_only_top_level_component() {
    let cases = [
        ("notes/architecture.md", Some("notes")),
        ("ideas/heuristics.md", Some("ideas")),
        ("projects/plan/phase.md", Some("projects")),
        ("sdd/changes/demo/spec/index.md", Some("sdd")),
        ("AGENTS.md", None),
        ("pages/custom.md", None),
    ];
    for (input, expected) in cases {
        let got = knowledge_area_for_relative_path(input).map(|area| area.0);
        assert_eq!(got, expected, "input: {input}");
    }
}

#[test]
fn area_search_label_handles_known_areas_and_unknown_input() {
    assert_eq!(area_search_label("notes"), "Notes / source of truth");
    assert_eq!(area_search_label("ideas"), "Ideas / original reasoning");
    assert_eq!(area_search_label("projects"), "Projects / active work");
    assert_eq!(area_search_label("sdd"), "SDD / spec-driven changes");
    assert_eq!(area_search_label("archive"), "Knowledge area");
}

#[test]
fn display_path_strips_windows_extended_prefix() {
    let value = display_path("C:/Users/me/notes.md");
    assert!(value.contains("/notes.md"), "{value}");
}

#[test]
fn display_path_shortens_extended_prefixes() {
    assert_eq!(display_path("\\\\?\\C:\\kb\\notes.md"), "C:/kb/notes.md");
    assert_eq!(display_path("\\\\?\\UNC\\server\\share"), "//server/share");
}

#[test]
fn a_prefix_of_an_area_name_is_not_the_area() {
    assert_eq!(knowledge_area_for_relative_path("notesx/a.md"), None);
    assert_eq!(knowledge_area_for_relative_path("notes").map(|a| a.0), Some("notes"));
    assert_eq!(knowledge_area_names(), ["notes", "ideas", "projects", "sdd"]);
}
