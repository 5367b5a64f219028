use wiki::markdown::{chunk_markdown, extract_wiki_links, normalize_link_target};

#[test]
fn chunk_markdown_tracks_heading_paths_and_lines() {
    let chunks = chunk_markdown(
        r#"# Root

intro

## Child

body
"#,
        1_200,
    );
    assert_eq!(chunks.len(), 2);
    assert_eq!(chunks[0].heading_path, "Root");
    assert_eq!(chunks[0].start_line, 1);
    assert!(chunks[0].text.as_bytes().contains(&10));
    assert_eq!(chunks[1].heading_path, "Root > Child");
    assert_eq!(chunks[1].start_line, 5);
}

#[test]
fn normalize_link_target_removes_relative_prefix_and_extension() {
    assert_eq!(normalize_link_target("./notes/foo.md"), "notes/foo");
}

#[test]
fn normalize_link_target_handles_backslashes_and_repeated_prefixes() {
    assert_eq!(normalize_link_target("  ././notes\\bar.md.md "), "notes/bar");
}

#[test]
fn extract_wiki_links_ignores_fenced_and_inline_code() {
    let marker = '\x60';
    let fence = marker.to_string().repeat(3);
    let text = format!(
        "Real [[notes/real]].\n\n{fence}text\nExample [[notes/fenced]]\n{fence}\n\nUse {marker}[[notes/inline]]{marker} as syntax.\n"
    );
    let links = extract_wiki_links(&text);
    assert_eq!(links.len(), 1);
    assert_eq!(links[0].target_path, "notes/real");
}

#[test]
fn extract_wiki_links_keeps_link_text() {
    let links = extract_wiki_links("See [[./notes/b.md|B page]] and [[notes/c]].");
    assert_eq!(links.len(), 2);
    assert_eq!(links[0].target_path, "notes/b");
    assert_eq!(links[0].link_text.as_deref(), Some("B page"));
    assert_eq!(links[1].target_path, "notes/c");
    assert_eq!(links[1].link_text, None);
}

#[test]
fn chunk_hashes_are_sha256_of_the_text() {
    let chunks = chunk_markdown("# A\n\nbody\n", 1_200);
    assert_eq!(chunks.len(), 1);
    assert_eq!(chunks[0].text_hash.len(), 64);
    let again = chunk_markdown("# A\n\nbody\n", 1_200);
    assert_eq!(chunks[0].text_hash, again[0].text_hash);
    let other = chunk_markdown("# A\n\nother\n", 1_200);
    assert_ne!(chunks[0].text_hash, other[0].text_hash);
}
