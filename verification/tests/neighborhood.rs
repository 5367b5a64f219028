use wiki::neighborhood::{build_page_graph, page_neighborhood};

fn pair(a: &str, b: &str) -> (String, String) {
    (a.to_string(), b.to_string())
}

fn sample_graph() -> wiki::neighborhood::PageGraph {
    let documents = vec![
        pair("d1", "notes/a.md"),
        pair("d2", "notes/b.md"),
        pair("d3", "notes/c.md"),
        pair("d4", "notes/d.md"),
    ];
    let links = vec![
        pair("d1", "notes/b"),
        pair("d2", "./notes/c.md"),
        pair("d3", "missing/page"),
        pair("d4", "notes/d"),
    ];
    build_page_graph(&documents, &links)
}

#[test]
fn page_graph_keeps_resolved_links_between_distinct_pages() {
    let graph = sample_graph();
    assert_eq!(graph.links, vec![pair("d1", "d2"), pair("d2", "d3")]);
}

#[test]
fn neighborhood_assigns_shortest_link_distances_within_depth() {
    let graph = sample_graph();
    let seeds = vec!["d1".to_string()];
    assert_eq!(page_neighborhood(&graph, &seeds, 0), vec![("d1".to_string(), 0)]);
    assert_eq!(
        page_neighborhood(&graph, &seeds, 1),
        vec![("d1".to_string(), 0), ("d2".to_string(), 1)]
    );
    assert_eq!(
        page_neighborhood(&graph, &seeds, 8),
        vec![("d1".to_string(), 0), ("d2".to_string(), 1), ("d3".to_string(), 2)]
    );
}

#[test]
fn neighborhood_follows_links_backwards_from_several_seeds() {
    let graph = sample_graph();
    let seeds = vec!["d3".to_string(), "d4".to_string()];
    assert_eq!(
        page_neighborhood(&graph, &seeds, 8),
        vec![
            ("d1".to_string(), 2),
            ("d2".to_string(), 1),
            ("d3".to_string(), 0),
            ("d4".to_string(), 0)
        ]
    );
}

#[test]
fn later_documents_win_a_shared_page_id() {
    let documents = vec![pair("old", "notes/x.md"), pair("new", "./notes/x.MD")];
    let links = vec![pair("a", "notes/x")];
    let graph = build_page_graph(&documents, &links);
    assert_eq!(graph.links, vec![pair("a", "new")]);
}
