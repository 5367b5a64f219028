use wiki::graph::{
    canonical_path, escape_dot, export, format_dot, format_neighbors, format_path, format_stats, load_graph,
    neighbors, path, resolve_node, stats, Graph, GraphDirection, GraphError,
};

fn rows() -> Graph {
    let documents = vec![
        ("notes/a.md".to_string(), "A".to_string()),
        ("notes/b.md".to_string(), "B".to_string()),
        ("notes/c.md".to_string(), "C".to_string()),
    ];
    let links = vec![
        ("notes/a.md".to_string(), "notes/b".to_string(), Some("B".to_string())),
        ("notes/b.md".to_string(), "notes/c".to_string(), None),
        ("notes/c.md".to_string(), "missing/page".to_string(), None),
    ];
    load_graph(&documents, &links)
}

#[test]
fn stats_count_resolved_and_dangling_links() {
    let graph = rows();
    let stats = stats(&graph, 0, 0, 0);
    assert_eq!(stats.nodes, 3);
    assert_eq!(stats.links, 3);
    assert_eq!(stats.unique_edges, 3);
    assert_eq!(stats.resolved_links, 2);
    assert_eq!(stats.dangling_links, 1);
    assert_eq!(
        format_stats(&stats),
        "== Graph stats ==\nNodes: 3\nLinks: 3\nUnique edges: 3\nResolved links: 2\nDangling links: 1\nEntity nodes: 0\nEntity mentions: 0\nEntity relations: 0\n"
    );
}

#[test]
fn neighbors_traverse_both_directions() {
    let graph = rows();
    let result = neighbors(&graph, "notes/b", 1, GraphDirection::Both).ok().unwrap();
    assert_eq!(result.root.title, "B");
    assert_eq!(result.edges.len(), 2);
    assert!(result.edges.iter().any(|edge| edge.direction == "incoming" && edge.source == "notes/a"));
    assert!(result.edges.iter().any(|edge| edge.direction == "outgoing" && edge.target == "notes/c"));
}

#[test]
fn neighbors_at_depth_two_reach_dangling_links_in_order() {
    let graph = rows();
    let result = neighbors(&graph, "A", 5, GraphDirection::Outgoing).ok().unwrap();
    assert_eq!(result.depth, 5);
    let seen: Vec<(usize, String, String)> =
        result.edges.iter().map(|e| (e.depth, e.source.clone(), e.target.clone())).collect();
    assert_eq!(
        seen,
        vec![
            (1, "notes/a".to_string(), "notes/b".to_string()),
            (2, "notes/b".to_string(), "notes/c".to_string()),
            (3, "notes/c".to_string(), "missing/page".to_string()),
        ]
    );
    assert_eq!(
        format_neighbors(&result),
        "== Graph neighbors: notes/a ==\nDepth: 5\nDirection: outgoing\n\n- depth 1 [outgoing] notes/a --wiki [B]--> notes/b\n- depth 2 [outgoing] notes/b --wiki--> notes/c\n- depth 3 [outgoing] notes/c --wiki--> missing/page [dangling]\n\n(Complete: 3 edge(s).)\n"
    );
}

#[test]
fn path_follows_resolved_outgoing_links() {
    let graph = rows();
    let result = path(&graph, "A", "notes/c", 4).ok().unwrap();
    assert_eq!(result.steps.len(), 2);
    assert_eq!(result.steps[0].source, "notes/a");
    assert_eq!(result.steps[1].target, "notes/c");
    assert_eq!(
        format_path(&result),
        "== Graph path: notes/a -> notes/c ==\nSteps: 2\n1. notes/a --wiki [B]--> notes/b\n2. notes/b --wiki--> notes/c\n"
    );
}

#[test]
fn path_returns_no_steps_when_target_is_unreachable() {
    let graph = rows();
    let result = path(&graph, "notes/c", "notes/a", 4).ok().unwrap();
    assert!(result.steps.is_empty());
    assert_eq!(format_path(&result), "== Graph path: notes/c -> notes/a ==\n(No directed path found.)\n");
}

#[test]
fn path_respects_the_depth_bound() {
    let graph = rows();
    assert!(path(&graph, "notes/a", "notes/c", 1).ok().unwrap().steps.is_empty());
    assert!(path(&graph, "zzz", "notes/b", 4).ok().is_none());
    let same = path(&graph, "notes/b", "B", 4).ok().unwrap();
    assert!(same.steps.is_empty());
    assert_eq!(format_path(&same), "== Graph path: notes/b -> notes/b ==\nAlready at the target node (0 step(s)).\n");
}

#[test]
fn unknown_and_ambiguous_queries_are_invalid() {
    let documents = vec![("x/one.md".to_string(), "Same".to_string()), ("y/two.md".to_string(), "same".to_string())];
    let graph = load_graph(&documents, &Vec::new());
    match resolve_node(&graph, "SAME") {
        Err(GraphError::Invalid(m)) => assert_eq!(m, "graph entity title is ambiguous: SAME; candidates: x/one, y/two"),
        _ => panic!("expected an ambiguity error"),
    }
    match resolve_node(&graph, "nothing") {
        Err(GraphError::Invalid(m)) => assert_eq!(m, "graph entity not found: nothing"),
        _ => panic!("expected a not-found error"),
    }
}

#[test]
fn export_keeps_dangling_edges_and_renders_dot() {
    let graph = export(rows());
    assert_eq!(graph.nodes.len(), 3);
    assert!(graph.edges.iter().any(|edge| !edge.resolved));
    assert!(graph.edges.iter().any(|edge| edge.target == "missing/page"));
    let dot = format_dot(&graph);
    assert!(dot.contains("digraph wiki"));
    assert!(dot.contains("  \"missing/page\" [label=\"missing/page\", style=dashed];\n"));
    assert!(dot.contains("  \"notes/a\" -> \"notes/b\" [label=\"B\"];\n"));
    assert!(dot.contains("  \"notes/b\" -> \"notes/c\" [label=\"wiki\"];\n"));
    assert!(dot.contains("  \"notes/a\" [label=\"A\\nnotes/a.md\"];\n"));
}

#[test]
fn canonical_ids_cut_fragments_and_markdown_suffixes() {
    assert_eq!(canonical_path(" ./notes\\a.md#Section "), "notes/a");
    assert_eq!(escape_dot("say \"hi\" \\ bye"), "say \\\"hi\\\" \\\\ bye");
}

#[test]
fn later_documents_with_the_same_id_replace_earlier_ones() {
    let documents = vec![("a.md".to_string(), "First".to_string()), ("./a".to_string(), "Second".to_string())];
    let graph = load_graph(&documents, &Vec::new());
    let exported = export(graph);
    assert_eq!(exported.nodes.len(), 1);
    assert_eq!(exported.nodes[0].title, "Second");
    assert_eq!(exported.nodes[0].path, "./a");
}
