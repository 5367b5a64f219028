use wiki::relations::{group_neighbors, EntityEvidence, EntityRecord, RelationRow};

fn record(id: &str, name: &str) -> EntityRecord {
    EntityRecord {
        id: id.to_string(),
        canonical_name: name.to_string(),
        entity_type: "identifier".to_string(),
        confidence: 72,
        status: "active".to_string(),
        mentions: 1,
    }
}

fn evidence(path: &str, line: usize, quote: &str) -> Option<EntityEvidence> {
    Some(EntityEvidence { path: path.to_string(), start_line: line, end_line: line, quote: quote.to_string() })
}

fn row(subject: &str, object: &str, confidence: u64, entity: EntityRecord, ev: Option<EntityEvidence>) -> RelationRow {
    RelationRow {
        subject_id: subject.to_string(),
        predicate: "co_occurs_in_chunk".to_string(),
        object_id: object.to_string(),
        confidence,
        entity,
        evidence: ev,
    }
}

fn rows() -> Vec<RelationRow> {
    vec![
        row("e1", "e2", 5, record("e2", "Second"), evidence("b.md", 3, "q2")),
        row("e1", "e2", 9, record("e2", "Second again"), evidence("a.md", 1, "q1")),
        row("e3", "e1", 7, record("e3", "Third"), None),
        row("e1", "e2", 1, record("e2", "Second"), evidence("b.md", 3, "q2")),
    ]
}

#[test]
fn neighbors_group_rows_and_merge_evidence() {
    let neighbors = group_neighbors("e1", &rows(), 10);
    assert_eq!(neighbors.len(), 2);

    let incoming = &neighbors[0];
    assert_eq!(incoming.direction, "incoming");
    assert_eq!(incoming.entity.id, "e3");
    assert_eq!(incoming.confidence, 7);
    assert!(incoming.evidence.is_empty());

    let outgoing = &neighbors[1];
    assert_eq!(outgoing.direction, "outgoing");
    assert_eq!(outgoing.predicate, "co_occurs_in_chunk");
    assert_eq!(outgoing.entity.canonical_name, "Second");
    assert_eq!(outgoing.confidence, 9);
    let paths: Vec<(&str, usize)> = outgoing.evidence.iter().map(|e| (e.path.as_str(), e.start_line)).collect();
    assert_eq!(paths, vec![("a.md", 1), ("b.md", 3)]);
}

#[test]
fn neighbor_limit_applies_after_grouping() {
    let neighbors = group_neighbors("e1", &rows(), 1);
    assert_eq!(neighbors.len(), 1);
    assert_eq!(neighbors[0].entity.id, "e3");
    let zero = group_neighbors("e1", &rows(), 0);
    assert_eq!(zero.len(), 1);
}
