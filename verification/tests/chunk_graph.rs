use sha2::{Digest, Sha256};

use wiki::chunk_graph::{
    chunk_entities, chunk_relations, entity_id, mention_id, relation_id, ChunkEntity, CO_OCCURS,
    MAX_ENTITIES_PER_CHUNK,
};
use wiki::index::EntityCandidate;

fn hex(text: &str) -> String {
    Sha256::digest(text.as_bytes()).iter().map(|b| format!("{b:02x}")).collect()
}

fn candidate(kind: &str, name: &str, confidence: u32) -> EntityCandidate {
    EntityCandidate {
        canonical_name: name.to_string(),
        entity_type: kind.to_string(),
        surface: name.to_string(),
        start_pos: 0,
        end_pos: name.len(),
        start_line: 1,
        end_line: 1,
        confidence,
        extractor: "rule".to_string(),
    }
}

#[test]
fn entity_ids_digest_type_and_name() {
    let id = entity_id("function", "HandleRequest");
    assert_eq!(id, format!("entity:{}", hex("function:HandleRequest")));
    assert_ne!(id, entity_id("type", "HandleRequest"));
}

#[test]
fn mention_ids_digest_entity_chunk_and_span() {
    let id = mention_id("entity:abc", "chunk:1", 3, 17);
    assert_eq!(id, format!("mention:{}", hex("entity:abc:chunk:1:3:17")));
    assert_ne!(id, mention_id("entity:abc", "chunk:1", 3, 18));
}

#[test]
fn relation_ids_digest_subject_predicate_object() {
    let id = relation_id("entity:a", "entity:b");
    assert_eq!(id, format!("relation:{}", hex(&format!("entity:a:{CO_OCCURS}:entity:b"))));
    assert_ne!(id, relation_id("entity:b", "entity:a"));
}

#[test]
fn chunk_entities_keep_one_per_id_with_best_confidence_in_id_order() {
    let cands = vec![
        candidate("type", "RoleData", 70),
        candidate("function", "HandleRequest", 80),
        candidate("type", "RoleData", 95),
        candidate("function", "HandleRequest", 60),
    ];
    let entities = chunk_entities(&cands);
    let role = entity_id("type", "RoleData");
    let handle = entity_id("function", "HandleRequest");
    let mut expected = vec![(role, 95u32), (handle, 80u32)];
    expected.sort();
    let got: Vec<(String, u32)> = entities.iter().map(|e| (e.id.clone(), e.confidence)).collect();
    assert_eq!(got, expected);
}

#[test]
fn chunk_entities_read_only_the_first_candidates() {
    let cands: Vec<EntityCandidate> = (0..40).map(|i| candidate("identifier", &format!("Name{i}"), 50)).collect();
    let entities = chunk_entities(&cands);
    assert_eq!(entities.len(), MAX_ENTITIES_PER_CHUNK);
    let late = entity_id("identifier", "Name39");
    assert!(entities.iter().all(|e| e.id != late));
    assert!(chunk_entities(&Vec::new()).is_empty());
}

#[test]
fn chunk_relations_pair_every_entity_with_each_later_one() {
    let entities = vec![
        ChunkEntity { id: "a".to_string(), confidence: 90 },
        ChunkEntity { id: "b".to_string(), confidence: 70 },
        ChunkEntity { id: "c".to_string(), confidence: 80 },
    ];
    let relations = chunk_relations(&entities);
    let got: Vec<(String, String, String, u32)> = relations
        .iter()
        .map(|r| (r.id.clone(), r.subject.clone(), r.object.clone(), r.confidence))
        .collect();
    assert_eq!(
        got,
        vec![
            (relation_id("a", "b"), "a".to_string(), "b".to_string(), 70),
            (relation_id("a", "c"), "a".to_string(), "c".to_string(), 80),
            (relation_id("b", "c"), "b".to_string(), "c".to_string(), 70),
        ]
    );
    let single = vec![ChunkEntity { id: "a".to_string(), confidence: 90 }];
    assert!(chunk_relations(&single).is_empty());
}
