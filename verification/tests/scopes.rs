use wiki::scopes::{entity_scopes, ScopeKind, MAX_ENTITY_SCOPES};

fn s(text: &str) -> String {
    text.to_string()
}

fn triple(a: &str, b: &str, c: &str) -> (String, String, String) {
    (s(a), s(b), s(c))
}

#[test]
fn seeds_are_in_scope_by_mention_with_their_names() {
    let names = vec![(s("entity:a"), s("Alpha")), (s("entity:b"), s("Beta"))];
    let seeds = vec![s("entity:b"), s("entity:a"), s("entity:z")];
    let scopes = entity_scopes(&names, &seeds, &Vec::new());
    let got: Vec<(String, String, ScopeKind)> =
        scopes.into_iter().map(|scope| (scope.entity, scope.reason, scope.kind)).collect();
    assert_eq!(
        got,
        vec![
            (s("entity:a"), s("entity-mention: Alpha"), ScopeKind::Mention),
            (s("entity:b"), s("entity-mention: Beta"), ScopeKind::Mention),
            (s("entity:z"), s("entity-mention: entity:z"), ScopeKind::Mention),
        ]
    );
}

#[test]
fn relations_bring_in_the_non_seed_side_once() {
    let names = vec![(s("entity:a"), s("Alpha")), (s("entity:c"), s("Gamma")), (s("entity:d"), s("Delta"))];
    let seeds = vec![s("entity:a")];
    let relations = vec![
        triple("entity:a", "co_occurs_in_chunk", "entity:c"),
        triple("entity:d", "co_occurs_in_chunk", "entity:a"),
        triple("entity:c", "co_occurs_in_chunk", "entity:a"),
        triple("entity:c", "co_occurs_in_chunk", "entity:d"),
    ];
    let scopes = entity_scopes(&names, &seeds, &relations);
    let got: Vec<(String, String, ScopeKind)> =
        scopes.into_iter().map(|scope| (scope.entity, scope.reason, scope.kind)).collect();
    assert_eq!(
        got,
        vec![
            (s("entity:a"), s("entity-mention: Alpha"), ScopeKind::Mention),
            (s("entity:c"), s("candidate relation from Alpha: co_occurs_in_chunk -> Gamma"), ScopeKind::Relation),
            (s("entity:d"), s("candidate relation from Alpha: co_occurs_in_chunk -> Delta"), ScopeKind::Relation),
        ]
    );
}

#[test]
fn relations_between_two_seeds_add_nothing() {
    let seeds = vec![s("entity:a"), s("entity:b")];
    let relations = vec![triple("entity:a", "co_occurs_in_chunk", "entity:b")];
    let scopes = entity_scopes(&Vec::new(), &seeds, &relations);
    assert_eq!(scopes.len(), 2);
    assert!(scopes.iter().all(|scope| scope.kind == ScopeKind::Mention));
}

#[test]
fn scopes_keep_the_smallest_ids_up_to_the_cap() {
    let seeds: Vec<String> = (0..100).rev().map(|i| format!("entity:{i:03}")).collect();
    let scopes = entity_scopes(&Vec::new(), &seeds, &Vec::new());
    assert_eq!(scopes.len(), MAX_ENTITY_SCOPES);
    assert_eq!(scopes[0].entity, "entity:000");
    assert_eq!(scopes[MAX_ENTITY_SCOPES - 1].entity, format!("entity:{:03}", MAX_ENTITY_SCOPES - 1));
}
