use wiki::embedding::parse_configured_embedding;
use sha2::{Digest, Sha256};
use wiki::embedding::{feature_counts, hash_features, tokenize, uses_embeddings, EmbeddingMode, HashEmbeddingProvider};

#[test]
fn tokenize_splits_camel_case_and_lowercases() {
    assert_eq!(tokenize("HTTPServer parseURL v2_api"), vec!["httpserver", "parse", "url", "v2_api"]);
    assert_eq!(tokenize("  ...  "), Vec::<String>::new());
    assert_eq!(tokenize("RoleService-ID"), vec!["role", "service-id"]);
}

#[test]
fn features_are_counted_in_string_order() {
    let features = vec!["token:b".to_string(), "token:a".to_string(), "token:b".to_string()];
    assert_eq!(feature_counts(&features), vec![("token:a".to_string(), 1), ("token:b".to_string(), 2)]);
}

fn slot(feature: &str) -> (usize, bool) {
    let digest = Sha256::digest(feature.as_bytes());
    let value = u64::from_le_bytes(digest[0..8].try_into().unwrap());
    ((value % 384) as usize, digest[8] & 1 == 1)
}

#[test]
fn hash_features_place_tokens_and_ngrams() {
    let features = hash_features("ab ab");
    let names: Vec<(&str, usize, bool)> =
        features.iter().map(|f| (f.feature.as_str(), f.count, f.token)).collect();
    assert_eq!(names, vec![("ngram:2:ab", 2, false), ("token:ab", 2, true)]);
    for feature in &features {
        let (index, negative) = slot(&feature.feature);
        assert_eq!(feature.index, index);
        assert_eq!(feature.negative, negative);
    }
}

#[test]
fn hash_descriptor_and_modes() {
    let descriptor = HashEmbeddingProvider.descriptor();
    assert_eq!(descriptor.provider, "local-hash");
    assert_eq!(descriptor.model, "token-ngram-v1");
    assert_eq!(descriptor.dimensions, 384);
    assert!(uses_embeddings(EmbeddingMode::Hash));
    assert!(!uses_embeddings(EmbeddingMode::Off));
}

#[test]
fn configured_embedding_names_are_read_case_insensitively() {
    assert!(matches!(parse_configured_embedding(" HASH"), Ok(EmbeddingMode::Hash)));
    assert!(matches!(parse_configured_embedding("none"), Ok(EmbeddingMode::Off)));
    match parse_configured_embedding("Vector") {
        Err(message) => assert_eq!(message, "invalid rag.embedding 'vector' in wiki.yaml; expected 'none' or 'hash'."),
        Ok(_) => panic!("unknown embedding accepted"),
    }
}
