use cix::embedding::{hash_token, split_identifier, tokenize, SemanticSearcher};
use std::collections::hash_map::DefaultHasher;
use std::hash::{Hash, Hasher};

fn embed(searcher: &SemanticSearcher, text: &str) -> Vec<f32> {
    let counts = searcher.embed_counts(text).unwrap();
    let mut vector: Vec<f32> = counts.iter().map(|n| *n as f32).collect();
    let norm_sq: f32 = vector.iter().map(|x| x * x).sum();
    if norm_sq > 0.0 {
        let norm = norm_sq.sqrt();
        for val in &mut vector {
            *val /= norm;
        }
    }
    vector
}

fn cosine_similarity(v1: &[f32], v2: &[f32]) -> f32 {
    let dot: f32 = v1.iter().zip(v2.iter()).map(|(a, b)| a * b).sum();
    dot.clamp(-1.0, 1.0)
}

#[test]
fn test_embedding_and_similarity() {
    let searcher = SemanticSearcher::new(128);

    let v1 = embed(&searcher, "fn calculate_user_permissions(user_id: u64)");
    let v2 = embed(&searcher, "pub fn check_permissions(id: u64) -> bool");
    let v3 = embed(&searcher, "completely unrelated recipe for baking chocolate chip cookies");

    let sim_relevant = cosine_similarity(&v1, &v2);
    let sim_unrelated = cosine_similarity(&v1, &v3);

    println!("Similarity (relevant): {}", sim_relevant);
    println!("Similarity (unrelated): {}", sim_unrelated);

    assert!(
        sim_relevant > sim_unrelated,
        "Relevant code should have higher semantic similarity than unrelated text"
    );
}

#[test]
fn tokens_hash_as_strings_do() {
    for token in ["", "a", "user_id", "calculate", "héllo", "日本語"] {
        let mut hasher = DefaultHasher::new();
        token.hash(&mut hasher);
        assert_eq!(hash_token(token), hasher.finish(), "{}", token);
    }
}

#[test]
fn identifiers_split_at_underscores_and_humps() {
    assert_eq!(split_identifier("user_id"), vec!["user", "id"]);
    assert_eq!(split_identifier("getUserName"), vec!["get", "user", "name"]);
    assert_eq!(split_identifier("HTTPServer"), vec!["httpserver"]);
    assert_eq!(split_identifier("__x__"), vec!["x"]);
    assert!(split_identifier("___").is_empty());
}

#[test]
fn tokens_are_lower_case_words_and_their_parts() {
    assert_eq!(
        tokenize("fn user_id(x)"),
        vec!["fn", "user_id", "user", "id", "x"]
    );
    assert_eq!(tokenize("GetName"), vec!["getname"]);
    assert!(tokenize(" ,;").is_empty());
}

#[test]
fn text_without_tokens_gives_the_zero_vector() {
    let searcher = SemanticSearcher::new(4);
    assert_eq!(searcher.embed_counts("+-*"), Some(vec![0, 0, 0, 0]));
}

#[test]
fn each_token_counts_once_up_or_down() {
    let searcher = SemanticSearcher::new(16);
    let hash = hash_token("word");
    let sign = if hash.wrapping_mul(0x517cc1b727220a95) & 1 == 0 { 1 } else { -1 };
    let counts = searcher.embed_counts("word word word").unwrap();
    let mut expected = vec![0; 16];
    expected[(hash % 16) as usize] = 3 * sign;
    assert_eq!(counts, expected);
}

#[test]
fn no_dimension_holds_no_token() {
    let searcher = SemanticSearcher::new(0);
    assert_eq!(searcher.embed_counts("word"), None);
    assert_eq!(searcher.embed_counts(""), Some(vec![]));
}
