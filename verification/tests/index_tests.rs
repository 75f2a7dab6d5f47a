use inverted_index::pairs::{sort_pairs, tokenize_document, IntermediatePair};
use inverted_index::stem::{algorithm_from_name, stem_term, IndexError, StemAlgorithm};
use inverted_index::store::InvertedIndex;

fn pair(term: &str, doc_id: u32) -> IntermediatePair {
    IntermediatePair { term: String::from(term), doc_id }
}

fn build_index(docs: &[(u32, &str)]) -> InvertedIndex {
    let alg = StemAlgorithm::English;
    let mut all: Vec<IntermediatePair> = Vec::new();
    for (doc_id, text) in docs {
        let mut pairs = tokenize_document(*doc_id, text, alg);
        all.append(&mut pairs);
    }
    let sorted = sort_pairs(all);
    let mut idx = InvertedIndex::new();
    idx.build_from_sorted_pairs(sorted);
    idx
}

#[test]
fn stemming_is_idempotent_on_samples() {
    let alg = StemAlgorithm::English;
    for word in ["running", "friends", "romans", "cats", "bury", "caesar"] {
        let once = stem_term(alg, word);
        let twice = stem_term(alg, &once);
        assert_eq!(once, twice);
    }
}

#[test]
fn scenario_two_documents() {
    let idx = build_index(&[(1, "Friends, Romans, countrymen"), (2, "I come to bury Caesar")]);
    let alg = StemAlgorithm::English;
    assert_eq!(idx.search("Romans", alg), Some(vec![1]));
    assert_eq!(idx.search("Caesar", alg), Some(vec![2]));
    assert_eq!(idx.search("friend", alg), Some(vec![1]));
    assert_eq!(idx.search("countrymen", alg), Some(vec![1]));
    assert_eq!(idx.search("come", alg), Some(vec![2]));
    assert_eq!(idx.search("bury", alg), Some(vec![2]));
    assert_eq!(idx.search("nonexistent", alg), None);
    assert_eq!(idx.term_count(), 8);
}

#[test]
fn duplicate_word_single_posting() {
    let idx = build_index(&[(1, "the the")]);
    assert_eq!(idx.search("the", StemAlgorithm::English), Some(vec![1]));
    assert_eq!(idx.term_count(), 1);
}

#[test]
fn tokenize_empty_and_punctuation() {
    let alg = StemAlgorithm::English;
    assert_eq!(tokenize_document(7, "", alg).len(), 0);
    assert_eq!(tokenize_document(7, "12 34 ... !!! \t\n", alg).len(), 0);
}

#[test]
fn tokenize_orders_and_tags() {
    let alg = StemAlgorithm::English;
    let pairs = tokenize_document(3, "Hello, world", alg);
    assert_eq!(pairs.len(), 2);
    assert_eq!(pairs[0], pair("hello", 3));
    assert_eq!(pairs[1], pair("world", 3));
}

#[test]
fn sort_orders_by_term_then_doc() {
    let input = vec![pair("b", 1), pair("a", 2), pair("a", 1), pair("b", 0)];
    let sorted = sort_pairs(input);
    assert_eq!(sorted, vec![pair("a", 1), pair("a", 2), pair("b", 0), pair("b", 1)]);
}

#[test]
fn sort_keeps_duplicates() {
    let input = vec![pair("a", 1), pair("a", 1)];
    let sorted = sort_pairs(input);
    assert_eq!(sorted, vec![pair("a", 1), pair("a", 1)]);
}

#[test]
fn unknown_algorithm_rejected() {
    assert_eq!(algorithm_from_name("english"), Ok(StemAlgorithm::English));
    assert_eq!(algorithm_from_name("german"), Err(IndexError::UnsupportedAlgorithm));
    assert_eq!(algorithm_from_name(""), Err(IndexError::UnsupportedAlgorithm));
}

#[test]
fn case_folding_matches() {
    let idx = build_index(&[(4, "HELLO")]);
    let alg = StemAlgorithm::English;
    assert_eq!(idx.search("hello", alg), Some(vec![4]));
    assert_eq!(idx.search("HeLLo", alg), Some(vec![4]));
}

#[test]
fn stemming_connects_variants() {
    let idx = build_index(&[(2, "runs")]);
    assert_eq!(idx.search("running", StemAlgorithm::English), Some(vec![2]));
}

#[test]
fn empty_index_finds_nothing() {
    let idx = InvertedIndex::new();
    assert_eq!(idx.search("anything", StemAlgorithm::English), None);
    assert_eq!(idx.term_count(), 0);
}

#[test]
fn postings_ascending_and_distinct() {
    let idx = build_index(&[(1, "apple"), (2, "apple pie"), (3, "apple apple")]);
    let alg = StemAlgorithm::English;
    assert_eq!(idx.search("apple", alg), Some(vec![1, 2, 3]));
    assert_eq!(idx.search("pie", alg), Some(vec![2]));
}
