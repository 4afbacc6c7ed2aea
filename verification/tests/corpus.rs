use indexer::document::Document;
use indexer::ratio::{Ratio, Weight};
use indexer::searcher::{ExtractionError, Searcher, Source};
use indexer::similarity::shared_weights;
use indexer::terms::Entry;

fn entry<T>(term: &str, value: T) -> Entry<T> {
    Entry { term: term.to_string(), value }
}

fn ratio(numerator: u64, denominator: u64) -> Ratio {
    Ratio { numerator, denominator }
}

fn source(path: &str, text: &str) -> Source {
    Source { path: path.to_string(), text: Ok(text.to_string()) }
}

fn failed(path: &str, error: ExtractionError) -> Source {
    Source { path: path.to_string(), text: Err(error) }
}

fn value(weight: &Weight) -> f32 {
    let tf = weight.frequency.numerator as f32 / weight.frequency.denominator as f32;
    let idf = (weight.rarity.numerator as f32 / weight.rarity.denominator as f32).log10();
    tf * idf
}

fn norm(vector: &Vec<Entry<Weight>>) -> f32 {
    vector.iter().map(|e| value(&e.value) * value(&e.value)).sum::<f32>().sqrt()
}

fn cosine(query: &Vec<Entry<Weight>>, document: &Vec<Entry<Weight>>, shared: &Vec<(Weight, Weight)>) -> f32 {
    let dot: f32 = shared.iter().map(|(a, b)| value(a) * value(b)).sum();
    let norms = norm(query) * norm(document);
    if norm(query) == 0.0 || norm(document) == 0.0 {
        0.0
    } else {
        dot / norms
    }
}

fn close(a: f32, b: f32) -> bool {
    (a - b).abs() < 1e-4
}

fn two_documents() -> Searcher {
    let mut searcher = Searcher::new();
    searcher.load_documents(&vec![source("doc1", "cat dog cat"), source("doc2", "dog bird")]);
    searcher
}

#[test]
fn new_corpus_is_empty() {
    let searcher = Searcher::new();
    assert!(searcher.documents.is_empty());
    assert!(searcher.idf.is_empty());
}

#[test]
fn document_frequencies_count_documents_not_occurrences() {
    let searcher = two_documents();
    assert_eq!(
        searcher.idf,
        vec![entry("cat", ratio(2, 1)), entry("dog", ratio(2, 2)), entry("bird", ratio(2, 1))]
    );
    assert_eq!(searcher.compute_idf(), searcher.idf);
}

#[test]
fn end_to_end_weights() {
    let searcher = two_documents();
    let doc1 = &searcher.documents[0];
    assert_eq!(doc1.id, -1);
    assert_eq!(doc1.path, "doc1");
    assert_eq!(doc1.word_occurrences, vec![entry("cat", 2u64), entry("dog", 1u64)]);
    assert_eq!(doc1.tf, vec![entry("cat", ratio(2, 3)), entry("dog", ratio(1, 3))]);
    assert_eq!(doc1.tf_idf.len(), 2);
    assert_eq!(doc1.tf_idf[0].term, "cat");
    assert!(close(value(&doc1.tf_idf[0].value), 0.2007));
    assert_eq!(doc1.tf_idf[1].term, "dog");
    assert_eq!(value(&doc1.tf_idf[1].value), 0.0);
    assert!(close(value(&searcher.documents[1].tf_idf[1].value), 0.1505));
    let cat = &searcher.idf[0].value;
    assert!(close((cat.numerator as f32 / cat.denominator as f32).log10(), 0.30103));
}

#[test]
fn end_to_end_query() {
    let searcher = two_documents();
    let search = searcher.search_documents("cat bird".to_string());
    assert_eq!(search.query.id, 0);
    assert_eq!(search.query.path, "query");
    assert_eq!(search.query.words, vec!["cat".to_string(), "bird".to_string()]);
    assert!(search.query.word_occurrences.is_empty());
    assert_eq!(search.query.tf, vec![entry("cat", ratio(1, 2)), entry("bird", ratio(1, 2))]);
    assert_eq!(search.results.len(), 2);
    assert_eq!(search.results[0].embedding_id, -1);

    let cat = Weight { frequency: ratio(1, 2), rarity: ratio(2, 1) };
    assert_eq!(
        search.results[0].shared,
        vec![(cat, Weight { frequency: ratio(2, 3), rarity: ratio(2, 1) })]
    );
    assert_eq!(
        search.results[1].shared,
        vec![(cat, Weight { frequency: ratio(1, 2), rarity: ratio(2, 1) })]
    );

    let first = cosine(&search.query.tf_idf, &searcher.documents[0].tf_idf, &search.results[0].shared);
    let second = cosine(&search.query.tf_idf, &searcher.documents[1].tf_idf, &search.results[1].shared);
    assert!(close(first, 0.70711));
    assert!(close(second, 0.70711));
}

#[test]
fn query_terms_outside_the_corpus_are_dropped() {
    let searcher = two_documents();
    let search = searcher.search_documents("emu CAT emu".to_string());
    assert_eq!(search.query.tf, vec![entry("emu", ratio(2, 3)), entry("cat", ratio(1, 3))]);
    assert_eq!(
        search.query.tf_idf,
        vec![entry("cat", Weight { frequency: ratio(1, 3), rarity: ratio(2, 1) })]
    );
    assert_eq!(search.results[0].shared.len(), 1);
    assert!(search.results[1].shared.is_empty());
    let second = cosine(&search.query.tf_idf, &searcher.documents[1].tf_idf, &search.results[1].shared);
    assert_eq!(second, 0.0);
}

#[test]
fn query_without_terms_shares_nothing() {
    let searcher = two_documents();
    let search = searcher.search_documents("".to_string());
    assert!(search.query.tf_idf.is_empty());
    assert_eq!(search.results.len(), 2);
    assert!(search.results.iter().all(|r| r.shared.is_empty()));
}

#[test]
fn search_leaves_the_corpus_alone() {
    let searcher = two_documents();
    let before = searcher.clone();
    let _ = searcher.search_documents("dog".to_string());
    assert_eq!(searcher, before);
}

#[test]
fn unreadable_sources_are_skipped() {
    let mut searcher = Searcher::new();
    searcher.load_documents(&vec![
        failed("dir", ExtractionError::NotAFile),
        source("a.md", "one two"),
        failed("b.txt", ExtractionError::WrongExtension),
        failed("c.md", ExtractionError::Unreadable),
        source("d.md", "two three"),
        failed("e.md", ExtractionError::Unparsable),
        source("f.md", ""),
    ]);
    let paths: Vec<&str> = searcher.documents.iter().map(|d| d.path.as_str()).collect();
    assert_eq!(paths, vec!["a.md", "d.md", "f.md"]);
    assert_eq!(
        searcher.idf,
        vec![entry("one", ratio(3, 1)), entry("two", ratio(3, 2)), entry("three", ratio(3, 1))]
    );
    assert!(searcher.documents[2].tf_idf.is_empty());
}

#[test]
fn only_failures_give_an_empty_corpus() {
    let mut searcher = two_documents();
    searcher.load_documents(&vec![failed("x", ExtractionError::Unreadable)]);
    assert!(searcher.documents.is_empty());
    assert!(searcher.idf.is_empty());
}

#[test]
fn rebuild_replaces_the_corpus() {
    let mut searcher = two_documents();
    searcher.load_documents(&vec![source("z", "emu")]);
    assert_eq!(searcher.documents.len(), 1);
    assert_eq!(searcher.idf, vec![entry("emu", ratio(1, 1))]);
    assert_eq!(
        searcher.documents[0].tf_idf,
        vec![entry("emu", Weight { frequency: ratio(1, 1), rarity: ratio(1, 1) })]
    );
}

#[test]
fn rarer_term_has_larger_idf() {
    let mut searcher = Searcher::new();
    searcher.load_documents(&vec![
        source("1", "rare common"),
        source("2", "common"),
        source("3", "common other"),
    ]);
    let rare = searcher.idf.iter().find(|e| e.term == "rare").unwrap().value;
    let common = searcher.idf.iter().find(|e| e.term == "common").unwrap().value;
    assert_eq!(rare, ratio(3, 1));
    assert_eq!(common, ratio(3, 3));
    assert!(rare.numerator * common.denominator > common.numerator * rare.denominator);
    let idf = |r: Ratio| (r.numerator as f32 / r.denominator as f32).log10();
    assert!(idf(rare) > idf(common));
    assert_eq!(idf(common), 0.0);
}

#[test]
fn idf_counts_a_document_once_even_if_its_counts_repeat_a_term() {
    let mut odd = Document::build_from_text(1, "odd".to_string(), &"a".to_string());
    odd.word_occurrences = vec![entry("a", 1u64), entry("a", 1u64), entry("b", 1u64)];
    let mut plain = Document::build_from_text(2, "plain".to_string(), &"a".to_string());
    plain.count_word_occurrences();
    let searcher = Searcher { documents: vec![odd, plain], idf: Vec::new() };
    assert_eq!(searcher.compute_idf(), vec![entry("a", ratio(2, 2)), entry("b", ratio(2, 1))]);
}

#[test]
fn shared_weights_follow_the_first_vector() {
    let w = |n: u64| Weight { frequency: ratio(n, 10), rarity: ratio(4, 1) };
    let a = vec![entry("x", w(1)), entry("y", w(2)), entry("z", w(3))];
    let b = vec![entry("z", w(4)), entry("q", w(5)), entry("x", w(6))];
    assert_eq!(shared_weights(&a, &b), vec![(w(1), w(6)), (w(3), w(4))]);
    assert_eq!(shared_weights(&b, &a), vec![(w(4), w(3)), (w(6), w(1))]);
    assert_eq!(shared_weights(&a, &Vec::new()), Vec::new());
    assert_eq!(shared_weights(&Vec::new(), &b), Vec::new());
}

#[test]
fn vector_against_itself_has_similarity_one() {
    let searcher = two_documents();
    let vector = &searcher.documents[0].tf_idf;
    let shared = shared_weights(vector, vector);
    assert_eq!(shared.len(), vector.len());
    assert!(shared.iter().all(|(a, b)| a == b));
    assert!(close(cosine(vector, vector, &shared), 1.0));
}

#[test]
fn zero_vector_has_similarity_zero() {
    let zero = vec![entry("dog", Weight { frequency: ratio(1, 1), rarity: ratio(2, 2) })];
    let other = vec![entry("dog", Weight { frequency: ratio(1, 2), rarity: ratio(2, 1) })];
    let shared = shared_weights(&zero, &other);
    assert_eq!(cosine(&zero, &other, &shared), 0.0);
    assert_eq!(cosine(&zero, &zero, &shared_weights(&zero, &zero)), 0.0);
}

#[test]
fn similarity_lies_between_zero_and_one() {
    let mut searcher = Searcher::new();
    searcher.load_documents(&vec![
        source("1", "the cat sat on the mat"),
        source("2", "the dog sat on the log"),
        source("3", "a bird flew over the mat and the log"),
        source("4", "x+y=z and 3+4=7"),
        source("5", ""),
    ]);
    for query in ["the cat", "mat log", "3+4=7", "nothing known", "", "the"] {
        let search = searcher.search_documents(query.to_string());
        assert_eq!(search.results.len(), 5);
        for (result, document) in search.results.iter().zip(searcher.documents.iter()) {
            let similarity = cosine(&search.query.tf_idf, &document.tf_idf, &result.shared);
            assert!(similarity >= 0.0);
            assert!(similarity <= 1.0 + 1e-6);
        }
    }
}

#[test]
fn term_of_every_document_weighs_nothing() {
    let mut searcher = Searcher::new();
    searcher.load_documents(&vec![source("1", "the cat"), source("2", "the dog")]);
    let the = searcher.documents[0].tf_idf.iter().find(|e| e.term == "the").unwrap();
    assert_eq!(the.value, Weight { frequency: ratio(1, 2), rarity: ratio(2, 2) });
    assert_eq!(value(&the.value), 0.0);
    let search = searcher.search_documents("the".to_string());
    for (result, document) in search.results.iter().zip(searcher.documents.iter()) {
        assert_eq!(cosine(&search.query.tf_idf, &document.tf_idf, &result.shared), 0.0);
    }
}
