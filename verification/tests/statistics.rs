use indexer::document::{compute_term_frequency, Document};
use indexer::ratio::{Ratio, Weight};
use indexer::terms::{count_term_occurrences, index_terms, Entry};

fn strings(words: &[&str]) -> Vec<String> {
    words.iter().map(|w| w.to_string()).collect()
}

fn entry<T>(term: &str, value: T) -> Entry<T> {
    Entry { term: term.to_string(), value }
}

fn ratio(numerator: u64, denominator: u64) -> Ratio {
    Ratio { numerator, denominator }
}

#[test]
fn counts_follow_first_occurrence() {
    let counts = count_term_occurrences(&strings(&["cat", "dog", "cat"]));
    assert_eq!(counts, vec![entry("cat", 2u64), entry("dog", 1u64)]);
}

#[test]
fn counts_of_nothing() {
    assert_eq!(count_term_occurrences(&Vec::new()), Vec::<Entry<u64>>::new());
}

#[test]
fn counts_add_up_to_the_number_of_words() {
    let words = strings(&["a", "b", "a", "c", "b", "a", "d", "a"]);
    let counts = count_term_occurrences(&words);
    let sum: u64 = counts.iter().map(|e| e.value).sum();
    assert_eq!(sum, words.len() as u64);
    assert_eq!(
        counts,
        vec![entry("a", 4u64), entry("b", 2u64), entry("c", 1u64), entry("d", 1u64)]
    );
}

#[test]
fn index_gives_the_first_place() {
    let entries = vec![entry("x", 1u64), entry("y", 2u64), entry("x", 3u64)];
    let index = index_terms(&entries);
    assert_eq!(index.get("x"), Some(&0usize));
    assert_eq!(index.get("y"), Some(&1usize));
    assert_eq!(index.get("z"), None);
    assert_eq!(index.len(), 2);
}

#[test]
fn term_frequency_is_count_over_amount() {
    let counts = vec![entry("cat", 2u64), entry("dog", 1u64)];
    let tf = compute_term_frequency(&counts, 3);
    assert_eq!(tf, vec![entry("cat", ratio(2, 3)), entry("dog", ratio(1, 3))]);
}

#[test]
fn term_frequency_of_nothing() {
    assert_eq!(compute_term_frequency(&Vec::new(), 0), Vec::<Entry<Ratio>>::new());
}

#[test]
fn document_from_text_has_terms_only() {
    let document = Document::build_from_text(7, "a.md".to_string(), &"Cat dog, CAT!".to_string());
    assert_eq!(document.id, 7);
    assert_eq!(document.path, "a.md");
    assert_eq!(document.words, strings(&["cat", "dog", "cat"]));
    assert!(document.word_occurrences.is_empty());
    assert!(document.tf.is_empty());
    assert!(document.tf_idf.is_empty());
}

#[test]
fn document_passes_fill_one_mapping_each() {
    let mut document = Document::build_from_text(1, "a.md".to_string(), &"cat dog cat".to_string());
    document.count_word_occurrences();
    assert_eq!(document.word_occurrences, vec![entry("cat", 2u64), entry("dog", 1u64)]);
    assert_eq!(document.get_word_occurrences(), document.word_occurrences);
    assert!(document.tf.is_empty());

    document.compute_tf();
    assert_eq!(document.tf, vec![entry("cat", ratio(2, 3)), entry("dog", ratio(1, 3))]);
    assert!(document.tf_idf.is_empty());

    let idf = vec![entry("dog", ratio(2, 2)), entry("cat", ratio(2, 1))];
    document.compute_tf_idf(&idf);
    assert_eq!(
        document.tf_idf,
        vec![
            entry("cat", Weight { frequency: ratio(2, 3), rarity: ratio(2, 1) }),
            entry("dog", Weight { frequency: ratio(1, 3), rarity: ratio(2, 2) }),
        ]
    );
    assert_eq!(document.words, strings(&["cat", "dog", "cat"]));
    assert_eq!(document.id, 1);
}

#[test]
fn empty_document_has_empty_frequencies() {
    let mut document = Document::build_from_text(1, "e.md".to_string(), &"  ---  ".to_string());
    document.count_word_occurrences();
    document.compute_tf();
    document.compute_tf_idf(&vec![entry("cat", ratio(1, 1))]);
    assert!(document.words.is_empty());
    assert!(document.word_occurrences.is_empty());
    assert!(document.tf.is_empty());
    assert!(document.tf_idf.is_empty());
}

#[test]
fn unknown_terms_get_no_weight() {
    let mut document = Document::build_from_text(0, "q".to_string(), &"cat emu bird".to_string());
    document.compute_tf();
    let idf = vec![entry("cat", ratio(2, 1)), entry("bird", ratio(2, 1))];
    document.compute_tf_idf(&idf);
    assert_eq!(
        document.tf_idf,
        vec![
            entry("cat", Weight { frequency: ratio(1, 3), rarity: ratio(2, 1) }),
            entry("bird", Weight { frequency: ratio(1, 3), rarity: ratio(2, 1) }),
        ]
    );
}

#[test]
fn compute_tf_counts_the_words_itself() {
    let mut document = Document::build_from_text(0, "q".to_string(), &"b a b".to_string());
    document.compute_tf();
    assert!(document.word_occurrences.is_empty());
    assert_eq!(document.tf, vec![entry("b", ratio(2, 3)), entry("a", ratio(1, 3))]);
}

#[test]
fn database_path_is_one_directory_up() {
    let document = Document::build_from_text(1, "exams/markdown/a.md".to_string(), &String::new());
    assert_eq!(document.database_path(), "../exams/markdown/a.md");
    let nameless = Document::build_from_text(1, String::new(), &String::new());
    assert_eq!(nameless.database_path(), "../");
}
