use indexer::cache::{checked_blob, corpus_from_wire, corpus_to_wire, same_wire, CacheError, Wire};
use indexer::ratio::{Ratio, Weight};
use indexer::searcher::{Searcher, Source};
use indexer::terms::Entry;

fn source(path: &str, text: &str) -> Source {
    Source { path: path.to_string(), text: Ok(text.to_string()) }
}

fn corpus() -> Searcher {
    let mut searcher = Searcher::new();
    searcher.load_documents(&vec![source("doc1", "cat dog cat"), source("doc2", "dog bird")]);
    searcher.documents[0].id = 41;
    searcher.documents[1].id = -7;
    searcher
}

#[test]
fn round_trip_of_a_corpus() {
    let searcher = corpus();
    let blob = searcher.save_embeddings().unwrap();
    let mut loaded = Searcher::new();
    assert_eq!(loaded.load_embeddings(&blob), Ok(()));
    assert_eq!(loaded, searcher);
}

#[test]
fn round_trip_of_the_empty_corpus() {
    let searcher = Searcher::new();
    let blob = searcher.save_embeddings().unwrap();
    let mut loaded = corpus();
    assert_eq!(loaded.load_embeddings(&blob), Ok(()));
    assert_eq!(loaded, searcher);
    assert!(loaded.documents.is_empty());
}

#[test]
fn round_trip_of_a_corpus_whose_statistics_do_not_belong_together() {
    let mut searcher = corpus();
    searcher.idf.push(Entry { term: "ghost".to_string(), value: Ratio { numerator: 0, denominator: 0 } });
    searcher.documents[0].tf_idf.push(Entry {
        term: "Ünï".to_string(),
        value: Weight {
            frequency: Ratio { numerator: u64::MAX, denominator: 1 },
            rarity: Ratio { numerator: 3, denominator: u64::MAX },
        },
    });
    searcher.documents[1].id = i64::MIN;
    let blob = searcher.save_embeddings().unwrap();
    let mut loaded = Searcher::new();
    assert_eq!(loaded.load_embeddings(&blob), Ok(()));
    assert_eq!(loaded, searcher);
}

#[test]
fn blob_is_not_the_layout_handed_back() {
    let searcher = corpus();
    let blob = searcher.save_embeddings().unwrap();
    assert_eq!(blob[0], 2);
    assert_eq!(blob[1], 82);
    assert_eq!(&blob[2..7], &[4, b'd', b'o', b'c', b'1']);
    assert_eq!(Searcher::new().save_embeddings().unwrap(), vec![0u8, 0u8]);
}

#[test]
fn broken_blob_is_refused_and_nothing_is_replaced() {
    let mut searcher = corpus();
    let before = searcher.clone();
    let mut blob = searcher.save_embeddings().unwrap();
    blob.truncate(blob.len() - 1);
    assert_eq!(searcher.load_embeddings(&blob), Err(CacheError::Deserialization));
    assert_eq!(searcher, before);
    assert_eq!(searcher.load_embeddings(&[]), Err(CacheError::Deserialization));
    assert_eq!(searcher.load_embeddings(&[1, 0, 1, 0xff]), Err(CacheError::Deserialization));
    assert_eq!(searcher, before);
}

#[test]
fn layout_and_back() {
    let searcher = corpus();
    let wire: Wire = corpus_to_wire(&searcher);
    assert_eq!(wire.0.len(), 2);
    assert_eq!(wire.0[0].0, 41);
    assert_eq!(wire.0[0].1, "doc1");
    assert_eq!(wire.0[0].2, vec!["cat".to_string(), "dog".to_string(), "cat".to_string()]);
    assert_eq!(wire.0[0].3, vec![("cat".to_string(), 2u64), ("dog".to_string(), 1u64)]);
    assert_eq!(wire.0[0].4, vec![("cat".to_string(), 2u64, 3u64), ("dog".to_string(), 1u64, 3u64)]);
    assert_eq!(
        wire.0[0].5,
        vec![("cat".to_string(), 2u64, 3u64, 2u64, 1u64), ("dog".to_string(), 1u64, 3u64, 2u64, 2u64)]
    );
    assert_eq!(
        wire.1,
        vec![("cat".to_string(), 2u64, 1u64), ("dog".to_string(), 2u64, 2u64), ("bird".to_string(), 2u64, 1u64)]
    );
    assert_eq!(corpus_from_wire(&wire), searcher);
}

#[test]
fn blob_is_kept_only_if_it_is_read_back_as_the_layout() {
    let searcher = corpus();
    let wire = corpus_to_wire(&searcher);
    let bytes = vec![1u8, 2, 3];
    assert_eq!(checked_blob(&wire, Some(bytes.clone()), Some(corpus_to_wire(&searcher))), Ok(bytes.clone()));

    let mut other = corpus();
    other.documents[1].words.push("emu".to_string());
    assert_eq!(
        checked_blob(&wire, Some(bytes.clone()), Some(corpus_to_wire(&other))),
        Err(CacheError::Serialization)
    );
    assert_eq!(checked_blob(&wire, Some(bytes.clone()), None), Err(CacheError::Serialization));
    assert_eq!(checked_blob(&wire, None, Some(corpus_to_wire(&searcher))), Err(CacheError::Serialization));
    assert_eq!(checked_blob(&wire, None, None), Err(CacheError::Serialization));
}

#[test]
fn layouts_differ_in_any_part() {
    let searcher = corpus();
    let wire = corpus_to_wire(&searcher);
    assert!(same_wire(&wire, &corpus_to_wire(&searcher)));
    assert!(same_wire(&corpus_to_wire(&Searcher::new()), &(Vec::new(), Vec::new())));

    let mut changed = corpus_to_wire(&searcher);
    changed.0[0].0 += 1;
    assert!(!same_wire(&wire, &changed));

    let mut changed = corpus_to_wire(&searcher);
    changed.0[1].1.push('x');
    assert!(!same_wire(&wire, &changed));

    let mut changed = corpus_to_wire(&searcher);
    changed.0[0].2[2] = "cow".to_string();
    assert!(!same_wire(&wire, &changed));

    let mut changed = corpus_to_wire(&searcher);
    changed.0[0].3[1].1 = 9;
    assert!(!same_wire(&wire, &changed));

    let mut changed = corpus_to_wire(&searcher);
    changed.0[1].4[0].2 = 9;
    assert!(!same_wire(&wire, &changed));

    let mut changed = corpus_to_wire(&searcher);
    changed.0[1].5[1].4 = 9;
    assert!(!same_wire(&wire, &changed));

    let mut changed = corpus_to_wire(&searcher);
    changed.1[2].0 = "birds".to_string();
    assert!(!same_wire(&wire, &changed));

    let mut changed = corpus_to_wire(&searcher);
    changed.1.pop();
    assert!(!same_wire(&wire, &changed));

    let mut changed = corpus_to_wire(&searcher);
    changed.0.pop();
    assert!(!same_wire(&wire, &changed));
}
