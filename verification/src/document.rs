//! The record of one document: its terms, their counts, their frequencies
//! and their weights.
//!
//! The three mappings are filled in this order, each from the one before:
//! counts from the terms, frequencies from the counts, weights from the
//! frequencies and the inverse document frequencies of a corpus.

use vstd::prelude::*;
use vstd::hash_map::StringHashMap;
use vstd::string::StringExecFns;
use crate::ratio::{Ratio, Weight};
use crate::terms::{
    Entry, keys, lookup, occurrences, total, vocabulary, counts_words, distinct, indexes,
    index_terms, count_term_occurrences, lemma_counts_total, lemma_lookup_indexed,
    lemma_occurrences_bounds, lemma_vocabulary_contains, lemma_vocabulary_distinct,
};
use crate::text::{tokens, collect_words_in_document};

verus! {

/// One document of a corpus, or a query in the shape of a document.
#[derive(Debug, Clone, PartialEq, Eq)]
pub struct Document {
    /// The number under which the metadata store knows the document.
    pub id: i64,
    /// The handle of the source, such as its path.
    pub path: String,
    /// The terms, in the order of the text.
    pub words: Vec<String>,
    /// Each distinct term with the number of its occurrences.
    pub word_occurrences: Vec<Entry<u64>>,
    /// Each distinct term with its share of all occurrences.
    pub tf: Vec<Entry<Ratio>>,
    /// Each term that the corpus knows, with its weight.
    pub tf_idf: Vec<Entry<Weight>>,
}

/// The mathematical value of a `Document`.
pub struct DocumentView {
    pub id: i64,
    pub path: Seq<char>,
    pub words: Seq<Seq<char>>,
    pub word_occurrences: Seq<(Seq<char>, u64)>,
    pub tf: Seq<(Seq<char>, Ratio)>,
    pub tf_idf: Seq<(Seq<char>, Weight)>,
}

impl View for Document {
    type V = DocumentView;

    open spec fn view(&self) -> DocumentView {
        DocumentView {
            id: self.id,
            path: self.path@,
            words: self.words.deep_view(),
            word_occurrences: self.word_occurrences.deep_view(),
            tf: self.tf.deep_view(),
            tf_idf: self.tf_idf.deep_view(),
        }
    }
}

impl DeepView for Document {
    type V = DocumentView;

    open spec fn deep_view(&self) -> DocumentView {
        self@
    }
}

/// The frequencies that belong to `counts` in a document of `amount` term
/// occurrences: each count over `amount`.
pub open spec fn frequencies(counts: Seq<(Seq<char>, u64)>, amount: u64) -> Seq<(Seq<char>, Ratio)> {
    counts.map_values(
        |e: (Seq<char>, u64)| (e.0, Ratio { numerator: e.1, denominator: amount }),
    )
}

/// Whether `tf` maps each distinct term of `words`, in the order of first
/// occurrence, to the number of its occurrences over the number of words.
pub open spec fn frequencies_words(tf: Seq<(Seq<char>, Ratio)>, words: Seq<Seq<char>>) -> bool {
    &&& keys(tf) == vocabulary(words)
    &&& forall|i: int|
        0 <= i < tf.len() ==> {
            &&& (#[trigger] tf[i]).1.numerator == occurrences(words, tf[i].0)
            &&& tf[i].1.denominator == words.len()
        }
}

/// The weights of a document with the frequencies `tf` in a corpus with the
/// inverse document frequencies `idf`: one for each term of `tf` that `idf`
/// knows, in the order of `tf`. A term that `idf` does not know gets none.
pub open spec fn weights(tf: Seq<(Seq<char>, Ratio)>, idf: Seq<(Seq<char>, Ratio)>) -> Seq<
    (Seq<char>, Weight),
>
    decreases tf.len(),
{
    if tf.len() == 0 {
        Seq::empty()
    } else {
        let before = weights(tf.drop_last(), idf);
        match lookup(idf, tf.last().0) {
            Some(rarity) => before.push(
                (tf.last().0, Weight { frequency: tf.last().1, rarity }),
            ),
            None => before,
        }
    }
}

/// Every frequency of a document is a share: its term occurs at least once
/// and at most as often as there are term occurrences.
pub proof fn lemma_frequency_is_share(tf: Seq<(Seq<char>, Ratio)>, words: Seq<Seq<char>>, i: int)
    requires
        frequencies_words(tf, words),
        0 <= i < tf.len(),
    ensures
        tf[i].1.is_share(),
{
    assert(keys(tf)[i] == tf[i].0);
    assert(vocabulary(words).contains(tf[i].0));
    lemma_vocabulary_contains(words, tf[i].0);
    lemma_occurrences_bounds(words, tf[i].0);
}

/// The numerators of the frequencies of a document, as counts.
pub open spec fn numerators(tf: Seq<(Seq<char>, Ratio)>) -> Seq<(Seq<char>, u64)> {
    tf.map_values(|e: (Seq<char>, Ratio)| (e.0, e.1.numerator))
}

/// The numerators of the frequencies of a document add up to their common
/// denominator, the number of term occurrences: the frequencies add up to
/// one.
pub proof fn lemma_frequencies_total(tf: Seq<(Seq<char>, Ratio)>, words: Seq<Seq<char>>)
    requires
        frequencies_words(tf, words),
    ensures
        total(numerators(tf)) == words.len(),
{
    assert(keys(numerators(tf)) =~= keys(tf));
    lemma_counts_total(numerators(tf), words);
}

/// The weights of a document belong to terms of its frequencies that the
/// inverse document frequencies know, each with the frequency and the
/// rarity that the two give it, and to each such term once where the
/// frequencies hold no term twice.
pub proof fn lemma_weights_members(tf: Seq<(Seq<char>, Ratio)>, idf: Seq<(Seq<char>, Ratio)>)
    ensures
        forall|k: int|
            0 <= k < weights(tf, idf).len() ==> {
                let w = #[trigger] weights(tf, idf)[k];
                &&& exists|i: int| 0 <= i < tf.len() && #[trigger] tf[i] == (w.0, w.1.frequency)
                &&& lookup(idf, w.0) == Some(w.1.rarity)
            },
        distinct(tf) ==> distinct(weights(tf, idf)),
    decreases tf.len(),
{
    if tf.len() > 0 {
        let front = tf.drop_last();
        let before = weights(front, idf);
        let all = weights(tf, idf);
        lemma_weights_members(front, idf);
        assert(keys(front) =~= keys(tf).drop_last());
        assert forall|k: int| 0 <= k < all.len() implies {
            let w = #[trigger] all[k];
            &&& exists|i: int| 0 <= i < tf.len() && #[trigger] tf[i] == (w.0, w.1.frequency)
            &&& lookup(idf, w.0) == Some(w.1.rarity)
        } by {
            let w = all[k];
            if k < before.len() {
                assert(all[k] == before[k]);
                let i = choose|i: int|
                    0 <= i < front.len() && #[trigger] front[i] == (w.0, w.1.frequency);
                assert(tf[i] == (w.0, w.1.frequency));
            } else {
                assert(tf[tf.len() - 1] == (w.0, w.1.frequency));
            }
        }
        if keys(tf).no_duplicates() {
            assert forall|p: int, q: int| 0 <= p < q < all.len() implies keys(all)[p] != keys(
                all,
            )[q] by {
                if q < before.len() {
                    assert(keys(before)[p] == keys(all)[p]);
                    assert(keys(before)[q] == keys(all)[q]);
                } else {
                    let w = before[p];
                    assert(all[p] == before[p]);
                    let i = choose|i: int|
                        0 <= i < front.len() && #[trigger] front[i] == (w.0, w.1.frequency);
                    assert(keys(tf)[i] == w.0);
                    assert(keys(tf)[tf.len() - 1] == tf.last().0);
                }
            }
        }
    }
}

/// Maps each term of `word_occurrences` to its count over `word_amount`.
pub fn compute_term_frequency(word_occurrences: &Vec<Entry<u64>>, word_amount: u64) -> (tf: Vec<
    Entry<Ratio>,
>)
    ensures
        tf.deep_view() == frequencies(word_occurrences.deep_view(), word_amount),
{
    let mut tf: Vec<Entry<Ratio>> = Vec::new();
    let mut i: usize = 0;
    while i < word_occurrences.len()
        invariant
            i <= word_occurrences.len(),
            tf.deep_view() == frequencies(word_occurrences.deep_view().take(i as int), word_amount),
        decreases word_occurrences.len() - i,
    {
        let ghost before = tf.deep_view();
        tf.push(
            Entry {
                term: word_occurrences[i].term.clone(),
                value: Ratio { numerator: word_occurrences[i].value, denominator: word_amount },
            },
        );
        proof {
            let counts = word_occurrences.deep_view();
            let entry = (counts[i as int].0, Ratio { numerator: counts[i as int].1, denominator: word_amount });
            assert(tf.deep_view() =~= before.push(entry));
            assert(counts.take(i + 1) =~= counts.take(i as int).push(counts[i as int]));
            assert(frequencies(counts.take(i + 1), word_amount) =~= frequencies(
                counts.take(i as int),
                word_amount,
            ).push(entry));
        }
        i += 1;
    }
    assert(word_occurrences.deep_view().take(i as int) =~= word_occurrences.deep_view());
    tf
}

/// The weights of `tf` under `idf`, found through an index of `idf`.
pub(crate) fn compute_weights(
    tf: &Vec<Entry<Ratio>>,
    idf: &Vec<Entry<Ratio>>,
    index: &StringHashMap<usize>,
) -> (tf_idf: Vec<Entry<Weight>>)
    requires
        indexes(index@, keys(idf.deep_view())),
    ensures
        tf_idf.deep_view() == weights(tf.deep_view(), idf.deep_view()),
{
    let ghost all = tf.deep_view();
    let mut tf_idf: Vec<Entry<Weight>> = Vec::new();
    let mut i: usize = 0;
    while i < tf.len()
        invariant
            i <= tf.len(),
            all == tf.deep_view(),
            indexes(index@, keys(idf.deep_view())),
            tf_idf.deep_view() == weights(all.take(i as int), idf.deep_view()),
        decreases tf.len() - i,
    {
        let ghost before = tf_idf.deep_view();
        proof {
            lemma_lookup_indexed(index@, idf.deep_view(), all[i as int].0);
            assert(all.take(i + 1).drop_last() =~= all.take(i as int));
        }
        match index.get(tf[i].term.as_str()) {
            Some(place) => {
                let j: usize = *place;
                tf_idf.push(
                    Entry {
                        term: tf[i].term.clone(),
                        value: Weight { frequency: tf[i].value, rarity: idf[j].value },
                    },
                );
                assert(tf_idf.deep_view() =~= before.push(
                    (all[i as int].0, Weight { frequency: all[i as int].1, rarity: idf[j as int].value }),
                ));
            },
            None => {},
        }
        i += 1;
    }
    assert(all.take(i as int) =~= all);
    tf_idf
}

/// A copy of a mapping.
fn clone_entries<T: Copy>(entries: &Vec<Entry<T>>) -> (copy: Vec<Entry<T>>)
    ensures
        copy.deep_view() == entries.deep_view(),
{
    let mut copy: Vec<Entry<T>> = Vec::new();
    let mut i: usize = 0;
    while i < entries.len()
        invariant
            i <= entries.len(),
            copy.deep_view() == entries.deep_view().take(i as int),
        decreases entries.len() - i,
    {
        let ghost before = copy.deep_view();
        copy.push(Entry { term: entries[i].term.clone(), value: entries[i].value });
        proof {
            let all = entries.deep_view();
            assert(copy.deep_view() =~= before.push(all[i as int]));
            assert(all.take(i + 1) =~= all.take(i as int).push(all[i as int]));
        }
        i += 1;
    }
    assert(entries.deep_view().take(i as int) =~= entries.deep_view());
    copy
}

impl Document {
    /// A document with the terms of `raw_text` and no statistics yet.
    pub fn build_from_text(id: i64, path: String, raw_text: &String) -> (document: Document)
        ensures
            document@ == (DocumentView {
                id,
                path: path@,
                words: tokens(raw_text@),
                word_occurrences: Seq::empty(),
                tf: Seq::empty(),
                tf_idf: Seq::empty(),
            }),
    {
        let document = Document {
            id,
            path,
            words: collect_words_in_document(raw_text),
            word_occurrences: Vec::new(),
            tf: Vec::new(),
            tf_idf: Vec::new(),
        };
        assert(document.word_occurrences.deep_view() =~= Seq::empty());
        assert(document.tf.deep_view() =~= Seq::empty());
        assert(document.tf_idf.deep_view() =~= Seq::empty());
        document
    }

    /// The path under which the metadata store knows the file of the
    /// document: the handle, seen from one directory further down.
    pub fn database_path(&self) -> (path: String)
        ensures
            path@ == "../"@ + self@.path,
    {
        String::from_str("../").concat(self.path.as_str())
    }

    /// Counts the occurrences of each term of the document.
    pub fn count_word_occurrences(&mut self)
        ensures
            counts_words(final(self)@.word_occurrences, old(self)@.words),
            distinct(final(self)@.word_occurrences),
            final(self)@ == (DocumentView {
                word_occurrences: final(self)@.word_occurrences,
                ..old(self)@
            }),
    {
        self.word_occurrences = count_term_occurrences(&self.words);
    }

    /// A copy of the counts of the document.
    pub fn get_word_occurrences(&self) -> (counts: Vec<Entry<u64>>)
        ensures
            counts.deep_view() == self@.word_occurrences,
    {
        clone_entries(&self.word_occurrences)
    }

    /// Computes the frequency of each term of the document: the number of
    /// its occurrences over the number of all term occurrences. A document
    /// without terms gets no frequency.
    pub fn compute_tf(&mut self)
        ensures
            frequencies_words(final(self)@.tf, old(self)@.words),
            distinct(final(self)@.tf),
            final(self)@ == (DocumentView { tf: final(self)@.tf, ..old(self)@ }),
    {
        let term_occurrences = count_term_occurrences(&self.words);
        let word_amount = self.words.len() as u64;
        self.tf = compute_term_frequency(&term_occurrences, word_amount);
        proof {
            let counts = term_occurrences.deep_view();
            let tf = self.tf.deep_view();
            assert(keys(tf) =~= keys(counts));
            lemma_vocabulary_distinct(self.words.deep_view());
        }
    }

    /// Computes the weight of each term of the document that `idf` knows:
    /// its frequency with the inverse document frequency that `idf` gives it.
    pub fn compute_tf_idf(&mut self, idf: &Vec<Entry<Ratio>>)
        ensures
            final(self)@.tf_idf == weights(old(self)@.tf, idf.deep_view()),
            distinct(old(self)@.tf) ==> distinct(final(self)@.tf_idf),
            final(self)@ == (DocumentView { tf_idf: final(self)@.tf_idf, ..old(self)@ }),
    {
        let index = index_terms(idf);
        self.tf_idf = compute_weights(&self.tf, idf, &index);
        proof {
            lemma_weights_members(self.tf.deep_view(), idf.deep_view());
        }
    }
}

} // verus!
