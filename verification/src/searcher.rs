//! The corpus: the documents and the inverse document frequencies that
//! belong to them.

use vstd::prelude::*;
use vstd::hash_map::StringHashMap;
use vstd::string::StringExecFns;
use crate::document::{
    Document, DocumentView, compute_weights, frequencies_words, weights, lemma_frequency_is_share,
    lemma_weights_members,
};
use crate::ratio::{
    Ratio, Weight, is_logarithm, lemma_multiple_value, lemma_smaller_denominator,
    lemma_weight_not_negative,
};
use crate::similarity::{dot, shared, shared_weights, similarity_squared, lemma_similarity_bounds};
use crate::terms::{
    Entry, keys, vocabulary, distinct, indexes, index_terms, counts_words, lemma_index_push,
    lemma_lookup_member, lemma_push_contains, lemma_vocabulary_contains, lemma_vocabulary_distinct,
};
use crate::text::{tokens, collect_words_in_document};

verus! {

/// A corpus of documents with its inverse document frequencies.
#[derive(Debug, Clone, PartialEq, Eq)]
pub struct Searcher {
    /// The documents, in the order in which they were handed in.
    pub documents: Vec<Document>,
    /// Each term of the corpus with the number of documents over the number
    /// of documents that hold the term.
    pub idf: Vec<Entry<Ratio>>,
}

/// The mathematical value of a `Searcher`.
pub struct SearcherView {
    pub documents: Seq<DocumentView>,
    pub idf: Seq<(Seq<char>, Ratio)>,
}

impl View for Searcher {
    type V = SearcherView;

    open spec fn view(&self) -> SearcherView {
        SearcherView { documents: self.documents.deep_view(), idf: self.idf.deep_view() }
    }
}

/// For each document the terms that it counts, in its order.
pub open spec fn term_lists(documents: Seq<DocumentView>) -> Seq<Seq<Seq<char>>> {
    documents.map_values(|d: DocumentView| keys(d.word_occurrences))
}

/// The number of lists that hold `term`: with `term_lists`, the number of
/// documents in which the term occurs, however often.
pub open spec fn document_frequency(lists: Seq<Seq<Seq<char>>>, term: Seq<char>) -> nat
    decreases lists.len(),
{
    if lists.len() == 0 {
        0
    } else {
        document_frequency(lists.drop_last(), term) + if lists.last().contains(term) {
            1nat
        } else {
            0nat
        }
    }
}

/// Whether `idf` is the table of inverse document frequencies of
/// `documents`: it holds every term that a document counts, once, in the
/// order in which the documents bring them, and gives each the number of
/// documents over the number of documents that count the term. The inverse
/// document frequency itself is the decimal logarithm of that fraction.
pub open spec fn idf_documents(idf: Seq<(Seq<char>, Ratio)>, documents: Seq<DocumentView>) -> bool {
    idf_lists(idf, term_lists(documents))
}

/// Whether `idf` holds every term of `lists`, once, in the order in which
/// the lists bring them, and gives each the number of lists over the number
/// of lists that hold the term.
pub open spec fn idf_lists(idf: Seq<(Seq<char>, Ratio)>, lists: Seq<Seq<Seq<char>>>) -> bool {
    &&& keys(idf) == vocabulary(lists.flatten())
    &&& forall|i: int|
        0 <= i < idf.len() ==> {
            &&& (#[trigger] idf[i]).1.numerator == lists.len()
            &&& idf[i].1.denominator == document_frequency(lists, idf[i].0)
        }
}

/// Why the text of a source could not be had.
#[derive(Clone, Copy, Debug, PartialEq, Eq, Structural)]
pub enum ExtractionError {
    /// The handle names no file.
    NotAFile,
    /// The file is of another kind than the corpus is made of.
    WrongExtension,
    /// The file could not be read.
    Unreadable,
    /// The contents could not be parsed.
    Unparsable,
}

/// One source as the enumeration of the corpus brings it: its handle, and
/// its text or the reason why there is none.
#[derive(Debug)]
pub struct Source {
    pub path: String,
    pub text: Result<String, ExtractionError>,
}

/// The mathematical value of a `Source`: without a text where it failed.
pub struct SourceView {
    pub path: Seq<char>,
    pub text: Option<Seq<char>>,
}

impl View for Source {
    type V = SourceView;

    open spec fn view(&self) -> SourceView {
        SourceView {
            path: self.path@,
            text: match self.text {
                Ok(text) => Some(text@),
                Err(_) => None,
            },
        }
    }
}

impl DeepView for Source {
    type V = SourceView;

    open spec fn deep_view(&self) -> SourceView {
        self@
    }
}

/// The sources that have a text, in their order, each as its handle and
/// its text.
pub open spec fn readable(sources: Seq<SourceView>) -> Seq<(Seq<char>, Seq<char>)>
    decreases sources.len(),
{
    if sources.len() == 0 {
        Seq::empty()
    } else {
        let before = readable(sources.drop_last());
        match sources.last().text {
            Some(text) => before.push((sources.last().path, text)),
            None => before,
        }
    }
}

impl SearcherView {
    /// Whether the statistics of the corpus belong together: the counts and
    /// frequencies of each document to its terms, the inverse document
    /// frequencies to the documents, and the weights of each document to its
    /// frequencies and those inverse document frequencies.
    pub open spec fn consistent(self) -> bool {
        &&& forall|i: int|
            0 <= i < self.documents.len() ==> {
                let d = #[trigger] self.documents[i];
                &&& counts_words(d.word_occurrences, d.words)
                &&& frequencies_words(d.tf, d.words)
                &&& d.tf_idf == weights(d.tf, self.idf)
            }
        &&& idf_documents(self.idf, self.documents)
    }

    /// Whether the corpus is the one built from `texts`: one document for
    /// each, in their order, with the handle and the terms of the text, not
    /// yet numbered, and with statistics that belong together.
    pub open spec fn built_from(self, texts: Seq<(Seq<char>, Seq<char>)>) -> bool {
        &&& self.documents.len() == texts.len()
        &&& forall|i: int|
            0 <= i < self.documents.len() ==> {
                let d = #[trigger] self.documents[i];
                &&& d.id == -1
                &&& d.path == texts[i].0
                &&& d.words == tokens(texts[i].1)
            }
        &&& self.consistent()
    }
}

/// The number of sources that have no text.
pub open spec fn failures(sources: Seq<SourceView>) -> nat
    decreases sources.len(),
{
    if sources.len() == 0 {
        0
    } else {
        failures(sources.drop_last()) + if sources.last().text is None {
            1nat
        } else {
            0nat
        }
    }
}

/// What the scoring of one document against a query rests on.
#[derive(Debug, Clone, PartialEq, Eq)]
pub struct QueryReturn {
    /// The number of the document.
    pub embedding_id: i64,
    /// For each term of the query that the document holds, the weight in the
    /// query and the weight in the document.
    pub shared: Vec<(Weight, Weight)>,
}

/// The mathematical value of a `QueryReturn`.
pub struct QueryReturnView {
    pub embedding_id: i64,
    pub shared: Seq<(Weight, Weight)>,
}

impl View for QueryReturn {
    type V = QueryReturnView;

    open spec fn view(&self) -> QueryReturnView {
        QueryReturnView { embedding_id: self.embedding_id, shared: self.shared@ }
    }
}

impl DeepView for QueryReturn {
    type V = QueryReturnView;

    open spec fn deep_view(&self) -> QueryReturnView {
        self@
    }
}

/// A query in the shape of a document, and what its score against each
/// document of the corpus rests on.
#[derive(Debug, Clone, PartialEq, Eq)]
pub struct Search {
    pub query: Document,
    pub results: Vec<QueryReturn>,
}

/// Whether `query` is the document that stands for the text `text` in a
/// corpus with the inverse document frequencies `idf`: it has the terms of
/// the text, their frequencies among themselves, and a weight for each term
/// that `idf` knows.
pub open spec fn is_query(query: DocumentView, text: Seq<char>, idf: Seq<(Seq<char>, Ratio)>) -> bool {
    &&& query.id == 0
    &&& query.path == "query"@
    &&& query.words == tokens(text)
    &&& query.word_occurrences.len() == 0
    &&& frequencies_words(query.tf, query.words)
    &&& query.tf_idf == weights(query.tf, idf)
}

/// What two sequences hold together is what either holds.
proof fn lemma_concat_contains(a: Seq<Seq<char>>, b: Seq<Seq<char>>, term: Seq<char>)
    ensures
        (a + b).contains(term) <==> a.contains(term) || b.contains(term),
{
    let both = a + b;
    if a.contains(term) {
        let k = choose|k: int| 0 <= k < a.len() && a[k] == term;
        assert(both[k] == term);
    }
    if b.contains(term) {
        let k = choose|k: int| 0 <= k < b.len() && b[k] == term;
        assert(both[a.len() + k] == term);
    }
    if both.contains(term) {
        let k = choose|k: int| 0 <= k < both.len() && both[k] == term;
        if k < a.len() {
            assert(a[k] == term);
        } else {
            assert(b[k - a.len()] == term);
        }
    }
}

/// A term is in at most as many lists as there are, and in none exactly if
/// the lists put together do not hold it.
pub proof fn lemma_document_frequency_bounds(lists: Seq<Seq<Seq<char>>>, term: Seq<char>)
    ensures
        document_frequency(lists, term) <= lists.len(),
        document_frequency(lists, term) == 0 <==> !lists.flatten().contains(term),
    decreases lists.len(),
{
    if lists.len() > 0 {
        let front = lists.drop_last();
        lemma_document_frequency_bounds(front, term);
        front.lemma_flatten_push(lists.last());
        assert(front.push(lists.last()) =~= lists);
        lemma_concat_contains(front.flatten(), lists.last(), term);
    }
}

/// Every source either has a text or counts as a failure.
pub proof fn lemma_readable_or_failed(sources: Seq<SourceView>)
    ensures
        readable(sources).len() + failures(sources) == sources.len(),
    decreases sources.len(),
{
    if sources.len() > 0 {
        lemma_readable_or_failed(sources.drop_last());
    }
}

/// Every term of the table is held by at least one document and by at most
/// all of them: the fraction under the logarithm is at least one. It is one
/// exactly for a term that every document holds.
pub proof fn lemma_idf_fraction(idf: Seq<(Seq<char>, Ratio)>, documents: Seq<DocumentView>, i: int)
    requires
        idf_documents(idf, documents),
        0 <= i < idf.len(),
    ensures
        idf[i].1.is_multiple(),
        idf[i].1.is_one() <==> document_frequency(term_lists(documents), idf[i].0)
            == documents.len(),
{
    let lists = term_lists(documents);
    lemma_document_frequency_bounds(lists, idf[i].0);
    lemma_vocabulary_contains(lists.flatten(), idf[i].0);
    assert(keys(idf)[i] == idf[i].0);
}

/// No inverse document frequency is negative, and that of a term which
/// every document holds is zero.
pub proof fn lemma_idf_not_negative(
    idf: Seq<(Seq<char>, Ratio)>,
    documents: Seq<DocumentView>,
    i: int,
    log: spec_fn(real) -> real,
)
    requires
        idf_documents(idf, documents),
        0 <= i < idf.len(),
        is_logarithm(log),
    ensures
        log(idf[i].1.value()) >= 0real,
        document_frequency(term_lists(documents), idf[i].0) == documents.len() ==> log(
            idf[i].1.value(),
        ) == 0real,
{
    lemma_idf_fraction(idf, documents, i);
    lemma_multiple_value(idf[i].1);
    if idf[i].1.value() > 1real {
        assert(log(1real) < log(idf[i].1.value()));
    }
}

/// Of two terms of a corpus, the one that fewer documents hold has the
/// larger inverse document frequency.
pub proof fn lemma_idf_monotonic(
    idf: Seq<(Seq<char>, Ratio)>,
    documents: Seq<DocumentView>,
    a: int,
    b: int,
    log: spec_fn(real) -> real,
)
    requires
        idf_documents(idf, documents),
        0 <= a < idf.len(),
        0 <= b < idf.len(),
        document_frequency(term_lists(documents), idf[a].0) < document_frequency(
            term_lists(documents),
            idf[b].0,
        ),
        is_logarithm(log),
    ensures
        log(idf[a].1.value()) > log(idf[b].1.value()),
{
    lemma_idf_fraction(idf, documents, a);
    lemma_idf_fraction(idf, documents, b);
    lemma_smaller_denominator(idf[a].1, idf[b].1);
}

/// The weights that belong to frequencies of a text under the inverse
/// document frequencies of a corpus form a vector without repeated terms,
/// and none of them stands for a negative number.
proof fn lemma_vector_is_valid(
    vector: Seq<(Seq<char>, Weight)>,
    tf: Seq<(Seq<char>, Ratio)>,
    words: Seq<Seq<char>>,
    idf: Seq<(Seq<char>, Ratio)>,
    documents: Seq<DocumentView>,
    log: spec_fn(real) -> real,
)
    requires
        frequencies_words(tf, words),
        vector == weights(tf, idf),
        idf_documents(idf, documents),
        is_logarithm(log),
    ensures
        distinct(vector),
        forall|k: int| 0 <= k < vector.len() ==> (#[trigger] vector[k]).1.value(log) >= 0real,
{
    lemma_vocabulary_distinct(words);
    lemma_weights_members(tf, idf);
    assert forall|k: int| 0 <= k < vector.len() implies (#[trigger] vector[k]).1.value(log)
        >= 0real by {
        let w = vector[k];
        let i = choose|i: int| 0 <= i < tf.len() && #[trigger] tf[i] == (w.0, w.1.frequency);
        lemma_frequency_is_share(tf, words, i);
        lemma_lookup_member(idf, w.0);
        let j = choose|j: int| 0 <= j < idf.len() && #[trigger] idf[j] == (w.0, w.1.rarity);
        lemma_idf_fraction(idf, documents, j);
        lemma_weight_not_negative(w.1, log);
    }
}

/// In a corpus whose statistics belong together the vector of every
/// document holds no term twice, and none of its weights stands for a
/// negative number.
pub proof fn lemma_document_vector_is_valid(corpus: SearcherView, d: int, log: spec_fn(real) -> real)
    requires
        corpus.consistent(),
        0 <= d < corpus.documents.len(),
        is_logarithm(log),
    ensures
        distinct(corpus.documents[d].tf_idf),
        forall|k: int|
            0 <= k < corpus.documents[d].tf_idf.len() ==> (#[trigger] corpus.documents[d].tf_idf[k]).1.value(
                log,
            ) >= 0real,
{
    let document = corpus.documents[d];
    lemma_vector_is_valid(
        document.tf_idf,
        document.tf,
        document.words,
        corpus.idf,
        corpus.documents,
        log,
    );
}

/// The same holds of the vector of a query against such a corpus.
pub proof fn lemma_query_vector_is_valid(
    query: DocumentView,
    text: Seq<char>,
    corpus: SearcherView,
    log: spec_fn(real) -> real,
)
    requires
        corpus.consistent(),
        is_query(query, text, corpus.idf),
        is_logarithm(log),
    ensures
        distinct(query.tf_idf),
        forall|k: int|
            0 <= k < query.tf_idf.len() ==> (#[trigger] query.tf_idf[k]).1.value(log) >= 0real,
{
    lemma_vector_is_valid(query.tf_idf, query.tf, query.words, corpus.idf, corpus.documents, log);
}

/// The similarity of a query to a document of a corpus whose statistics
/// belong together lies between zero and one: its square does, and the dot
/// product is not negative.
pub proof fn lemma_search_similarity_bounds(
    query: DocumentView,
    text: Seq<char>,
    corpus: SearcherView,
    d: int,
    log: spec_fn(real) -> real,
)
    requires
        corpus.consistent(),
        is_query(query, text, corpus.idf),
        0 <= d < corpus.documents.len(),
        is_logarithm(log),
    ensures
        0real <= similarity_squared(
            query.tf_idf,
            corpus.documents[d].tf_idf,
            |w: Weight| w.value(log),
        ) <= 1real,
        dot(shared(query.tf_idf, corpus.documents[d].tf_idf), |w: Weight| w.value(log)) >= 0real,
{
    let value = |w: Weight| w.value(log);
    lemma_query_vector_is_valid(query, text, corpus, log);
    lemma_document_vector_is_valid(corpus, d, log);
    lemma_similarity_bounds(query.tf_idf, corpus.documents[d].tf_idf, value);
}

/// The vocabulary of a sequence with one more word.
proof fn lemma_vocabulary_push(words: Seq<Seq<char>>, word: Seq<char>)
    ensures
        vocabulary(words.push(word)) == if vocabulary(words).contains(word) {
            vocabulary(words)
        } else {
            vocabulary(words).push(word)
        },
{
    assert(words.push(word).drop_last() =~= words);
}

impl Searcher {
    /// A corpus without documents.
    pub fn new() -> (searcher: Searcher)
        ensures
            searcher@.documents.len() == 0,
            searcher@.idf.len() == 0,
            searcher@.consistent(),
    {
        let searcher = Searcher { documents: Vec::new(), idf: Vec::new() };
        assert(term_lists(searcher@.documents) =~= Seq::empty());
        assert(keys(searcher@.idf) =~= Seq::empty());
        searcher
    }

    /// Computes the table of inverse document frequencies of the documents
    /// from their counts.
    pub fn compute_idf(&self) -> (idf: Vec<Entry<Ratio>>)
        ensures
            idf_documents(idf.deep_view(), self@.documents),
            distinct(idf.deep_view()),
    {
        let amount = self.documents.len() as u64;
        let ghost lists = term_lists(self@.documents);
        let mut idf: Vec<Entry<Ratio>> = Vec::new();
        let mut seen: Vec<usize> = Vec::new();
        let mut index: StringHashMap<usize> = StringHashMap::new();
        let ghost mut processed: Seq<Seq<char>> = Seq::empty();
        let mut d: usize = 0;
        assert(lists.take(0) =~= Seq::<Seq<Seq<char>>>::empty());
        assert(keys(idf.deep_view()) =~= vocabulary(processed));
        while d < self.documents.len()
            invariant
                d <= self.documents.len(),
                amount == self.documents.len(),
                lists == term_lists(self@.documents),
                processed == lists.take(d as int).flatten(),
                keys(idf.deep_view()) == vocabulary(processed),
                seen.len() == idf.len(),
                forall|j: int|
                    0 <= j < idf.len() ==> {
                        &&& (#[trigger] idf.deep_view()[j]).1.numerator == amount
                        &&& idf.deep_view()[j].1.denominator == document_frequency(
                            lists.take(d as int),
                            idf.deep_view()[j].0,
                        )
                    },
                forall|j: int| 0 <= j < seen.len() ==> #[trigger] seen[j] <= d,
                indexes(index@, keys(idf.deep_view())),
            decreases self.documents.len() - d,
        {
            let document = &self.documents[d];
            let ghost list = lists[d as int];
            assert(list == keys(document@.word_occurrences));
            let mut k: usize = 0;
            assert(list.take(0) =~= Seq::<Seq<char>>::empty());
            assert(processed + list.take(0) =~= processed);
            while k < document.word_occurrences.len()
                invariant
                    d < self.documents.len(),
                    k <= document.word_occurrences.len(),
                    amount == self.documents.len(),
                    lists == term_lists(self@.documents),
                    document == self.documents[d as int],
                    list == lists[d as int],
                    list == keys(document@.word_occurrences),
                    processed == lists.take(d as int).flatten() + list.take(k as int),
                    keys(idf.deep_view()) == vocabulary(processed),
                    seen.len() == idf.len(),
                    forall|j: int|
                        0 <= j < idf.len() ==> {
                            &&& (#[trigger] idf.deep_view()[j]).1.numerator == amount
                            &&& idf.deep_view()[j].1.denominator == document_frequency(
                                lists.take(d as int),
                                idf.deep_view()[j].0,
                            ) + if list.take(k as int).contains(idf.deep_view()[j].0) {
                                1nat
                            } else {
                                0nat
                            }
                        },
                    forall|j: int|
                        0 <= j < seen.len() ==> {
                            &&& #[trigger] seen[j] <= d + 1
                            &&& seen[j] == d + 1 <==> list.take(k as int).contains(
                                idf.deep_view()[j].0,
                            )
                        },
                    indexes(index@, keys(idf.deep_view())),
                decreases document.word_occurrences.len() - k,
            {
                let ghost word = list[k as int];
                let ghost before = idf.deep_view();
                let ghost seen_before = seen@;
                let ghost earlier = list.take(k as int);
                let ghost later = list.take(k + 1);
                assert(document.word_occurrences[k as int].term@ == word);
                proof {
                    assert(later =~= earlier.push(word));
                    lemma_vocabulary_push(processed, word);
                    lemma_vocabulary_distinct(processed);
                    lemma_vocabulary_contains(processed, word);
                    assert forall|t: Seq<char>| later.contains(t) <==> earlier.contains(t) || word
                        == t by {
                        lemma_push_contains(earlier, word, t);
                    }
                }
                match index.get(document.word_occurrences[k].term.as_str()) {
                    Some(place) => {
                        let j: usize = *place;
                        assert(keys(before)[j as int] == word);
                        assert(before[j as int].0 == word);
                        if seen[j] != d + 1 {
                            proof {
                                lemma_document_frequency_bounds(lists.take(d as int), word);
                            }
                            idf[j].value.denominator = idf[j].value.denominator + 1;
                            seen[j] = d + 1;
                        }
                        let ghost after = idf.deep_view();
                        assert(keys(after) =~= keys(before));
                        assert forall|i: int| 0 <= i < after.len() implies {
                            &&& (#[trigger] after[i]).1.numerator == amount
                            &&& after[i].1.denominator == document_frequency(
                                lists.take(d as int),
                                after[i].0,
                            ) + if later.contains(after[i].0) {
                                1nat
                            } else {
                                0nat
                            }
                            &&& seen[i] <= d + 1
                            &&& seen[i] == d + 1 <==> later.contains(after[i].0)
                        } by {
                            assert(after[i].0 == keys(before)[i]);
                            assert(before[i].1.numerator == amount);
                            assert(seen_before[i] <= d + 1);
                            if i != j {
                                assert(keys(before)[i] != keys(before)[j as int]);
                            }
                        }
                    },
                    None => {
                        let ghost index_before = index@;
                        proof {
                            lemma_document_frequency_bounds(lists.take(d as int), word);
                            lemma_concat_contains(lists.take(d as int).flatten(), earlier, word);
                        }
                        index.insert(document.word_occurrences[k].term.clone(), idf.len());
                        idf.push(
                            Entry {
                                term: document.word_occurrences[k].term.clone(),
                                value: Ratio { numerator: amount, denominator: 1 },
                            },
                        );
                        seen.push(d + 1);
                        let ghost after = idf.deep_view();
                        assert(after =~= before.push(
                            (word, Ratio { numerator: amount, denominator: 1 }),
                        ));
                        assert(keys(after) =~= keys(before).push(word));
                        proof {
                            lemma_index_push(index_before, keys(before), word);
                        }
                        assert forall|i: int| 0 <= i < after.len() implies {
                            &&& (#[trigger] after[i]).1.numerator == amount
                            &&& after[i].1.denominator == document_frequency(
                                lists.take(d as int),
                                after[i].0,
                            ) + if later.contains(after[i].0) {
                                1nat
                            } else {
                                0nat
                            }
                            &&& seen[i] <= d + 1
                            &&& seen[i] == d + 1 <==> later.contains(after[i].0)
                        } by {
                            if i < before.len() {
                                assert(after[i] == before[i]);
                                assert(before[i].1.numerator == amount);
                                assert(seen_before[i] <= d + 1);
                                assert(keys(before)[i] == before[i].0);
                                assert(keys(before).contains(before[i].0));
                            }
                        }
                    },
                }
                proof {
                    assert(lists.take(d as int).flatten() + later =~= processed.push(word));
                    processed = processed.push(word);
                }
                k += 1;
            }
            proof {
                assert(list.take(k as int) =~= list);
                lists.take(d as int).lemma_flatten_push(list);
                assert(lists.take(d + 1) =~= lists.take(d as int).push(list));
                assert(lists.take(d + 1).drop_last() =~= lists.take(d as int));
            }
            d += 1;
        }
        assert(lists.take(d as int) =~= lists);
        proof {
            lemma_vocabulary_distinct(lists.flatten());
        }
        idf
    }

    /// Prepares the scoring of every document of the corpus against a query.
    /// The query becomes a document of its own: its frequencies are taken
    /// among its own terms, its weights with the inverse document frequencies
    /// of the corpus, so that a term which the corpus does not know has no
    /// weight. The corpus stays as it is. There is one return for each
    /// document, in the order of the corpus.
    pub fn search_documents(&self, query: String) -> (search: Search)
        ensures
            is_query(search.query@, query@, self@.idf),
            search.results.len() == self.documents.len(),
            forall|i: int|
                0 <= i < search.results.len() ==> {
                    &&& (#[trigger] search.results[i])@.embedding_id == self@.documents[i].id
                    &&& search.results[i]@.shared == shared(
                        search.query@.tf_idf,
                        self@.documents[i].tf_idf,
                    )
                },
    {
        let query_words = collect_words_in_document(&query);
        let mut query_doc = Document {
            id: 0,
            path: String::from_str("query"),
            words: query_words,
            word_occurrences: Vec::new(),
            tf: Vec::new(),
            tf_idf: Vec::new(),
        };
        query_doc.compute_tf();
        query_doc.compute_tf_idf(&self.idf);

        let mut results: Vec<QueryReturn> = Vec::new();
        let mut i: usize = 0;
        while i < self.documents.len()
            invariant
                i <= self.documents.len(),
                results.len() == i,
                forall|j: int|
                    0 <= j < i ==> {
                        &&& (#[trigger] results[j])@.embedding_id == self@.documents[j].id
                        &&& results[j]@.shared == shared(query_doc@.tf_idf, self@.documents[j].tf_idf)
                    },
            decreases self.documents.len() - i,
        {
            let pairs = shared_weights(&query_doc.tf_idf, &self.documents[i].tf_idf);
            results.push(QueryReturn { embedding_id: self.documents[i].id, shared: pairs });
            i += 1;
        }
        Search { query: query_doc, results }
    }

    /// Builds the corpus anew from `sources`, in three passes: the terms of
    /// every source that has a text; then the counts and frequencies of every
    /// document; then the inverse document frequencies of the whole, and
    /// with them the weights of every document. A source without a text is
    /// passed over. What the corpus held before is gone.
    pub fn load_documents(&mut self, sources: &Vec<Source>)
        ensures
            final(self)@.built_from(readable(sources.deep_view())),
    {
        let ghost texts = readable(sources.deep_view());
        let mut collected: Vec<Document> = Vec::new();
        let mut s: usize = 0;
        assert(sources.deep_view().take(0) =~= Seq::<SourceView>::empty());
        while s < sources.len()
            invariant
                s <= sources.len(),
                collected.len() == readable(sources.deep_view().take(s as int)).len(),
                forall|i: int|
                    0 <= i < collected.len() ==> {
                        let d = #[trigger] collected[i]@;
                        &&& d.id == -1
                        &&& d.path == readable(sources.deep_view().take(s as int))[i].0
                        &&& d.words == tokens(readable(sources.deep_view().take(s as int))[i].1)
                    },
            decreases sources.len() - s,
        {
            proof {
                let all = sources.deep_view();
                assert(all.take(s + 1).drop_last() =~= all.take(s as int));
                assert(all.take(s + 1).last() == sources[s as int]@);
            }
            match &sources[s].text {
                Ok(text) => {
                    let document = Document::build_from_text(-1, sources[s].path.clone(), text);
                    collected.push(document);
                },
                Err(_) => {},
            }
            s += 1;
        }
        assert(sources.deep_view().take(s as int) =~= sources.deep_view());
        self.documents = collected;

        let mut i: usize = 0;
        while i < self.documents.len()
            invariant
                i <= self.documents.len(),
                self.documents.len() == texts.len(),
                forall|j: int|
                    0 <= j < self.documents.len() ==> {
                        let d = #[trigger] self.documents[j]@;
                        &&& d.id == -1
                        &&& d.path == texts[j].0
                        &&& d.words == tokens(texts[j].1)
                    },
                forall|j: int|
                    0 <= j < i ==> {
                        let d = #[trigger] self.documents[j]@;
                        &&& counts_words(d.word_occurrences, d.words)
                        &&& frequencies_words(d.tf, d.words)
                    },
            decreases self.documents.len() - i,
        {
            self.documents[i].count_word_occurrences();
            self.documents[i].compute_tf();
            i += 1;
        }

        self.idf = self.compute_idf();
        let index = index_terms(&self.idf);
        let ghost lists = term_lists(self@.documents);

        let mut i: usize = 0;
        while i < self.documents.len()
            invariant
                i <= self.documents.len(),
                self.documents.len() == texts.len(),
                indexes(index@, keys(self.idf.deep_view())),
                idf_lists(self.idf.deep_view(), lists),
                term_lists(self@.documents) =~= lists,
                forall|j: int|
                    0 <= j < self.documents.len() ==> {
                        let d = #[trigger] self.documents[j]@;
                        &&& d.id == -1
                        &&& d.path == texts[j].0
                        &&& d.words == tokens(texts[j].1)
                        &&& counts_words(d.word_occurrences, d.words)
                        &&& frequencies_words(d.tf, d.words)
                    },
                forall|j: int|
                    0 <= j < i ==> (#[trigger] self.documents[j]@).tf_idf == weights(
                        self.documents[j]@.tf,
                        self.idf.deep_view(),
                    ),
            decreases self.documents.len() - i,
        {
            let ghost before = self.documents@;
            let tf_idf = compute_weights(&self.documents[i].tf, &self.idf, &index);
            self.documents[i].tf_idf = tf_idf;
            proof {
                assert forall|j: int| 0 <= j < self.documents.len() implies {
                    let d = #[trigger] self.documents[j]@;
                    &&& d.id == before[j]@.id
                    &&& d.path == before[j]@.path
                    &&& d.words == before[j]@.words
                    &&& d.word_occurrences == before[j]@.word_occurrences
                    &&& d.tf == before[j]@.tf
                    &&& j != i ==> d.tf_idf == before[j]@.tf_idf
                } by {
                    if j != i {
                        assert(self.documents[j] == before[j]);
                    }
                }
            }
            i += 1;
        }
    }
}

} // verus!
