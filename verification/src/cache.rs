//! The index cache: a whole corpus as one blob of bytes, and back.
//!
//! The corpus is first laid out as plain tuples, vectors, strings and
//! integers. That layout is what the serializer sees. Bytes are handed out
//! only after they have been read back as the layout, so that what is
//! written is what will be read.

use vstd::prelude::*;
use crate::document::{Document, DocumentView};
use crate::ratio::{Ratio, Weight};
use crate::searcher::{Searcher, SearcherView};
use crate::terms::Entry;

verus! {

/// A document laid out for the serializer: number, handle, terms, counts,
/// frequencies and weights, each fraction as numerator and denominator.
pub type WireDocument = (
    i64,
    String,
    Vec<String>,
    Vec<(String, u64)>,
    Vec<(String, u64, u64)>,
    Vec<(String, u64, u64, u64, u64)>,
);

/// A corpus laid out for the serializer: the documents and the inverse
/// document frequencies.
pub type Wire = (Vec<WireDocument>, Vec<(String, u64, u64)>);

/// The mathematical value of a `WireDocument`.
pub type WireDocumentView = (
    i64,
    Seq<char>,
    Seq<Seq<char>>,
    Seq<(Seq<char>, u64)>,
    Seq<(Seq<char>, u64, u64)>,
    Seq<(Seq<char>, u64, u64, u64, u64)>,
);

/// The mathematical value of a `Wire`.
pub type WireView = (Seq<WireDocumentView>, Seq<(Seq<char>, u64, u64)>);

/// Why a corpus could not be written to bytes or read from them.
#[derive(Clone, Copy, Debug, PartialEq, Eq, Structural)]
pub enum CacheError {
    /// The serializer gave no bytes, or bytes that it does not read back.
    Serialization,
    /// The bytes are not those of a corpus.
    Deserialization,
}

/// The error type of the serializer.
#[verifier::external_type_specification]
#[verifier::external_body]
pub struct ExPostcardError(postcard::Error);

/// The bytes that the serializer gives for a layout, if it gives any.
pub uninterp spec fn postcard_bytes(wire: WireView) -> Option<Seq<u8>>;

/// The layout that the serializer reads from bytes, if it reads one.
pub uninterp spec fn postcard_value(bytes: Seq<u8>) -> Option<WireView>;

/// `postcard::to_stdvec` on a layout. What it returns depends on the layout
/// alone: the bytes that `postcard_bytes` names, or an error where that
/// names none.
#[verifier::external_body]
fn wire_to_bytes(wire: &Wire) -> (r: Result<Vec<u8>, postcard::Error>)
    ensures
        match r {
            Ok(bytes) => postcard_bytes(wire.deep_view()) == Some(bytes@),
            Err(_) => postcard_bytes(wire.deep_view()) is None,
        },
{
    postcard::to_stdvec(wire)
}

/// `postcard::from_bytes` for a layout. What it returns depends on the bytes
/// alone: the layout that `postcard_value` names, or an error where that
/// names none.
#[verifier::external_body]
fn wire_from_bytes(bytes: &[u8]) -> (r: Result<Wire, postcard::Error>)
    ensures
        match r {
            Ok(wire) => postcard_value(bytes@) == Some(wire.deep_view()),
            Err(_) => postcard_value(bytes@) is None,
        },
{
    postcard::from_bytes(bytes)
}


/// A mapping to fractions, laid out.
pub open spec fn flat_ratios(entries: Seq<(Seq<char>, Ratio)>) -> Seq<(Seq<char>, u64, u64)> {
    entries.map_values(|e: (Seq<char>, Ratio)| (e.0, e.1.numerator, e.1.denominator))
}

/// The mapping to fractions that a layout stands for.
pub open spec fn raised_ratios(wire: Seq<(Seq<char>, u64, u64)>) -> Seq<(Seq<char>, Ratio)> {
    wire.map_values(
        |e: (Seq<char>, u64, u64)| (e.0, Ratio { numerator: e.1, denominator: e.2 }),
    )
}

/// A mapping to weights, laid out.
pub open spec fn flat_weights(entries: Seq<(Seq<char>, Weight)>) -> Seq<
    (Seq<char>, u64, u64, u64, u64),
> {
    entries.map_values(
        |e: (Seq<char>, Weight)|
            (
                e.0,
                e.1.frequency.numerator,
                e.1.frequency.denominator,
                e.1.rarity.numerator,
                e.1.rarity.denominator,
            ),
    )
}

/// The mapping to weights that a layout stands for.
pub open spec fn raised_weights(wire: Seq<(Seq<char>, u64, u64, u64, u64)>) -> Seq<
    (Seq<char>, Weight),
> {
    wire.map_values(
        |e: (Seq<char>, u64, u64, u64, u64)|
            (
                e.0,
                Weight {
                    frequency: Ratio { numerator: e.1, denominator: e.2 },
                    rarity: Ratio { numerator: e.3, denominator: e.4 },
                },
            ),
    )
}

/// A document, laid out.
pub open spec fn flat_document(d: DocumentView) -> WireDocumentView {
    (d.id, d.path, d.words, d.word_occurrences, flat_ratios(d.tf), flat_weights(d.tf_idf))
}

/// The document that a layout stands for.
pub open spec fn raised_document(wire: WireDocumentView) -> DocumentView {
    DocumentView {
        id: wire.0,
        path: wire.1,
        words: wire.2,
        word_occurrences: wire.3,
        tf: raised_ratios(wire.4),
        tf_idf: raised_weights(wire.5),
    }
}

/// A corpus, laid out.
pub open spec fn wire_of(corpus: SearcherView) -> WireView {
    (corpus.documents.map_values(|d: DocumentView| flat_document(d)), flat_ratios(corpus.idf))
}

/// The corpus that a layout stands for.
pub open spec fn corpus_of(wire: WireView) -> SearcherView {
    SearcherView {
        documents: wire.0.map_values(|w: WireDocumentView| raised_document(w)),
        idf: raised_ratios(wire.1),
    }
}

/// The blob that the cache holds for a corpus: the bytes that the
/// serializer gives for its layout, as long as the serializer reads the
/// layout back from them.
pub open spec fn exported(corpus: SearcherView) -> Option<Seq<u8>> {
    match postcard_bytes(wire_of(corpus)) {
        Some(bytes) => if postcard_value(bytes) == Some(wire_of(corpus)) {
            Some(bytes)
        } else {
            None
        },
        None => None,
    }
}

/// The corpus that a blob holds: the one that the layout stands for which
/// the serializer reads from the bytes, if it reads one.
pub open spec fn imported(blob: Seq<u8>) -> Option<SearcherView> {
    match postcard_value(blob) {
        Some(wire) => Some(corpus_of(wire)),
        None => None,
    }
}

/// A corpus is the one that its layout stands for: nothing is lost in
/// laying it out.
pub proof fn lemma_layout_round_trip(corpus: SearcherView)
    ensures
        corpus_of(wire_of(corpus)) == corpus,
{
    let back = corpus_of(wire_of(corpus));
    assert(back.idf =~= corpus.idf);
    assert forall|i: int| 0 <= i < corpus.documents.len() implies back.documents[i]
        == corpus.documents[i] by {
        let d = corpus.documents[i];
        let b = raised_document(flat_document(d));
        assert(b.tf =~= d.tf);
        assert(b.tf_idf =~= d.tf_idf);
    }
    assert(back.documents =~= corpus.documents);
}

/// A copy of a term sequence.
fn clone_words(words: &Vec<String>) -> (copy: Vec<String>)
    ensures
        copy.deep_view() == words.deep_view(),
{
    let mut copy: Vec<String> = Vec::new();
    let mut i: usize = 0;
    while i < words.len()
        invariant
            i <= words.len(),
            copy.deep_view() == words.deep_view().take(i as int),
        decreases words.len() - i,
    {
        let ghost before = copy.deep_view();
        copy.push(words[i].clone());
        proof {
            let all = words.deep_view();
            assert(copy.deep_view() =~= before.push(all[i as int]));
            assert(all.take(i + 1) =~= all.take(i as int).push(all[i as int]));
        }
        i += 1;
    }
    assert(words.deep_view().take(i as int) =~= words.deep_view());
    copy
}

fn counts_to_wire(entries: &Vec<Entry<u64>>) -> (wire: Vec<(String, u64)>)
    ensures
        wire.deep_view() == entries.deep_view(),
{
    let mut wire: Vec<(String, u64)> = Vec::new();
    let mut i: usize = 0;
    while i < entries.len()
        invariant
            i <= entries.len(),
            wire.deep_view() == entries.deep_view().take(i as int),
        decreases entries.len() - i,
    {
        let ghost before = wire.deep_view();
        wire.push((entries[i].term.clone(), entries[i].value));
        proof {
            let all = entries.deep_view();
            assert(wire.deep_view() =~= before.push(all[i as int]));
            assert(all.take(i + 1) =~= all.take(i as int).push(all[i as int]));
        }
        i += 1;
    }
    assert(entries.deep_view().take(i as int) =~= entries.deep_view());
    wire
}

fn counts_from_wire(wire: &Vec<(String, u64)>) -> (entries: Vec<Entry<u64>>)
    ensures
        entries.deep_view() == wire.deep_view(),
{
    let mut entries: Vec<Entry<u64>> = Vec::new();
    let mut i: usize = 0;
    while i < wire.len()
        invariant
            i <= wire.len(),
            entries.deep_view() == wire.deep_view().take(i as int),
        decreases wire.len() - i,
    {
        let ghost before = entries.deep_view();
        entries.push(Entry { term: wire[i].0.clone(), value: wire[i].1 });
        proof {
            let all = wire.deep_view();
            assert(entries.deep_view() =~= before.push(all[i as int]));
            assert(all.take(i + 1) =~= all.take(i as int).push(all[i as int]));
        }
        i += 1;
    }
    assert(wire.deep_view().take(i as int) =~= wire.deep_view());
    entries
}

fn ratios_to_wire(entries: &Vec<Entry<Ratio>>) -> (wire: Vec<(String, u64, u64)>)
    ensures
        wire.deep_view() == flat_ratios(entries.deep_view()),
{
    let mut wire: Vec<(String, u64, u64)> = Vec::new();
    let mut i: usize = 0;
    while i < entries.len()
        invariant
            i <= entries.len(),
            wire.deep_view() == flat_ratios(entries.deep_view().take(i as int)),
        decreases entries.len() - i,
    {
        let ghost before = wire.deep_view();
        wire.push(
            (entries[i].term.clone(), entries[i].value.numerator, entries[i].value.denominator),
        );
        proof {
            let all = entries.deep_view();
            let e = all[i as int];
            assert(wire.deep_view() =~= before.push((e.0, e.1.numerator, e.1.denominator)));
            assert(all.take(i + 1) =~= all.take(i as int).push(e));
            assert(flat_ratios(all.take(i + 1)) =~= flat_ratios(all.take(i as int)).push(
                (e.0, e.1.numerator, e.1.denominator),
            ));
        }
        i += 1;
    }
    assert(entries.deep_view().take(i as int) =~= entries.deep_view());
    wire
}

fn ratios_from_wire(wire: &Vec<(String, u64, u64)>) -> (entries: Vec<Entry<Ratio>>)
    ensures
        entries.deep_view() == raised_ratios(wire.deep_view()),
{
    let mut entries: Vec<Entry<Ratio>> = Vec::new();
    let mut i: usize = 0;
    while i < wire.len()
        invariant
            i <= wire.len(),
            entries.deep_view() == raised_ratios(wire.deep_view().take(i as int)),
        decreases wire.len() - i,
    {
        let ghost before = entries.deep_view();
        entries.push(
            Entry {
                term: wire[i].0.clone(),
                value: Ratio { numerator: wire[i].1, denominator: wire[i].2 },
            },
        );
        proof {
            let all = wire.deep_view();
            let e = all[i as int];
            let raised = (e.0, Ratio { numerator: e.1, denominator: e.2 });
            assert(entries.deep_view() =~= before.push(raised));
            assert(all.take(i + 1) =~= all.take(i as int).push(e));
            assert(raised_ratios(all.take(i + 1)) =~= raised_ratios(all.take(i as int)).push(
                raised,
            ));
        }
        i += 1;
    }
    assert(wire.deep_view().take(i as int) =~= wire.deep_view());
    entries
}

fn weights_to_wire(entries: &Vec<Entry<Weight>>) -> (wire: Vec<(String, u64, u64, u64, u64)>)
    ensures
        wire.deep_view() == flat_weights(entries.deep_view()),
{
    let mut wire: Vec<(String, u64, u64, u64, u64)> = Vec::new();
    let mut i: usize = 0;
    while i < entries.len()
        invariant
            i <= entries.len(),
            wire.deep_view() == flat_weights(entries.deep_view().take(i as int)),
        decreases entries.len() - i,
    {
        let ghost before = wire.deep_view();
        let weight = entries[i].value;
        wire.push(
            (
                entries[i].term.clone(),
                weight.frequency.numerator,
                weight.frequency.denominator,
                weight.rarity.numerator,
                weight.rarity.denominator,
            ),
        );
        proof {
            let all = entries.deep_view();
            let e = all[i as int];
            let flat = (
                e.0,
                e.1.frequency.numerator,
                e.1.frequency.denominator,
                e.1.rarity.numerator,
                e.1.rarity.denominator,
            );
            assert(wire.deep_view() =~= before.push(flat));
            assert(all.take(i + 1) =~= all.take(i as int).push(e));
            assert(flat_weights(all.take(i + 1)) =~= flat_weights(all.take(i as int)).push(flat));
        }
        i += 1;
    }
    assert(entries.deep_view().take(i as int) =~= entries.deep_view());
    wire
}

fn weights_from_wire(wire: &Vec<(String, u64, u64, u64, u64)>) -> (entries: Vec<Entry<Weight>>)
    ensures
        entries.deep_view() == raised_weights(wire.deep_view()),
{
    let mut entries: Vec<Entry<Weight>> = Vec::new();
    let mut i: usize = 0;
    while i < wire.len()
        invariant
            i <= wire.len(),
            entries.deep_view() == raised_weights(wire.deep_view().take(i as int)),
        decreases wire.len() - i,
    {
        let ghost before = entries.deep_view();
        entries.push(
            Entry {
                term: wire[i].0.clone(),
                value: Weight {
                    frequency: Ratio { numerator: wire[i].1, denominator: wire[i].2 },
                    rarity: Ratio { numerator: wire[i].3, denominator: wire[i].4 },
                },
            },
        );
        proof {
            let all = wire.deep_view();
            let e = all[i as int];
            let raised = (
                e.0,
                Weight {
                    frequency: Ratio { numerator: e.1, denominator: e.2 },
                    rarity: Ratio { numerator: e.3, denominator: e.4 },
                },
            );
            assert(entries.deep_view() =~= before.push(raised));
            assert(all.take(i + 1) =~= all.take(i as int).push(e));
            assert(raised_weights(all.take(i + 1)) =~= raised_weights(all.take(i as int)).push(
                raised,
            ));
        }
        i += 1;
    }
    assert(wire.deep_view().take(i as int) =~= wire.deep_view());
    entries
}

/// Lays a document out.
fn document_to_wire(document: &Document) -> (wire: WireDocument)
    ensures
        wire.deep_view() == flat_document(document@),
{
    (
        document.id,
        document.path.clone(),
        clone_words(&document.words),
        counts_to_wire(&document.word_occurrences),
        ratios_to_wire(&document.tf),
        weights_to_wire(&document.tf_idf),
    )
}

/// Makes the document that a layout stands for.
fn document_from_wire(wire: &WireDocument) -> (document: Document)
    ensures
        document@ == raised_document(wire.deep_view()),
{
    Document {
        id: wire.0,
        path: wire.1.clone(),
        words: clone_words(&wire.2),
        word_occurrences: counts_from_wire(&wire.3),
        tf: ratios_from_wire(&wire.4),
        tf_idf: weights_from_wire(&wire.5),
    }
}

/// The blob of a corpus holds that corpus, whatever the corpus is made of:
/// what is written to the cache is what is read from it.
pub proof fn lemma_cache_round_trip(corpus: SearcherView)
    ensures
        match exported(corpus) {
            Some(blob) => imported(blob) == Some(corpus),
            None => true,
        },
{
    lemma_layout_round_trip(corpus);
}

/// Lays a corpus out for the serializer.
pub fn corpus_to_wire(corpus: &Searcher) -> (wire: Wire)
    ensures
        wire.deep_view() == wire_of(corpus@),
{
    let mut documents: Vec<WireDocument> = Vec::new();
    let mut i: usize = 0;
    while i < corpus.documents.len()
        invariant
            i <= corpus.documents.len(),
            documents.deep_view() == corpus@.documents.take(i as int).map_values(
                |d: DocumentView| flat_document(d),
            ),
        decreases corpus.documents.len() - i,
    {
        let ghost before = documents.deep_view();
        documents.push(document_to_wire(&corpus.documents[i]));
        proof {
            let all = corpus@.documents;
            assert(documents.deep_view() =~= before.push(flat_document(all[i as int])));
            assert(all.take(i + 1) =~= all.take(i as int).push(all[i as int]));
            assert(all.take(i + 1).map_values(|d: DocumentView| flat_document(d)) =~= all.take(
                i as int,
            ).map_values(|d: DocumentView| flat_document(d)).push(flat_document(all[i as int])));
        }
        i += 1;
    }
    assert(corpus@.documents.take(i as int) =~= corpus@.documents);
    (documents, ratios_to_wire(&corpus.idf))
}

/// Makes the corpus that a layout stands for.
pub fn corpus_from_wire(wire: &Wire) -> (corpus: Searcher)
    ensures
        corpus@ == corpus_of(wire.deep_view()),
{
    let mut documents: Vec<Document> = Vec::new();
    let mut i: usize = 0;
    while i < wire.0.len()
        invariant
            i <= wire.0.len(),
            documents.deep_view() == wire.deep_view().0.take(i as int).map_values(
                |w: WireDocumentView| raised_document(w),
            ),
        decreases wire.0.len() - i,
    {
        let ghost before = documents.deep_view();
        documents.push(document_from_wire(&wire.0[i]));
        proof {
            let all = wire.deep_view().0;
            assert(documents.deep_view() =~= before.push(raised_document(all[i as int])));
            assert(all.take(i + 1) =~= all.take(i as int).push(all[i as int]));
            assert(all.take(i + 1).map_values(|w: WireDocumentView| raised_document(w))
                =~= all.take(i as int).map_values(|w: WireDocumentView| raised_document(w)).push(
                raised_document(all[i as int]),
            ));
        }
        i += 1;
    }
    assert(wire.deep_view().0.take(i as int) =~= wire.deep_view().0);
    Searcher { documents, idf: ratios_from_wire(&wire.1) }
}

/// Whether two term sequences are the same.
fn same_words(a: &Vec<String>, b: &Vec<String>) -> (same: bool)
    ensures
        same == (a.deep_view() == b.deep_view()),
{
    if a.len() != b.len() {
        assert(a.deep_view().len() != b.deep_view().len());
        return false;
    }
    let mut i: usize = 0;
    while i < a.len()
        invariant
            a.len() == b.len(),
            i <= a.len(),
            forall|k: int| 0 <= k < i ==> a.deep_view()[k] == b.deep_view()[k],
        decreases a.len() - i,
    {
        if !(a[i] == b[i]) {
            assert(a.deep_view()[i as int] != b.deep_view()[i as int]);
            return false;
        }
        i += 1;
    }
    assert(a.deep_view() =~= b.deep_view());
    true
}

/// Whether two layouts of counts are the same.
fn same_counts(a: &Vec<(String, u64)>, b: &Vec<(String, u64)>) -> (same: bool)
    ensures
        same == (a.deep_view() == b.deep_view()),
{
    if a.len() != b.len() {
        assert(a.deep_view().len() != b.deep_view().len());
        return false;
    }
    let mut i: usize = 0;
    while i < a.len()
        invariant
            a.len() == b.len(),
            i <= a.len(),
            forall|k: int| 0 <= k < i ==> a.deep_view()[k] == b.deep_view()[k],
        decreases a.len() - i,
    {
        if !(a[i].0 == b[i].0 && a[i].1 == b[i].1) {
            assert(a.deep_view()[i as int] != b.deep_view()[i as int]);
            return false;
        }
        i += 1;
    }
    assert(a.deep_view() =~= b.deep_view());
    true
}

/// Whether two layouts of fractions are the same.
fn same_ratios(a: &Vec<(String, u64, u64)>, b: &Vec<(String, u64, u64)>) -> (same: bool)
    ensures
        same == (a.deep_view() == b.deep_view()),
{
    if a.len() != b.len() {
        assert(a.deep_view().len() != b.deep_view().len());
        return false;
    }
    let mut i: usize = 0;
    while i < a.len()
        invariant
            a.len() == b.len(),
            i <= a.len(),
            forall|k: int| 0 <= k < i ==> a.deep_view()[k] == b.deep_view()[k],
        decreases a.len() - i,
    {
        if !(a[i].0 == b[i].0 && a[i].1 == b[i].1 && a[i].2 == b[i].2) {
            assert(a.deep_view()[i as int] != b.deep_view()[i as int]);
            return false;
        }
        i += 1;
    }
    assert(a.deep_view() =~= b.deep_view());
    true
}

/// Whether two layouts of weights are the same.
fn same_weights(
    a: &Vec<(String, u64, u64, u64, u64)>,
    b: &Vec<(String, u64, u64, u64, u64)>,
) -> (same: bool)
    ensures
        same == (a.deep_view() == b.deep_view()),
{
    if a.len() != b.len() {
        assert(a.deep_view().len() != b.deep_view().len());
        return false;
    }
    let mut i: usize = 0;
    while i < a.len()
        invariant
            a.len() == b.len(),
            i <= a.len(),
            forall|k: int| 0 <= k < i ==> a.deep_view()[k] == b.deep_view()[k],
        decreases a.len() - i,
    {
        if !(a[i].0 == b[i].0 && a[i].1 == b[i].1 && a[i].2 == b[i].2 && a[i].3 == b[i].3
            && a[i].4 == b[i].4) {
            assert(a.deep_view()[i as int] != b.deep_view()[i as int]);
            return false;
        }
        i += 1;
    }
    assert(a.deep_view() =~= b.deep_view());
    true
}

/// Whether two layouts of a document are the same.
fn same_document(a: &WireDocument, b: &WireDocument) -> (same: bool)
    ensures
        same == (a.deep_view() == b.deep_view()),
{
    a.0 == b.0 && a.1 == b.1 && same_words(&a.2, &b.2) && same_counts(&a.3, &b.3) && same_ratios(
        &a.4,
        &b.4,
    ) && same_weights(&a.5, &b.5)
}

/// Whether two layouts of a corpus are the same.
pub fn same_wire(a: &Wire, b: &Wire) -> (same: bool)
    ensures
        same == (a.deep_view() == b.deep_view()),
{
    if a.0.len() != b.0.len() {
        assert(a.deep_view().0.len() != b.deep_view().0.len());
        return false;
    }
    let mut i: usize = 0;
    while i < a.0.len()
        invariant
            a.0.len() == b.0.len(),
            i <= a.0.len(),
            forall|k: int| 0 <= k < i ==> a.deep_view().0[k] == b.deep_view().0[k],
        decreases a.0.len() - i,
    {
        if !same_document(&a.0[i], &b.0[i]) {
            assert(a.deep_view().0[i as int] != b.deep_view().0[i as int]);
            return false;
        }
        i += 1;
    }
    assert(a.deep_view().0 =~= b.deep_view().0);
    same_ratios(&a.1, &b.1)
}

/// What the cache holds for a corpus, given what the serializer made of the
/// layout and what it read back from that: the bytes, as long as they are
/// read back as the layout.
pub fn checked_blob(
    wire: &Wire,
    bytes: Option<Vec<u8>>,
    back: Option<Wire>,
) -> (blob: Result<Vec<u8>, CacheError>)
    ensures
        blob == match (bytes, back) {
            (Some(written), Some(read)) => if read.deep_view() == wire.deep_view() {
                Ok::<Vec<u8>, CacheError>(written)
            } else {
                Err::<Vec<u8>, CacheError>(CacheError::Serialization)
            },
            _ => Err::<Vec<u8>, CacheError>(CacheError::Serialization),
        },
{
    match (bytes, back) {
        (Some(written), Some(read)) => {
            if same_wire(&read, wire) {
                Ok(written)
            } else {
                Err(CacheError::Serialization)
            }
        },
        _ => Err(CacheError::Serialization),
    }
}

impl Searcher {
    /// Writes the whole corpus, documents and inverse document frequencies,
    /// to one blob of bytes. The bytes are read back before they are handed
    /// out: there is a blob exactly where the serializer gives bytes for
    /// the layout of the corpus and reads that layout from them.
    pub fn save_embeddings(&self) -> (blob: Result<Vec<u8>, CacheError>)
        ensures
            match blob {
                Ok(bytes) => exported(self@) == Some(bytes@),
                Err(e) => e == CacheError::Serialization && exported(self@) is None,
            },
    {
        let wire = corpus_to_wire(self);
        match wire_to_bytes(&wire) {
            Ok(bytes) => {
                let back = match wire_from_bytes(bytes.as_slice()) {
                    Ok(read) => Some(read),
                    Err(_) => None,
                };
                checked_blob(&wire, Some(bytes), back)
            },
            Err(_) => Err(CacheError::Serialization),
        }
    }

    /// Replaces the corpus by the one that `blob` holds. Where the bytes are
    /// not those of a corpus nothing is replaced.
    pub fn load_embeddings(&mut self, blob: &[u8]) -> (loaded: Result<(), CacheError>)
        ensures
            match imported(blob@) {
                Some(corpus) => loaded is Ok && final(self)@ == corpus,
                None => loaded == Err::<(), CacheError>(CacheError::Deserialization) && *final(self)
                    == *old(self),
            },
    {
        match wire_from_bytes(blob) {
            Ok(wire) => {
                let corpus = corpus_from_wire(&wire);
                self.documents = corpus.documents;
                self.idf = corpus.idf;
                Ok(())
            },
            Err(_) => Err(CacheError::Deserialization),
        }
    }
}

} // verus!
