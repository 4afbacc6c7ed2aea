//! Term statistics of one term sequence: how often each term occurs.
//!
//! A mapping from terms to values is a vector of entries in which no term
//! occurs twice. Its order is the order in which the terms were first met.

use vstd::prelude::*;
use vstd::hash_map::StringHashMap;

verus! {

/// One entry of a mapping from terms to values.
#[derive(Debug, Clone, PartialEq, Eq)]
pub struct Entry<T> {
    pub term: String,
    pub value: T,
}

impl<T> View for Entry<T> {
    type V = (Seq<char>, T);

    open spec fn view(&self) -> (Seq<char>, T) {
        (self.term@, self.value)
    }
}

impl<T> DeepView for Entry<T> {
    type V = (Seq<char>, T);

    open spec fn deep_view(&self) -> (Seq<char>, T) {
        self@
    }
}

/// The terms of a mapping, in its order.
pub open spec fn keys<T>(entries: Seq<(Seq<char>, T)>) -> Seq<Seq<char>> {
    entries.map_values(|e: (Seq<char>, T)| e.0)
}

/// Whether no term stands twice among the entries: whether they are a
/// mapping.
pub open spec fn distinct<T>(entries: Seq<(Seq<char>, T)>) -> bool {
    keys(entries).no_duplicates()
}

/// The value that a mapping gives to `term`: that of the first entry with
/// this term, if there is one.
pub open spec fn lookup<T>(entries: Seq<(Seq<char>, T)>, term: Seq<char>) -> Option<T>
    decreases entries.len(),
{
    if entries.len() == 0 {
        None
    } else if entries[0].0 == term {
        Some(entries[0].1)
    } else {
        lookup(entries.drop_first(), term)
    }
}

/// How often `term` occurs in `words`.
pub open spec fn occurrences(words: Seq<Seq<char>>, term: Seq<char>) -> nat
    decreases words.len(),
{
    if words.len() == 0 {
        0
    } else {
        occurrences(words.drop_last(), term) + if words.last() == term {
            1nat
        } else {
            0nat
        }
    }
}

/// The distinct terms of `words`, each at the place of its first occurrence.
pub open spec fn vocabulary(words: Seq<Seq<char>>) -> Seq<Seq<char>>
    decreases words.len(),
{
    if words.len() == 0 {
        Seq::empty()
    } else {
        let before = vocabulary(words.drop_last());
        if before.contains(words.last()) {
            before
        } else {
            before.push(words.last())
        }
    }
}

/// The sum of the occurrences in `words` of each term of `terms`.
pub open spec fn occurrences_sum(terms: Seq<Seq<char>>, words: Seq<Seq<char>>) -> nat
    decreases terms.len(),
{
    if terms.len() == 0 {
        0
    } else {
        occurrences_sum(terms.drop_last(), words) + occurrences(words, terms.last())
    }
}

/// The sum of the values of a mapping to counts.
pub open spec fn total(counts: Seq<(Seq<char>, u64)>) -> nat
    decreases counts.len(),
{
    if counts.len() == 0 {
        0
    } else {
        total(counts.drop_last()) + counts.last().1 as nat
    }
}

/// Whether `counts` maps each distinct term of `words`, in the order of first
/// occurrence, to the number of its occurrences.
pub open spec fn counts_words(counts: Seq<(Seq<char>, u64)>, words: Seq<Seq<char>>) -> bool {
    &&& keys(counts) == vocabulary(words)
    &&& forall|i: int|
        0 <= i < counts.len() ==> (#[trigger] counts[i]).1 == occurrences(words, counts[i].0)
}

/// Whether `index` gives for each term of `terms` the place where it first
/// stands, and knows no other term.
pub open spec fn indexes(index: Map<Seq<char>, usize>, terms: Seq<Seq<char>>) -> bool {
    &&& forall|t: Seq<char>| #[trigger] index.contains_key(t) <==> terms.contains(t)
    &&& forall|t: Seq<char>| #[trigger]
        index.contains_key(t) ==> index[t] < terms.len() && terms[index[t] as int] == t
    &&& forall|t: Seq<char>, k: int|
        #[trigger] index.contains_key(t) && 0 <= k < index[t] ==> #[trigger] terms[k] != t
}

/// A term occurs in the vocabulary exactly if it occurs in the words.
pub proof fn lemma_vocabulary_contains(words: Seq<Seq<char>>, term: Seq<char>)
    ensures
        vocabulary(words).contains(term) <==> words.contains(term),
    decreases words.len(),
{
    if words.len() > 0 {
        let front = words.drop_last();
        let last = words.last();
        let before = vocabulary(front);
        let all = vocabulary(words);
        lemma_vocabulary_contains(front, term);
        if words.contains(term) {
            let k = choose|k: int| 0 <= k < words.len() && words[k] == term;
            if k < front.len() {
                assert(front[k] == term);
            }
            if before.contains(term) {
                let j = choose|j: int| 0 <= j < before.len() && before[j] == term;
                assert(all[j] == term);
            } else {
                assert(last == term);
                assert(all[before.len() as int] == term);
            }
        }
        if all.contains(term) {
            let k = choose|k: int| 0 <= k < all.len() && all[k] == term;
            if k < before.len() {
                assert(before[k] == term);
                let j = choose|j: int| 0 <= j < front.len() && front[j] == term;
                assert(words[j] == term);
            } else {
                assert(words[words.len() - 1] == term);
            }
        }
    }
}

/// No term stands twice in a vocabulary.
pub proof fn lemma_vocabulary_distinct(words: Seq<Seq<char>>)
    ensures
        vocabulary(words).no_duplicates(),
    decreases words.len(),
{
    if words.len() > 0 {
        lemma_vocabulary_distinct(words.drop_last());
    }
}

/// A term occurs at most as often as there are words, and not at all exactly
/// if it is none of them.
pub proof fn lemma_occurrences_bounds(words: Seq<Seq<char>>, term: Seq<char>)
    ensures
        occurrences(words, term) <= words.len(),
        occurrences(words, term) == 0 <==> !words.contains(term),
    decreases words.len(),
{
    if words.len() > 0 {
        let front = words.drop_last();
        lemma_occurrences_bounds(front, term);
        if words.contains(term) {
            let k = choose|k: int| 0 <= k < words.len() && words[k] == term;
            if k < front.len() {
                assert(front[k] == term);
            }
        }
        if front.contains(term) {
            let k = choose|k: int| 0 <= k < front.len() && front[k] == term;
            assert(words[k] == term);
        }
        if words.last() == term {
            assert(words[words.len() - 1] == term);
        }
    }
}

/// One more word adds one to the sum over distinct terms exactly if it is
/// one of them.
proof fn lemma_occurrences_sum_step(terms: Seq<Seq<char>>, words: Seq<Seq<char>>)
    requires
        terms.no_duplicates(),
        words.len() > 0,
    ensures
        occurrences_sum(terms, words) == occurrences_sum(terms, words.drop_last()) + if terms.contains(
            words.last(),
        ) {
            1nat
        } else {
            0nat
        },
    decreases terms.len(),
{
    if terms.len() > 0 {
        let front = terms.drop_last();
        let word = words.last();
        lemma_occurrences_sum_step(front, words);
        if front.contains(word) {
            let k = choose|k: int| 0 <= k < front.len() && front[k] == word;
            assert(terms[k] == word);
            assert(terms.last() != word);
        }
        if terms.last() == word {
            assert(terms[terms.len() - 1] == word);
        } else if terms.contains(word) {
            let k = choose|k: int| 0 <= k < terms.len() && terms[k] == word;
            assert(front[k] == word);
        }
    }
}

/// The occurrences of the distinct terms of `words` add up to its length.
proof fn lemma_vocabulary_sum(words: Seq<Seq<char>>)
    ensures
        occurrences_sum(vocabulary(words), words) == words.len(),
    decreases words.len(),
{
    if words.len() > 0 {
        let front = words.drop_last();
        let before = vocabulary(front);
        lemma_vocabulary_sum(front);
        lemma_vocabulary_distinct(front);
        lemma_occurrences_sum_step(before, words);
        if !before.contains(words.last()) {
            lemma_vocabulary_contains(front, words.last());
            lemma_occurrences_bounds(front, words.last());
            assert(before.push(words.last()).drop_last() =~= before);
        }
    }
}

/// The counts of a term sequence add up to its length: every occurrence is
/// counted once.
pub proof fn lemma_counts_total(counts: Seq<(Seq<char>, u64)>, words: Seq<Seq<char>>)
    requires
        counts_words(counts, words),
    ensures
        total(counts) == words.len(),
{
    lemma_vocabulary_sum(words);
    lemma_total_is_sum(counts, words, counts.len() as int);
    assert(counts.take(counts.len() as int) =~= counts);
    assert(keys(counts).take(counts.len() as int) =~= keys(counts));
}

/// The first `n` counts add up to the occurrences of the first `n` terms.
proof fn lemma_total_is_sum(counts: Seq<(Seq<char>, u64)>, words: Seq<Seq<char>>, n: int)
    requires
        0 <= n <= counts.len(),
        forall|i: int|
            0 <= i < counts.len() ==> (#[trigger] counts[i]).1 == occurrences(words, counts[i].0),
    ensures
        total(counts.take(n)) == occurrences_sum(keys(counts).take(n), words),
    decreases n,
{
    if n > 0 {
        lemma_total_is_sum(counts, words, n - 1);
        assert(counts.take(n).drop_last() =~= counts.take(n - 1));
        assert(keys(counts).take(n).drop_last() =~= keys(counts).take(n - 1));
        assert(counts.take(n).last() == counts[n - 1]);
        assert(keys(counts).take(n).last() == counts[n - 1].0);
    }
}

/// A mapping gives a term the value that stands where the term first stands.
pub proof fn lemma_lookup_first<T>(entries: Seq<(Seq<char>, T)>, term: Seq<char>, place: int)
    requires
        0 <= place < entries.len(),
        entries[place].0 == term,
        forall|k: int| 0 <= k < place ==> (#[trigger] entries[k]).0 != term,
    ensures
        lookup(entries, term) == Some(entries[place].1),
    decreases place,
{
    if place > 0 {
        let rest = entries.drop_first();
        assert(entries[0].0 != term);
        assert forall|k: int| 0 <= k < place - 1 implies (#[trigger] rest[k]).0 != term by {
            assert(rest[k] == entries[k + 1]);
        }
        lemma_lookup_first(rest, term, place - 1);
    }
}

/// A mapping gives no value to a term that is none of its terms.
pub proof fn lemma_lookup_none<T>(entries: Seq<(Seq<char>, T)>, term: Seq<char>)
    requires
        !keys(entries).contains(term),
    ensures
        lookup(entries, term) is None,
    decreases entries.len(),
{
    if entries.len() > 0 {
        let rest = entries.drop_first();
        assert(keys(entries)[0] == entries[0].0);
        assert forall|k: int| 0 <= k < rest.len() implies keys(rest)[k] != term by {
            assert(keys(rest)[k] == keys(entries)[k + 1]);
        }
        lemma_lookup_none(rest, term);
    }
}

/// The value that a mapping gives a term stands in the mapping beside the
/// term.
pub proof fn lemma_lookup_member<T>(entries: Seq<(Seq<char>, T)>, term: Seq<char>)
    ensures
        match lookup(entries, term) {
            Some(value) => exists|i: int|
                0 <= i < entries.len() && #[trigger] entries[i] == (term, value),
            None => !keys(entries).contains(term),
        },
    decreases entries.len(),
{
    if entries.len() > 0 {
        if entries[0].0 == term {
            assert(entries[0] == (term, entries[0].1));
        } else {
            let rest = entries.drop_first();
            lemma_lookup_member(rest, term);
            match lookup(rest, term) {
                Some(value) => {
                    let i = choose|i: int| 0 <= i < rest.len() && #[trigger] rest[i] == (term, value);
                    assert(entries[i + 1] == (term, value));
                },
                None => {
                    if keys(entries).contains(term) {
                        let k = choose|k: int| 0 <= k < entries.len() && keys(entries)[k] == term;
                        assert(keys(rest)[k - 1] == term);
                    }
                },
            }
        }
    }
}

/// What a mapping with one more entry gives a term: what it gave before,
/// or else the value of the new entry if that has the term.
pub proof fn lemma_lookup_push<T>(entries: Seq<(Seq<char>, T)>, last: (Seq<char>, T), term: Seq<char>)
    ensures
        lookup(entries.push(last), term) == match lookup(entries, term) {
            Some(value) => Some(value),
            None => if last.0 == term {
                Some(last.1)
            } else {
                None
            },
        },
    decreases entries.len(),
{
    let longer = entries.push(last);
    if entries.len() == 0 {
        assert(longer.drop_first() =~= entries);
    } else {
        assert(longer.drop_first() =~= entries.drop_first().push(last));
        if entries[0].0 != term {
            lemma_lookup_push(entries.drop_first(), last, term);
        }
    }
}

/// A sequence with one more element holds what it held before, and that
/// element.
pub proof fn lemma_push_contains(s: Seq<Seq<char>>, last: Seq<char>, term: Seq<char>)
    ensures
        s.push(last).contains(term) <==> s.contains(term) || last == term,
{
    let longer = s.push(last);
    if s.contains(term) {
        let k = choose|k: int| 0 <= k < s.len() && s[k] == term;
        assert(longer[k] == term);
    }
    if last == term {
        assert(longer[s.len() as int] == term);
    }
    if longer.contains(term) {
        let k = choose|k: int| 0 <= k < longer.len() && longer[k] == term;
        if k < s.len() {
            assert(s[k] == term);
        }
    }
}

/// What an index says of a term is what the mapping gives it.
pub proof fn lemma_lookup_indexed<T>(
    index: Map<Seq<char>, usize>,
    entries: Seq<(Seq<char>, T)>,
    term: Seq<char>,
)
    requires
        indexes(index, keys(entries)),
    ensures
        lookup(entries, term) == if index.contains_key(term) {
            Some(entries[index[term] as int].1)
        } else {
            None
        },
{
    if index.contains_key(term) {
        let place = index[term] as int;
        assert(keys(entries)[place] == term);
        assert forall|k: int| 0 <= k < place implies (#[trigger] entries[k]).0 != term by {
            assert(keys(entries)[k] != term);
        }
        lemma_lookup_first(entries, term, place);
    } else {
        lemma_lookup_none(entries, term);
    }
}

/// An index stays one when a new term is put behind the others and entered
/// with its place.
pub proof fn lemma_index_push(index: Map<Seq<char>, usize>, terms: Seq<Seq<char>>, word: Seq<char>)
    requires
        indexes(index, terms),
        !terms.contains(word),
        terms.len() <= usize::MAX,
    ensures
        indexes(index.insert(word, terms.len() as usize), terms.push(word)),
{
    let longer = terms.push(word);
    let grown = index.insert(word, terms.len() as usize);
    assert forall|t: Seq<char>| #[trigger] grown.contains_key(t) implies longer.contains(t)
        && grown[t] < longer.len() && longer[grown[t] as int] == t by {
        if t == word {
            assert(longer[terms.len() as int] == word);
        } else {
            assert(index.contains_key(t));
            assert(longer[index[t] as int] == t);
        }
    }
    assert forall|t: Seq<char>| longer.contains(t) implies #[trigger] grown.contains_key(t) by {
        let k = choose|k: int| 0 <= k < longer.len() && longer[k] == t;
        if k < terms.len() {
            assert(terms[k] == t);
            assert(index.contains_key(t));
        }
    }
    assert forall|t: Seq<char>, k: int| #[trigger]
        grown.contains_key(t) && 0 <= k < grown[t] implies #[trigger] longer[k] != t by {
        assert(longer[k] == terms[k]);
        if t != word {
            assert(index.contains_key(t));
        }
    }
}

/// An index stays one when a term that it knows is put behind the others.
pub proof fn lemma_index_skip(index: Map<Seq<char>, usize>, terms: Seq<Seq<char>>, word: Seq<char>)
    requires
        indexes(index, terms),
        terms.contains(word),
    ensures
        indexes(index, terms.push(word)),
{
    let longer = terms.push(word);
    assert forall|t: Seq<char>| #[trigger] index.contains_key(t) implies longer.contains(t)
        && index[t] < longer.len() && longer[index[t] as int] == t by {
        assert(longer[index[t] as int] == terms[index[t] as int]);
    }
    assert forall|t: Seq<char>| longer.contains(t) implies #[trigger] index.contains_key(t) by {
        let k = choose|k: int| 0 <= k < longer.len() && longer[k] == t;
        if k < terms.len() {
            assert(terms[k] == t);
        }
    }
    assert forall|t: Seq<char>, k: int| #[trigger]
        index.contains_key(t) && 0 <= k < index[t] implies #[trigger] longer[k] != t by {
        assert(longer[k] == terms[k]);
    }
}

/// Counting one more word: the vocabulary either stays or grows by that
/// word, and only the count of that word changes.
proof fn lemma_count_step(words: Seq<Seq<char>>, n: int)
    requires
        0 <= n < words.len(),
    ensures
        vocabulary(words.take(n + 1)) == if vocabulary(words.take(n)).contains(words[n]) {
            vocabulary(words.take(n))
        } else {
            vocabulary(words.take(n)).push(words[n])
        },
        forall|t: Seq<char>| #[trigger]
            occurrences(words.take(n + 1), t) == occurrences(words.take(n), t) + if words[n] == t {
                1nat
            } else {
                0nat
            },
{
    assert(words.take(n + 1).drop_last() =~= words.take(n));
    assert(words.take(n + 1).last() == words[n]);
}

/// Builds the index of a mapping: for each of its terms the place where it
/// first stands.
pub fn index_terms<T>(entries: &Vec<Entry<T>>) -> (index: StringHashMap<usize>)
    ensures
        indexes(index@, keys(entries.deep_view())),
{
    let ghost all = keys(entries.deep_view());
    let mut index: StringHashMap<usize> = StringHashMap::new();
    let mut i: usize = 0;
    while i < entries.len()
        invariant
            i <= entries.len(),
            all == keys(entries.deep_view()),
            indexes(index@, all.take(i as int)),
        decreases entries.len() - i,
    {
        assert(all.take(i + 1) =~= all.take(i as int).push(all[i as int]));
        assert(entries[i as int].term@ == all[i as int]);
        if index.contains_key(entries[i].term.as_str()) {
            proof {
                lemma_index_skip(index@, all.take(i as int), all[i as int]);
            }
        } else {
            proof {
                lemma_index_push(index@, all.take(i as int), all[i as int]);
            }
            index.insert(entries[i].term.clone(), i);
        }
        i += 1;
    }
    assert(all.take(i as int) =~= all);
    index
}

/// Maps each distinct term of `words` to the number of its occurrences. The
/// terms stand in the order in which they first occur.
pub fn count_term_occurrences(words: &Vec<String>) -> (counts: Vec<Entry<u64>>)
    ensures
        counts_words(counts.deep_view(), words.deep_view()),
        distinct(counts.deep_view()),
        total(counts.deep_view()) == words.len(),
{
    let ghost all = words.deep_view();
    let mut counts: Vec<Entry<u64>> = Vec::new();
    let mut index: StringHashMap<usize> = StringHashMap::new();
    let mut i: usize = 0;
    assert(keys(counts.deep_view()) =~= vocabulary(all.take(0)));
    while i < words.len()
        invariant
            i <= words.len(),
            all == words.deep_view(),
            counts_words(counts.deep_view(), all.take(i as int)),
            indexes(index@, keys(counts.deep_view())),
        decreases words.len() - i,
    {
        let ghost seen = all.take(i as int);
        let ghost word = all[i as int];
        let ghost before = counts.deep_view();
        let ghost longer = all.take(i + 1);
        proof {
            lemma_count_step(all, i as int);
            lemma_vocabulary_distinct(seen);
            lemma_vocabulary_contains(seen, word);
            lemma_occurrences_bounds(seen, word);
        }
        assert(words[i as int]@ == word);
        match index.get(words[i].as_str()) {
            Some(place) => {
                let j: usize = *place;
                assert(keys(before)[j as int] == word);
                assert(before[j as int].0 == word);
                counts[j].value = counts[j].value + 1;
                let ghost after = counts.deep_view();
                assert(keys(after) =~= keys(before));
                assert forall|k: int| 0 <= k < after.len() implies (#[trigger] after[k]).1
                    == occurrences(longer, after[k].0) by {
                    assert(after[k].0 == keys(before)[k]);
                    assert(before[k].1 == occurrences(seen, before[k].0));
                    if k != j {
                        assert(keys(before)[k] != keys(before)[j as int]);
                    }
                }
            },
            None => {
                let ghost index_before = index@;
                index.insert(words[i].clone(), counts.len());
                counts.push(Entry { term: words[i].clone(), value: 1 });
                let ghost after = counts.deep_view();
                assert(after =~= before.push((word, 1u64)));
                assert(keys(after) =~= keys(before).push(word));
                assert forall|k: int| 0 <= k < after.len() implies (#[trigger] after[k]).1
                    == occurrences(longer, after[k].0) by {
                    if k < before.len() {
                        assert(after[k] == before[k]);
                        assert(before[k].1 == occurrences(seen, before[k].0));
                        assert(keys(before)[k] == before[k].0);
                        assert(keys(before).contains(before[k].0));
                    }
                }
                proof {
                    lemma_index_push(index_before, keys(before), word);
                }
            },
        }
        i += 1;
    }
    assert(all.take(i as int) =~= all);
    proof {
        lemma_counts_total(counts.deep_view(), all);
        lemma_vocabulary_distinct(all);
    }
    counts
}

} // verus!
