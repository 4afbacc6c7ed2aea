//! The decisions of a search request that follow the scoring: which kinds
//! of file are asked for, where the score of a file is found, in which order
//! the files are answered and which of them stand on a page.
//!
//! A score is the similarity as an integer that orders as the similarity
//! does.

use vstd::prelude::*;
use vstd::string::StringExecFns;
use std::collections::HashMap;
use crate::searcher::QueryReturnView;
use crate::searcher::Search;

verus! {

broadcast use vstd::std_specs::hash::group_hash_axioms;

/// The kinds of file that the metadata store keeps apart.
#[derive(Clone, Copy, Debug, PartialEq, Eq, Structural)]
pub enum FileKind {
    Answer,
    Exam,
    Other,
}

/// The kinds that a request names, each once, in the order of their names:
/// answers, exams, others. A name that is none of the three asks for
/// nothing, and so does a request without names.
pub open spec fn kinds_of(file_types: Option<Seq<Seq<char>>>) -> Seq<FileKind> {
    match file_types {
        None => Seq::empty(),
        Some(names) => {
            let answers = if names.contains("answer"@) {
                seq![FileKind::Answer]
            } else {
                Seq::empty()
            };
            let exams = if names.contains("exam"@) {
                seq![FileKind::Exam]
            } else {
                Seq::empty()
            };
            let others = if names.contains("other"@) {
                seq![FileKind::Other]
            } else {
                Seq::empty()
            };
            answers + exams + others
        },
    }
}

/// The names of a request.
pub open spec fn names_of(file_types: Option<Vec<String>>) -> Option<Seq<Seq<char>>> {
    match file_types {
        Some(names) => Some(names.deep_view()),
        None => None,
    }
}

/// Whether `name` is one of `names`.
fn names_contain(names: &Vec<String>, name: &str) -> (found: bool)
    ensures
        found == names.deep_view().contains(name@),
{
    let wanted = String::from_str(name);
    let mut i: usize = 0;
    while i < names.len()
        invariant
            i <= names.len(),
            wanted@ == name@,
            forall|k: int| 0 <= k < i ==> names.deep_view()[k] != name@,
        decreases names.len() - i,
    {
        if names[i] == wanted {
            assert(names.deep_view()[i as int] == name@);
            return true;
        }
        i += 1;
    }
    false
}

/// The kinds of file that a request asks for: see `kinds_of`.
pub fn requested_kinds(file_types: &Option<Vec<String>>) -> (kinds: Vec<FileKind>)
    ensures
        kinds@ == kinds_of(names_of(*file_types)),
{
    let mut kinds: Vec<FileKind> = Vec::new();
    match file_types {
        None => {},
        Some(names) => {
            if names_contain(names, "answer") {
                kinds.push(FileKind::Answer);
            }
            if names_contain(names, "exam") {
                kinds.push(FileKind::Exam);
            }
            if names_contain(names, "other") {
                kinds.push(FileKind::Other);
            }
            assert(kinds@ =~= kinds_of(Some(names.deep_view())));
        },
    }
    kinds
}

/// Whether `places` tells for each number of a document where its result
/// stands: at the last place that bears the number. A number that no
/// result bears has no place.
pub open spec fn places_results(places: Map<i64, usize>, results: Seq<QueryReturnView>) -> bool {
    &&& forall|id: i64| #[trigger]
        places.contains_key(id) <==> exists|k: int|
            0 <= k < results.len() && (#[trigger] results[k]).embedding_id == id
    &&& forall|id: i64| #[trigger]
        places.contains_key(id) ==> {
            &&& places[id] < results.len()
            &&& results[places[id] as int].embedding_id == id
            &&& forall|k: int|
                places[id] < k < results.len() ==> (#[trigger] results[k]).embedding_id != id
        }
}

impl Search {
    /// Where the result of each document stands, by the number of the
    /// document. Of two documents with one number the later one counts.
    pub fn places(&self) -> (places: HashMap<i64, usize>)
        ensures
            places_results(places@, self.results.deep_view()),
    {
        let ghost all = self.results.deep_view();
        let mut places: HashMap<i64, usize> = HashMap::new();
        let mut i: usize = 0;
        while i < self.results.len()
            invariant
                i <= self.results.len(),
                all == self.results.deep_view(),
                places_results(places@, all.take(i as int)),
            decreases self.results.len() - i,
        {
            let ghost before = places@;
            let ghost seen = all.take(i as int);
            let ghost longer = all.take(i + 1);
            let id = self.results[i].embedding_id;
            places.insert(id, i);
            proof {
                assert(longer[i as int].embedding_id == id);
                assert forall|other: i64| #[trigger] places@.contains_key(other) implies exists|
                    k: int,
                |
                    0 <= k < longer.len() && (#[trigger] longer[k]).embedding_id == other by {
                    if other != id {
                        assert(before.contains_key(other));
                        let k = choose|k: int|
                            0 <= k < seen.len() && (#[trigger] seen[k]).embedding_id == other;
                        assert(longer[k].embedding_id == other);
                    }
                }
                assert forall|other: i64|
                    (exists|k: int|
                        0 <= k < longer.len() && (#[trigger] longer[k]).embedding_id
                            == other) implies #[trigger] places@.contains_key(other) by {
                    let k = choose|k: int|
                        0 <= k < longer.len() && (#[trigger] longer[k]).embedding_id == other;
                    if k < i {
                        assert(seen[k].embedding_id == other);
                        assert(before.contains_key(other));
                    }
                }
                assert forall|other: i64| #[trigger] places@.contains_key(other) implies {
                    &&& places@[other] < longer.len()
                    &&& longer[places@[other] as int].embedding_id == other
                    &&& forall|k: int|
                        places@[other] < k < longer.len() ==> (#[trigger] longer[k]).embedding_id
                            != other
                } by {
                    if other != id {
                        assert(before.contains_key(other));
                        assert(longer[before[other] as int] == seen[before[other] as int]);
                        assert forall|k: int| before[other] < k < longer.len() implies (
                        #[trigger] longer[k]).embedding_id != other by {
                            if k < i {
                                assert(seen[k].embedding_id != other);
                            }
                        }
                    }
                }
            }
            i += 1;
        }
        assert(all.take(i as int) =~= all);
        places
    }
}

/// Whether the file at `a` is answered before the file at `b`: the higher
/// score first, and of two files with one score the one that came first.
pub open spec fn stands_before(scores: Seq<u32>, a: int, b: int) -> bool {
    scores[a] > scores[b] || (scores[a] == scores[b] && a < b)
}

/// Whether `order` lists the places of `scores`, each once, so that every
/// file is answered before those behind it.
pub open spec fn is_ranking(order: Seq<usize>, scores: Seq<u32>) -> bool {
    &&& order.len() == scores.len()
    &&& forall|p: int| 0 <= p < order.len() ==> #[trigger] order[p] < scores.len()
    &&& forall|p: int, q: int|
        0 <= p < q < order.len() ==> stands_before(
            scores,
            #[trigger] order[p] as int,
            #[trigger] order[q] as int,
        )
    &&& forall|i: usize| i < scores.len() ==> #[trigger] order.contains(i)
}

/// Two rankings of the same scores agree up to the place `p`.
proof fn lemma_rankings_agree(a: Seq<usize>, b: Seq<usize>, scores: Seq<u32>, p: int)
    requires
        is_ranking(a, scores),
        is_ranking(b, scores),
        0 <= p < scores.len(),
    ensures
        forall|k: int| 0 <= k <= p ==> a[k] == b[k],
    decreases p,
{
    if p > 0 {
        lemma_rankings_agree(a, b, scores, p - 1);
    }
    assert(a[p] < scores.len());
    assert(b[p] < scores.len());
    assert(b.contains(a[p]));
    assert(a.contains(b[p]));
    let q = choose|q: int| 0 <= q < b.len() && b[q] == a[p];
    let r = choose|r: int| 0 <= r < a.len() && a[r] == b[p];
    if q < p {
        assert(a[q] == b[q]);
        assert(stands_before(scores, a[q] as int, a[p] as int));
    }
    if r < p {
        assert(a[r] == b[r]);
        assert(stands_before(scores, b[r] as int, b[p] as int));
    }
    if q > p && r > p {
        assert(stands_before(scores, b[p] as int, b[q] as int));
        assert(stands_before(scores, a[p] as int, a[r] as int));
    }
}

/// The scores decide the ranking: there is one order only in which the
/// files are answered.
pub proof fn lemma_ranking_unique(a: Seq<usize>, b: Seq<usize>, scores: Seq<u32>)
    requires
        is_ranking(a, scores),
        is_ranking(b, scores),
    ensures
        a == b,
{
    if scores.len() > 0 {
        lemma_rankings_agree(a, b, scores, scores.len() - 1);
    }
    assert(a =~= b);
}

/// The order in which files with the scores `scores` are answered: by
/// falling score, files with one score in the order in which they came.
pub fn rank(scores: &Vec<u32>) -> (order: Vec<usize>)
    ensures
        is_ranking(order@, scores@),
{
    let mut order: Vec<usize> = Vec::new();
    let mut i: usize = 0;
    while i < scores.len()
        invariant
            i <= scores.len(),
            is_ranking(order@, scores@.take(i as int)),
        decreases scores.len() - i,
    {
        let ghost seen = scores@.take(i as int);
        let ghost longer = scores@.take(i + 1);
        let ghost before = order@;
        let mut place: usize = order.len();
        while place > 0 && scores[order[place - 1]] < scores[i]
            invariant
                i < scores.len(),
                order@ == before,
                is_ranking(before, seen),
                seen == scores@.take(i as int),
                place <= order.len(),
                forall|p: int| place <= p < order.len() ==> scores[order[p] as int] < scores[i as int],
            decreases place,
        {
            place -= 1;
        }
        order.insert(place, i);
        proof {
            let after = order@;
            assert forall|p: int| 0 <= p < place implies scores[before[p] as int] >= scores[i as int] by {
                if p < place - 1 {
                    assert(stands_before(seen, before[p] as int, before[place - 1] as int));
                }
            }
            assert forall|p: int, q: int| 0 <= p < q < after.len() implies stands_before(
                longer,
                #[trigger] after[p] as int,
                #[trigger] after[q] as int,
            ) by {
                let a = if p < place {
                    p
                } else {
                    p - 1
                };
                let b = if q < place {
                    q
                } else {
                    q - 1
                };
                if p != place && q != place {
                    assert(after[p] == before[a]);
                    assert(after[q] == before[b]);
                    assert(stands_before(seen, before[a] as int, before[b] as int));
                } else if p == place {
                    assert(after[q] == before[b]);
                    assert(before[b] < i);
                } else {
                    assert(after[p] == before[a]);
                    assert(before[a] < i);
                }
            }
            assert forall|k: usize| k < longer.len() implies #[trigger] after.contains(k) by {
                if k < i {
                    assert(before.contains(k));
                    let p = choose|p: int| 0 <= p < before.len() && before[p] == k;
                    if p < place {
                        assert(after[p] == k);
                    } else {
                        assert(after[p + 1] == k);
                    }
                } else {
                    assert(after[place as int] == k);
                }
            }
            assert forall|p: int| 0 <= p < after.len() implies #[trigger] after[p] < longer.len() by {
                if p < place {
                    assert(after[p] == before[p]);
                } else if p > place {
                    assert(after[p] == before[p - 1]);
                }
            }
        }
        i += 1;
    }
    assert(scores@.take(i as int) =~= scores@);
    order
}

/// Where the page `index` starts among `total` files, with `page_size` files
/// to a page; `total` where there is no such page.
pub open spec fn page_start(total: nat, page_size: nat, index: nat) -> nat {
    if index * page_size < total {
        index * page_size
    } else {
        total
    }
}

/// Where the page `index` ends: a full page behind its start, or at the last
/// file.
pub open spec fn page_end(total: nat, page_size: nat, index: nat) -> nat {
    if page_start(total, page_size, index) + page_size < total {
        page_start(total, page_size, index) + page_size
    } else {
        total
    }
}

/// The bounds of the page `index` among `total` files: the place of its
/// first file and the place behind its last. A page behind the last file is
/// empty.
pub fn page_bounds(total: usize, page_size: usize, index: usize) -> (bounds: (usize, usize))
    requires
        page_size > 0,
    ensures
        bounds.0 == page_start(total as nat, page_size as nat, index as nat),
        bounds.1 == page_end(total as nat, page_size as nat, index as nat),
{
    let full_pages = total / page_size;
    if index > full_pages {
        assert(index * page_size >= total) by (nonlinear_arith)
            requires
                index > total / page_size,
                page_size > 0,
        ;
        (total, total)
    } else {
        assert(index * page_size <= total) by (nonlinear_arith)
            requires
                index <= total / page_size,
                page_size > 0,
        ;
        let start = index * page_size;
        if start >= total {
            (total, total)
        } else if total - start <= page_size {
            (start, total)
        } else {
            (start, start + page_size)
        }
    }
}

/// The files of one page of an answer, as their places among the scored
/// files: the files are put in order as `rank` does, and those between the
/// bounds of the page are taken.
pub fn page_of_ranking(scores: &Vec<u32>, page_size: usize, index: usize) -> (page: Vec<usize>)
    requires
        page_size > 0,
    ensures
        exists|order: Seq<usize>|
            is_ranking(order, scores@) && page@ == #[trigger] order.subrange(
                page_start(scores.len() as nat, page_size as nat, index as nat) as int,
                page_end(scores.len() as nat, page_size as nat, index as nat) as int,
            ),
{
    let order = rank(scores);
    let bounds = page_bounds(order.len(), page_size, index);
    let mut page: Vec<usize> = Vec::new();
    let mut k: usize = bounds.0;
    while k < bounds.1
        invariant
            bounds.0 <= k <= bounds.1 <= order.len(),
            page@ == order@.subrange(bounds.0 as int, k as int),
        decreases bounds.1 - k,
    {
        page.push(order[k]);
        assert(order@.subrange(bounds.0 as int, k + 1) =~= order@.subrange(
            bounds.0 as int,
            k as int,
        ).push(order@[k as int]));
        k += 1;
    }
    assert(is_ranking(order@, scores@) && page@ == order@.subrange(
        page_start(scores.len() as nat, page_size as nat, index as nat) as int,
        page_end(scores.len() as nat, page_size as nat, index as nat) as int,
    ));
    page
}

} // verus!
