//! Cosine similarity of two sparse vectors of weights.
//!
//! The similarity of `a` and `b` is the sum of the products of the pairs that
//! `shared_weights` names, over the product of the two norms; each norm is
//! taken over the vector's own weights. Where a norm is zero the similarity
//! is zero.
//!
//! The library decides which weights meet. The numbers are worked out by
//! whoever evaluates the weights; what holds of them is proved here over the
//! real numbers, for every function `value` that says which number a weight
//! stands for.

use vstd::prelude::*;
use crate::ratio::Weight;
use crate::reals::{
    lemma_cauchy_schwarz_step, lemma_product_monotonic, lemma_product_not_negative,
    lemma_quotient_in_unit_interval, lemma_quotient_of_equals, lemma_square_not_negative,
};
use crate::terms::{
    Entry, keys, lookup, distinct, index_terms, lemma_lookup_indexed, lemma_lookup_first, lemma_lookup_member,
    lemma_lookup_push, lemma_push_contains,
};

verus! {

/// The pairs of weights that the dot product of `a` and `b` multiplies: for
/// each term of `a` that `b` holds, in the order of `a`, its weight in `a`
/// and its weight in `b`.
pub open spec fn shared(a: Seq<(Seq<char>, Weight)>, b: Seq<(Seq<char>, Weight)>) -> Seq<
    (Weight, Weight),
>
    decreases a.len(),
{
    if a.len() == 0 {
        Seq::empty()
    } else {
        let before = shared(a.drop_last(), b);
        match lookup(b, a.last().0) {
            Some(other) => before.push((a.last().1, other)),
            None => before,
        }
    }
}

/// The pairs of weights that the dot product of `a` and `b` multiplies.
pub fn shared_weights(a: &Vec<Entry<Weight>>, b: &Vec<Entry<Weight>>) -> (pairs: Vec<
    (Weight, Weight),
>)
    ensures
        pairs@ == shared(a.deep_view(), b.deep_view()),
{
    let ghost all = a.deep_view();
    let index = index_terms(b);
    let mut pairs: Vec<(Weight, Weight)> = Vec::new();
    let mut i: usize = 0;
    while i < a.len()
        invariant
            i <= a.len(),
            all == a.deep_view(),
            crate::terms::indexes(index@, keys(b.deep_view())),
            pairs@ == shared(all.take(i as int), b.deep_view()),
        decreases a.len() - i,
    {
        proof {
            lemma_lookup_indexed(index@, b.deep_view(), all[i as int].0);
            assert(all.take(i + 1).drop_last() =~= all.take(i as int));
        }
        match index.get(a[i].term.as_str()) {
            Some(place) => {
                let j: usize = *place;
                pairs.push((a[i].value, b[j].value));
            },
            None => {},
        }
        i += 1;
    }
    assert(all.take(i as int) =~= all);
    pairs
}

/// Against itself a vector without repeated terms shares every weight with
/// itself: the dot product is the sum of the squares, which is the square of
/// the norm.
pub proof fn lemma_shared_with_itself(a: Seq<(Seq<char>, Weight)>)
    requires
        distinct(a),
    ensures
        shared(a, a) == a.map_values(|e: (Seq<char>, Weight)| (e.1, e.1)),
{
    lemma_shared_prefix_with_whole(a, a.len() as int);
    assert(a.take(a.len() as int) =~= a);
}

/// The first `n` entries of a vector without repeated terms share each
/// weight with the vector.
proof fn lemma_shared_prefix_with_whole(a: Seq<(Seq<char>, Weight)>, n: int)
    requires
        distinct(a),
        0 <= n <= a.len(),
    ensures
        shared(a.take(n), a) == a.take(n).map_values(|e: (Seq<char>, Weight)| (e.1, e.1)),
    decreases n,
{
    let twice = |e: (Seq<char>, Weight)| (e.1, e.1);
    if n == 0 {
        assert(shared(a.take(n), a) =~= a.take(n).map_values(twice));
    } else {
        lemma_shared_prefix_with_whole(a, n - 1);
        assert(a.take(n).drop_last() =~= a.take(n - 1));
        assert(a.take(n).last() == a[n - 1]);
        assert forall|k: int| 0 <= k < n - 1 implies (#[trigger] a[k]).0 != a[n - 1].0 by {
            assert(keys(a)[k] == a[k].0);
            assert(keys(a)[n - 1] == a[n - 1].0);
        }
        lemma_lookup_first(a, a[n - 1].0, n - 1);
        assert(a.take(n).map_values(twice) =~= a.take(n - 1).map_values(twice).push(
            (a[n - 1].1, a[n - 1].1),
        ));
    }
}

/// The dot product of two vectors, as the sum over the pairs of weights
/// that they share, where `value` gives the number that a weight stands
/// for.
pub open spec fn dot(pairs: Seq<(Weight, Weight)>, value: spec_fn(Weight) -> real) -> real
    decreases pairs.len(),
{
    if pairs.len() == 0 {
        0real
    } else {
        dot(pairs.drop_last(), value) + value(pairs.last().0) * value(pairs.last().1)
    }
}

/// The square of the norm of a vector: the sum of the squares of its own
/// weights.
pub open spec fn norm_squared(vector: Seq<(Seq<char>, Weight)>, value: spec_fn(Weight) -> real) -> real
    decreases vector.len(),
{
    if vector.len() == 0 {
        0real
    } else {
        norm_squared(vector.drop_last(), value) + value(vector.last().1) * value(vector.last().1)
    }
}

/// The square of the cosine similarity of `a` and `b`: zero where a norm is
/// zero, else the square of the dot product over the product of the squares
/// of the norms.
pub open spec fn similarity_squared(
    a: Seq<(Seq<char>, Weight)>,
    b: Seq<(Seq<char>, Weight)>,
    value: spec_fn(Weight) -> real,
) -> real {
    if norm_squared(a, value) == 0real || norm_squared(b, value) == 0real {
        0real
    } else {
        dot(shared(a, b), value) * dot(shared(a, b), value) / (norm_squared(a, value)
            * norm_squared(b, value))
    }
}

/// The sum of the squares of the first weights of the pairs.
spec fn left_squares(pairs: Seq<(Weight, Weight)>, value: spec_fn(Weight) -> real) -> real
    decreases pairs.len(),
{
    if pairs.len() == 0 {
        0real
    } else {
        left_squares(pairs.drop_last(), value) + value(pairs.last().0) * value(pairs.last().0)
    }
}

/// The sum of the squares of the second weights of the pairs.
spec fn right_squares(pairs: Seq<(Weight, Weight)>, value: spec_fn(Weight) -> real) -> real
    decreases pairs.len(),
{
    if pairs.len() == 0 {
        0real
    } else {
        right_squares(pairs.drop_last(), value) + value(pairs.last().1) * value(pairs.last().1)
    }
}

/// The sum of the squares of the weights of `b` whose term is `term`.
spec fn found(b: Seq<(Seq<char>, Weight)>, term: Seq<char>, value: spec_fn(Weight) -> real) -> real
    decreases b.len(),
{
    if b.len() == 0 {
        0real
    } else {
        found(b.drop_last(), term, value) + if b.last().0 == term {
            value(b.last().1) * value(b.last().1)
        } else {
            0real
        }
    }
}

/// The sum of the squares of the weights of `b` whose term is one of
/// `terms`.
spec fn picked(
    b: Seq<(Seq<char>, Weight)>,
    terms: Seq<Seq<char>>,
    value: spec_fn(Weight) -> real,
) -> real
    decreases b.len(),
{
    if b.len() == 0 {
        0real
    } else {
        picked(b.drop_last(), terms, value) + if terms.contains(b.last().0) {
            value(b.last().1) * value(b.last().1)
        } else {
            0real
        }
    }
}

/// The inequality of Cauchy and Schwarz for a sequence of pairs.
proof fn lemma_pairs_bound(pairs: Seq<(Weight, Weight)>, value: spec_fn(Weight) -> real)
    ensures
        dot(pairs, value) * dot(pairs, value) <= left_squares(pairs, value) * right_squares(
            pairs,
            value,
        ),
        left_squares(pairs, value) >= 0real,
        right_squares(pairs, value) >= 0real,
    decreases pairs.len(),
{
    if pairs.len() == 0 {
        lemma_square_not_negative(0real);
    } else {
        let front = pairs.drop_last();
        let x = value(pairs.last().0);
        let y = value(pairs.last().1);
        lemma_pairs_bound(front, value);
        lemma_square_not_negative(x);
        lemma_square_not_negative(y);
        lemma_cauchy_schwarz_step(
            dot(front, value),
            left_squares(front, value),
            right_squares(front, value),
            x,
            y,
        );
    }
}

/// The first weights of the shared pairs are weights of `a`, each at most
/// once.
proof fn lemma_left_bound(
    a: Seq<(Seq<char>, Weight)>,
    b: Seq<(Seq<char>, Weight)>,
    value: spec_fn(Weight) -> real,
)
    ensures
        left_squares(shared(a, b), value) <= norm_squared(a, value),
        norm_squared(a, value) >= 0real,
    decreases a.len(),
{
    if a.len() > 0 {
        lemma_left_bound(a.drop_last(), b, value);
        lemma_square_not_negative(value(a.last().1));
        let before = shared(a.drop_last(), b);
        match lookup(b, a.last().0) {
            Some(other) => {
                assert(before.push((a.last().1, other)).drop_last() =~= before);
            },
            None => {},
        }
    }
}

/// The weights of `b` with a term among `terms` are weights of `b`.
proof fn lemma_picked_bound(
    b: Seq<(Seq<char>, Weight)>,
    terms: Seq<Seq<char>>,
    value: spec_fn(Weight) -> real,
)
    ensures
        0real <= picked(b, terms, value) <= norm_squared(b, value),
    decreases b.len(),
{
    if b.len() > 0 {
        lemma_picked_bound(b.drop_last(), terms, value);
        lemma_square_not_negative(value(b.last().1));
    }
}

/// One more term picks what was picked before and what is found under it.
proof fn lemma_picked_push(
    b: Seq<(Seq<char>, Weight)>,
    terms: Seq<Seq<char>>,
    term: Seq<char>,
    value: spec_fn(Weight) -> real,
)
    requires
        !terms.contains(term),
    ensures
        picked(b, terms.push(term), value) == picked(b, terms, value) + found(b, term, value),
    decreases b.len(),
{
    if b.len() > 0 {
        lemma_picked_push(b.drop_last(), terms, term, value);
        lemma_push_contains(terms, term, b.last().0);
    }
}

/// What is found under a term is at least the square of the weight that the
/// mapping gives the term.
proof fn lemma_found_bound(b: Seq<(Seq<char>, Weight)>, term: Seq<char>, value: spec_fn(Weight) -> real)
    ensures
        found(b, term, value) >= 0real,
        match lookup(b, term) {
            Some(weight) => found(b, term, value) >= value(weight) * value(weight),
            None => true,
        },
    decreases b.len(),
{
    if b.len() > 0 {
        let front = b.drop_last();
        lemma_found_bound(front, term, value);
        lemma_square_not_negative(value(b.last().1));
        lemma_lookup_push(front, b.last(), term);
        assert(front.push(b.last()) =~= b);
    }
}

/// The second weights of the shared pairs are weights of `b` with a term of
/// `a`, each at most once where no term stands twice in `a`.
proof fn lemma_right_bound(
    a: Seq<(Seq<char>, Weight)>,
    b: Seq<(Seq<char>, Weight)>,
    value: spec_fn(Weight) -> real,
)
    requires
        distinct(a),
    ensures
        right_squares(shared(a, b), value) <= picked(b, keys(a), value),
    decreases a.len(),
{
    if a.len() == 0 {
        lemma_picked_bound(b, keys(a), value);
    } else {
        let front = a.drop_last();
        let term = a.last().0;
        assert(keys(front) =~= keys(a).drop_last());
        assert(keys(a) =~= keys(front).push(term));
        assert(!keys(front).contains(term)) by {
            if keys(front).contains(term) {
                let k = choose|k: int| 0 <= k < keys(front).len() && keys(front)[k] == term;
                assert(keys(a)[k] == term);
                assert(keys(a)[a.len() - 1] == term);
            }
        }
        lemma_right_bound(front, b, value);
        lemma_picked_push(b, keys(front), term, value);
        lemma_found_bound(b, term, value);
        let before = shared(front, b);
        match lookup(b, term) {
            Some(other) => {
                assert(before.push((a.last().1, other)).drop_last() =~= before);
            },
            None => {},
        }
    }
}

/// The square of the dot product of two vectors is at most the product of
/// the squares of their norms, whatever number each weight stands for, as
/// long as no term stands twice in the first vector.
pub proof fn lemma_dot_bounded(
    a: Seq<(Seq<char>, Weight)>,
    b: Seq<(Seq<char>, Weight)>,
    value: spec_fn(Weight) -> real,
)
    requires
        distinct(a),
    ensures
        dot(shared(a, b), value) * dot(shared(a, b), value) <= norm_squared(a, value)
            * norm_squared(b, value),
        norm_squared(a, value) >= 0real,
        norm_squared(b, value) >= 0real,
{
    let pairs = shared(a, b);
    let left = left_squares(pairs, value);
    let right = right_squares(pairs, value);
    lemma_pairs_bound(pairs, value);
    lemma_left_bound(a, b, value);
    lemma_right_bound(a, b, value);
    lemma_picked_bound(b, keys(a), value);
    lemma_product_monotonic(left, norm_squared(a, value), right);
    lemma_product_monotonic(right, norm_squared(b, value), norm_squared(a, value));
}

/// The dot product of two vectors is not negative where none of their
/// weights stands for a negative number.
pub proof fn lemma_dot_not_negative(
    a: Seq<(Seq<char>, Weight)>,
    b: Seq<(Seq<char>, Weight)>,
    value: spec_fn(Weight) -> real,
)
    requires
        forall|i: int| 0 <= i < a.len() ==> value((#[trigger] a[i]).1) >= 0real,
        forall|j: int| 0 <= j < b.len() ==> value((#[trigger] b[j]).1) >= 0real,
    ensures
        dot(shared(a, b), value) >= 0real,
    decreases a.len(),
{
    if a.len() > 0 {
        let front = a.drop_last();
        assert forall|i: int| 0 <= i < front.len() implies value((#[trigger] front[i]).1)
            >= 0real by {
            assert(front[i] == a[i]);
        }
        lemma_dot_not_negative(front, b, value);
        let before = shared(front, b);
        assert(a[a.len() - 1] == a.last());
        lemma_lookup_member(b, a.last().0);
        match lookup(b, a.last().0) {
            Some(other) => {
                let j = choose|j: int| 0 <= j < b.len() && #[trigger] b[j] == (a.last().0, other);
                assert(value(b[j].1) >= 0real);
                assert(before.push((a.last().1, other)).drop_last() =~= before);
                lemma_product_not_negative(value(a.last().1), value(other));
            },
            None => {},
        }
    }
}

/// The dot product of a vector with itself is the square of its norm, as
/// long as no term stands twice in it.
pub proof fn lemma_dot_with_itself(a: Seq<(Seq<char>, Weight)>, value: spec_fn(Weight) -> real)
    requires
        distinct(a),
    ensures
        dot(shared(a, a), value) == norm_squared(a, value),
{
    lemma_shared_with_itself(a);
    lemma_dot_of_squares(a, value);
}

/// The dot product of the pairs of each weight with itself is the sum of
/// the squares.
proof fn lemma_dot_of_squares(a: Seq<(Seq<char>, Weight)>, value: spec_fn(Weight) -> real)
    ensures
        dot(a.map_values(|e: (Seq<char>, Weight)| (e.1, e.1)), value) == norm_squared(a, value),
    decreases a.len(),
{
    let twice = |e: (Seq<char>, Weight)| (e.1, e.1);
    if a.len() > 0 {
        lemma_dot_of_squares(a.drop_last(), value);
        assert(a.map_values(twice).drop_last() =~= a.drop_last().map_values(twice));
    }
}

/// A vector whose weights all stand for zero has the norm zero, and its dot
/// product with any vector is zero.
pub proof fn lemma_zero_vector(
    a: Seq<(Seq<char>, Weight)>,
    b: Seq<(Seq<char>, Weight)>,
    value: spec_fn(Weight) -> real,
)
    requires
        forall|i: int| 0 <= i < a.len() ==> value((#[trigger] a[i]).1) == 0real,
    ensures
        norm_squared(a, value) == 0real,
        dot(shared(a, b), value) == 0real,
    decreases a.len(),
{
    if a.len() > 0 {
        let front = a.drop_last();
        assert forall|i: int| 0 <= i < front.len() implies value((#[trigger] front[i]).1)
            == 0real by {
            assert(front[i] == a[i]);
        }
        lemma_zero_vector(front, b, value);
        let x = value(a.last().1);
        assert(a[a.len() - 1] == a.last());
        assert(x * x == 0real) by (nonlinear_arith)
            requires
                x == 0real,
        ;
        let before = shared(front, b);
        match lookup(b, a.last().0) {
            Some(other) => {
                let y = value(other);
                assert(before.push((a.last().1, other)).drop_last() =~= before);
                assert(x * y == 0real) by (nonlinear_arith)
                    requires
                        x == 0real,
                ;
            },
            None => {},
        }
    }
}

/// The square of the similarity of two vectors lies between zero and one,
/// whatever number each weight stands for, as long as no term stands twice
/// in the first vector. Where none of their weights stands for a negative
/// number the dot product is not negative either, so that the similarity
/// itself lies between zero and one.
pub proof fn lemma_similarity_bounds(
    a: Seq<(Seq<char>, Weight)>,
    b: Seq<(Seq<char>, Weight)>,
    value: spec_fn(Weight) -> real,
)
    requires
        distinct(a),
    ensures
        0real <= similarity_squared(a, b, value) <= 1real,
        (forall|i: int| 0 <= i < a.len() ==> value((#[trigger] a[i]).1) >= 0real) && (forall|
            j: int,
        |
            0 <= j < b.len() ==> value((#[trigger] b[j]).1) >= 0real) ==> dot(shared(a, b), value)
            >= 0real,
{
    lemma_dot_bounded(a, b, value);
    let d = dot(shared(a, b), value);
    let na = norm_squared(a, value);
    let nb = norm_squared(b, value);
    if na != 0real && nb != 0real {
        lemma_square_not_negative(d);
        lemma_product_not_negative(na, nb);
        assert(na * nb != 0real) by (nonlinear_arith)
            requires
                na != 0real,
                nb != 0real,
        ;
        lemma_quotient_in_unit_interval(d * d, na * nb);
    }
    if (forall|i: int| 0 <= i < a.len() ==> value((#[trigger] a[i]).1) >= 0real) && (forall|
        j: int,
    |
        0 <= j < b.len() ==> value((#[trigger] b[j]).1) >= 0real) {
        lemma_dot_not_negative(a, b, value);
    }
}

/// The similarity of a vector with itself is one: its square is, and the
/// dot product is a square. This holds for a vector with a norm other than
/// zero in which no term stands twice.
pub proof fn lemma_similarity_with_itself(a: Seq<(Seq<char>, Weight)>, value: spec_fn(Weight) -> real)
    requires
        distinct(a),
        norm_squared(a, value) != 0real,
    ensures
        similarity_squared(a, a, value) == 1real,
        dot(shared(a, a), value) >= 0real,
{
    lemma_dot_with_itself(a, value);
    lemma_dot_bounded(a, a, value);
    let n = norm_squared(a, value);
    assert(n * n != 0real) by (nonlinear_arith)
        requires
            n != 0real,
    ;
    lemma_quotient_of_equals(n * n);
}

/// The similarity of a zero vector with any vector is zero, on either side.
pub proof fn lemma_similarity_of_zero(
    a: Seq<(Seq<char>, Weight)>,
    b: Seq<(Seq<char>, Weight)>,
    value: spec_fn(Weight) -> real,
)
    requires
        forall|i: int| 0 <= i < a.len() ==> value((#[trigger] a[i]).1) == 0real,
    ensures
        similarity_squared(a, b, value) == 0real,
        similarity_squared(b, a, value) == 0real,
{
    lemma_zero_vector(a, b, value);
}

} // verus!
