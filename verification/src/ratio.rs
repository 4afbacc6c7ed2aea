//! Exact stand-ins for the real numbers of the relevance model.
//!
//! A term frequency is a fraction of two counts. An inverse document
//! frequency is the decimal logarithm of such a fraction, and a weight is the
//! product of the two. The library keeps the counts; whoever needs the number
//! evaluates it. What is proved of the numbers is proved of the real numbers
//! that the counts stand for, and for every function in the place of the
//! logarithm that grows as it does and is zero at one.

use vstd::prelude::*;
use crate::reals::{
    lemma_product_not_negative, lemma_quotient_at_least_one, lemma_quotient_falls,
    lemma_quotient_in_unit_interval,
};

verus! {

/// The fraction `numerator / denominator` of two counts.
#[derive(Clone, Copy, Debug, PartialEq, Eq, Structural)]
pub struct Ratio {
    pub numerator: u64,
    pub denominator: u64,
}

impl Ratio {
    /// The number that the fraction stands for.
    pub open spec fn value(self) -> real {
        self.numerator as real / self.denominator as real
    }

    /// Whether the fraction is exactly one.
    pub open spec fn is_one(self) -> bool {
        self.numerator == self.denominator && self.denominator > 0
    }

    /// Whether the fraction lies in the unit interval without its lower end.
    pub open spec fn is_share(self) -> bool {
        0 < self.numerator <= self.denominator
    }

    /// Whether the fraction is at least one.
    pub open spec fn is_multiple(self) -> bool {
        0 < self.denominator <= self.numerator
    }
}

/// The weight `frequency × log10(rarity)` of a term in a document.
#[derive(Clone, Copy, Debug, PartialEq, Eq, Structural)]
pub struct Weight {
    /// The term's share of the document's term occurrences.
    pub frequency: Ratio,
    /// The number of documents over the number of those that hold the term.
    pub rarity: Ratio,
}

/// Whether `log` behaves as a logarithm does, as far as the relevance model
/// rests on it: it grows with its argument, and it is zero at one.
pub open spec fn is_logarithm(log: spec_fn(real) -> real) -> bool {
    &&& forall|x: real, y: real| 0real < x < y ==> #[trigger] log(x) < #[trigger] log(y)
    &&& log(1real) == 0real
}

impl Weight {
    /// The number that the weight stands for, with `log` for the decimal
    /// logarithm.
    pub open spec fn value(self, log: spec_fn(real) -> real) -> real {
        self.frequency.value() * log(self.rarity.value())
    }
}

/// A share stands for a number above zero and at most one.
pub proof fn lemma_share_value(share: Ratio)
    requires
        share.is_share(),
    ensures
        0real < share.value() <= 1real,
{
    let x = share.numerator as real;
    let y = share.denominator as real;
    lemma_quotient_in_unit_interval(x, y);
    assert(x / y != 0real) by (nonlinear_arith)
        requires
            0real < x,
            0real < y,
    ;
}

/// A fraction whose numerator is at least its positive denominator stands
/// for a number that is at least one, and for one only where the two are
/// equal.
pub proof fn lemma_multiple_value(multiple: Ratio)
    requires
        multiple.is_multiple(),
    ensures
        multiple.value() >= 1real,
        multiple.value() == 1real <==> multiple.is_one(),
{
    lemma_quotient_at_least_one(multiple.numerator as real, multiple.denominator as real);
}

/// Of two fractions with one positive numerator, the one with the smaller
/// positive denominator stands for the larger number.
pub proof fn lemma_smaller_denominator(rare: Ratio, common: Ratio)
    requires
        rare.numerator == common.numerator,
        0 < rare.numerator,
        0 < rare.denominator < common.denominator,
    ensures
        0real < common.value() < rare.value(),
{
    lemma_quotient_falls(
        rare.numerator as real,
        rare.denominator as real,
        common.denominator as real,
    );
}

/// A weight that is made of a share and of a fraction that is at least one
/// stands for a number that is not negative, and for zero where that
/// fraction is one.
pub proof fn lemma_weight_not_negative(weight: Weight, log: spec_fn(real) -> real)
    requires
        is_logarithm(log),
        weight.frequency.is_share(),
        weight.rarity.is_multiple(),
    ensures
        weight.value(log) >= 0real,
        weight.rarity.is_one() ==> weight.value(log) == 0real,
{
    lemma_share_value(weight.frequency);
    lemma_multiple_value(weight.rarity);
    let f = weight.frequency.value();
    let l = log(weight.rarity.value());
    if weight.rarity.value() > 1real {
        assert(log(1real) < log(weight.rarity.value()));
    }
    lemma_product_not_negative(f, l);
    if weight.rarity.is_one() {
        assert(f * l == 0real) by (nonlinear_arith)
            requires
                l == 0real,
        ;
    }
}

} // verus!
