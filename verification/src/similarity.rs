//! Similarity scores: exact ratios of two counts, and the pair of scores
//! by which templates are ranked.

use core::cmp::Ordering;
use vstd::prelude::*;

verus! {

/// A non-negative ratio of two integers. A ratio whose denominator is zero
/// is not a number: it is neither less than, equal to nor greater than any
/// ratio, itself included.
#[derive(Clone, Copy, Debug)]
pub struct Ratio {
    pub numerator: u64,
    pub denominator: u64,
}

/// The product of two 64-bit values, which always fits in 128 bits.
fn wide_product(a: u64, b: u64) -> (product: u128)
    ensures
        product == a * b,
{
    assert(a * b <= 0xffff_ffff_ffff_ffff * 0xffff_ffff_ffff_ffff) by (nonlinear_arith)
        requires
            0 <= a <= 0xffff_ffff_ffff_ffff,
            0 <= b <= 0xffff_ffff_ffff_ffff,
    ;
    (a as u128) * (b as u128)
}

impl Ratio {
    /// Whether this ratio is a number, that is, has a non-zero denominator.
    pub open spec fn is_number(self) -> bool {
        self.denominator != 0
    }

    /// Whether this ratio is a number between zero and one, both included.
    pub open spec fn is_fraction(self) -> bool {
        self.denominator != 0 && self.numerator <= self.denominator
    }

    /// Whether both ratios are numbers and this one is the smaller.
    pub open spec fn less_than(self, other: Ratio) -> bool {
        &&& self.is_number()
        &&& other.is_number()
        &&& self.numerator * other.denominator < other.numerator * self.denominator
    }

    /// Whether both ratios are numbers and stand for the same quantity.
    pub open spec fn same_as(self, other: Ratio) -> bool {
        &&& self.is_number()
        &&& other.is_number()
        &&& self.numerator * other.denominator == other.numerator * self.denominator
    }

    /// How this ratio stands to `other`: `None` unless both are numbers.
    pub open spec fn compare(self, other: Ratio) -> Option<Ordering> {
        if !self.is_number() || !other.is_number() {
            None
        } else if self.numerator * other.denominator < other.numerator * self.denominator {
            Some(Ordering::Less)
        } else if self.numerator * other.denominator == other.numerator * self.denominator {
            Some(Ordering::Equal)
        } else {
            Some(Ordering::Greater)
        }
    }

    /// The ratio `numerator / denominator`.
    pub fn new(numerator: u64, denominator: u64) -> (ratio: Ratio)
        ensures
            ratio.numerator == numerator,
            ratio.denominator == denominator,
    {
        Ratio { numerator, denominator }
    }

    /// Whether this ratio is a number between zero and one, both included.
    pub fn in_unit_interval(&self) -> (inside: bool)
        ensures
            inside == self.is_fraction(),
    {
        self.denominator != 0 && self.numerator <= self.denominator
    }
}

impl PartialEq for Ratio {
    /// Whether both ratios are numbers and stand for the same quantity.
    fn eq(&self, other: &Ratio) -> (equal: bool) {
        self.denominator != 0 && other.denominator != 0 && wide_product(
            self.numerator,
            other.denominator,
        ) == wide_product(other.numerator, self.denominator)
    }
}

impl vstd::std_specs::cmp::PartialEqSpecImpl for Ratio {
    /// Equality is what `eq_spec` says.
    open spec fn obeys_eq_spec() -> bool {
        true
    }

    /// Ratios are equal when both are numbers of the same quantity.
    open spec fn eq_spec(&self, other: &Ratio) -> bool {
        self.same_as(*other)
    }
}

impl PartialOrd for Ratio {
    /// How this ratio stands to `other`; `None` unless both are numbers.
    fn partial_cmp(&self, other: &Ratio) -> (order: Option<Ordering>) {
        if self.denominator == 0 || other.denominator == 0 {
            None
        } else {
            let left = wide_product(self.numerator, other.denominator);
            let right = wide_product(other.numerator, self.denominator);
            if left < right {
                Some(Ordering::Less)
            } else if left == right {
                Some(Ordering::Equal)
            } else {
                Some(Ordering::Greater)
            }
        }
    }
}

impl vstd::std_specs::cmp::PartialOrdSpecImpl for Ratio {
    /// The order is what `partial_cmp_spec` says.
    open spec fn obeys_partial_cmp_spec() -> bool {
        true
    }

    /// Ratios are ordered as `compare` says.
    open spec fn partial_cmp_spec(&self, other: &Ratio) -> Option<Ordering> {
        self.compare(*other)
    }
}

/// How similar a template is to a line: the share of positions at which the
/// two hold the same token, and the share at which they do so or the
/// template holds the wildcard.
#[derive(Clone, Copy, Debug)]
pub struct GroupSimilarity {
    pub approximate_similarity: Ratio,
    pub exact_similarity: Ratio,
}

impl GroupSimilarity {
    /// How this pair of scores stands to `other`: by the exact scores, and
    /// by the approximate scores where the exact scores are equal. `None`
    /// where a score that decides is not a number.
    pub open spec fn compare(self, other: GroupSimilarity) -> Option<Ordering> {
        match self.exact_similarity.compare(other.exact_similarity) {
            Some(Ordering::Equal) => self.approximate_similarity.compare(
                other.approximate_similarity,
            ),
            Some(Ordering::Less) => Some(Ordering::Less),
            Some(Ordering::Greater) => Some(Ordering::Greater),
            None => None,
        }
    }

    /// Whether this pair of scores ranks strictly above `other`.
    pub open spec fn ranks_above(self, other: GroupSimilarity) -> bool {
        self.compare(other) == Some(Ordering::Greater)
    }
}

impl PartialEq for GroupSimilarity {
    /// Whether the two pairs agree in both scores.
    fn eq(&self, other: &GroupSimilarity) -> (equal: bool) {
        self.approximate_similarity == other.approximate_similarity && self.exact_similarity
            == other.exact_similarity
    }
}

impl vstd::std_specs::cmp::PartialEqSpecImpl for GroupSimilarity {
    /// Equality is what `eq_spec` says.
    open spec fn obeys_eq_spec() -> bool {
        true
    }

    /// Pairs of scores are equal when both of their scores are.
    open spec fn eq_spec(&self, other: &GroupSimilarity) -> bool {
        self.approximate_similarity.same_as(other.approximate_similarity)
            && self.exact_similarity.same_as(other.exact_similarity)
    }
}

impl PartialOrd for GroupSimilarity {
    /// How this pair of scores stands to `other`: by the exact scores, and
    /// by the approximate scores where those are equal.
    fn partial_cmp(&self, other: &GroupSimilarity) -> (order: Option<Ordering>) {
        match self.exact_similarity.partial_cmp(&other.exact_similarity) {
            Some(order) => match order {
                Ordering::Equal => self.approximate_similarity.partial_cmp(
                    &other.approximate_similarity,
                ),
                Ordering::Less => Some(Ordering::Less),
                Ordering::Greater => Some(Ordering::Greater),
            },
            None => None,
        }
    }
}

impl vstd::std_specs::cmp::PartialOrdSpecImpl for GroupSimilarity {
    /// The order is what `partial_cmp_spec` says.
    open spec fn obeys_partial_cmp_spec() -> bool {
        true
    }

    /// Pairs of scores are ordered as `compare` says.
    open spec fn partial_cmp_spec(&self, other: &GroupSimilarity) -> Option<Ordering> {
        self.compare(*other)
    }
}

} // verus!
