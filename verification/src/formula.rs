//! Formulas over measures, and their values.
//!
//! A formula says which operations on doubles make a value, and in which order. Its value is what an
//! [`Arithmetic`] gives for them.

use vstd::prelude::*;

use crate::measure::{larger, smaller, Arithmetic, Measure};

verus! {

/// A formula.
pub enum Formula {
    /// A measure.
    Known(Measure),
    /// The number of things counted.
    Count(u64),
    /// The sum of two formulas.
    Sum(Box<Formula>, Box<Formula>),
    /// The difference of two formulas, without its sign.
    Gap(Box<Formula>, Box<Formula>),
    /// The product of two formulas.
    Product(Box<Formula>, Box<Formula>),
    /// The quotient of two formulas.
    Quotient(Box<Formula>, Box<Formula>),
    /// The larger of two formulas.
    Larger(Box<Formula>, Box<Formula>),
    /// The smaller of two formulas.
    Smaller(Box<Formula>, Box<Formula>),
}

/// The formula of a constant, by its bit pattern.
pub open spec fn constant(bits: u64) -> Formula {
    Formula::Known(Measure { bits })
}

impl Formula {
    /// The sum with another formula.
    pub open spec fn plus(self, other: Formula) -> Formula {
        Formula::Sum(Box::new(self), Box::new(other))
    }

    /// The difference from another formula, without its sign.
    pub open spec fn off(self, other: Formula) -> Formula {
        Formula::Gap(Box::new(self), Box::new(other))
    }

    /// The product with another formula.
    pub open spec fn times(self, other: Formula) -> Formula {
        Formula::Product(Box::new(self), Box::new(other))
    }

    /// The quotient by another formula.
    pub open spec fn over(self, other: Formula) -> Formula {
        Formula::Quotient(Box::new(self), Box::new(other))
    }

    /// The larger of this formula and another.
    pub open spec fn at_least(self, other: Formula) -> Formula {
        Formula::Larger(Box::new(self), Box::new(other))
    }

    /// The smaller of this formula and another.
    pub open spec fn at_most(self, other: Formula) -> Formula {
        Formula::Smaller(Box::new(self), Box::new(other))
    }

    /// The formula held between two constants.
    pub open spec fn between(self, low: u64, high: u64) -> Formula {
        self.at_least(constant(low)).at_most(constant(high))
    }

    /// Whether `value` is what the formula comes to, as `kit` computes.
    pub open spec fn gives<A: Arithmetic>(self, kit: &A, value: Measure) -> bool
        decreases self,
    {
        match self {
            Formula::Known(known) => value == known,
            Formula::Count(count) => call_ensures(A::count, (kit, count), value),
            Formula::Sum(a, b) => exists|x: Measure, y: Measure|
                a.gives(kit, x) && b.gives(kit, y) && #[trigger] call_ensures(
                    A::sum,
                    (kit, x, y),
                    value,
                ),
            Formula::Gap(a, b) => exists|x: Measure, y: Measure|
                a.gives(kit, x) && b.gives(kit, y) && #[trigger] call_ensures(
                    A::gap,
                    (kit, x, y),
                    value,
                ),
            Formula::Product(a, b) => exists|x: Measure, y: Measure|
                a.gives(kit, x) && b.gives(kit, y) && #[trigger] call_ensures(
                    A::product,
                    (kit, x, y),
                    value,
                ),
            Formula::Quotient(a, b) => exists|x: Measure, y: Measure|
                a.gives(kit, x) && b.gives(kit, y) && #[trigger] call_ensures(
                    A::quotient,
                    (kit, x, y),
                    value,
                ),
            Formula::Larger(a, b) => exists|x: Measure, y: Measure|
                a.gives(kit, x) && b.gives(kit, y) && value == #[trigger] larger(x, y),
            Formula::Smaller(a, b) => exists|x: Measure, y: Measure|
                a.gives(kit, x) && b.gives(kit, y) && value == #[trigger] smaller(x, y),
        }
    }
}

/// Whether the arithmetic gives the same answer whenever it is asked the same.
pub open spec fn steady<A: Arithmetic>(kit: &A) -> bool {
    &&& forall|n: u64, v: Measure, w: Measure|
        #![trigger call_ensures(A::count, (kit, n), v), call_ensures(A::count, (kit, n), w)]
        call_ensures(A::count, (kit, n), v) && call_ensures(A::count, (kit, n), w) ==> v == w
    &&& forall|x: Measure, y: Measure, v: Measure, w: Measure|
        #![trigger call_ensures(A::sum, (kit, x, y), v), call_ensures(A::sum, (kit, x, y), w)]
        call_ensures(A::sum, (kit, x, y), v) && call_ensures(A::sum, (kit, x, y), w) ==> v == w
    &&& forall|x: Measure, y: Measure, v: Measure, w: Measure|
        #![trigger call_ensures(A::gap, (kit, x, y), v), call_ensures(A::gap, (kit, x, y), w)]
        call_ensures(A::gap, (kit, x, y), v) && call_ensures(A::gap, (kit, x, y), w) ==> v == w
    &&& forall|x: Measure, y: Measure, v: Measure, w: Measure|
        #![trigger call_ensures(A::product, (kit, x, y), v), call_ensures(A::product, (kit, x, y), w)]
        call_ensures(A::product, (kit, x, y), v) && call_ensures(A::product, (kit, x, y), w) ==> v
            == w
    &&& forall|x: Measure, y: Measure, v: Measure, w: Measure|
        #![trigger call_ensures(A::quotient, (kit, x, y), v), call_ensures(A::quotient, (kit, x, y), w)]
        call_ensures(A::quotient, (kit, x, y), v) && call_ensures(A::quotient, (kit, x, y), w) ==> v
            == w
    &&& forall|x: Measure, v: u32, w: u32|
        #![trigger call_ensures(A::nearest, (kit, x), v), call_ensures(A::nearest, (kit, x), w)]
        call_ensures(A::nearest, (kit, x), v) && call_ensures(A::nearest, (kit, x), w) ==> v == w
}

/// With steady arithmetic a formula has one value at most.
pub proof fn formulas_have_one_value<A: Arithmetic>(
    kit: &A,
    formula: Formula,
    v: Measure,
    w: Measure,
)
    requires
        steady(kit),
        formula.gives(kit, v),
        formula.gives(kit, w),
    ensures
        v == w,
    decreases formula,
{
    match formula {
        Formula::Known(_) => {},
        Formula::Count(_) => {},
        Formula::Sum(a, b) => {
            let (x, y) = choose|x: Measure, y: Measure|
                a.gives(kit, x) && b.gives(kit, y) && #[trigger] call_ensures(
                    A::sum,
                    (kit, x, y),
                    v,
                );
            let (s, t) = choose|x: Measure, y: Measure|
                a.gives(kit, x) && b.gives(kit, y) && #[trigger] call_ensures(
                    A::sum,
                    (kit, x, y),
                    w,
                );
            formulas_have_one_value(kit, *a, x, s);
            formulas_have_one_value(kit, *b, y, t);
        },
        Formula::Gap(a, b) => {
            let (x, y) = choose|x: Measure, y: Measure|
                a.gives(kit, x) && b.gives(kit, y) && #[trigger] call_ensures(
                    A::gap,
                    (kit, x, y),
                    v,
                );
            let (s, t) = choose|x: Measure, y: Measure|
                a.gives(kit, x) && b.gives(kit, y) && #[trigger] call_ensures(
                    A::gap,
                    (kit, x, y),
                    w,
                );
            formulas_have_one_value(kit, *a, x, s);
            formulas_have_one_value(kit, *b, y, t);
        },
        Formula::Product(a, b) => {
            let (x, y) = choose|x: Measure, y: Measure|
                a.gives(kit, x) && b.gives(kit, y) && #[trigger] call_ensures(
                    A::product,
                    (kit, x, y),
                    v,
                );
            let (s, t) = choose|x: Measure, y: Measure|
                a.gives(kit, x) && b.gives(kit, y) && #[trigger] call_ensures(
                    A::product,
                    (kit, x, y),
                    w,
                );
            formulas_have_one_value(kit, *a, x, s);
            formulas_have_one_value(kit, *b, y, t);
        },
        Formula::Quotient(a, b) => {
            let (x, y) = choose|x: Measure, y: Measure|
                a.gives(kit, x) && b.gives(kit, y) && #[trigger] call_ensures(
                    A::quotient,
                    (kit, x, y),
                    v,
                );
            let (s, t) = choose|x: Measure, y: Measure|
                a.gives(kit, x) && b.gives(kit, y) && #[trigger] call_ensures(
                    A::quotient,
                    (kit, x, y),
                    w,
                );
            formulas_have_one_value(kit, *a, x, s);
            formulas_have_one_value(kit, *b, y, t);
        },
        Formula::Larger(a, b) => {
            let (x, y) = choose|x: Measure, y: Measure|
                a.gives(kit, x) && b.gives(kit, y) && v == #[trigger] larger(x, y);
            let (s, t) = choose|x: Measure, y: Measure|
                a.gives(kit, x) && b.gives(kit, y) && w == #[trigger] larger(x, y);
            formulas_have_one_value(kit, *a, x, s);
            formulas_have_one_value(kit, *b, y, t);
        },
        Formula::Smaller(a, b) => {
            let (x, y) = choose|x: Measure, y: Measure|
                a.gives(kit, x) && b.gives(kit, y) && v == #[trigger] smaller(x, y);
            let (s, t) = choose|x: Measure, y: Measure|
                a.gives(kit, x) && b.gives(kit, y) && w == #[trigger] smaller(x, y);
            formulas_have_one_value(kit, *a, x, s);
            formulas_have_one_value(kit, *b, y, t);
        },
    }
}

/// A formula held between two constants has a value between them.
pub proof fn lemma_between<A: Arithmetic>(
    kit: &A,
    formula: Formula,
    low: u64,
    high: u64,
    value: Measure,
)
    requires
        formula.between(low, high).gives(kit, value),
        low <= high,
    ensures
        low <= value.bits <= high,
{
    let raised = formula.at_least(constant(low));
    let (x, y) = choose|x: Measure, y: Measure|
        raised.gives(kit, x) && constant(high).gives(kit, y) && value == #[trigger] smaller(x, y);
    let (s, t) = choose|s: Measure, t: Measure|
        formula.gives(kit, s) && constant(low).gives(kit, t) && x == #[trigger] larger(s, t);
    assert(y.bits == high && t.bits == low);
}

/// A computed value, with the formula it is the value of.
pub struct Term {
    /// The value.
    pub value: Measure,
    /// The formula.
    pub formula: Ghost<Formula>,
}

impl Term {
    /// Whether the value is what the formula comes to.
    pub open spec fn holds<A: Arithmetic>(self, kit: &A) -> bool {
        self.formula@.gives(kit, self.value)
    }

    /// A measure.
    pub fn known<A: Arithmetic>(value: Measure, kit: &A) -> (r: Term)
        ensures
            r.holds(kit),
            r.formula@ == Formula::Known(value),
            r.value == value,
    {
        Term { value, formula: Ghost(Formula::Known(value)) }
    }

    /// A constant, by its bit pattern.
    pub fn constant<A: Arithmetic>(bits: u64, kit: &A) -> (r: Term)
        ensures
            r.holds(kit),
            r.formula@ == constant(bits),
            r.value.bits == bits,
    {
        Term::known(Measure { bits }, kit)
    }

    /// The number of things counted.
    pub fn count<A: Arithmetic>(count: u64, kit: &A) -> (r: Term)
        ensures
            r.holds(kit),
            r.formula@ == Formula::Count(count),
    {
        Term { value: kit.count(count), formula: Ghost(Formula::Count(count)) }
    }

    /// The sum with another term.
    pub fn plus<A: Arithmetic>(&self, other: &Term, kit: &A) -> (r: Term)
        requires
            self.holds(kit),
            other.holds(kit),
        ensures
            r.holds(kit),
            r.formula@ == self.formula@.plus(other.formula@),
    {
        Term {
            value: kit.sum(self.value, other.value),
            formula: Ghost(self.formula@.plus(other.formula@)),
        }
    }

    /// The difference from another term, without its sign.
    pub fn off<A: Arithmetic>(&self, other: &Term, kit: &A) -> (r: Term)
        requires
            self.holds(kit),
            other.holds(kit),
        ensures
            r.holds(kit),
            r.formula@ == self.formula@.off(other.formula@),
    {
        Term {
            value: kit.gap(self.value, other.value),
            formula: Ghost(self.formula@.off(other.formula@)),
        }
    }

    /// The product with another term.
    pub fn times<A: Arithmetic>(&self, other: &Term, kit: &A) -> (r: Term)
        requires
            self.holds(kit),
            other.holds(kit),
        ensures
            r.holds(kit),
            r.formula@ == self.formula@.times(other.formula@),
    {
        Term {
            value: kit.product(self.value, other.value),
            formula: Ghost(self.formula@.times(other.formula@)),
        }
    }

    /// The quotient by another term.
    pub fn over<A: Arithmetic>(&self, other: &Term, kit: &A) -> (r: Term)
        requires
            self.holds(kit),
            other.holds(kit),
        ensures
            r.holds(kit),
            r.formula@ == self.formula@.over(other.formula@),
    {
        Term {
            value: kit.quotient(self.value, other.value),
            formula: Ghost(self.formula@.over(other.formula@)),
        }
    }

    /// The larger of this term and another.
    pub fn at_least<A: Arithmetic>(&self, other: &Term, kit: &A) -> (r: Term)
        requires
            self.holds(kit),
            other.holds(kit),
        ensures
            r.holds(kit),
            r.formula@ == self.formula@.at_least(other.formula@),
            r.value == larger(self.value, other.value),
    {
        let value = if self.value.bits < other.value.bits {
            other.value
        } else {
            self.value
        };
        assert(value == larger(self.value, other.value));
        Term { value, formula: Ghost(self.formula@.at_least(other.formula@)) }
    }

    /// The smaller of this term and another.
    pub fn at_most<A: Arithmetic>(&self, other: &Term, kit: &A) -> (r: Term)
        requires
            self.holds(kit),
            other.holds(kit),
        ensures
            r.holds(kit),
            r.formula@ == self.formula@.at_most(other.formula@),
            r.value == smaller(self.value, other.value),
    {
        let value = if other.value.bits < self.value.bits {
            other.value
        } else {
            self.value
        };
        assert(value == smaller(self.value, other.value));
        Term { value, formula: Ghost(self.formula@.at_most(other.formula@)) }
    }

    /// The term held between two constants.
    pub fn between<A: Arithmetic>(&self, low: u64, high: u64, kit: &A) -> (r: Term)
        requires
            self.holds(kit),
            low <= high,
        ensures
            r.holds(kit),
            r.formula@ == self.formula@.between(low, high),
            low <= r.value.bits <= high,
    {
        self.at_least(&Term::constant(low, kit), kit).at_most(&Term::constant(high, kit), kit)
    }
}

} // verus!
