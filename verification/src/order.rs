//! Which of two formulas comes to more, where the arithmetic keeps the order of measures.

use vstd::prelude::*;

use crate::formula::{constant, formulas_have_one_value, steady, Formula};
use crate::measure::{larger, smaller, Arithmetic, Measure, HALF, INFINITY, ONE, QUARTER, ZERO};

verus! {

/// Whether counting more never gives less, and always a measure: zero for nothing, and at least one
/// for something.
pub open spec fn counts_in_order<A: Arithmetic>(kit: &A) -> bool {
    &&& forall|m: u64, n: u64, v: Measure, w: Measure|
        #![trigger call_ensures(A::count, (kit, m), v), call_ensures(A::count, (kit, n), w)]
        call_ensures(A::count, (kit, m), v) && call_ensures(A::count, (kit, n), w) && m <= n
            ==> v.bits <= w.bits <= INFINITY
    &&& forall|n: u64, v: Measure| #[trigger]
        call_ensures(A::count, (kit, n), v) ==> if n == 0 {
            v.bits == ZERO
        } else {
            v.bits >= ONE
        }
}

/// Whether sums grow with their parts, are no less than either of them, and do not change what
/// nothing is added to.
pub open spec fn sums_in_order<A: Arithmetic>(kit: &A) -> bool {
    &&& forall|x: Measure, y: Measure, s: Measure, t: Measure, v: Measure, w: Measure|
        #![trigger call_ensures(A::sum, (kit, x, y), v), call_ensures(A::sum, (kit, s, t), w)]
        call_ensures(A::sum, (kit, x, y), v) && call_ensures(A::sum, (kit, s, t), w) && x.bits
            <= s.bits <= INFINITY && y.bits <= t.bits <= INFINITY ==> v.bits <= w.bits <= INFINITY
    &&& forall|x: Measure, y: Measure, v: Measure| #[trigger]
        call_ensures(A::sum, (kit, x, y), v) && x.bits <= INFINITY && y.bits <= INFINITY ==> {
            &&& x.bits <= v.bits
            &&& y.bits <= v.bits
            &&& y.bits == ZERO ==> v == x
        }
}

/// Whether products grow with their factors, a factor of at most one adds nothing, and a factor of one
/// changes nothing.
pub open spec fn products_in_order<A: Arithmetic>(kit: &A) -> bool {
    &&& forall|x: Measure, y: Measure, s: Measure, t: Measure, v: Measure, w: Measure|
        #![trigger call_ensures(A::product, (kit, x, y), v), call_ensures(A::product, (kit, s, t), w)]
        call_ensures(A::product, (kit, x, y), v) && call_ensures(A::product, (kit, s, t), w)
            && x.bits <= s.bits <= INFINITY && y.bits <= t.bits <= INFINITY ==> v.bits <= w.bits
            <= INFINITY
    &&& forall|x: Measure, y: Measure, v: Measure| #[trigger]
        call_ensures(A::product, (kit, x, y), v) && x.bits <= INFINITY && y.bits <= INFINITY ==> {
            &&& x.bits <= ONE ==> v.bits <= y.bits
            &&& y.bits <= ONE ==> v.bits <= x.bits
            &&& y.bits == ONE ==> v == x
        }
}

/// Whether quotients grow with what is divided and shrink with what it is divided by, and a divisor
/// of at least one adds nothing.
pub open spec fn quotients_in_order<A: Arithmetic>(kit: &A) -> bool {
    &&& forall|x: Measure, y: Measure, s: Measure, t: Measure, v: Measure, w: Measure|
        #![trigger call_ensures(A::quotient, (kit, x, y), v), call_ensures(A::quotient, (kit, s, t), w)]
        call_ensures(A::quotient, (kit, x, y), v) && call_ensures(A::quotient, (kit, s, t), w)
            && x.bits <= s.bits <= INFINITY && t.bits <= y.bits <= INFINITY ==> v.bits <= w.bits
            <= INFINITY
    &&& forall|x: Measure, y: Measure, v: Measure| #[trigger]
        call_ensures(A::quotient, (kit, x, y), v) && x.bits <= INFINITY && ONE <= y.bits <= INFINITY
            ==> v.bits <= x.bits
}

/// Whether what is left shrinks with what is taken away, and is no more than there was.
pub open spec fn gaps_in_order<A: Arithmetic>(kit: &A) -> bool {
    &&& forall|x: Measure, y: Measure, t: Measure, v: Measure, w: Measure|
        #![trigger call_ensures(A::gap, (kit, x, y), v), call_ensures(A::gap, (kit, x, t), w)]
        call_ensures(A::gap, (kit, x, y), v) && call_ensures(A::gap, (kit, x, t), w) && t.bits
            <= y.bits <= x.bits <= INFINITY ==> v.bits <= w.bits
    &&& forall|x: Measure, y: Measure, v: Measure| #[trigger]
        call_ensures(A::gap, (kit, x, y), v) && x.bits <= INFINITY && y.bits <= INFINITY ==> v.bits
            <= larger(x, y).bits
}

/// Whether the arithmetic keeps the order of measures, as rounded operations on doubles do, with
/// what is not a number taken for zero.
pub open spec fn orderly<A: Arithmetic>(kit: &A) -> bool {
    &&& counts_in_order(kit)
    &&& sums_in_order(kit)
    &&& products_in_order(kit)
    &&& quotients_in_order(kit)
    &&& gaps_in_order(kit)
}

/// Whether rounding to a whole number keeps the order.
pub open spec fn rounds_in_order<A: Arithmetic>(kit: &A) -> bool {
    forall|x: Measure, y: Measure, v: u32, w: u32|
        #![trigger call_ensures(A::nearest, (kit, x), v), call_ensures(A::nearest, (kit, y), w)]
        call_ensures(A::nearest, (kit, x), v) && call_ensures(A::nearest, (kit, y), w) && x.bits
            <= y.bits <= INFINITY ==> v <= w
}

/// Whether the arithmetic tells a measure from half of it, and from what lies a quarter of the way
/// from a smaller measure to it.
pub open spec fn discerning<A: Arithmetic>(kit: &A) -> bool {
    &&& forall|x: Measure, v: Measure| #[trigger]
        call_ensures(A::product, (kit, x, Measure { bits: HALF }), v) && ZERO < x.bits < INFINITY
            ==> v.bits < x.bits
    &&& forall|x: Measure, y: Measure, gap: Measure, step: Measure, v: Measure|
        #![trigger
            call_ensures(A::gap, (kit, y, x), gap),
            call_ensures(A::product, (kit, Measure { bits: QUARTER }, gap), step),
            call_ensures(A::sum, (kit, x, step), v)
        ]
        call_ensures(A::gap, (kit, y, x), gap) && call_ensures(
            A::product,
            (kit, Measure { bits: QUARTER }, gap),
            step,
        ) && call_ensures(A::sum, (kit, x, step), v) && x.bits < y.bits < INFINITY ==> v.bits
            < y.bits
}

/// Whether every measure that a formula is made of is a number, or infinite.
pub open spec fn proper(f: Formula) -> bool
    decreases f,
{
    match f {
        Formula::Known(known) => known.bits <= INFINITY,
        Formula::Count(_) => true,
        Formula::Sum(a, b) => proper(*a) && proper(*b),
        Formula::Gap(a, b) => proper(*a) && proper(*b),
        Formula::Product(a, b) => proper(*a) && proper(*b),
        Formula::Quotient(a, b) => proper(*a) && proper(*b),
        Formula::Larger(a, b) => proper(*a) && proper(*b),
        Formula::Smaller(a, b) => proper(*a) && proper(*b),
    }
}

/// Whether no value of one formula is above a value of another, and each is a measure.
pub open spec fn below<A: Arithmetic>(kit: &A, f: Formula, g: Formula) -> bool {
    forall|v: Measure, w: Measure|
        #![trigger f.gives(kit, v), g.gives(kit, w)]
        f.gives(kit, v) && g.gives(kit, w) ==> v.bits <= w.bits <= INFINITY
}

/// Whether two formulas have no two values.
pub open spec fn agree<A: Arithmetic>(kit: &A, f: Formula, g: Formula) -> bool {
    forall|v: Measure, w: Measure|
        #![trigger f.gives(kit, v), g.gives(kit, w)]
        f.gives(kit, v) && g.gives(kit, w) ==> v == w
}

/// Whether no value of a formula is above one.
pub open spec fn at_most_one<A: Arithmetic>(kit: &A, f: Formula) -> bool {
    forall|v: Measure| #[trigger] f.gives(kit, v) ==> v.bits <= ONE
}

/// What is made of measures is a measure.
pub proof fn lemma_proper<A: Arithmetic>(kit: &A, f: Formula, v: Measure)
    requires
        orderly(kit),
        proper(f),
        f.gives(kit, v),
    ensures
        v.bits <= INFINITY,
    decreases f,
{
    match f {
        Formula::Known(_) => {},
        Formula::Count(_) => {},
        Formula::Sum(a, b) => {
            let (x, y) = choose|x: Measure, y: Measure|
                a.gives(kit, x) && b.gives(kit, y) && #[trigger] call_ensures(
                    A::sum,
                    (kit, x, y),
                    v,
                );
            lemma_proper(kit, *a, x);
            lemma_proper(kit, *b, y);
        },
        Formula::Gap(a, b) => {
            let (x, y) = choose|x: Measure, y: Measure|
                a.gives(kit, x) && b.gives(kit, y) && #[trigger] call_ensures(
                    A::gap,
                    (kit, x, y),
                    v,
                );
            lemma_proper(kit, *a, x);
            lemma_proper(kit, *b, y);
        },
        Formula::Product(a, b) => {
            let (x, y) = choose|x: Measure, y: Measure|
                a.gives(kit, x) && b.gives(kit, y) && #[trigger] call_ensures(
                    A::product,
                    (kit, x, y),
                    v,
                );
            lemma_proper(kit, *a, x);
            lemma_proper(kit, *b, y);
        },
        Formula::Quotient(a, b) => {
            let (x, y) = choose|x: Measure, y: Measure|
                a.gives(kit, x) && b.gives(kit, y) && #[trigger] call_ensures(
                    A::quotient,
                    (kit, x, y),
                    v,
                );
            lemma_proper(kit, *a, x);
            lemma_proper(kit, *b, y);
        },
        Formula::Larger(a, b) => {
            let (x, y) = choose|x: Measure, y: Measure|
                a.gives(kit, x) && b.gives(kit, y) && v == #[trigger] larger(x, y);
            lemma_proper(kit, *a, x);
            lemma_proper(kit, *b, y);
        },
        Formula::Smaller(a, b) => {
            let (x, y) = choose|x: Measure, y: Measure|
                a.gives(kit, x) && b.gives(kit, y) && v == #[trigger] smaller(x, y);
            lemma_proper(kit, *a, x);
            lemma_proper(kit, *b, y);
        },
    }
}

/// With steady arithmetic a formula is not above itself.
pub proof fn lemma_below_itself<A: Arithmetic>(kit: &A, f: Formula)
    requires
        steady(kit),
        orderly(kit),
        proper(f),
    ensures
        below(kit, f, f),
{
    assert forall|v: Measure, w: Measure|
        #![trigger f.gives(kit, v), f.gives(kit, w)]
        f.gives(kit, v) && f.gives(kit, w) implies v.bits <= w.bits <= INFINITY by {
        formulas_have_one_value(kit, f, v, w);
        lemma_proper(kit, f, w);
    }
}

/// With steady arithmetic a formula agrees with itself.
pub proof fn lemma_agree_itself<A: Arithmetic>(kit: &A, f: Formula)
    requires
        steady(kit),
    ensures
        agree(kit, f, f),
{
    assert forall|v: Measure, w: Measure|
        #![trigger f.gives(kit, v), f.gives(kit, w)]
        f.gives(kit, v) && f.gives(kit, w) implies v == w by {
        formulas_have_one_value(kit, f, v, w);
    }
}

/// With steady arithmetic the products of what agrees agree.
pub proof fn lemma_agree_times<A: Arithmetic>(
    kit: &A,
    f: Formula,
    g: Formula,
    s: Formula,
    t: Formula,
)
    requires
        steady(kit),
        agree(kit, f, s),
        agree(kit, g, t),
    ensures
        agree(kit, f.times(g), s.times(t)),
{
    let (one, other) = (f.times(g), s.times(t));
    assert forall|v: Measure, w: Measure|
        #![trigger one.gives(kit, v), other.gives(kit, w)]
        one.gives(kit, v) && other.gives(kit, w) implies v == w by {
        let (a, b) = choose|a: Measure, b: Measure|
            f.gives(kit, a) && g.gives(kit, b) && #[trigger] call_ensures(
                A::product,
                (kit, a, b),
                v,
            );
        let (c, d) = choose|c: Measure, d: Measure|
            s.gives(kit, c) && t.gives(kit, d) && #[trigger] call_ensures(
                A::product,
                (kit, c, d),
                w,
            );
        assert(a == c && b == d);
    }
}

/// With steady arithmetic what is left of one agrees where what is taken away does.
pub proof fn lemma_agree_rest<A: Arithmetic>(kit: &A, f: Formula, g: Formula)
    requires
        steady(kit),
        agree(kit, f, g),
    ensures
        agree(kit, constant(ONE).off(f), constant(ONE).off(g)),
{
    let unit = constant(ONE);
    let (one, other) = (unit.off(f), unit.off(g));
    assert forall|v: Measure, w: Measure|
        #![trigger one.gives(kit, v), other.gives(kit, w)]
        one.gives(kit, v) && other.gives(kit, w) implies v == w by {
        let (a, b) = choose|a: Measure, b: Measure|
            unit.gives(kit, a) && f.gives(kit, b) && #[trigger] call_ensures(
                A::gap,
                (kit, a, b),
                v,
            );
        let (c, d) = choose|c: Measure, d: Measure|
            unit.gives(kit, c) && g.gives(kit, d) && #[trigger] call_ensures(
                A::gap,
                (kit, c, d),
                w,
            );
        assert(a == c && b == d);
    }
}

/// Sums keep the order.
pub proof fn lemma_below_plus<A: Arithmetic>(
    kit: &A,
    f: Formula,
    g: Formula,
    s: Formula,
    t: Formula,
)
    requires
        orderly(kit),
        below(kit, f, s),
        below(kit, g, t),
    ensures
        below(kit, f.plus(g), s.plus(t)),
{
    let (low, high) = (f.plus(g), s.plus(t));
    assert forall|v: Measure, w: Measure|
        #![trigger low.gives(kit, v), high.gives(kit, w)]
        low.gives(kit, v) && high.gives(kit, w) implies v.bits <= w.bits <= INFINITY by {
        let (a, b) = choose|a: Measure, b: Measure|
            f.gives(kit, a) && g.gives(kit, b) && #[trigger] call_ensures(
                A::sum,
                (kit, a, b),
                v,
            );
        let (c, d) = choose|c: Measure, d: Measure|
            s.gives(kit, c) && t.gives(kit, d) && #[trigger] call_ensures(
                A::sum,
                (kit, c, d),
                w,
            );
        assert(a.bits <= c.bits && b.bits <= d.bits);
    }
}

/// Products keep the order.
pub proof fn lemma_below_times<A: Arithmetic>(
    kit: &A,
    f: Formula,
    g: Formula,
    s: Formula,
    t: Formula,
)
    requires
        orderly(kit),
        below(kit, f, s),
        below(kit, g, t),
    ensures
        below(kit, f.times(g), s.times(t)),
{
    let (low, high) = (f.times(g), s.times(t));
    assert forall|v: Measure, w: Measure|
        #![trigger low.gives(kit, v), high.gives(kit, w)]
        low.gives(kit, v) && high.gives(kit, w) implies v.bits <= w.bits <= INFINITY by {
        let (a, b) = choose|a: Measure, b: Measure|
            f.gives(kit, a) && g.gives(kit, b) && #[trigger] call_ensures(
                A::product,
                (kit, a, b),
                v,
            );
        let (c, d) = choose|c: Measure, d: Measure|
            s.gives(kit, c) && t.gives(kit, d) && #[trigger] call_ensures(
                A::product,
                (kit, c, d),
                w,
            );
        assert(a.bits <= c.bits && b.bits <= d.bits);
    }
}

/// Quotients keep the order of what is divided and turn that of what it is divided by.
pub proof fn lemma_below_over<A: Arithmetic>(
    kit: &A,
    f: Formula,
    g: Formula,
    s: Formula,
    t: Formula,
)
    requires
        orderly(kit),
        below(kit, f, s),
        below(kit, t, g),
    ensures
        below(kit, f.over(g), s.over(t)),
{
    let (low, high) = (f.over(g), s.over(t));
    assert forall|v: Measure, w: Measure|
        #![trigger low.gives(kit, v), high.gives(kit, w)]
        low.gives(kit, v) && high.gives(kit, w) implies v.bits <= w.bits <= INFINITY by {
        let (a, b) = choose|a: Measure, b: Measure|
            f.gives(kit, a) && g.gives(kit, b) && #[trigger] call_ensures(
                A::quotient,
                (kit, a, b),
                v,
            );
        let (c, d) = choose|c: Measure, d: Measure|
            s.gives(kit, c) && t.gives(kit, d) && #[trigger] call_ensures(
                A::quotient,
                (kit, c, d),
                w,
            );
        assert(a.bits <= c.bits && d.bits <= b.bits);
    }
}

/// What is left of one turns the order of what is taken away.
pub proof fn lemma_below_rest<A: Arithmetic>(kit: &A, f: Formula, g: Formula)
    requires
        orderly(kit),
        below(kit, f, g),
        at_most_one(kit, g),
    ensures
        below(kit, constant(ONE).off(g), constant(ONE).off(f)),
{
    let one = constant(ONE);
    let (low, high) = (one.off(g), one.off(f));
    assert forall|v: Measure, w: Measure|
        #![trigger low.gives(kit, v), high.gives(kit, w)]
        low.gives(kit, v) && high.gives(kit, w) implies v.bits <= w.bits <= INFINITY by {
        let (a, b) = choose|a: Measure, b: Measure|
            one.gives(kit, a) && g.gives(kit, b) && #[trigger] call_ensures(
                A::gap,
                (kit, a, b),
                v,
            );
        let (c, d) = choose|c: Measure, d: Measure|
            one.gives(kit, c) && f.gives(kit, d) && #[trigger] call_ensures(
                A::gap,
                (kit, c, d),
                w,
            );
        assert(a == c && a.bits == ONE);
        assert(d.bits <= b.bits && b.bits <= ONE);
    }
}

/// The larger of two keeps the order.
pub proof fn lemma_below_at_least<A: Arithmetic>(
    kit: &A,
    f: Formula,
    g: Formula,
    s: Formula,
    t: Formula,
)
    requires
        below(kit, f, s),
        below(kit, g, t),
    ensures
        below(kit, f.at_least(g), s.at_least(t)),
{
    let (low, high) = (f.at_least(g), s.at_least(t));
    assert forall|v: Measure, w: Measure|
        #![trigger low.gives(kit, v), high.gives(kit, w)]
        low.gives(kit, v) && high.gives(kit, w) implies v.bits <= w.bits <= INFINITY by {
        let (a, b) = choose|a: Measure, b: Measure|
            f.gives(kit, a) && g.gives(kit, b) && v == #[trigger] larger(a, b);
        let (c, d) = choose|c: Measure, d: Measure|
            s.gives(kit, c) && t.gives(kit, d) && w == #[trigger] larger(c, d);
        assert(a.bits <= c.bits && b.bits <= d.bits);
    }
}

/// The smaller of two keeps the order.
pub proof fn lemma_below_at_most<A: Arithmetic>(
    kit: &A,
    f: Formula,
    g: Formula,
    s: Formula,
    t: Formula,
)
    requires
        below(kit, f, s),
        below(kit, g, t),
    ensures
        below(kit, f.at_most(g), s.at_most(t)),
{
    let (low, high) = (f.at_most(g), s.at_most(t));
    assert forall|v: Measure, w: Measure|
        #![trigger low.gives(kit, v), high.gives(kit, w)]
        low.gives(kit, v) && high.gives(kit, w) implies v.bits <= w.bits <= INFINITY by {
        let (a, b) = choose|a: Measure, b: Measure|
            f.gives(kit, a) && g.gives(kit, b) && v == #[trigger] smaller(a, b);
        let (c, d) = choose|c: Measure, d: Measure|
            s.gives(kit, c) && t.gives(kit, d) && w == #[trigger] smaller(c, d);
        assert(a.bits <= c.bits && b.bits <= d.bits);
    }
}

/// Bounding keeps the order.
pub proof fn lemma_below_between<A: Arithmetic>(
    kit: &A,
    f: Formula,
    g: Formula,
    low: u64,
    high: u64,
)
    requires
        below(kit, f, g),
        low <= INFINITY,
        high <= INFINITY,
    ensures
        below(kit, f.between(low, high), g.between(low, high)),
{
    lemma_below_at_least(kit, f, constant(low), g, constant(low));
    lemma_below_at_most(
        kit,
        f.at_least(constant(low)),
        constant(high),
        g.at_least(constant(low)),
        constant(high),
    );
}

/// A constant share, of at most one, of what is at most one is at most one.
pub proof fn lemma_share_at_most_one<A: Arithmetic>(kit: &A, share: u64, f: Formula)
    requires
        orderly(kit),
        share <= ONE,
        at_most_one(kit, f),
    ensures
        at_most_one(kit, constant(share).times(f)),
{
    let part = constant(share).times(f);
    assert forall|v: Measure| #[trigger] part.gives(kit, v) implies v.bits <= ONE by {
        let (a, b) = choose|a: Measure, b: Measure|
            constant(share).gives(kit, a) && f.gives(kit, b) && #[trigger] call_ensures(
                A::product,
                (kit, a, b),
                v,
            );
        assert(a.bits == share && b.bits <= ONE);
    }
}

} // verus!
