//! From the judgements on a pool of peers to the contenders of a round: what exploring is worth, and
//! what being busy already costs.

use vstd::prelude::*;

use crate::formula::{constant, Formula, Term};
use crate::measure::{Arithmetic, Measure, HALF, QUARTER, ZERO};
use crate::scoring::{ScoredPeer, BAD_SOURCE_DROP};

verus! {

/// Whether `score` is the lowest score of a proven peer.
pub open spec fn lowest_proven(marks: Seq<ScoredPeer>, score: i128) -> bool {
    &&& exists|i: int|
        0 <= i < marks.len() && (#[trigger] marks[i]).proven() && marks[i].effective_score == score
    &&& forall|i: int|
        0 <= i < marks.len() && (#[trigger] marks[i]).proven() ==> score <= marks[i].effective_score
}

/// Whether `score` is the highest score of a proven peer.
pub open spec fn highest_proven(marks: Seq<ScoredPeer>, score: i128) -> bool {
    &&& exists|i: int|
        0 <= i < marks.len() && (#[trigger] marks[i]).proven() && marks[i].effective_score == score
    &&& forall|i: int|
        0 <= i < marks.len() && (#[trigger] marks[i]).proven() ==> marks[i].effective_score <= score
}

/// Whether a peer is proven.
pub open spec fn some_proven(marks: Seq<ScoredPeer>) -> bool {
    exists|i: int| 0 <= i < marks.len() && (#[trigger] marks[i]).proven()
}

/// Whether these are the bounds of the proven scores; both are zero where nobody is proven.
pub open spec fn are_bounds(marks: Seq<ScoredPeer>, worst: Measure, best: Measure) -> bool {
    if some_proven(marks) {
        lowest_proven(marks, worst.bits as i128) && highest_proven(marks, best.bits as i128)
    } else {
        worst.bits == ZERO && best.bits == ZERO
    }
}

/// The lowest and the highest score of the proven peers.
pub fn proven_score_bounds(marks: &Vec<ScoredPeer>) -> (r: (Measure, Measure))
    requires
        forall|i: int| 0 <= i < marks@.len() ==> (#[trigger] marks@[i]).wf(),
    ensures
        are_bounds(marks@, r.0, r.1),
{
    let mut worst: u64 = 0;
    let mut best: u64 = 0;
    let mut any = false;
    let mut i: usize = 0;
    while i < marks.len()
        invariant
            i <= marks@.len(),
            forall|j: int| 0 <= j < marks@.len() ==> (#[trigger] marks@[j]).wf(),
            !any ==> worst == 0 && best == 0 && forall|j: int|
                0 <= j < i ==> !(#[trigger] marks@[j]).proven(),
            any ==> lowest_proven(marks@.take(i as int), worst as i128) && highest_proven(
                marks@.take(i as int),
                best as i128,
            ),
        decreases marks@.len() - i,
    {
        let ghost before = marks@.take(i as int);
        let ghost after = marks@.take(i + 1);
        assert(forall|j: int| 0 <= j < i ==> before[j] == after[j]);
        assert(after[i as int] == marks@[i as int]);
        let mark = marks[i];
        if !mark.exploratory && mark.effective_score >= 0 {
            let score: u64 = mark.effective_score as u64;
            assert(after[i as int].proven());
            proof {
                if any {
                    let low = choose|j: int|
                        0 <= j < before.len() && (#[trigger] before[j]).proven()
                            && before[j].effective_score == worst as i128;
                    let high = choose|j: int|
                        0 <= j < before.len() && (#[trigger] before[j]).proven()
                            && before[j].effective_score == best as i128;
                    assert(after[low].proven() && after[high].proven());
                }
            }
            if !any || score < worst {
                worst = score;
            }
            if !any || score > best {
                best = score;
            }
            any = true;
            assert(lowest_proven(after, worst as i128));
            assert(highest_proven(after, best as i128));
        } else {
            proof {
                if any {
                    let low = choose|j: int|
                        0 <= j < before.len() && (#[trigger] before[j]).proven()
                            && before[j].effective_score == worst as i128;
                    let high = choose|j: int|
                        0 <= j < before.len() && (#[trigger] before[j]).proven()
                            && before[j].effective_score == best as i128;
                    assert(after[low].proven() && after[high].proven());
                    assert(lowest_proven(after, worst as i128));
                    assert(highest_proven(after, best as i128));
                }
            }
        }
        i = i + 1;
    }
    proof {
        assert(marks@.take(i as int) =~= marks@);
        if any {
            let low = choose|j: int|
                0 <= j < marks@.len() && (#[trigger] marks@[j]).proven()
                    && marks@[j].effective_score == worst as i128;
            assert(some_proven(marks@));
        }
    }
    (Measure { bits: worst }, Measure { bits: best })
}

/// What exploring an unmeasured peer is worth: a quarter of the way up from the worst proven score to
/// the best; half of the proven score where there is but one; nothing where nobody is proven.
pub open spec fn bonus_between(worst: Measure, best: Measure) -> Formula {
    let (low, high) = (Formula::Known(worst), Formula::Known(best));
    if best.bits > worst.bits {
        low.plus(constant(QUARTER).times(high.off(low)))
    } else if best.bits > ZERO {
        high.times(constant(HALF))
    } else {
        constant(ZERO)
    }
}

/// Whether `bonus` is what exploring is worth among peers judged so.
pub open spec fn is_bonus<A: Arithmetic>(kit: &A, marks: Seq<ScoredPeer>, bonus: Measure) -> bool {
    exists|worst: Measure, best: Measure|
        are_bounds(marks, worst, best) && #[trigger] bonus_between(worst, best).gives(kit, bonus)
}

/// What exploring an unmeasured peer is worth.
pub fn exploration_bonus<A: Arithmetic>(marks: &Vec<ScoredPeer>, kit: &A) -> (bonus: Measure)
    requires
        forall|i: int| 0 <= i < marks@.len() ==> (#[trigger] marks@[i]).wf(),
    ensures
        is_bonus(kit, marks@, bonus),
{
    let (worst, best) = proven_score_bounds(marks);
    let low = Term::known(worst, kit);
    let high = Term::known(best, kit);
    let bonus = if best.bits > worst.bits {
        let step = Term::constant(QUARTER, kit).times(&high.off(&low, kit), kit);
        low.plus(&step, kit).value
    } else if best.bits > ZERO {
        high.times(&Term::constant(HALF, kit), kit).value
    } else {
        Measure { bits: ZERO }
    };
    assert(bonus_between(worst, best).gives(kit, bonus));
    bonus
}

/// The judgement with the bonus for its score, where nothing was measured.
pub open spec fn explored(mark: ScoredPeer, bonus: Measure) -> ScoredPeer {
    if mark.exploratory {
        ScoredPeer { effective_score: bonus.bits as i128, ..mark }
    } else {
        mark
    }
}

/// Half of a score.
pub open spec fn half_of(score: Measure) -> Formula {
    Formula::Known(score).times(constant(HALF))
}

/// Whether `r` is the judgement on a peer that is active already: half the score, or for a bad source
/// an even lower one, and one range less of headroom.
pub open spec fn is_discounted<A: Arithmetic>(kit: &A, mark: ScoredPeer, r: ScoredPeer) -> bool {
    &&& if mark.effective_score >= 0 {
        exists|half: Measure| #[trigger]
            half_of(Measure { bits: mark.effective_score as u64 }).gives(kit, half)
                && r.effective_score == half.bits
    } else {
        r.effective_score == mark.effective_score - BAD_SOURCE_DROP
    }
    &&& r.headroom == (if mark.headroom == 0 {
        0
    } else {
        (mark.headroom - 1) as u32
    })
    &&& r.exploratory == mark.exploratory
    &&& r.tie_break == mark.tie_break
}

/// Whether `r` is the judgement that counts, given the bonus and whether the peer is active already.
pub open spec fn is_final<A: Arithmetic>(
    kit: &A,
    mark: ScoredPeer,
    bonus: Measure,
    active: bool,
    r: ScoredPeer,
) -> bool {
    if active {
        is_discounted(kit, explored(mark, bonus), r)
    } else {
        r == explored(mark, bonus)
    }
}

/// The judgement that counts.
pub fn finish<A: Arithmetic>(mark: ScoredPeer, bonus: Measure, active: bool, kit: &A) -> (r:
    ScoredPeer)
    requires
        mark.effective_score >= -BAD_SOURCE_DROP,
        mark.wf(),
    ensures
        is_final(kit, mark, bonus, active, r),
        r.wf(),
{
    let mut judged = mark;
    if mark.exploratory {
        judged.effective_score = bonus.bits as i128;
    }
    if active {
        if judged.effective_score >= 0 {
            let score = Measure { bits: judged.effective_score as u64 };
            let half = Term::known(score, kit).times(&Term::constant(HALF, kit), kit).value;
            assert(half_of(score).gives(kit, half));
            judged.effective_score = half.bits as i128;
        } else {
            judged.effective_score = judged.effective_score - BAD_SOURCE_DROP;
        }
        judged.headroom = judged.headroom.saturating_sub(1);
    }
    judged
}

} // verus!
