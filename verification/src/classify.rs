//! Marks a unit as complex by its scores.

use vstd::prelude::*;
use crate::formulas::Scores;
use crate::thresholds::Thresholds;

verus! {

/// A unit is complex where any of its four scores lies strictly above the
/// bound set for it.
pub open spec fn spec_is_complex(scores: Scores, thresholds: Thresholds) -> bool {
    ||| scores.wcc_plain > thresholds.wcc_plain
    ||| scores.wcc_quantized > thresholds.wcc_quantized
    ||| scores.crap > thresholds.crap
    ||| scores.skunk > thresholds.skunk
}

/// Whether any of the four scores lies strictly above its bound.
pub fn is_complex(scores: &Scores, thresholds: &Thresholds) -> (r: bool)
    ensures
        r == spec_is_complex(*scores, *thresholds),
{
    scores.wcc_plain > thresholds.wcc_plain || scores.wcc_quantized > thresholds.wcc_quantized
        || scores.crap > thresholds.crap || scores.skunk > thresholds.skunk
}

/// With all bounds at zero, exactly the units with a positive score are complex.
pub proof fn lemma_zero_bounds(scores: Scores)
    ensures
        spec_is_complex(
            scores,
            Thresholds { wcc_plain: 0, wcc_quantized: 0, crap: 0, skunk: 0 },
        ) == (scores.wcc_plain > 0 || scores.wcc_quantized > 0 || scores.crap > 0 || scores.skunk
            > 0),
{
}

/// Raising a bound never makes a unit complex.
pub proof fn lemma_bounds_monotonic(scores: Scores, lower: Thresholds, higher: Thresholds)
    requires
        lower.wcc_plain <= higher.wcc_plain,
        lower.wcc_quantized <= higher.wcc_quantized,
        lower.crap <= higher.crap,
        lower.skunk <= higher.skunk,
    ensures
        spec_is_complex(scores, higher) ==> spec_is_complex(scores, lower),
{
}

/// With all bounds at their largest, no unit is complex.
pub proof fn lemma_largest_bounds(scores: Scores)
    ensures
        !spec_is_complex(
            scores,
            Thresholds {
                wcc_plain: u128::MAX,
                wcc_quantized: u128::MAX,
                crap: u128::MAX,
                skunk: u128::MAX,
            },
        ),
{
}

} // verus!
