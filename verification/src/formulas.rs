//! The coverage ratio and the four weighted scores.
//!
//! A ratio is a whole number of millionths between 0 and 1 000 000. A score
//! is a whole number of millionths too: 4 592 596 stands for 4.592596. The
//! coverage ratio of a unit is rounded down to a millionth once, and every
//! score is then computed from that ratio in whole numbers.

use vstd::prelude::*;
use vstd::arithmetic::div_mod::{lemma_div_is_ordered, lemma_fundamental_div_mod, lemma_mod_bound};

verus! {

/// One whole unit, in millionths.
pub const ONE: u32 = 1_000_000;

/// The complexity above which a unit weighs double in the quantized score.
pub const CUT_POINT: u32 = 15;

/// The four scores of one unit, in millionths.
#[derive(Clone, Copy, Debug, PartialEq, Eq, Structural)]
pub struct Scores {
    pub wcc_plain: u128,
    pub wcc_quantized: u128,
    pub crap: u128,
    pub skunk: u128,
}

/// Covered lines that count: never more than the coverable lines.
pub open spec fn spec_counted(ploc: nat, covered: nat) -> nat {
    if covered > ploc {
        ploc
    } else {
        covered
    }
}

/// Covered over coverable lines in millionths, rounded down; 0 where no
/// line is coverable.
pub open spec fn spec_coverage(ploc: nat, covered: nat) -> nat {
    if ploc == 0 {
        0
    } else {
        spec_counted(ploc, covered) * 1_000_000 / ploc
    }
}

/// What is missing from full coverage, `1 - cov`, in millionths; a ratio
/// above one counts as one.
pub open spec fn spec_uncovered(cov: nat) -> nat {
    if cov >= 1_000_000 {
        0
    } else {
        (1_000_000 - cov) as nat
    }
}

/// The quantized weight of a complexity: 1 up to the cut-point, 2 above it.
pub open spec fn spec_weight(comp: nat) -> nat {
    if comp > CUT_POINT {
        2
    } else {
        1
    }
}

/// `comp * (1 - cov)`.
pub open spec fn spec_wcc_plain(comp: nat, cov: nat) -> nat {
    comp * spec_uncovered(cov)
}

/// `q(comp) * (1 - cov)`.
pub open spec fn spec_wcc_quantized(comp: nat, cov: nat) -> nat {
    spec_weight(comp) * spec_uncovered(cov)
}

/// `comp^2 * (1 - cov)^3 + comp`, the cubic term rounded down.
pub open spec fn spec_crap(comp: nat, cov: nat) -> nat {
    let u = spec_uncovered(cov);
    (comp * comp * (u * u * u)) / 1_000_000_000_000 + comp * 1_000_000
}

/// `(comp / 25) * (1 - cov)`, rounded down.
pub open spec fn spec_skunk(comp: nat, cov: nat) -> nat {
    (comp * spec_uncovered(cov)) / 25
}

/// The four scores of a unit of complexity `comp` and coverage `cov`.
pub open spec fn spec_scores(comp: nat, cov: nat) -> Scores {
    Scores {
        wcc_plain: spec_wcc_plain(comp, cov) as u128,
        wcc_quantized: spec_wcc_quantized(comp, cov) as u128,
        crap: spec_crap(comp, cov) as u128,
        skunk: spec_skunk(comp, cov) as u128,
    }
}

/// The coverage ratio never exceeds one.
pub proof fn lemma_coverage_bounded(ploc: nat, covered: nat)
    ensures
        spec_coverage(ploc, covered) <= 1_000_000,
{
    if ploc > 0 {
        let c = spec_counted(ploc, covered);
        assert(c * 1_000_000 <= ploc * 1_000_000) by (nonlinear_arith)
            requires
                c <= ploc,
        ;
        lemma_div_is_ordered((c * 1_000_000) as int, (ploc * 1_000_000) as int, ploc as int);
        assert((ploc * 1_000_000) / ploc == 1_000_000) by (nonlinear_arith)
            requires
                ploc > 0,
        ;
    }
}

/// More covered lines never lower the coverage ratio.
pub proof fn lemma_coverage_monotonic(ploc: nat, less: nat, more: nat)
    requires
        less <= more,
    ensures
        spec_coverage(ploc, less) <= spec_coverage(ploc, more),
{
    if ploc > 0 {
        let a = spec_counted(ploc, less);
        let b = spec_counted(ploc, more);
        assert(a * 1_000_000 <= b * 1_000_000) by (nonlinear_arith)
            requires
                a <= b,
        ;
        lemma_div_is_ordered((a * 1_000_000) as int, (b * 1_000_000) as int, ploc as int);
    }
}

/// With nothing covered the ratio is zero, with everything covered it is one.
pub proof fn lemma_coverage_ends(ploc: nat, covered: nat)
    requires
        ploc > 0,
    ensures
        spec_coverage(ploc, 0) == 0,
        covered >= ploc ==> spec_coverage(ploc, covered) == 1_000_000,
{
    assert(0nat * 1_000_000 / ploc == 0) by (nonlinear_arith)
        requires
            ploc > 0,
    ;
    assert((ploc * 1_000_000) / ploc == 1_000_000) by (nonlinear_arith)
        requires
            ploc > 0,
    ;
}

/// Bounds that keep every score within 128 bits.
pub proof fn lemma_scores_bounded(comp: nat, cov: nat)
    requires
        comp <= u32::MAX,
    ensures
        spec_uncovered(cov) <= 1_000_000,
        spec_wcc_plain(comp, cov) <= comp * 1_000_000,
        spec_wcc_quantized(comp, cov) <= 2_000_000,
        comp * comp * (spec_uncovered(cov) * spec_uncovered(cov) * spec_uncovered(cov))
            <= 0xffff_ffff * 0xffff_ffff * 1_000_000_000_000_000_000,
        spec_crap(comp, cov) <= comp * comp * 1_000_000 + comp * 1_000_000,
        spec_skunk(comp, cov) <= comp * 40_000,
        spec_crap(comp, cov) <= u128::MAX,
{
    let u = spec_uncovered(cov);
    assert(comp * u <= comp * 1_000_000) by (nonlinear_arith)
        requires
            u <= 1_000_000,
    ;
    assert(spec_weight(comp) * u <= 2_000_000) by (nonlinear_arith)
        requires
            u <= 1_000_000,
            spec_weight(comp) <= 2,
    ;
    assert(u * u * u <= 1_000_000_000_000_000_000) by (nonlinear_arith)
        requires
            u <= 1_000_000,
    ;
    let cube = u * u * u;
    assert(comp * comp <= 0xffff_ffff * 0xffff_ffff) by (nonlinear_arith)
        requires
            comp <= 0xffff_ffff,
    ;
    let square = comp * comp;
    assert(square * cube <= square * 1_000_000_000_000_000_000) by (nonlinear_arith)
        requires
            cube <= 1_000_000_000_000_000_000,
    ;
    assert(square * cube <= 0xffff_ffff * 0xffff_ffff * 1_000_000_000_000_000_000)
        by (nonlinear_arith)
        requires
            cube <= 1_000_000_000_000_000_000,
            square <= 0xffff_ffff * 0xffff_ffff,
    ;
    lemma_div_is_ordered(
        (square * cube) as int,
        (square * 1_000_000_000_000_000_000) as int,
        1_000_000_000_000,
    );
    assert((square * 1_000_000_000_000_000_000) / 1_000_000_000_000 == square * 1_000_000)
        by (nonlinear_arith);
    lemma_div_is_ordered((comp * u) as int, (comp * 1_000_000) as int, 25);
    assert((comp * 1_000_000) / 25 == comp * 40_000) by (nonlinear_arith);
    assert(square * 1_000_000 + comp * 1_000_000 <= u128::MAX) by (nonlinear_arith)
        requires
            square <= 0xffff_ffff * 0xffff_ffff,
            comp <= 0xffff_ffff,
    ;
}

/// What rounding the ratio costs: the uncovered share `1 - cov`, taken times
/// the coverable lines, is the number of uncovered lines or more, and
/// exceeds it by less than a millionth per coverable line. So the plain
/// score lies within `comp` millionths above `comp * (ploc - covered) / ploc`.
pub proof fn lemma_rounding(comp: nat, ploc: nat, covered: nat)
    requires
        ploc > 0,
    ensures
        (ploc - spec_counted(ploc, covered)) * 1_000_000 <= spec_uncovered(
            spec_coverage(ploc, covered),
        ) * ploc < (ploc - spec_counted(ploc, covered)) * 1_000_000 + ploc,
        comp * (ploc - spec_counted(ploc, covered)) * 1_000_000 <= spec_wcc_plain(
            comp,
            spec_coverage(ploc, covered),
        ) * ploc <= comp * (ploc - spec_counted(ploc, covered)) * 1_000_000 + comp * ploc,
{
    let c = spec_counted(ploc, covered);
    let cov = spec_coverage(ploc, covered);
    lemma_coverage_bounded(ploc, covered);
    lemma_fundamental_div_mod((c * 1_000_000) as int, ploc as int);
    lemma_mod_bound((c * 1_000_000) as int, ploc as int);
    let u = spec_uncovered(cov);
    assert(u == 1_000_000 - cov);
    assert(u * ploc == 1_000_000 * ploc - cov * ploc) by (nonlinear_arith)
        requires
            u == 1_000_000 - cov,
    ;
    assert(ploc * cov == cov * ploc) by (nonlinear_arith);
    assert((ploc - c) * 1_000_000 == 1_000_000 * ploc - c * 1_000_000) by (nonlinear_arith);
    let low = (ploc - c) * 1_000_000;
    assert(low <= u * ploc < low + ploc);
    assert(comp * low <= comp * (u * ploc) <= comp * low + comp * ploc) by (nonlinear_arith)
        requires
            low <= u * ploc < low + ploc,
    ;
    assert(comp * (u * ploc) == comp * u * ploc) by (nonlinear_arith);
    assert(comp * low == comp * (ploc - c) * 1_000_000) by (nonlinear_arith)
        requires
            low == (ploc - c) * 1_000_000,
    ;
}

/// With nothing covered, every score takes its worst value: the plain
/// score is the complexity itself, the quantized score is the weight and so
/// at most 2, CRAP is `comp^2 + comp`, and SKUNK is `comp / 25`.
pub proof fn lemma_zero_coverage(comp: nat)
    ensures
        spec_wcc_plain(comp, 0) == comp * 1_000_000,
        spec_wcc_quantized(comp, 0) == spec_weight(comp) * 1_000_000,
        spec_wcc_quantized(comp, 0) <= 2 * 1_000_000,
        spec_crap(comp, 0) == (comp * comp + comp) * 1_000_000,
        spec_skunk(comp, 0) * 25 == comp * 1_000_000,
{
    assert(1_000_000nat * 1_000_000 * 1_000_000 == 1_000_000_000_000_000_000nat)
        by (nonlinear_arith);
    let square = comp * comp;
    assert((square * 1_000_000_000_000_000_000) / 1_000_000_000_000 == square * 1_000_000)
        by (nonlinear_arith);
    assert((comp * comp + comp) * 1_000_000 == square * 1_000_000 + comp * 1_000_000)
        by (nonlinear_arith)
        requires
            square == comp * comp,
    ;
    assert((comp * 1_000_000) / 25 == comp * 40_000) by (nonlinear_arith);
}

/// With nothing covered, the plain score equals `comp * sloc / ploc` for a
/// unit whose lines are all coverable, and for one of complexity zero.
pub proof fn lemma_zero_coverage_plain(comp: nat, sloc: nat, ploc: nat)
    requires
        ploc > 0,
        comp * sloc == comp * ploc,
    ensures
        spec_wcc_plain(comp, 0) * ploc == comp * sloc * 1_000_000,
{
    assert(comp * 1_000_000 * ploc == comp * ploc * 1_000_000) by (nonlinear_arith);
}

/// With nothing covered, the quantized score is at most `2 * sloc / ploc`
/// for a unit whose weighted coverable lines do not exceed twice its lines.
pub proof fn lemma_zero_coverage_quantized(comp: nat, sloc: nat, ploc: nat)
    requires
        ploc > 0,
        spec_weight(comp) * ploc <= 2 * sloc,
    ensures
        spec_wcc_quantized(comp, 0) * ploc <= 2 * sloc * 1_000_000,
{
    let w = spec_weight(comp);
    assert(w * 1_000_000 * ploc <= 2 * sloc * 1_000_000) by (nonlinear_arith)
        requires
            w * ploc <= 2 * sloc,
    ;
}

/// With everything covered, the plain, quantized and SKUNK scores are zero
/// and CRAP is the complexity.
pub proof fn lemma_full_coverage(comp: nat)
    ensures
        spec_wcc_plain(comp, 1_000_000) == 0,
        spec_wcc_quantized(comp, 1_000_000) == 0,
        spec_skunk(comp, 1_000_000) == 0,
        spec_crap(comp, 1_000_000) == comp * 1_000_000,
{
    assert(comp * 0 == 0) by (nonlinear_arith);
    assert(spec_weight(comp) * 0 == 0) by (nonlinear_arith);
    assert(comp * comp * (0nat * 0 * 0) == 0) by (nonlinear_arith);
}

/// No score rises when coverage rises.
pub proof fn lemma_scores_monotonic(comp: nat, lower: nat, higher: nat)
    requires
        lower <= higher,
    ensures
        spec_wcc_plain(comp, higher) <= spec_wcc_plain(comp, lower),
        spec_wcc_quantized(comp, higher) <= spec_wcc_quantized(comp, lower),
        spec_crap(comp, higher) <= spec_crap(comp, lower),
        spec_skunk(comp, higher) <= spec_skunk(comp, lower),
{
    let a = spec_uncovered(higher);
    let b = spec_uncovered(lower);
    assert(a <= b);
    assert(comp * a <= comp * b) by (nonlinear_arith)
        requires
            a <= b,
    ;
    let w = spec_weight(comp);
    assert(w * a <= w * b) by (nonlinear_arith)
        requires
            a <= b,
    ;
    assert(a * a * a <= b * b * b) by (nonlinear_arith)
        requires
            a <= b,
    ;
    let square = comp * comp;
    let cube_a = a * a * a;
    let cube_b = b * b * b;
    assert(square * cube_a <= square * cube_b) by (nonlinear_arith)
        requires
            cube_a <= cube_b,
    ;
    lemma_div_is_ordered((square * cube_a) as int, (square * cube_b) as int, 1_000_000_000_000);
    lemma_div_is_ordered((comp * a) as int, (comp * b) as int, 25);
}

/// No score rises when more of a unit's lines are covered.
pub proof fn lemma_scores_monotonic_in_lines(comp: nat, ploc: nat, less: nat, more: nat)
    requires
        less <= more,
    ensures
        spec_wcc_plain(comp, spec_coverage(ploc, more)) <= spec_wcc_plain(
            comp,
            spec_coverage(ploc, less),
        ),
        spec_wcc_quantized(comp, spec_coverage(ploc, more)) <= spec_wcc_quantized(
            comp,
            spec_coverage(ploc, less),
        ),
        spec_crap(comp, spec_coverage(ploc, more)) <= spec_crap(comp, spec_coverage(ploc, less)),
        spec_skunk(comp, spec_coverage(ploc, more)) <= spec_skunk(comp, spec_coverage(ploc, less)),
{
    lemma_coverage_monotonic(ploc, less, more);
    lemma_scores_monotonic(comp, spec_coverage(ploc, less), spec_coverage(ploc, more));
}

/// Covered over coverable lines in millionths.
pub fn coverage(ploc: u64, covered: u64) -> (cov: u32)
    ensures
        cov == spec_coverage(ploc as nat, covered as nat),
        cov <= ONE,
{
    proof {
        lemma_coverage_bounded(ploc as nat, covered as nat);
    }
    if ploc == 0 {
        return 0;
    }
    let counted: u64 = if covered > ploc {
        ploc
    } else {
        covered
    };
    let scaled: u128 = (counted as u128) * (ONE as u128);
    (scaled / (ploc as u128)) as u32
}

/// What is missing from full coverage, in millionths.
pub fn uncovered(cov: u32) -> (u: u32)
    ensures
        u == spec_uncovered(cov as nat),
        u <= ONE,
{
    if cov >= ONE {
        0
    } else {
        ONE - cov
    }
}

/// The quantized weight of a complexity.
pub fn weight(comp: u32) -> (w: u32)
    ensures
        w == spec_weight(comp as nat),
{
    if comp > CUT_POINT {
        2
    } else {
        1
    }
}

impl Scores {
    /// Computes the four scores of a unit of complexity `comp` whose
    /// coverage ratio is `cov` millionths.
    pub fn compute(comp: u32, cov: u32) -> (s: Scores)
        ensures
            s == spec_scores(comp as nat, cov as nat),
            s.wcc_plain == spec_wcc_plain(comp as nat, cov as nat),
            s.wcc_quantized == spec_wcc_quantized(comp as nat, cov as nat),
            s.crap == spec_crap(comp as nat, cov as nat),
            s.skunk == spec_skunk(comp as nat, cov as nat),
    {
        proof {
            lemma_scores_bounded(comp as nat, cov as nat);
        }
        let u: u128 = uncovered(cov) as u128;
        let c: u128 = comp as u128;
        let w: u128 = weight(comp) as u128;
        let plain: u128 = c * u;
        let quantized: u128 = w * u;
        assert(c * c <= 0xffff_ffff * 0xffff_ffff) by (nonlinear_arith)
            requires
                c <= 0xffff_ffff,
        ;
        let square: u128 = c * c;
        assert(u * u <= 1_000_000_000_000) by (nonlinear_arith)
            requires
                u <= 1_000_000,
        ;
        assert(u * u * u <= 1_000_000_000_000_000_000) by (nonlinear_arith)
            requires
                u <= 1_000_000,
        ;
        let cube: u128 = u * u * u;
        let crap: u128 = (square * cube) / 1_000_000_000_000 + c * 1_000_000;
        let skunk: u128 = plain / 25;
        Scores { wcc_plain: plain, wcc_quantized: quantized, crap, skunk }
    }
}

} // verus!
