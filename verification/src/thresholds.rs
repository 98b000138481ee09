//! The four bounds above which a score marks its unit as complex.

use vstd::prelude::*;
use vstd::string::StringSliceAdditionalSpecFns;
use crate::decimal::{find_byte, parse_decimal, spec_find, spec_parse_decimal, DecimalError};

verus! {

/// Bounds for the four scores, in millionths, in the fixed order
/// weighted-plain, weighted-quantized, CRAP, SKUNK. A bound of zero flags
/// every unit whose score is positive; the largest bound flags none.
#[derive(Clone, Copy, Debug, PartialEq, Eq, Structural)]
pub struct Thresholds {
    pub wcc_plain: u128,
    pub wcc_quantized: u128,
    pub crap: u128,
    pub skunk: u128,
}

/// Why a piece of text gives no set of thresholds.
#[derive(Clone, Copy, Debug, PartialEq, Eq, Structural)]
pub enum ThresholdError {
    /// The text does not hold exactly four comma-separated values.
    Count,
    /// The value at `index` (counted from 0) is not acceptable.
    Value { index: u8, reason: DecimalError },
}

/// ASCII white space: blank, tab, line feed, vertical tab, form feed, return.
pub open spec fn spec_is_space(b: u8) -> bool {
    b == 32 || (9 <= b <= 13)
}

/// `s` without the white space at its start.
pub open spec fn spec_trim_start(s: Seq<u8>) -> Seq<u8>
    decreases s.len(),
{
    if s.len() > 0 && spec_is_space(s[0]) {
        spec_trim_start(s.skip(1))
    } else {
        s
    }
}

/// `s` without the white space at its end.
pub open spec fn spec_trim_end(s: Seq<u8>) -> Seq<u8>
    decreases s.len(),
{
    if s.len() > 0 && spec_is_space(s.last()) {
        spec_trim_end(s.drop_last())
    } else {
        s
    }
}

/// `s` without the white space at either end.
pub open spec fn spec_trim(s: Seq<u8>) -> Seq<u8> {
    spec_trim_end(spec_trim_start(s))
}

/// The pieces of `s` between occurrences of `sep`; always at least one.
pub open spec fn spec_split(s: Seq<u8>, sep: u8) -> Seq<Seq<u8>>
    decreases s.len(),
{
    let k = spec_find(s, sep);
    if 0 <= k < s.len() {
        seq![s.take(k)] + spec_split(s.skip(k + 1), sep)
    } else {
        seq![s]
    }
}

/// What one comma-separated piece means as a bound.
pub open spec fn spec_bound(piece: Seq<u8>) -> Result<u128, DecimalError> {
    spec_parse_decimal(spec_trim(piece))
}

/// What a text means as a set of thresholds: its four comma-separated
/// numbers, or the first thing wrong with it. A wrong number of values is
/// reported before a wrong value, and of several wrong values the leftmost.
pub open spec fn spec_parse_thresholds(text: Seq<u8>) -> Result<Thresholds, ThresholdError> {
    let pieces = spec_split(text, 44);
    if pieces.len() != 4 {
        Err(ThresholdError::Count)
    } else {
        match (
            spec_bound(pieces[0]),
            spec_bound(pieces[1]),
            spec_bound(pieces[2]),
            spec_bound(pieces[3]),
        ) {
            (Ok(a), Ok(b), Ok(c), Ok(d)) => Ok(
                Thresholds { wcc_plain: a, wcc_quantized: b, crap: c, skunk: d },
            ),
            (Err(e), _, _, _) => Err(ThresholdError::Value { index: 0, reason: e }),
            (_, Err(e), _, _) => Err(ThresholdError::Value { index: 1, reason: e }),
            (_, _, Err(e), _) => Err(ThresholdError::Value { index: 2, reason: e }),
            (_, _, _, Err(e)) => Err(ThresholdError::Value { index: 3, reason: e }),
        }
    }
}

/// Whether `b` is ASCII white space.
pub fn is_space(b: u8) -> (r: bool)
    ensures
        r == spec_is_space(b),
{
    b == 32 || (9 <= b && b <= 13)
}

/// The bounds of `s[from..to]` without the white space at either end.
pub fn trim(s: &[u8], from: usize, to: usize) -> (r: (usize, usize))
    requires
        from <= to <= s.len(),
    ensures
        from <= r.0 <= r.1 <= to,
        s@.subrange(r.0 as int, r.1 as int) == spec_trim(s@.subrange(from as int, to as int)),
{
    let mut a: usize = from;
    while a < to && is_space(s[a])
        invariant
            from <= a <= to <= s.len(),
            spec_trim_start(s@.subrange(from as int, to as int)) == spec_trim_start(
                s@.subrange(a as int, to as int),
            ),
        decreases to - a,
    {
        proof {
            let cur = s@.subrange(a as int, to as int);
            assert(cur[0] == s@[a as int]);
            assert(cur.skip(1) == s@.subrange(a + 1, to as int));
        }
        a += 1;
    }
    proof {
        let cur = s@.subrange(a as int, to as int);
        if a < to {
            assert(cur[0] == s@[a as int]);
        }
        assert(spec_trim_start(cur) == cur);
    }
    let mut b: usize = to;
    while a < b && is_space(s[b - 1])
        invariant
            a <= b <= to <= s.len(),
            spec_trim_end(s@.subrange(a as int, to as int)) == spec_trim_end(
                s@.subrange(a as int, b as int),
            ),
        decreases b - a,
    {
        proof {
            let cur = s@.subrange(a as int, b as int);
            assert(cur.last() == s@[b - 1]);
            assert(cur.drop_last() == s@.subrange(a as int, b - 1));
        }
        b -= 1;
    }
    proof {
        let cur = s@.subrange(a as int, b as int);
        if a < b {
            assert(cur.last() == s@[b - 1]);
        }
        assert(spec_trim_end(cur) == cur);
    }
    (a, b)
}

impl Thresholds {
    /// The default bounds: 35.0, 1.5, 35.0 and 30.0.
    pub open spec fn spec_default() -> Thresholds {
        Thresholds {
            wcc_plain: 35_000_000,
            wcc_quantized: 1_500_000,
            crap: 35_000_000,
            skunk: 30_000_000,
        }
    }

    /// Reads four comma-separated non-negative numbers, written with or
    /// without a decimal point and an exponent, each rounded towards zero
    /// to six decimal places.
    pub fn parse(text: &[u8]) -> (r: Result<Thresholds, ThresholdError>)
        ensures
            r == spec_parse_thresholds(text@),
    {
        let ghost all = spec_split(text@, 44);
        let mut bounds: Vec<Result<u128, DecimalError>> = Vec::new();
        let mut pos: usize = 0;
        let mut open = true;
        proof {
            assert(text@.skip(0) == text@);
        }
        while open
            invariant
                pos <= text.len(),
                bounds.len() <= 4,
                all == spec_split(text@, 44),
                open ==> all == Seq::new(bounds.len() as nat, |i: int| all[i]) + spec_split(
                    text@.skip(pos as int),
                    44,
                ),
                open ==> bounds.len() < all.len(),
                !open ==> bounds.len() == all.len(),
                forall|i: int| 0 <= i < bounds.len() ==> #[trigger] bounds[i] == spec_bound(all[i]),
            decreases text.len() - pos + (if open { 1int } else { 0int }),
        {
            if bounds.len() == 4 {
                return Err(ThresholdError::Count);
            }
            let end = find_byte(text, pos, text.len(), 44);
            let (a, b) = trim(text, pos, end);
            let bound = parse_decimal(text, a, b);
            proof {
                let rest = text@.skip(pos as int);
                assert(rest == text@.subrange(pos as int, text.len() as int));
                if end < text.len() {
                    assert(rest.take(end - pos) == text@.subrange(pos as int, end as int));
                    assert(rest.skip(end - pos + 1) == text@.skip(end + 1));
                } else {
                    assert(rest == text@.subrange(pos as int, end as int));
                }
                let n = bounds.len() as int;
                assert(all[n] == text@.subrange(pos as int, end as int)) by {
                    assert(spec_split(rest, 44)[0] == text@.subrange(pos as int, end as int));
                }
            }
            bounds.push(bound);
            if end < text.len() {
                proof {
                    let rest = text@.skip(pos as int);
                    let n = bounds.len() as int;
                    assert(all =~= Seq::new(n as nat, |i: int| all[i]) + spec_split(
                        text@.skip(end + 1),
                        44,
                    )) by {
                        let before = Seq::new((n - 1) as nat, |i: int| all[i]);
                        assert(all == before + (seq![rest.take(end - pos)] + spec_split(
                            text@.skip(end + 1),
                            44,
                        )));
                    }
                }
                pos = end + 1;
            } else {
                open = false;
            }
        }
        if bounds.len() != 4 {
            return Err(ThresholdError::Count);
        }
        match (bounds[0], bounds[1], bounds[2], bounds[3]) {
            (Ok(a), Ok(b), Ok(c), Ok(d)) => Ok(
                Thresholds { wcc_plain: a, wcc_quantized: b, crap: c, skunk: d },
            ),
            (Err(e), _, _, _) => Err(ThresholdError::Value { index: 0, reason: e }),
            (_, Err(e), _, _) => Err(ThresholdError::Value { index: 1, reason: e }),
            (_, _, Err(e), _) => Err(ThresholdError::Value { index: 2, reason: e }),
            (_, _, _, Err(e)) => Err(ThresholdError::Value { index: 3, reason: e }),
        }
    }
}

impl std::str::FromStr for Thresholds {
    type Err = ThresholdError;

    /// Reads four comma-separated non-negative numbers from a string.
    fn from_str(s: &str) -> (r: Result<Thresholds, ThresholdError>)
        ensures
            r == spec_parse_thresholds(s.spec_bytes()),
    {
        Thresholds::parse(s.as_bytes())
    }
}

impl Default for Thresholds {
    fn default() -> (r: Thresholds)
        ensures
            r == Thresholds::spec_default(),
    {
        Thresholds {
            wcc_plain: 35_000_000,
            wcc_quantized: 1_500_000,
            crap: 35_000_000,
            skunk: 30_000_000,
        }
    }
}

} // verus!
