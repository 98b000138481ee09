//! The order in which complex units are listed: highest score first.

use vstd::prelude::*;
use crate::metric::{spec_key, spec_name, spec_rows, MetricResult, MetricRow};
use crate::options::Sort;
use crate::text::{
    bytes_eq, bytes_lt, lemma_bytes_lt_total, lemma_bytes_lt_transitive, spec_bytes_lt,
    spec_ordered_at,
};

verus! {

/// `a` is listed before `b`: its score under `sort` is higher, or the scores
/// are equal and its path comes first, or those are equal too and its name
/// comes first.
pub open spec fn spec_precedes(a: MetricRow, b: MetricRow, sort: Sort) -> bool {
    ||| spec_key(a, sort) > spec_key(b, sort)
    ||| spec_key(a, sort) == spec_key(b, sort) && spec_bytes_lt(a.path, b.path)
    ||| spec_key(a, sort) == spec_key(b, sort) && a.path == b.path && spec_bytes_lt(
        spec_name(a),
        spec_name(b),
    )
}

/// No row of `rows` is listed before a row that stands ahead of it.
pub open spec fn spec_sorted(rows: Seq<MetricRow>, sort: Sort) -> bool {
    forall|i: int, j: int| 0 <= i < j < rows.len() ==> !spec_precedes(rows[j], rows[i], sort)
}

/// `rows`, already in order, with `x` put in: behind every row that it is
/// not listed before, and so behind the rows that tie with it.
pub open spec fn spec_insert(rows: Seq<MetricRow>, x: MetricRow, sort: Sort) -> Seq<MetricRow>
    decreases rows.len(),
{
    if rows.len() > 0 && spec_precedes(x, rows.last(), sort) {
        spec_insert(rows.drop_last(), x, sort).push(rows.last())
    } else {
        rows.push(x)
    }
}

/// `rows` in order: the rows put in one by one, so that rows that tie keep
/// the order in which they came.
pub open spec fn spec_rank(rows: Seq<MetricRow>, sort: Sort) -> Seq<MetricRow>
    decreases rows.len(),
{
    if rows.len() == 0 {
        Seq::empty()
    } else {
        spec_insert(spec_rank(rows.drop_last(), sort), rows.last(), sort)
    }
}

/// The place at which `x` goes into `rows`.
pub open spec fn spec_place(rows: Seq<MetricRow>, x: MetricRow, sort: Sort) -> nat
    decreases rows.len(),
{
    if rows.len() > 0 && spec_precedes(x, rows.last(), sort) {
        spec_place(rows.drop_last(), x, sort)
    } else {
        rows.len()
    }
}

/// Putting `x` in is inserting it at its place.
pub proof fn lemma_insert_at_place(rows: Seq<MetricRow>, x: MetricRow, sort: Sort)
    ensures
        spec_place(rows, x, sort) <= rows.len(),
        spec_insert(rows, x, sort) == rows.insert(spec_place(rows, x, sort) as int, x),
    decreases rows.len(),
{
    if rows.len() > 0 && spec_precedes(x, rows.last(), sort) {
        lemma_insert_at_place(rows.drop_last(), x, sort);
        let p = spec_place(rows, x, sort) as int;
        assert(rows.drop_last().insert(p, x).push(rows.last()) =~= rows.insert(p, x));
    } else {
        assert(rows.push(x) =~= rows.insert(rows.len() as int, x));
    }
}

/// The empty name comes before every other name and after none.
proof fn lemma_empty_name(s: Seq<u8>)
    ensures
        spec_bytes_lt(Seq::empty(), s) == (s.len() > 0),
        !spec_bytes_lt(s, Seq::empty()),
{
    let e = Seq::<u8>::empty();
    if s.len() > 0 {
        assert(e.take(0) == s.take(0));
        assert(spec_ordered_at(e, s, 0));
    }
}

/// Whether `a` is listed before `b`.
pub fn precedes(a: &MetricResult, b: &MetricResult, sort: Sort) -> (r: bool)
    ensures
        r == spec_precedes(a@, b@, sort),
{
    let ka = a.key(sort);
    let kb = b.key(sort);
    if ka != kb {
        return ka > kb;
    }
    if !bytes_eq(a.path.as_slice(), b.path.as_slice()) {
        proof {
            lemma_bytes_lt_total(a.path@, a.path@);
        }
        return bytes_lt(a.path.as_slice(), b.path.as_slice());
    }
    proof {
        lemma_bytes_lt_total(a.path@, b.path@);
        lemma_empty_name(spec_name(a@));
        lemma_empty_name(spec_name(b@));
    }
    match (&a.function, &b.function) {
        (Some(f), Some(g)) => bytes_lt(f.name.as_slice(), g.name.as_slice()),
        (None, Some(g)) => g.name.len() > 0,
        (_, None) => false,
    }
}

/// Puts `x` into the ordered `rows`.
pub fn insert_ranked(rows: &mut Vec<MetricResult>, x: MetricResult, sort: Sort)
    ensures
        spec_rows(final(rows)@) == spec_insert(spec_rows(old(rows)@), x@, sort),
{
    let ghost before = spec_rows(rows@);
    let mut place: usize = rows.len();
    proof {
        assert(before.take(rows.len() as int) == before);
    }
    while place > 0 && precedes(&x, &rows[place - 1], sort)
        invariant
            place <= rows.len(),
            before == spec_rows(rows@),
            spec_place(before, x@, sort) == spec_place(before.take(place as int), x@, sort),
        decreases place,
    {
        proof {
            let head = before.take(place as int);
            assert(head.last() == rows[place - 1]@);
            assert(head.drop_last() == before.take(place - 1));
        }
        place -= 1;
    }
    proof {
        assert(before.take(rows.len() as int) == before);
        let head = before.take(place as int);
        if place > 0 {
            assert(head.last() == rows[place - 1]@);
        }
        assert(spec_place(head, x@, sort) == place);
        lemma_insert_at_place(before, x@, sort);
        assert(spec_rows(rows@.insert(place as int, x)) =~= before.insert(place as int, x@));
    }
    rows.insert(place, x);
}

/// The rows in order, highest score first; rows that tie keep their order.
pub fn rank(rows: &Vec<MetricResult>, sort: Sort) -> (ranked: Vec<MetricResult>)
    ensures
        spec_rows(ranked@) == spec_rank(spec_rows(rows@), sort),
{
    let ghost all = spec_rows(rows@);
    let mut ranked: Vec<MetricResult> = Vec::with_capacity(rows.len());
    let mut i: usize = 0;
    proof {
        assert(all.take(0) == Seq::<MetricRow>::empty());
        assert(spec_rows(ranked@) == Seq::<MetricRow>::empty());
    }
    while i < rows.len()
        invariant
            i <= rows.len(),
            all == spec_rows(rows@),
            spec_rows(ranked@) == spec_rank(all.take(i as int), sort),
        decreases rows.len() - i,
    {
        proof {
            assert(all.take(i + 1).drop_last() == all.take(i as int));
            assert(all.take(i + 1).last() == rows[i as int]@);
        }
        insert_ranked(&mut ranked, rows[i].duplicate(), sort);
        i += 1;
    }
    proof {
        assert(all.take(rows.len() as int) == all);
    }
    ranked
}

/// Of three byte strings none of which comes before the next, the first
/// does not come before the last.
proof fn lemma_bytes_not_lt_transitive(a: Seq<u8>, b: Seq<u8>, c: Seq<u8>)
    requires
        !spec_bytes_lt(a, b),
        !spec_bytes_lt(b, c),
    ensures
        !spec_bytes_lt(a, c),
{
    lemma_bytes_lt_total(a, b);
    lemma_bytes_lt_total(b, c);
    lemma_bytes_lt_total(a, a);
    if spec_bytes_lt(a, c) && a != b && b != c {
        lemma_bytes_lt_transitive(c, b, a);
        lemma_bytes_lt_transitive(a, c, a);
    }
}

/// Being listed before is a strict order in which ties are transitive: no
/// row is listed before itself, the relation is transitive, and a row that
/// is not listed before a second, which is not listed before a third, is
/// not listed before the third.
pub proof fn lemma_precedes_order(a: MetricRow, b: MetricRow, c: MetricRow, sort: Sort)
    ensures
        !spec_precedes(a, a, sort),
        spec_precedes(a, b, sort) ==> !spec_precedes(b, a, sort),
        spec_precedes(a, b, sort) && spec_precedes(b, c, sort) ==> spec_precedes(a, c, sort),
        !spec_precedes(a, b, sort) && !spec_precedes(b, c, sort) ==> !spec_precedes(a, c, sort),
{
    lemma_bytes_lt_total(a.path, a.path);
    lemma_bytes_lt_total(spec_name(a), spec_name(a));
    lemma_bytes_lt_total(a.path, b.path);
    lemma_bytes_lt_total(b.path, c.path);
    lemma_bytes_lt_total(a.path, c.path);
    lemma_bytes_lt_total(spec_name(a), spec_name(b));
    lemma_bytes_lt_total(spec_name(b), spec_name(c));
    lemma_bytes_lt_total(spec_name(a), spec_name(c));
    if spec_bytes_lt(a.path, b.path) && spec_bytes_lt(b.path, c.path) {
        lemma_bytes_lt_transitive(a.path, b.path, c.path);
    }
    if spec_bytes_lt(spec_name(a), spec_name(b)) && spec_bytes_lt(spec_name(b), spec_name(c)) {
        lemma_bytes_lt_transitive(spec_name(a), spec_name(b), spec_name(c));
    }
    if !spec_bytes_lt(a.path, b.path) && !spec_bytes_lt(b.path, c.path) {
        lemma_bytes_not_lt_transitive(a.path, b.path, c.path);
    }
    if !spec_bytes_lt(spec_name(a), spec_name(b)) && !spec_bytes_lt(spec_name(b), spec_name(c)) {
        lemma_bytes_not_lt_transitive(spec_name(a), spec_name(b), spec_name(c));
    }
}

/// At its place, `x` stands behind a row that it is not listed before, and
/// ahead of rows that it is listed before.
proof fn lemma_place(rows: Seq<MetricRow>, x: MetricRow, sort: Sort)
    ensures
        spec_place(rows, x, sort) <= rows.len(),
        spec_place(rows, x, sort) > 0 ==> !spec_precedes(
            x,
            rows[spec_place(rows, x, sort) - 1],
            sort,
        ),
        forall|k: int|
            spec_place(rows, x, sort) <= k < rows.len() ==> spec_precedes(x, rows[k], sort),
    decreases rows.len(),
{
    if rows.len() > 0 && spec_precedes(x, rows.last(), sort) {
        lemma_place(rows.drop_last(), x, sort);
        assert forall|k: int| spec_place(rows, x, sort) <= k < rows.len() implies spec_precedes(
            x,
            rows[k],
            sort,
        ) by {
            if k < rows.len() - 1 {
                assert(rows.drop_last()[k] == rows[k]);
            }
        }
    }
}

/// Putting a row into ordered rows leaves them ordered.
pub proof fn lemma_insert_sorted(rows: Seq<MetricRow>, x: MetricRow, sort: Sort)
    requires
        spec_sorted(rows, sort),
    ensures
        spec_sorted(spec_insert(rows, x, sort), sort),
{
    lemma_insert_at_place(rows, x, sort);
    lemma_place(rows, x, sort);
    let p = spec_place(rows, x, sort) as int;
    let out = rows.insert(p, x);
    assert forall|i: int, j: int| 0 <= i < j < out.len() implies !spec_precedes(
        out[j],
        out[i],
        sort,
    ) by {
        if j == p {
            // out[i] is a row ahead of the place
            lemma_precedes_order(x, rows[p - 1], rows[i], sort);
        } else if i == p {
            lemma_precedes_order(x, rows[j - 1], x, sort);
        } else if i < p && j > p {
            assert(out[i] == rows[i]);
            assert(out[j] == rows[j - 1]);
        } else if j < p {
            assert(out[i] == rows[i]);
            assert(out[j] == rows[j]);
        } else {
            assert(out[i] == rows[i - 1]);
            assert(out[j] == rows[j - 1]);
        }
    }
}

/// Ranked rows are in order: highest score first, and among equal scores
/// by path and then by name.
pub proof fn lemma_rank_sorted(rows: Seq<MetricRow>, sort: Sort)
    ensures
        spec_sorted(spec_rank(rows, sort), sort),
    decreases rows.len(),
{
    if rows.len() > 0 {
        lemma_rank_sorted(rows.drop_last(), sort);
        lemma_insert_sorted(spec_rank(rows.drop_last(), sort), rows.last(), sort);
    }
}

/// Putting a row in adds that row and nothing else.
pub proof fn lemma_insert_permutes(rows: Seq<MetricRow>, x: MetricRow, sort: Sort)
    ensures
        spec_insert(rows, x, sort).to_multiset() == rows.to_multiset().insert(x),
        spec_insert(rows, x, sort).len() == rows.len() + 1,
    decreases rows.len(),
{
    broadcast use vstd::seq_lib::to_multiset_build;

    if rows.len() > 0 && spec_precedes(x, rows.last(), sort) {
        lemma_insert_permutes(rows.drop_last(), x, sort);
        assert(rows == rows.drop_last().push(rows.last()));
        assert(rows.drop_last().to_multiset().insert(x).insert(rows.last())
            =~= rows.drop_last().to_multiset().insert(rows.last()).insert(x));
    }
}

/// Ranking rearranges: the ranked rows are the given rows, each as often as
/// it was given.
pub proof fn lemma_rank_permutes(rows: Seq<MetricRow>, sort: Sort)
    ensures
        spec_rank(rows, sort).to_multiset() == rows.to_multiset(),
        spec_rank(rows, sort).len() == rows.len(),
    decreases rows.len(),
{
    broadcast use vstd::seq_lib::to_multiset_build;

    if rows.len() > 0 {
        lemma_rank_permutes(rows.drop_last(), sort);
        lemma_insert_permutes(spec_rank(rows.drop_last(), sort), rows.last(), sort);
        assert(rows == rows.drop_last().push(rows.last()));
    } else {
        assert(rows =~= Seq::<MetricRow>::empty());
    }
}

/// Two rows tie where neither is listed before the other.
pub open spec fn spec_ties(a: MetricRow, b: MetricRow, sort: Sort) -> bool {
    !spec_precedes(a, b, sort) && !spec_precedes(b, a, sort)
}

/// The rows of `rows` that tie with `x`, in their order.
pub open spec fn spec_tied(rows: Seq<MetricRow>, x: MetricRow, sort: Sort) -> Seq<MetricRow>
    decreases rows.len(),
{
    if rows.len() == 0 {
        Seq::empty()
    } else if spec_ties(rows.last(), x, sort) {
        spec_tied(rows.drop_last(), x, sort).push(rows.last())
    } else {
        spec_tied(rows.drop_last(), x, sort)
    }
}

/// Putting `y` in puts it behind the rows that tie with it.
proof fn lemma_insert_stable(rows: Seq<MetricRow>, y: MetricRow, x: MetricRow, sort: Sort)
    ensures
        spec_tied(spec_insert(rows, y, sort), x, sort) == if spec_ties(y, x, sort) {
            spec_tied(rows, x, sort).push(y)
        } else {
            spec_tied(rows, x, sort)
        },
    decreases rows.len(),
{
    if rows.len() > 0 && spec_precedes(y, rows.last(), sort) {
        lemma_insert_stable(rows.drop_last(), y, x, sort);
        let inner = spec_insert(rows.drop_last(), y, sort);
        assert(inner.push(rows.last()).drop_last() == inner);
        lemma_precedes_order(y, x, rows.last(), sort);
        lemma_precedes_order(rows.last(), x, y, sort);
    } else {
        assert(rows.push(y).drop_last() == rows);
    }
}

/// Ranking is stable: rows that tie come out in the order in which they
/// went in.
pub proof fn lemma_rank_stable(rows: Seq<MetricRow>, x: MetricRow, sort: Sort)
    ensures
        spec_tied(spec_rank(rows, sort), x, sort) == spec_tied(rows, x, sort),
    decreases rows.len(),
{
    if rows.len() > 0 {
        lemma_rank_stable(rows.drop_last(), x, sort);
        lemma_insert_stable(spec_rank(rows.drop_last(), sort), rows.last(), x, sort);
    }
}

} // verus!
