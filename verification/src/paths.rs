//! Paths as byte strings, in the one form under which files are matched.

use vstd::prelude::*;

verus! {

/// A byte of a path with `\` read as `/`.
pub open spec fn spec_slash(b: u8) -> u8 {
    if b == 92 {
        47
    } else {
        b
    }
}

/// `p` without the `./` segments at its start.
pub open spec fn spec_strip_dots(p: Seq<u8>) -> Seq<u8>
    decreases p.len(),
{
    if p.len() >= 2 && p[0] == 46 && p[1] == 47 {
        spec_strip_dots(p.skip(2))
    } else {
        p
    }
}

/// The form under which a path is stored and looked up: every `\` becomes
/// `/`, and `./` segments at the start are dropped.
pub open spec fn spec_normalize(p: Seq<u8>) -> Seq<u8> {
    spec_strip_dots(p.map_values(|b: u8| spec_slash(b)))
}

/// The path of the entry `name` in the directory `dir`; the empty `dir` is
/// the root, whose entries stand by their names.
pub open spec fn spec_join(dir: Seq<u8>, name: Seq<u8>) -> Seq<u8> {
    if dir.len() == 0 {
        name
    } else {
        dir + seq![47u8] + name
    }
}

/// Brings a path into the form under which it is stored and looked up.
pub fn normalize(p: &[u8]) -> (r: Vec<u8>)
    ensures
        r@ == spec_normalize(p@),
{
    let ghost unified = p@.map_values(|b: u8| spec_slash(b));
    let mut start: usize = 0;
    proof {
        assert(unified.skip(0) == unified);
    }
    while p.len() - start >= 2 && p[start] == 46 && (p[start + 1] == 47 || p[start + 1] == 92)
        invariant
            start <= p.len(),
            unified == p@.map_values(|b: u8| spec_slash(b)),
            spec_strip_dots(unified) == spec_strip_dots(unified.skip(start as int)),
        decreases p.len() - start,
    {
        proof {
            let rest = unified.skip(start as int);
            assert(rest[0] == spec_slash(p@[start as int]));
            assert(rest[1] == spec_slash(p@[start + 1]));
            assert(rest.skip(2) == unified.skip(start + 2));
        }
        start += 2;
    }
    proof {
        let rest = unified.skip(start as int);
        if rest.len() >= 2 {
            assert(rest[0] == spec_slash(p@[start as int]));
            assert(rest[1] == spec_slash(p@[start + 1]));
        }
        assert(spec_strip_dots(rest) == rest);
    }
    let mut r: Vec<u8> = Vec::new();
    let mut i: usize = start;
    while i < p.len()
        invariant
            start <= i <= p.len(),
            unified == p@.map_values(|b: u8| spec_slash(b)),
            r@ == unified.subrange(start as int, i as int),
        decreases p.len() - i,
    {
        let b = p[i];
        r.push(if b == 92 { 47 } else { b });
        proof {
            assert(unified[i as int] == spec_slash(p@[i as int]));
            assert(unified.subrange(start as int, i + 1) == unified.subrange(
                start as int,
                i as int,
            ).push(unified[i as int]));
        }
        i += 1;
    }
    proof {
        assert(unified.subrange(start as int, p.len() as int) == unified.skip(start as int));
    }
    r
}

/// The path of the entry `name` in the directory `dir`.
pub fn join(dir: &[u8], name: &[u8]) -> (r: Vec<u8>)
    ensures
        r@ == spec_join(dir@, name@),
{
    let mut r: Vec<u8> = Vec::new();
    if dir.len() > 0 {
        let mut i: usize = 0;
        while i < dir.len()
            invariant
                i <= dir.len(),
                r@ == dir@.take(i as int),
            decreases dir.len() - i,
        {
            r.push(dir[i]);
            proof {
                assert(dir@.take(i + 1) == dir@.take(i as int).push(dir@[i as int]));
            }
            i += 1;
        }
        proof {
            assert(dir@.take(dir.len() as int) == dir@);
        }
        r.push(47);
    }
    let ghost head = r@;
    let mut j: usize = 0;
    while j < name.len()
        invariant
            j <= name.len(),
            r@ == head + name@.take(j as int),
        decreases name.len() - j,
    {
        r.push(name[j]);
        proof {
            assert(name@.take(j + 1) == name@.take(j as int).push(name@[j as int]));
        }
        j += 1;
    }
    proof {
        assert(name@.take(name.len() as int) == name@);
        if dir.len() == 0 {
            assert(head + name@ == name@);
        }
    }
    r
}

/// Normalizing a path that is already normal changes nothing.
pub proof fn lemma_normalize_idempotent(p: Seq<u8>)
    ensures
        spec_normalize(spec_normalize(p)) == spec_normalize(p),
{
    let unified = p.map_values(|b: u8| spec_slash(b));
    lemma_strip_dots_suffix(unified);
    let n = spec_normalize(p);
    let k = unified.len() - n.len();
    assert(n.map_values(|b: u8| spec_slash(b)) == n) by {
        assert forall|i: int| 0 <= i < n.len() implies spec_slash(n[i]) == n[i] by {
            assert(n[i] == unified[i + k]);
        }
    }
    lemma_strip_dots_idempotent(unified);
}

/// Stripping leaves a suffix of the path.
proof fn lemma_strip_dots_suffix(p: Seq<u8>)
    ensures
        spec_strip_dots(p).len() <= p.len(),
        spec_strip_dots(p) == p.skip(p.len() - spec_strip_dots(p).len()),
    decreases p.len(),
{
    if p.len() >= 2 && p[0] == 46 && p[1] == 47 {
        lemma_strip_dots_suffix(p.skip(2));
        let rest = p.skip(2);
        let k = rest.len() - spec_strip_dots(rest).len();
        assert(rest.skip(k) == p.skip(k + 2));
    } else {
        assert(p.skip(0) == p);
    }
}

/// Stripping twice is stripping once.
proof fn lemma_strip_dots_idempotent(p: Seq<u8>)
    ensures
        spec_strip_dots(spec_strip_dots(p)) == spec_strip_dots(p),
    decreases p.len(),
{
    if p.len() >= 2 && p[0] == 46 && p[1] == 47 {
        lemma_strip_dots_idempotent(p.skip(2));
    }
}

} // verus!
