//! Glob segments and matching: `*` and `?` inside one path component, and
//! the `**` segment that spans any number of components.
use vstd::prelude::*;
use crate::bytestr::dv;

verus! {

/// One segment of a compiled pattern: `**`, or a component glob.
pub enum GlobSeg {
    Many,
    Part(Vec<u8>),
}

/// Glob match of one pattern segment against one path component.
/// `*` (42) matches any run of bytes, `?` (63) any single byte.
pub open spec fn seg_matches(p: Seq<u8>, s: Seq<u8>) -> bool
    decreases p.len() + s.len(),
{
    if p.len() == 0 {
        s.len() == 0
    } else if p[0] == 42 {
        seg_matches(p.drop_first(), s) || (s.len() > 0 && seg_matches(p, s.drop_first()))
    } else if s.len() > 0 && (p[0] == 63 || p[0] == s[0]) {
        seg_matches(p.drop_first(), s.drop_first())
    } else {
        false
    }
}

/// Match of a segment list against a component list.  A `Many` segment
/// stands for zero or more whole components, except a trailing one, which
/// must cover at least one component: a pattern ending in the spanning
/// segment matches what is inside a directory, not the directory itself.
pub open spec fn segs_match(ps: Seq<GlobSeg>, cs: Seq<Seq<u8>>) -> bool
    decreases ps.len() + cs.len(),
{
    if ps.len() == 0 {
        cs.len() == 0
    } else {
        match ps[0] {
            GlobSeg::Many => if ps.len() == 1 {
                cs.len() > 0
            } else {
                segs_match(ps.drop_first(), cs) || (cs.len() > 0 && segs_match(
                    ps,
                    cs.drop_first(),
                ))
            },
            GlobSeg::Part(p) => cs.len() > 0 && seg_matches(p@, cs[0]) && segs_match(
                ps.drop_first(),
                cs.drop_first(),
            ),
        }
    }
}

/// Decides `seg_matches` on the suffixes of `p` and `s` from `i` and `j`.
pub fn seg_match_at(p: &Vec<u8>, i: usize, s: &Vec<u8>, j: usize) -> (r: bool)
    requires
        i <= p@.len(),
        j <= s@.len(),
    ensures
        r == seg_matches(p@.skip(i as int), s@.skip(j as int)),
    decreases p@.len() - i + s@.len() - j,
{
    let ghost ptail = p@.skip(i as int);
    let ghost stail = s@.skip(j as int);
    if i == p.len() {
        return j == s.len();
    }
    let c = p[i];
    proof {
        assert(ptail[0] == p@[i as int]);
        assert(ptail.drop_first() =~= p@.skip(i + 1));
        assert(stail.len() > 0 ==> stail[0] == s@[j as int]);
        assert(stail.len() > 0 ==> stail.drop_first() =~= s@.skip(j + 1));
    }
    if c == 42 {
        if seg_match_at(p, i + 1, s, j) {
            return true;
        }
        if j < s.len() {
            return seg_match_at(p, i, s, j + 1);
        }
        return false;
    }
    if j < s.len() {
        let d = s[j];
        if c == 63 || c == d {
            return seg_match_at(p, i + 1, s, j + 1);
        }
    }
    false
}

/// Decides `segs_match` on the suffixes of `ps` and `cs` from `i` and `j`.
pub fn segs_match_at(ps: &Vec<GlobSeg>, i: usize, cs: &Vec<Vec<u8>>, j: usize) -> (r: bool)
    requires
        i <= ps@.len(),
        j <= cs@.len(),
    ensures
        r == segs_match(ps@.skip(i as int), dv(cs@).skip(j as int)),
    decreases ps@.len() - i + cs@.len() - j,
{
    let ghost ptail = ps@.skip(i as int);
    let ghost ctail = dv(cs@).skip(j as int);
    if i == ps.len() {
        return j == cs.len();
    }
    proof {
        assert(ptail[0] == ps@[i as int]);
        assert(ptail.drop_first() =~= ps@.skip(i + 1));
        assert(ctail.len() > 0 ==> ctail[0] == cs@[j as int]@);
        assert(ctail.len() > 0 ==> ctail.drop_first() =~= dv(cs@).skip(j + 1));
    }
    match &ps[i] {
        GlobSeg::Many => {
            if i + 1 == ps.len() {
                return j < cs.len();
            }
            if segs_match_at(ps, i + 1, cs, j) {
                return true;
            }
            if j < cs.len() {
                return segs_match_at(ps, i, cs, j + 1);
            }
            false
        },
        GlobSeg::Part(part) => {
            if j == cs.len() {
                return false;
            }
            if !seg_match_at(part, 0, &cs[j], 0) {
                proof {
                    assert(part@.skip(0) =~= part@);
                    assert(cs@[j as int]@.skip(0) =~= cs@[j as int]@);
                }
                return false;
            }
            proof {
                assert(part@.skip(0) =~= part@);
                assert(cs@[j as int]@.skip(0) =~= cs@[j as int]@);
            }
            segs_match_at(ps, i + 1, cs, j + 1)
        },
    }
}

} // verus!
