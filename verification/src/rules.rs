//! Ignore rules: compiled gitignore-style patterns with a base directory,
//! rule-list evaluation where the last applicable match wins, include
//! overrides, and the fixed repository-metadata exclusion.
use vstd::prelude::*;
use crate::bytestr::{dv, dvv, split_sep, sub_bytes, split_bytes, clone_path, bytes_eq, eq_lit};
use crate::glob::{GlobSeg, segs_match, segs_match_at};
use crate::bytestr::clone_bytes;

verus! {

/// One compiled ignore rule.  `base` is the repository-relative directory
/// whose ignore file supplied the pattern (empty for caller-supplied
/// patterns and the repository root); the rule applies only to entries
/// strictly below `base`.
pub struct IgnoreRule {
    pub negated: bool,
    pub dir_only: bool,
    pub base: Vec<Vec<u8>>,
    pub segs: Vec<GlobSeg>,
}

/// Whether one rule applies to the given repository-relative path.
pub open spec fn rule_matches(r: IgnoreRule, path: Seq<Seq<u8>>, is_dir: bool) -> bool {
    let b = dv(r.base@);
    &&& b.len() < path.len()
    &&& path.take(b.len() as int) == b
    &&& (r.dir_only ==> is_dir)
    &&& segs_match(r.segs@, path.skip(b.len() as int))
}

/// Whether the rule list ignores the path: the last rule that matches
/// decides, and a negated rule un-ignores.
pub open spec fn ignored_by(rules: Seq<IgnoreRule>, path: Seq<Seq<u8>>, is_dir: bool) -> bool
    decreases rules.len(),
{
    if rules.len() == 0 {
        false
    } else if rule_matches(rules.last(), path, is_dir) {
        !rules.last().negated
    } else {
        ignored_by(rules.drop_last(), path, is_dir)
    }
}

/// Componentwise path-prefix test.
pub open spec fn comps_prefix(p: Seq<Seq<u8>>, q: Seq<Seq<u8>>) -> bool {
    p.len() <= q.len() && p == q.take(p.len() as int)
}

/// Whether some include override is a prefix of the path.
pub open spec fn override_matches(ovs: Seq<Seq<Seq<u8>>>, path: Seq<Seq<u8>>) -> bool {
    exists|k: int| 0 <= k < ovs.len() && comps_prefix(ovs[k], path)
}

/// The name of the version-control metadata directory, ".git".
pub open spec fn dot_git() -> Seq<u8> {
    seq![46u8, 103u8, 105u8, 116u8]
}

/// The name of an ignore-pattern file, ".gitignore".
pub open spec fn dot_gitignore() -> Seq<u8> {
    seq![46u8, 103u8, 105u8, 116u8, 105u8, 103u8, 110u8, 111u8, 114u8, 101u8]
}

/// The fixed metadata exclusion: the root-level ".git" directory and the
/// ignore-pattern files themselves are left out of the document, unless
/// an include override names them.
pub open spec fn is_metadata(path: Seq<Seq<u8>>) -> bool {
    (path.len() == 1 && path[0] == dot_git()) || (path.len() > 0 && path.last()
        == dot_gitignore())
}

/// The compiled rule set: ignore rules in source order plus include
/// overrides.
pub struct RuleSet {
    pub rules: Vec<IgnoreRule>,
    pub overrides: Vec<Vec<Vec<u8>>>,
}

/// The traversal decision for one visited path: an include override
/// forces inclusion over every ignore outcome, the fixed metadata
/// exclusion included; otherwise the path is kept when it is neither
/// metadata nor ignored by the rules.
pub open spec fn keep_path(
    rules: Seq<IgnoreRule>,
    ovs: Seq<Seq<Seq<u8>>>,
    path: Seq<Seq<u8>>,
    is_dir: bool,
) -> bool {
    &&& path.len() > 0
    &&& (override_matches(ovs, path) || (!is_metadata(path) && !ignored_by(
        rules,
        path,
        is_dir,
    )))
}

/// Decides `rule_matches`.
pub fn rule_match_exec(r: &IgnoreRule, path: &Vec<Vec<u8>>, is_dir: bool) -> (res: bool)
    ensures
        res == rule_matches(*r, dv(path@), is_dir),
{
    let b = r.base.len();
    if b >= path.len() {
        return false;
    }
    if r.dir_only && !is_dir {
        return false;
    }
    let mut j: usize = 0;
    while j < b
        invariant
            j <= b,
            b < path@.len(),
            b == r.base@.len(),
            forall|k: int| 0 <= k < j ==> dv(path@)[k] == dv(r.base@)[k],
        decreases b - j,
    {
        if !bytes_eq(&path[j], &r.base[j]) {
            proof {
                assert(dv(path@).take(b as int)[j as int] != dv(r.base@)[j as int]);
            }
            return false;
        }
        j = j + 1;
    }
    proof {
        assert(dv(path@).take(b as int) =~= dv(r.base@));
        assert(r.segs@.skip(0) =~= r.segs@);
    }
    segs_match_at(&r.segs, 0, path, b)
}

/// Decides `ignored_by` by scanning the rules from the last to the first.
pub fn is_ignored(rules: &Vec<IgnoreRule>, path: &Vec<Vec<u8>>, is_dir: bool) -> (res: bool)
    ensures
        res == ignored_by(rules@, dv(path@), is_dir),
{
    let mut k: usize = rules.len();
    proof {
        assert(rules@.take(rules@.len() as int) =~= rules@);
    }
    while k > 0
        invariant
            k <= rules@.len(),
            ignored_by(rules@, dv(path@), is_dir) == ignored_by(
                rules@.take(k as int),
                dv(path@),
                is_dir,
            ),
        decreases k,
    {
        proof {
            assert(rules@.take(k as int).last() == rules@[k - 1]);
            assert(rules@.take(k as int).drop_last() =~= rules@.take(k - 1));
        }
        if rule_match_exec(&rules[k - 1], path, is_dir) {
            return !rules[k - 1].negated;
        }
        k = k - 1;
    }
    proof {
        assert(rules@.take(0).len() == 0);
    }
    false
}

/// Decides `comps_prefix`.
pub fn comps_prefix_exec(p: &Vec<Vec<u8>>, q: &Vec<Vec<u8>>) -> (res: bool)
    ensures
        res == comps_prefix(dv(p@), dv(q@)),
{
    if p.len() > q.len() {
        return false;
    }
    let mut j: usize = 0;
    while j < p.len()
        invariant
            j <= p@.len(),
            p@.len() <= q@.len(),
            forall|m: int| 0 <= m < j ==> dv(p@)[m] == dv(q@)[m],
        decreases p@.len() - j,
    {
        if !bytes_eq(&p[j], &q[j]) {
            proof {
                assert(!comps_prefix(dv(p@), dv(q@))) by {
                    if comps_prefix(dv(p@), dv(q@)) {
                        assert(dv(p@)[j as int] == dv(q@).take(p@.len() as int)[j as int]);
                    }
                }
            }
            return false;
        }
        j = j + 1;
    }
    proof {
        assert(dv(p@) =~= dv(q@).take(p@.len() as int));
    }
    true
}

/// Decides `override_matches`.
pub fn override_match_exec(ovs: &Vec<Vec<Vec<u8>>>, path: &Vec<Vec<u8>>) -> (res: bool)
    ensures
        res == override_matches(dvv(ovs@), dv(path@)),
{
    let mut k: usize = 0;
    while k < ovs.len()
        invariant
            k <= ovs@.len(),
            forall|m: int| 0 <= m < k ==> !comps_prefix(dvv(ovs@)[m], dv(path@)),
        decreases ovs@.len() - k,
    {
        if comps_prefix_exec(&ovs[k], path) {
            proof {
                assert(comps_prefix(dvv(ovs@)[k as int], dv(path@)));
            }
            return true;
        }
        k = k + 1;
    }
    false
}

/// Decides the fixed metadata exclusion.
pub fn is_metadata_exec(path: &Vec<Vec<u8>>) -> (res: bool)
    ensures
        res == is_metadata(dv(path@)),
{
    if path.len() == 0 {
        return false;
    }
    let g: [u8; 4] = [46u8, 103u8, 105u8, 116u8];
    let gi: [u8; 10] = [46u8, 103u8, 105u8, 116u8, 105u8, 103u8, 110u8, 111u8, 114u8, 101u8];
    proof {
        assert(g@ =~= dot_git());
        assert(gi@ =~= dot_gitignore());
    }
    if path.len() == 1 && eq_lit(&path[0], g.as_slice()) {
        return true;
    }
    eq_lit(&path[path.len() - 1], gi.as_slice())
}

/// Decides `keep_path` for a visited entry.
pub fn keep_exec(rs: &RuleSet, path: &Vec<Vec<u8>>, is_dir: bool) -> (res: bool)
    ensures
        res == keep_path(rs.rules@, dvv(rs.overrides@), dv(path@), is_dir),
{
    if path.len() == 0 {
        return false;
    }
    if override_match_exec(&rs.overrides, path) {
        return true;
    }
    if is_metadata_exec(path) {
        return false;
    }
    !is_ignored(&rs.rules, path, is_dir)
}

/// The text of the component-spanning glob segment, "**".
pub open spec fn star2() -> Seq<u8> {
    seq![42u8, 42u8]
}

/// Whether the compiled segment `g` stands for the pattern component `c`.
pub open spec fn seg_is(g: GlobSeg, c: Seq<u8>) -> bool {
    match g {
        GlobSeg::Many => c == star2(),
        GlobSeg::Part(v) => v@ == c && c != star2(),
    }
}

/// Whether the pattern line starts with the negation marker `!`.
pub open spec fn pat_negated(line: Seq<u8>) -> bool {
    line.len() > 0 && line[0] == 33
}

/// The line with any negation marker removed.
pub open spec fn pat_rest(line: Seq<u8>) -> Seq<u8> {
    if pat_negated(line) {
        line.drop_first()
    } else {
        line
    }
}

/// Whether the pattern is directory-only (it ends in a separator).
pub open spec fn pat_dir_only(line: Seq<u8>) -> bool {
    pat_rest(line).len() > 0 && pat_rest(line).last() == 47
}

/// The pattern with negation marker and trailing separator removed.
pub open spec fn pat_trimmed(line: Seq<u8>) -> Seq<u8> {
    if pat_dir_only(line) {
        pat_rest(line).drop_last()
    } else {
        pat_rest(line)
    }
}

/// Whether the pattern starts with an anchoring separator.
pub open spec fn pat_lead_anchor(line: Seq<u8>) -> bool {
    pat_trimmed(line).len() > 0 && pat_trimmed(line)[0] == 47
}

/// The pattern body: the glob text without markers.
pub open spec fn pat_body(line: Seq<u8>) -> Seq<u8> {
    if pat_lead_anchor(line) {
        pat_trimmed(line).drop_first()
    } else {
        pat_trimmed(line)
    }
}

/// The body split into pattern components.
pub open spec fn pat_comps(line: Seq<u8>) -> Seq<Seq<u8>> {
    split_sep(pat_body(line), 47)
}

/// A pattern is anchored to its base directory when a separator stands at
/// its start or in its middle; an unanchored pattern matches at any depth.
pub open spec fn pat_anchored(line: Seq<u8>) -> bool {
    pat_lead_anchor(line) || pat_comps(line).len() > 1
}

/// A usable pattern line: not empty, not a comment, and with no empty
/// component.
pub open spec fn pat_valid(line: Seq<u8>) -> bool {
    &&& line.len() > 0
    &&& line[0] != 35
    &&& forall|k: int| 0 <= k < pat_comps(line).len() ==> pat_comps(line)[k].len() > 0
}

/// Whether the compiled rule `r` is the faithful compilation of the
/// pattern `line` for the base directory `base`: marker fields carried
/// over, and one segment per component, with a leading component-spanning
/// segment added for an unanchored pattern.
pub open spec fn rule_for(r: IgnoreRule, line: Seq<u8>, base: Seq<Seq<u8>>) -> bool {
    let comps = pat_comps(line);
    let off: int = if pat_anchored(line) {
        0int
    } else {
        1int
    };
    &&& r.negated == pat_negated(line)
    &&& r.dir_only == pat_dir_only(line)
    &&& dv(r.base@) == base
    &&& r.segs@.len() == off + comps.len()
    &&& (!pat_anchored(line) ==> r.segs@[0] is Many)
    &&& forall|k: int| 0 <= k < comps.len() ==> seg_is(r.segs@[off + k], comps[k])
}

/// Compiles one pattern line, or reports it unusable.
pub fn parse_pattern(line: &Vec<u8>, base: &Vec<Vec<u8>>) -> (res: Option<IgnoreRule>)
    ensures
        res is Some <==> pat_valid(line@),
        res matches Some(r) ==> rule_for(r, line@, dv(base@)),
{
    if line.len() == 0 {
        return None;
    }
    if line[0] == 35 {
        return None;
    }
    let negated = line[0] == 33;
    let start: usize = if negated {
        1
    } else {
        0
    };
    let end0: usize = line.len();
    proof {
        assert(pat_rest(line@) =~= line@.subrange(start as int, end0 as int));
    }
    let dir_only = end0 > start && line[end0 - 1] == 47;
    let end: usize = if dir_only {
        end0 - 1
    } else {
        end0
    };
    proof {
        assert(pat_dir_only(line@) == dir_only);
        assert(pat_trimmed(line@) =~= line@.subrange(start as int, end as int));
    }
    let lead = end > start && line[start] == 47;
    let start2: usize = if lead {
        start + 1
    } else {
        start
    };
    proof {
        assert(pat_lead_anchor(line@) == lead);
        assert(pat_body(line@) =~= line@.subrange(start2 as int, end as int));
    }
    let body = sub_bytes(line, start2, end);
    proof {
        assert(body@ == pat_body(line@));
    }
    let comps = split_bytes(&body, 47);
    proof {
        assert(dv(comps@) == pat_comps(line@));
    }
    let mut k: usize = 0;
    while k < comps.len()
        invariant
            k <= comps@.len(),
            dv(comps@) == pat_comps(line@),
            forall|m: int| 0 <= m < k ==> pat_comps(line@)[m].len() > 0,
        decreases comps@.len() - k,
    {
        if comps[k].len() == 0 {
            proof {
                assert(pat_comps(line@)[k as int].len() == 0);
            }
            return None;
        }
        k = k + 1;
    }
    let anchored = lead || comps.len() > 1;
    let mut segs: Vec<GlobSeg> = Vec::new();
    if !anchored {
        segs.push(GlobSeg::Many);
    }
    let ghost off: int = if anchored {
        0int
    } else {
        1int
    };
    let mut m: usize = 0;
    while m < comps.len()
        invariant
            m <= comps@.len(),
            dv(comps@) == pat_comps(line@),
            segs@.len() == off + m,
            off == 1 ==> segs@[0] is Many,
            off == 0 || off == 1,
            forall|j: int| 0 <= j < m ==> seg_is(segs@[off + j], pat_comps(line@)[j]),
        decreases comps@.len() - m,
    {
        let c = &comps[m];
        let is_star2 = c.len() == 2 && c[0] == 42 && c[1] == 42;
        proof {
            if is_star2 {
                assert(c@ =~= star2());
            } else {
                assert(c@ != star2()) by {
                    if c@ == star2() {
                        assert(c@.len() == 2);
                        assert(c@[0] == 42 && c@[1] == 42);
                    }
                }
            }
        }
        if is_star2 {
            segs.push(GlobSeg::Many);
        } else {
            segs.push(GlobSeg::Part(clone_bytes(c)));
        }
        proof {
            assert(seg_is(segs@[off + m], pat_comps(line@)[m as int]));
        }
        m = m + 1;
    }
    let rule = IgnoreRule { negated, dir_only, base: clone_path(base), segs };
    proof {
        assert(pat_anchored(line@) == anchored);
        assert(rule_for(rule, line@, dv(base@)));
    }
    Some(rule)
}

} // verus!
