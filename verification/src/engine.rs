//! The engine: compiles the rule set from caller-supplied patterns and
//! the ignore files discovered in the snapshot, runs the ignore-aware
//! filter, and assembles document and warnings.
use vstd::prelude::*;
use crate::bytestr::{dv, dvv, split_sep, split_bytes, join_sep, append_bytes, append_lit,
    append_join, clone_path, clone_bytes, eq_lit, sub_bytes};
use crate::rules::{IgnoreRule, RuleSet, pat_valid, rule_for, parse_pattern, dot_gitignore,
    dot_git};
use crate::snapshot::{FsNode, FileData, FsNodeView, FileDataView, view_node, view_nodes,
    lemma_view_nodes};
use crate::doc::{DocEntry, DocEntryView, FileStateView, view_entries, sort_entries, filter_list,
    filter_nodes, lemma_view_entries};
use crate::render::{dir_section, trim_end_ws};

verus! {

/// One logging-boundary warning: an included entry that carries no
/// document content, or a file whose read failed.
#[derive(PartialEq, Eq, Structural, Clone, Copy, Debug)]
pub enum WarnKind {
    BinaryNotIgnored,
    SymlinkNotIgnored,
    ReadFailure,
}

/// A warning with the repository-relative path it concerns, joined with
/// separators.
pub struct Warning {
    pub path: Vec<u8>,
    pub kind: WarnKind,
}

/// The warning an included file's classification calls for, if any.
pub open spec fn warn_of(s: FileStateView) -> Option<WarnKind> {
    match s {
        FileStateView::TextV(b) => Option::None,
        FileStateView::BinaryV => Option::Some(WarnKind::BinaryNotIgnored),
        FileStateView::LinkV => Option::Some(WarnKind::SymlinkNotIgnored),
        FileStateView::FailedV => Option::Some(WarnKind::ReadFailure),
    }
}

/// The warnings of the document tree `es` from entry `k` on, in traversal
/// order.
pub open spec fn warns_from(es: Seq<DocEntryView>, k: int, rel: Seq<Seq<u8>>) -> Seq<
    (Seq<u8>, WarnKind),
>
    decreases es, es.len() - k,
{
    if k < 0 || k >= es.len() {
        Seq::empty()
    } else {
        let part = match es[k] {
            DocEntryView::DirV { name, entries } => warns_from(entries, 0, rel.push(name)),
            DocEntryView::FileV { name, state } => match warn_of(state) {
                Option::Some(w) => seq![(join_sep(rel.push(name), 47), w)],
                Option::None => Seq::empty(),
            },
        };
        part + warns_from(es, k + 1, rel)
    }
}

/// View of a warning list.
pub open spec fn view_warns(ws: Seq<Warning>) -> Seq<(Seq<u8>, WarnKind)> {
    Seq::new(ws.len(), |i: int| (ws[i].path@, ws[i].kind))
}

/// Appends the warnings of the document tree `es` from entry `k` on.
pub fn collect_warns(es: &Vec<DocEntry>, k: usize, rel: &Vec<Vec<u8>>, out: &mut Vec<Warning>)
    requires
        k <= es@.len(),
    ensures
        view_warns(final(out)@) == view_warns(old(out)@) + warns_from(
            view_entries(es@),
            k as int,
            dv(rel@),
        ),
    decreases es@, es@.len() - k,
{
    let ghost ev = view_entries(es@);
    proof {
        lemma_view_entries(es@);
    }
    if k == es.len() {
        proof {
            assert(view_warns(out@) =~= view_warns(old(out)@) + warns_from(
                ev,
                k as int,
                dv(rel@),
            ));
        }
        return ;
    }
    match &es[k] {
        DocEntry::DirE { name, entries } => {
            let mut crel = clone_path(rel);
            crel.push(clone_bytes(name));
            proof {
                crate::bytestr::lemma_dv_push(rel@, crel@.last());
                assert(dv(crel@) =~= dv(rel@).push(name@));
            }
            collect_warns(entries, 0, &crel, out);
        },
        DocEntry::FileE { name, state } => {
            let warn: Option<WarnKind> = match state {
                crate::doc::FileState::Text(b) => None,
                crate::doc::FileState::Binary => Some(WarnKind::BinaryNotIgnored),
                crate::doc::FileState::Link => Some(WarnKind::SymlinkNotIgnored),
                crate::doc::FileState::Failed => Some(WarnKind::ReadFailure),
            };
            match warn {
                Some(w) => {
                    let mut crel = clone_path(rel);
                    crel.push(clone_bytes(name));
                    proof {
                        crate::bytestr::lemma_dv_push(rel@, crel@.last());
                        assert(dv(crel@) =~= dv(rel@).push(name@));
                    }
                    let mut p: Vec<u8> = Vec::new();
                    append_join(&mut p, &crel, 47);
                    let ghost wpre = out@;
                    out.push(Warning { path: p, kind: w });
                    proof {
                        assert(view_warns(out@) =~= view_warns(wpre).push(
                            (join_sep(dv(rel@).push(name@), 47), w),
                        ));
                    }
                },
                None => {
                },
            }
        },
    }
    collect_warns(es, k + 1, rel, out);
    proof {
        assert(view_warns(out@) =~= view_warns(old(out)@) + warns_from(ev, k as int, dv(rel@)));
    }
}

/// The content of the first leaf named `name` whose bytes were read.
pub open spec fn leaf_bytes(es: Seq<FsNodeView>, name: Seq<u8>) -> Option<Seq<u8>>
    decreases es.len(),
{
    if es.len() == 0 {
        Option::None
    } else {
        match es[0] {
            FsNodeView::LeafV { name: n, data: FileDataView::BytesV(b) } => if n == name {
                Option::Some(b)
            } else {
                leaf_bytes(es.drop_first(), name)
            },
            _ => leaf_bytes(es.drop_first(), name),
        }
    }
}

/// The entries of the first directory named `name`.
pub open spec fn dir_entries(es: Seq<FsNodeView>, name: Seq<u8>) -> Option<Seq<FsNodeView>>
    decreases es.len(),
{
    if es.len() == 0 {
        Option::None
    } else {
        match es[0] {
            FsNodeView::DirV { name: n, entries } => if n == name {
                Option::Some(entries)
            } else {
                dir_entries(es.drop_first(), name)
            },
            _ => dir_entries(es.drop_first(), name),
        }
    }
}

/// Finds the content of the first leaf named `name` whose bytes were
/// read.
pub fn find_leaf_bytes<'a>(es: &'a Vec<FsNode>, name: &[u8]) -> (res: Option<&'a Vec<u8>>)
    ensures
        match res {
            Option::Some(b) => leaf_bytes(view_nodes(es@), name@) == Option::Some(b@),
            Option::None => leaf_bytes(view_nodes(es@), name@) is None,
        },
{
    let ghost fv = view_nodes(es@);
    proof {
        lemma_view_nodes(es@);
    }
    let mut k: usize = 0;
    proof {
        assert(fv.skip(0) =~= fv);
    }
    while k < es.len()
        invariant
            k <= es@.len(),
            fv == view_nodes(es@),
            fv.len() == es@.len(),
            forall|i: int| 0 <= i < es@.len() ==> fv[i] == view_node(es@[i]),
            leaf_bytes(fv, name@) == leaf_bytes(fv.skip(k as int), name@),
        decreases es@.len() - k,
    {
        proof {
            assert(fv.skip(k as int)[0] == fv[k as int]);
            assert(fv.skip(k as int).drop_first() =~= fv.skip(k + 1));
        }
        match &es[k] {
            FsNode::Leaf { name: n, data: FileData::Bytes(b) } => {
                if eq_lit(n, name) {
                    return Some(b);
                }
            },
            _ => {
            },
        }
        k = k + 1;
    }
    None
}

/// Finds the entries of the first directory named `name`.
pub fn find_dir<'a>(es: &'a Vec<FsNode>, name: &[u8]) -> (res: Option<&'a Vec<FsNode>>)
    ensures
        match res {
            Option::Some(sub) => dir_entries(view_nodes(es@), name@) == Option::Some(
                view_nodes(sub@),
            ),
            Option::None => dir_entries(view_nodes(es@), name@) is None,
        },
{
    let ghost fv = view_nodes(es@);
    proof {
        lemma_view_nodes(es@);
    }
    let mut k: usize = 0;
    proof {
        assert(fv.skip(0) =~= fv);
    }
    while k < es.len()
        invariant
            k <= es@.len(),
            fv == view_nodes(es@),
            fv.len() == es@.len(),
            forall|i: int| 0 <= i < es@.len() ==> fv[i] == view_node(es@[i]),
            dir_entries(fv, name@) == dir_entries(fv.skip(k as int), name@),
        decreases es@.len() - k,
    {
        proof {
            assert(fv.skip(k as int)[0] == fv[k as int]);
            assert(fv.skip(k as int).drop_first() =~= fv.skip(k + 1));
        }
        match &es[k] {
            FsNode::Dir { name: n, entries } => {
                if eq_lit(n, name) {
                    return Some(entries);
                }
            },
            _ => {
            },
        }
        k = k + 1;
    }
    None
}

/// A line with any trailing carriage return removed, so that ignore
/// files written with CRLF line endings read the same as LF ones.
pub open spec fn strip_cr(s: Seq<u8>) -> Seq<u8> {
    if s.len() > 0 && s.last() == 13 {
        s.drop_last()
    } else {
        s
    }
}

/// The usable pattern lines among `parts`, each paired with the base
/// directory they apply under.
pub open spec fn valid_pairs(parts: Seq<Seq<u8>>, base: Seq<Seq<u8>>) -> Seq<
    (Seq<u8>, Seq<Seq<u8>>),
>
    decreases parts.len(),
{
    if parts.len() == 0 {
        Seq::empty()
    } else {
        valid_pairs(parts.drop_last(), base) + (if pat_valid(strip_cr(parts.last())) {
            seq![(strip_cr(parts.last()), base)]
        } else {
            Seq::<(Seq<u8>, Seq<Seq<u8>>)>::empty()
        })
    }
}

/// Whether `rules` are exactly the faithful compilations of `lines`.
pub open spec fn rules_for_lines(
    rules: Seq<IgnoreRule>,
    lines: Seq<(Seq<u8>, Seq<Seq<u8>>)>,
) -> bool
    decreases lines.len(),
{
    if rules.len() != lines.len() {
        false
    } else if lines.len() == 0 {
        true
    } else {
        rules_for_lines(rules.drop_last(), lines.drop_last()) && pat_valid(lines.last().0)
            && rule_for(rules.last(), lines.last().0, lines.last().1)
    }
}

/// Faithful compilation holds of each line in place.
pub proof fn lemma_rules_for_lines_index(
    rules: Seq<IgnoreRule>,
    lines: Seq<(Seq<u8>, Seq<Seq<u8>>)>,
    i: int,
)
    requires
        rules_for_lines(rules, lines),
        0 <= i < lines.len(),
    ensures
        pat_valid(lines[i].0),
        rule_for(rules[i], lines[i].0, lines[i].1),
    decreases lines.len(),
{
    if i < lines.len() - 1 {
        lemma_rules_for_lines_index(rules.drop_last(), lines.drop_last(), i);
    }
}

/// Faithful compilation is preserved under concatenation.
pub proof fn lemma_rules_concat(
    r1: Seq<IgnoreRule>,
    l1: Seq<(Seq<u8>, Seq<Seq<u8>>)>,
    r2: Seq<IgnoreRule>,
    l2: Seq<(Seq<u8>, Seq<Seq<u8>>)>,
)
    requires
        rules_for_lines(r1, l1),
        rules_for_lines(r2, l2),
    ensures
        rules_for_lines(r1 + r2, l1 + l2),
    decreases l2.len(),
{
    if l2.len() == 0 {
        assert(r1 + r2 =~= r1);
        assert(l1 + l2 =~= l1);
    } else {
        lemma_rules_concat(r1, l1, r2.drop_last(), l2.drop_last());
        assert((r1 + r2).drop_last() =~= r1 + r2.drop_last());
        assert((l1 + l2).drop_last() =~= l1 + l2.drop_last());
        assert((r1 + r2).last() == r2.last());
        assert((l1 + l2).last() == l2.last());
    }
}

/// Compiles the usable lines of one ignore file into `rules`.
pub fn add_line_rules(content: &Vec<u8>, base: &Vec<Vec<u8>>, rules: &mut Vec<IgnoreRule>)
    ensures
        final(rules)@.len() >= old(rules)@.len(),
        final(rules)@.take(old(rules)@.len() as int) == old(rules)@,
        rules_for_lines(
            final(rules)@.skip(old(rules)@.len() as int),
            valid_pairs(split_sep(content@, 10), dv(base@)),
        ),
{
    let ghost orig = old(rules)@;
    let parts = split_bytes(content, 10);
    let ghost pv = dv(parts@);
    let mut k: usize = 0;
    proof {
        assert(rules@.take(orig.len() as int) =~= orig);
        assert(rules@.skip(orig.len() as int) =~= Seq::<IgnoreRule>::empty());
        assert(pv.take(0) =~= Seq::<Seq<u8>>::empty());
    }
    while k < parts.len()
        invariant
            k <= parts@.len(),
            pv == dv(parts@),
            pv == split_sep(content@, 10),
            rules@.len() >= orig.len(),
            rules@.take(orig.len() as int) == orig,
            rules_for_lines(
                rules@.skip(orig.len() as int),
                valid_pairs(pv.take(k as int), dv(base@)),
            ),
        decreases parts@.len() - k,
    {
        let ghost done = valid_pairs(pv.take(k as int), dv(base@));
        proof {
            assert(pv.take(k + 1).drop_last() =~= pv.take(k as int));
            assert(pv.take(k + 1).last() == pv[k as int]);
        }
        let raw = &parts[k];
        let line: Vec<u8> = if raw.len() > 0 && raw[raw.len() - 1] == 13 {
            crate::bytestr::sub_bytes(raw, 0, raw.len() - 1)
        } else {
            clone_bytes(raw)
        };
        proof {
            assert(pv[k as int] == parts@[k as int]@);
            if raw@.len() > 0 && raw@.last() == 13 {
                assert(line@ =~= strip_cr(pv[k as int]));
            } else {
                assert(line@ == strip_cr(pv[k as int]));
            }
        }
        match parse_pattern(&line, base) {
            Some(r) => {
                let ghost rpre = rules@;
                rules.push(r);
                proof {
                    assert(rules@.take(orig.len() as int) =~= orig);
                    assert(rules@.skip(orig.len() as int) =~= rpre.skip(
                        orig.len() as int,
                    ).push(rules@.last()));
                    assert(valid_pairs(pv.take(k + 1), dv(base@)) =~= done.push(
                        (strip_cr(pv[k as int]), dv(base@)),
                    ));
                    assert(rules_for_lines(
                        seq![rules@.last()],
                        seq![(strip_cr(pv[k as int]), dv(base@))],
                    )) by {
                        let rr = seq![rules@.last()];
                        let ll = seq![(strip_cr(pv[k as int]), dv(base@))];
                        assert(rules_for_lines(
                            Seq::<IgnoreRule>::empty(),
                            Seq::<(Seq<u8>, Seq<Seq<u8>>)>::empty(),
                        ));
                        assert(rr.drop_last() =~= Seq::<IgnoreRule>::empty());
                        assert(ll.drop_last() =~= Seq::<(Seq<u8>, Seq<Seq<u8>>)>::empty());
                        assert(rr.last() == rules@.last());
                        assert(ll.last() == (strip_cr(pv[k as int]), dv(base@)));
                    }
                    lemma_rules_concat(
                        rpre.skip(orig.len() as int),
                        done,
                        seq![rules@.last()],
                        seq![(strip_cr(pv[k as int]), dv(base@))],
                    );
                    assert(rpre.skip(orig.len() as int) + seq![rules@.last()] =~= rules@.skip(
                        orig.len() as int,
                    ));
                    assert(done + seq![(strip_cr(pv[k as int]), dv(base@))] =~= valid_pairs(
                        pv.take(k + 1),
                        dv(base@),
                    ));
                }
            },
            None => {
                proof {
                    assert(valid_pairs(pv.take(k + 1), dv(base@)) =~= done);
                }
            },
        }
        k = k + 1;
    }
    proof {
        assert(pv.take(pv.len() as int) =~= pv);
    }
}

/// The name of the directory "info" inside the metadata directory.
pub open spec fn info_name() -> Seq<u8> {
    seq![105u8, 110u8, 102u8, 111u8]
}

/// The name of the local-excludes file, "exclude".
pub open spec fn exclude_name() -> Seq<u8> {
    seq![101u8, 120u8, 99u8, 108u8, 117u8, 100u8, 101u8]
}

/// The usable lines of one optional ignore-file content.
pub open spec fn content_pairs(c: Option<Seq<u8>>, base: Seq<Seq<u8>>) -> Seq<
    (Seq<u8>, Seq<Seq<u8>>),
> {
    match c {
        Option::Some(bytes) => valid_pairs(split_sep(bytes, 10), base),
        Option::None => Seq::empty(),
    }
}

/// The ignore-file lines of every directory at or below the entries `es`
/// (from entry `k` on), each under the base directory it was found in, in
/// depth-first order.
pub open spec fn nested_from(es: Seq<FsNodeView>, k: int, base: Seq<Seq<u8>>) -> Seq<
    (Seq<u8>, Seq<Seq<u8>>),
>
    decreases es, es.len() - k,
{
    if k < 0 || k >= es.len() {
        Seq::empty()
    } else {
        let part = match es[k] {
            FsNodeView::DirV { name, entries } => content_pairs(
                leaf_bytes(entries, dot_gitignore()),
                base.push(name),
            ) + nested_from(entries, 0, base.push(name)),
            FsNodeView::LeafV { name, data } => Seq::<(Seq<u8>, Seq<Seq<u8>>)>::empty(),
        };
        part + nested_from(es, k + 1, base)
    }
}

/// The lines of the local-excludes file of the metadata directory.
pub open spec fn exclude_pairs(root: Seq<FsNodeView>) -> Seq<(Seq<u8>, Seq<Seq<u8>>)> {
    match dir_entries(root, dot_git()) {
        Option::Some(g) => match dir_entries(g, info_name()) {
            Option::Some(i) => content_pairs(
                leaf_bytes(i, exclude_name()),
                Seq::<Seq<u8>>::empty(),
            ),
            Option::None => Seq::empty(),
        },
        Option::None => Seq::empty(),
    }
}

/// The caller-supplied patterns, each under the root base.
pub open spec fn cli_pairs(cli: Seq<Seq<u8>>) -> Seq<(Seq<u8>, Seq<Seq<u8>>)> {
    Seq::new(cli.len(), |i: int| (cli[i], Seq::<Seq<u8>>::empty()))
}

/// Every ignore line the engine uses, in precedence order (later lines
/// win): caller-supplied patterns, the root ignore file, the
/// local-excludes file, then nested ignore files depth-first.
pub open spec fn all_lines(cli: Seq<Seq<u8>>, root: Seq<FsNodeView>) -> Seq<
    (Seq<u8>, Seq<Seq<u8>>),
> {
    cli_pairs(cli) + content_pairs(leaf_bytes(root, dot_gitignore()), Seq::<Seq<u8>>::empty())
        + exclude_pairs(root) + nested_from(root, 0, Seq::<Seq<u8>>::empty())
}

/// Compiles the ignore files of every directory at or below `es`.
pub fn gather_nested(es: &Vec<FsNode>, k: usize, base: &Vec<Vec<u8>>, rules: &mut Vec<
    IgnoreRule,
>)
    requires
        k <= es@.len(),
    ensures
        final(rules)@.len() >= old(rules)@.len(),
        final(rules)@.take(old(rules)@.len() as int) == old(rules)@,
        rules_for_lines(
            final(rules)@.skip(old(rules)@.len() as int),
            nested_from(view_nodes(es@), k as int, dv(base@)),
        ),
    decreases es@, es@.len() - k,
{
    let ghost orig = old(rules)@;
    let ghost fv = view_nodes(es@);
    proof {
        lemma_view_nodes(es@);
    }
    if k == es.len() {
        proof {
            assert(rules@.take(orig.len() as int) =~= orig);
            assert(rules@.skip(orig.len() as int) =~= Seq::<IgnoreRule>::empty());
        }
        return ;
    }
    match &es[k] {
        FsNode::Dir { name, entries } => {
            let mut cbase = clone_path(base);
            cbase.push(clone_bytes(name));
            proof {
                crate::bytestr::lemma_dv_push(base@, cbase@.last());
                assert(dv(cbase@) =~= dv(base@).push(name@));
            }
            let gi: [u8; 10] = [46u8, 103u8, 105u8, 116u8, 105u8, 103u8, 110u8, 111u8, 114u8,
                101u8];
            proof {
                assert(gi@ =~= dot_gitignore());
            }
            let ghost r0 = rules@;
            match find_leaf_bytes(entries, gi.as_slice()) {
                Some(c) => {
                    add_line_rules(c, &cbase, rules);
                },
                None => {
                },
            }
            let ghost r1 = rules@;
            let ghost part1 = content_pairs(
                leaf_bytes(view_nodes(entries@), dot_gitignore()),
                dv(cbase@),
            );
            proof {
                assert(rules_for_lines(r1.skip(r0.len() as int), part1));
            }
            gather_nested(entries, 0, &cbase, rules);
            proof {
                let part2 = nested_from(view_nodes(entries@), 0, dv(cbase@));
                lemma_rules_concat(
                    r1.skip(r0.len() as int),
                    part1,
                    rules@.skip(r1.len() as int),
                    part2,
                );
                assert(r1.skip(r0.len() as int) + rules@.skip(r1.len() as int) =~= rules@.skip(
                    r0.len() as int,
                ));
                assert(rules@.take(orig.len() as int) =~= orig);
            }
        },
        FsNode::Leaf { name, data } => {
            proof {
                assert(rules@.take(orig.len() as int) =~= orig);
                assert(rules@.skip(orig.len() as int) =~= Seq::<IgnoreRule>::empty());
            }
        },
    }
    let ghost rmid = rules@;
    let ghost partk = match fv[k as int] {
        FsNodeView::DirV { name, entries } => content_pairs(
            leaf_bytes(entries, dot_gitignore()),
            dv(base@).push(name),
        ) + nested_from(entries, 0, dv(base@).push(name)),
        FsNodeView::LeafV { name, data } => Seq::<(Seq<u8>, Seq<Seq<u8>>)>::empty(),
    };
    proof {
        assert(rules_for_lines(rmid.skip(orig.len() as int), partk));
    }
    gather_nested(es, k + 1, base, rules);
    proof {
        lemma_rules_concat(
            rmid.skip(orig.len() as int),
            partk,
            rules@.skip(rmid.len() as int),
            nested_from(fv, k + 1, dv(base@)),
        );
        assert(rmid.skip(orig.len() as int) + rules@.skip(rmid.len() as int) =~= rules@.skip(
            orig.len() as int,
        ));
        assert(rules@.take(orig.len() as int) =~= orig);
        assert(partk + nested_from(fv, k + 1, dv(base@)) =~= nested_from(
            fv,
            k as int,
            dv(base@),
        ));
    }
}

/// A fatal rule-compilation error: a caller-supplied ignore pattern that
/// cannot be compiled, by position.
#[derive(PartialEq, Eq, Structural, Clone, Copy, Debug)]
pub enum CompileError {
    InvalidPattern { index: usize },
}

/// The parts of a split with empty parts dropped.
pub open spec fn nonempty_comps(parts: Seq<Seq<u8>>) -> Seq<Seq<u8>>
    decreases parts.len(),
{
    if parts.len() == 0 {
        Seq::empty()
    } else {
        nonempty_comps(parts.drop_last()) + (if parts.last().len() > 0 {
            seq![parts.last()]
        } else {
            Seq::<Seq<u8>>::empty()
        })
    }
}

/// The components of one include override: the pattern without a trailing
/// separator, split at separators, empty components dropped (so doubled
/// or stray separators do not make the override unmatchable).
pub open spec fn include_comps(line: Seq<u8>) -> Seq<Seq<u8>> {
    if line.len() > 0 && line.last() == 47 {
        nonempty_comps(split_sep(line.drop_last(), 47))
    } else {
        nonempty_comps(split_sep(line, 47))
    }
}

/// Whether the parsed overrides are exactly the parsed include patterns.
pub open spec fn overrides_for(ovs: Seq<Seq<Seq<u8>>>, includes: Seq<Seq<u8>>) -> bool {
    ovs.len() == includes.len() && forall|i: int|
        0 <= i < includes.len() ==> #[trigger] ovs[i] == include_comps(includes[i])
}

/// Compiles the rule set: caller-supplied ignore patterns (an unusable
/// one is a fatal error), the ignore files discovered in the snapshot,
/// and the include overrides.
#[verifier::rlimit(100)]
pub fn compile_rules(
    cli_ignores: &Vec<Vec<u8>>,
    includes: &Vec<Vec<u8>>,
    root: &Vec<FsNode>,
) -> (res: Result<RuleSet, CompileError>)
    ensures
        res is Err <==> exists|j: int|
            0 <= j < cli_ignores@.len() && !pat_valid(#[trigger] dv(cli_ignores@)[j]),
        res matches Err(CompileError::InvalidPattern { index }) ==> index < cli_ignores@.len()
            && !pat_valid(dv(cli_ignores@)[index as int]) && (forall|j: int|
            0 <= j < index ==> pat_valid(#[trigger] dv(cli_ignores@)[j])),
        res matches Ok(rs) ==> rules_for_lines(
            rs.rules@,
            all_lines(dv(cli_ignores@), view_nodes(root@)),
        ) && overrides_for(dvv(rs.overrides@), dv(includes@)),
{
    let ghost cv = dv(cli_ignores@);
    let ghost cli_lines = cli_pairs(cv);
    let empty_base: Vec<Vec<u8>> = Vec::new();
    proof {
        assert(dv(empty_base@) =~= Seq::<Seq<u8>>::empty());
    }
    let mut rules: Vec<IgnoreRule> = Vec::new();
    let mut k: usize = 0;
    proof {
        assert(rules@ =~= Seq::<IgnoreRule>::empty());
        assert(rules_for_lines(rules@, cli_lines.take(0)));
    }
    while k < cli_ignores.len()
        invariant
            k <= cli_ignores@.len(),
            cv == dv(cli_ignores@),
            cli_lines == cli_pairs(cv),
            empty_base@.len() == 0,
            rules_for_lines(rules@, cli_lines.take(k as int)),
            forall|j: int| 0 <= j < k ==> pat_valid(#[trigger] cv[j]),
        decreases cli_ignores@.len() - k,
    {
        match parse_pattern(&cli_ignores[k], &empty_base) {
            Some(r) => {
                let ghost rpre = rules@;
                rules.push(r);
                proof {
                    assert(cli_lines.take(k + 1).drop_last() =~= cli_lines.take(k as int));
                    assert(rules@.drop_last() =~= rpre);
                    assert(cv[k as int] == cli_ignores@[k as int]@);
                    assert(dv(empty_base@) =~= Seq::<Seq<u8>>::empty());
                    assert(cli_lines.take(k + 1).last() == cli_lines[k as int]);
                    assert(cli_lines[k as int] == (cv[k as int], Seq::<Seq<u8>>::empty()));
                    assert(rules_for_lines(rules@, cli_lines.take(k + 1)));
                }
            },
            None => {
                proof {
                    assert(cv[k as int] == cli_ignores@[k as int]@);
                    assert(!pat_valid(cv[k as int]));
                }
                return Err(CompileError::InvalidPattern { index: k });
            },
        }
        k = k + 1;
    }
    proof {
        assert(cli_lines.take(cv.len() as int) =~= cli_lines);
    }
    let gi: [u8; 10] = [46u8, 103u8, 105u8, 116u8, 105u8, 103u8, 110u8, 111u8, 114u8, 101u8];
    let gd: [u8; 4] = [46u8, 103u8, 105u8, 116u8];
    let inf: [u8; 4] = [105u8, 110u8, 102u8, 111u8];
    let exc: [u8; 7] = [101u8, 120u8, 99u8, 108u8, 117u8, 100u8, 101u8];
    proof {
        assert(gi@ =~= dot_gitignore());
        assert(gd@ =~= dot_git());
        assert(inf@ =~= info_name());
        assert(exc@ =~= exclude_name());
    }
    let ghost r0 = rules@;
    match find_leaf_bytes(root, gi.as_slice()) {
        Some(c) => {
            add_line_rules(c, &empty_base, &mut rules);
        },
        None => {
        },
    }
    let ghost r1 = rules@;
    let ghost part_root = content_pairs(
        leaf_bytes(view_nodes(root@), dot_gitignore()),
        Seq::<Seq<u8>>::empty(),
    );
    proof {
        assert(r1.take(r0.len() as int) =~= r0);
        assert(rules_for_lines(r1.skip(r0.len() as int), part_root));
    }
    match find_dir(root, gd.as_slice()) {
        Some(g) => {
            match find_dir(g, inf.as_slice()) {
                Some(i) => {
                    match find_leaf_bytes(i, exc.as_slice()) {
                        Some(c) => {
                            add_line_rules(c, &empty_base, &mut rules);
                        },
                        None => {
                        },
                    }
                },
                None => {
                },
            }
        },
        None => {
        },
    }
    let ghost r2 = rules@;
    let ghost part_exc = exclude_pairs(view_nodes(root@));
    proof {
        assert(r2.take(r1.len() as int) =~= r1);
        assert(rules_for_lines(r2.skip(r1.len() as int), part_exc));
    }
    gather_nested(root, 0, &empty_base, &mut rules);
    let ghost part_nested = nested_from(view_nodes(root@), 0, Seq::<Seq<u8>>::empty());
    proof {
        lemma_rules_concat(r1.skip(r0.len() as int), part_root, r2.skip(r1.len() as int),
            part_exc);
        lemma_rules_concat(
            r1.skip(r0.len() as int) + r2.skip(r1.len() as int),
            part_root + part_exc,
            rules@.skip(r2.len() as int),
            part_nested,
        );
        lemma_rules_concat(
            r0,
            cli_lines,
            r1.skip(r0.len() as int) + r2.skip(r1.len() as int) + rules@.skip(r2.len() as int),
            part_root + part_exc + part_nested,
        );
        assert(r0 + (r1.skip(r0.len() as int) + r2.skip(r1.len() as int) + rules@.skip(
            r2.len() as int,
        )) =~= rules@);
        assert(cli_lines + (part_root + part_exc + part_nested) =~= all_lines(
            cv,
            view_nodes(root@),
        ));
    }
    let mut overrides: Vec<Vec<Vec<u8>>> = Vec::new();
    let mut m: usize = 0;
    while m < includes.len()
        invariant
            m <= includes@.len(),
            dvv(overrides@).len() == m,
            forall|i: int|
                0 <= i < m ==> #[trigger] dvv(overrides@)[i] == include_comps(
                    dv(includes@)[i],
                ),
        decreases includes@.len() - m,
    {
        let line = &includes[m];
        let stripped: Vec<u8> = if line.len() > 0 && line[line.len() - 1] == 47 {
            sub_bytes(line, 0, line.len() - 1)
        } else {
            clone_bytes(line)
        };
        proof {
            if line@.len() > 0 && line@.last() == 47 {
                assert(stripped@ =~= line@.drop_last());
            }
        }
        let parts = split_bytes(&stripped, 47);
        let ghost partsv = dv(parts@);
        let mut comps: Vec<Vec<u8>> = Vec::new();
        let mut c: usize = 0;
        proof {
            assert(partsv.take(0) =~= Seq::<Seq<u8>>::empty());
            assert(dv(comps@) =~= nonempty_comps(partsv.take(0)));
        }
        while c < parts.len()
            invariant
                c <= parts@.len(),
                partsv == dv(parts@),
                dv(comps@) == nonempty_comps(partsv.take(c as int)),
            decreases parts@.len() - c,
        {
            proof {
                assert(partsv.take(c + 1).drop_last() =~= partsv.take(c as int));
                assert(partsv.take(c + 1).last() == partsv[c as int]);
                assert(partsv[c as int] == parts@[c as int]@);
            }
            if parts[c].len() > 0 {
                let ghost cpre = comps@;
                comps.push(clone_bytes(&parts[c]));
                proof {
                    crate::bytestr::lemma_dv_push(cpre, comps@.last());
                    assert(dv(comps@) =~= nonempty_comps(partsv.take(c + 1)));
                }
            } else {
                proof {
                    assert(dv(comps@) =~= nonempty_comps(partsv.take(c + 1)));
                }
            }
            c = c + 1;
        }
        proof {
            assert(partsv.take(partsv.len() as int) =~= partsv);
            assert(dv(comps@) == include_comps(dv(includes@)[m as int]));
        }
        let ghost opre = overrides@;
        overrides.push(comps);
        proof {
            assert forall|i: int| 0 <= i < m + 1 implies #[trigger] dvv(overrides@)[i]
                == include_comps(dv(includes@)[i]) by {
                if i < m {
                    assert(overrides@[i] == opre[i]);
                    assert(dvv(opre)[i] == dv(opre[i]@));
                }
            }
        }
        m = m + 1;
    }
    Ok(RuleSet { rules, overrides })
}

/// The ordered, filtered document tree of the whole repository.
pub open spec fn filtered_root(
    rules: Seq<IgnoreRule>,
    ovs: Seq<Seq<Seq<u8>>>,
    root: Seq<FsNodeView>,
) -> Seq<DocEntryView> {
    sort_entries(filter_list(rules, ovs, root, Seq::<Seq<u8>>::empty()))
}

/// The whole document: the repository title, then the root directory
/// section, trailing whitespace trimmed and one final newline appended.
pub open spec fn document_spec(
    repo: Seq<u8>,
    rules: Seq<IgnoreRule>,
    ovs: Seq<Seq<Seq<u8>>>,
    root: Seq<FsNodeView>,
) -> Seq<u8> {
    trim_end_ws(
        seq![35u8, 32u8, 96u8] + repo + seq![96u8, 10u8, 10u8] + dir_section(
            Seq::<Seq<u8>>::empty(),
            filtered_root(rules, ovs, root),
        ),
    ) + seq![10u8]
}

/// The warnings of the whole run, in traversal order.
pub open spec fn warns_spec(
    rules: Seq<IgnoreRule>,
    ovs: Seq<Seq<Seq<u8>>>,
    root: Seq<FsNodeView>,
) -> Seq<(Seq<u8>, WarnKind)> {
    warns_from(filtered_root(rules, ovs, root), 0, Seq::<Seq<u8>>::empty())
}

/// Runs the engine: filters the snapshot under the rule set, renders the
/// Markdown document, and reports the logging-boundary warnings.
pub fn generate_document(repo_name: &Vec<u8>, root: &Vec<FsNode>, rs: &RuleSet) -> (res: (
    Vec<u8>,
    Vec<Warning>,
))
    ensures
        res.0@ == document_spec(repo_name@, rs.rules@, dvv(rs.overrides@), view_nodes(root@)),
        view_warns(res.1@) == warns_spec(rs.rules@, dvv(rs.overrides@), view_nodes(root@)),
{
    let empty_path: Vec<Vec<u8>> = Vec::new();
    proof {
        assert(dv(empty_path@) =~= Seq::<Seq<u8>>::empty());
    }
    let filtered = filter_nodes(rs, root, &empty_path);
    let mut out: Vec<u8> = Vec::new();
    let title: [u8; 3] = [35u8, 32u8, 96u8];
    append_lit(&mut out, title.as_slice());
    append_bytes(&mut out, repo_name);
    let title_close: [u8; 3] = [96u8, 10u8, 10u8];
    append_lit(&mut out, title_close.as_slice());
    crate::render::render_dir(&filtered, &empty_path, &mut out);
    proof {
        assert(title@ =~= seq![35u8, 32u8, 96u8]);
        assert(title_close@ =~= seq![96u8, 10u8, 10u8]);
        assert(out@ =~= seq![35u8, 32u8, 96u8] + repo_name@ + seq![96u8, 10u8, 10u8]
            + dir_section(
            Seq::<Seq<u8>>::empty(),
            filtered_root(rs.rules@, dvv(rs.overrides@), view_nodes(root@)),
        ));
    }
    crate::render::trim_end_exec(&mut out);
    out.push(10u8);
    proof {
        assert(out@ =~= document_spec(
            repo_name@,
            rs.rules@,
            dvv(rs.overrides@),
            view_nodes(root@),
        ));
    }
    let mut warns: Vec<Warning> = Vec::new();
    collect_warns(&filtered, 0, &empty_path, &mut warns);
    proof {
        assert(view_warns(Seq::<Warning>::empty()) =~= Seq::<(Seq<u8>, WarnKind)>::empty());
        assert(view_warns(warns@) =~= warns_spec(rs.rules@, dvv(rs.overrides@), view_nodes(
            root@,
        )));
    }
    (out, warns)
}

} // verus!
