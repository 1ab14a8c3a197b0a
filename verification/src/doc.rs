//! The filtered document tree: classification of included files, the
//! ordering of directory listings, and the ignore-aware filter from a
//! snapshot to the document tree.
use vstd::prelude::*;
use crate::bytestr::{dv, dvv, lex_leq, clone_bytes, clone_path};
use crate::rules::{IgnoreRule, RuleSet, keep_path, keep_exec};
use crate::snapshot::{FileData, FsNode, FileDataView, FsNodeView, view_data, view_node,
    view_nodes, lemma_view_nodes, node_name};

verus! {

/// An included file's classification; only text files carry content.
pub enum FileState {
    Text(Vec<u8>),
    Binary,
    Link,
    Failed,
}

/// One entry of the document tree.  A directory's entries are ordered:
/// directories before files, each group sorted by name.
pub enum DocEntry {
    DirE { name: Vec<u8>, entries: Vec<DocEntry> },
    FileE { name: Vec<u8>, state: FileState },
}

/// Mathematical view of a classification.
pub enum FileStateView {
    TextV(Seq<u8>),
    BinaryV,
    LinkV,
    FailedV,
}

/// Mathematical view of a document-tree entry.
pub enum DocEntryView {
    DirV { name: Seq<u8>, entries: Seq<DocEntryView> },
    FileV { name: Seq<u8>, state: FileStateView },
}

/// View of a classification.
pub open spec fn view_state(s: FileState) -> FileStateView {
    match s {
        FileState::Text(b) => FileStateView::TextV(b@),
        FileState::Binary => FileStateView::BinaryV,
        FileState::Link => FileStateView::LinkV,
        FileState::Failed => FileStateView::FailedV,
    }
}

/// View of a document-tree entry.
pub open spec fn view_entry(e: DocEntry) -> DocEntryView
    decreases e,
{
    match e {
        DocEntry::DirE { name, entries } => DocEntryView::DirV {
            name: name@,
            entries: view_entries(entries@),
        },
        DocEntry::FileE { name, state } => DocEntryView::FileV {
            name: name@,
            state: view_state(state),
        },
    }
}

/// View of a list of document-tree entries.
pub open spec fn view_entries(es: Seq<DocEntry>) -> Seq<DocEntryView>
    decreases es,
{
    if es.len() == 0 {
        Seq::empty()
    } else {
        view_entries(es.drop_last()).push(view_entry(es.last()))
    }
}

/// `view_entries` views the entries one by one.
pub proof fn lemma_view_entries(es: Seq<DocEntry>)
    ensures
        view_entries(es).len() == es.len(),
        forall|i: int| 0 <= i < es.len() ==> view_entries(es)[i] == view_entry(es[i]),
    decreases es,
{
    if es.len() > 0 {
        lemma_view_entries(es.drop_last());
    }
}

/// Classification of a file's observed state: a symbolic link stays a
/// link, a failed read counts as binary content, and byte content is text
/// exactly when it is valid UTF-8, in which case it is kept verbatim.
pub open spec fn classify_data(d: FileDataView) -> FileStateView {
    match d {
        FileDataView::BytesV(b) => if vstd::utf8::valid_utf8(b) {
            FileStateView::TextV(b)
        } else {
            FileStateView::BinaryV
        },
        FileDataView::ReadFailedV => FileStateView::FailedV,
        FileDataView::SymlinkV => FileStateView::LinkV,
    }
}

/// Relies on core::str::from_utf8, which succeeds exactly on byte
/// sequences that are valid UTF-8 as vstd's `valid_utf8` defines it.
#[verifier::external_body]
fn utf8_valid_exec(b: &Vec<u8>) -> (r: bool)
    ensures
        r == vstd::utf8::valid_utf8(b@),
{
    core::str::from_utf8(b.as_slice()).is_ok()
}

/// Classifies one file's observed state.
pub fn classify(d: &FileData) -> (res: FileState)
    ensures
        view_state(res) == classify_data(view_data(*d)),
{
    match d {
        FileData::Bytes(b) => {
            if utf8_valid_exec(b) {
                FileState::Text(clone_bytes(b))
            } else {
                FileState::Binary
            }
        },
        FileData::ReadFailed => FileState::Failed,
        FileData::Symlink => FileState::Link,
    }
}

/// Listing order: directories sort before files, and within one group
/// names sort bytewise.
pub open spec fn entry_rank(e: DocEntryView) -> int {
    match e {
        DocEntryView::DirV { name, entries } => 0,
        DocEntryView::FileV { name, state } => 1,
    }
}

/// The name of a document-tree entry, in view form.
pub open spec fn entry_name(e: DocEntryView) -> Seq<u8> {
    match e {
        DocEntryView::DirV { name, entries } => name,
        DocEntryView::FileV { name, state } => name,
    }
}

/// The listing order on document-tree entries.
pub open spec fn doc_leq(a: DocEntryView, b: DocEntryView) -> bool {
    entry_rank(a) < entry_rank(b) || (entry_rank(a) == entry_rank(b) && lex_leq(
        entry_name(a),
        entry_name(b),
    ))
}

/// Inserts `x` into the sorted sequence `s`, before the first entry that
/// `x` precedes or ties with.
pub open spec fn insert_sorted(x: DocEntryView, s: Seq<DocEntryView>) -> Seq<DocEntryView>
    decreases s.len(),
{
    if s.len() == 0 {
        seq![x]
    } else if doc_leq(x, s[0]) {
        seq![x] + s
    } else {
        seq![s[0]] + insert_sorted(x, s.drop_first())
    }
}

/// Sorts a listing by insertion.
pub open spec fn sort_entries(s: Seq<DocEntryView>) -> Seq<DocEntryView>
    decreases s.len(),
{
    if s.len() == 0 {
        Seq::empty()
    } else {
        insert_sorted(s.last(), sort_entries(s.drop_last()))
    }
}

/// The singleton or empty sequence of an optional entry.
pub open spec fn opt_seq(o: Option<DocEntryView>) -> Seq<DocEntryView> {
    match o {
        Option::Some(x) => seq![x],
        Option::None => Seq::empty(),
    }
}

/// The filter decision for one snapshot entry at repository-relative path
/// `path` (which ends in the entry's own name): the kept document entry,
/// or nothing.  A skipped directory prunes its whole subtree, since its
/// children are never filtered.
pub open spec fn filter_entry(
    rules: Seq<IgnoreRule>,
    ovs: Seq<Seq<Seq<u8>>>,
    v: FsNodeView,
    path: Seq<Seq<u8>>,
) -> Option<DocEntryView>
    decreases v,
{
    match v {
        FsNodeView::LeafV { name, data } => if keep_path(rules, ovs, path, false) {
            Option::Some(DocEntryView::FileV { name, state: classify_data(data) })
        } else {
            Option::None
        },
        FsNodeView::DirV { name, entries } => if keep_path(rules, ovs, path, true) {
            Option::Some(
                DocEntryView::DirV {
                    name,
                    entries: sort_entries(filter_list(rules, ovs, entries, path)),
                },
            )
        } else {
            Option::None
        },
    }
}

/// The kept children of one directory, in snapshot order and not yet
/// sorted.
pub open spec fn filter_list(
    rules: Seq<IgnoreRule>,
    ovs: Seq<Seq<Seq<u8>>>,
    es: Seq<FsNodeView>,
    dirpath: Seq<Seq<u8>>,
) -> Seq<DocEntryView>
    decreases es,
{
    if es.len() == 0 {
        Seq::empty()
    } else {
        filter_list(rules, ovs, es.drop_last(), dirpath) + opt_seq(
            filter_entry(rules, ovs, es.last(), dirpath.push(node_name(es.last()))),
        )
    }
}

/// Decides `doc_leq`.
pub fn doc_leq_exec(a: &DocEntry, b: &DocEntry) -> (r: bool)
    ensures
        r == doc_leq(view_entry(*a), view_entry(*b)),
{
    let ra: usize = match a {
        DocEntry::DirE { .. } => 0,
        DocEntry::FileE { .. } => 1,
    };
    let rb: usize = match b {
        DocEntry::DirE { .. } => 0,
        DocEntry::FileE { .. } => 1,
    };
    if ra < rb {
        return true;
    }
    if ra > rb {
        return false;
    }
    let na = match a {
        DocEntry::DirE { name, .. } => name,
        DocEntry::FileE { name, .. } => name,
    };
    let nb = match b {
        DocEntry::DirE { name, .. } => name,
        DocEntry::FileE { name, .. } => name,
    };
    crate::bytestr::bytes_leq(na, nb)
}

/// Inserting before the first entry that `x` precedes or ties with is
/// what `insert_sorted` does.
pub proof fn lemma_insert_at(x: DocEntryView, s: Seq<DocEntryView>, i: int)
    requires
        0 <= i <= s.len(),
        forall|j: int| 0 <= j < i ==> !doc_leq(x, s[j]),
        i < s.len() ==> doc_leq(x, s[i]),
    ensures
        insert_sorted(x, s) == s.take(i) + seq![x] + s.skip(i),
    decreases i,
{
    if i == 0 {
        if s.len() == 0 {
            assert(insert_sorted(x, s) =~= s.take(0) + seq![x] + s.skip(0));
        } else {
            assert(doc_leq(x, s[0]));
            assert(seq![x] + s =~= s.take(0) + seq![x] + s.skip(0));
        }
    } else {
        assert(!doc_leq(x, s[0]));
        assert(forall|j: int| 0 <= j < i - 1 ==> s.drop_first()[j] == s[j + 1]);
        lemma_insert_at(x, s.drop_first(), i - 1);
        assert(s.drop_first().take(i - 1) =~= s.take(i).drop_first());
        assert(s.drop_first().skip(i - 1) =~= s.skip(i));
        assert(seq![s[0]] + (s.take(i).drop_first() + seq![x] + s.skip(i)) =~= s.take(i)
            + seq![x] + s.skip(i));
    }
}

/// Inserts `x` into the listing `out`, keeping it sorted.
pub fn insert_entry(out: &mut Vec<DocEntry>, x: DocEntry)
    ensures
        view_entries(final(out)@) == insert_sorted(view_entry(x), view_entries(old(out)@)),
{
    let ghost base = old(out)@;
    let ghost sv = view_entries(old(out)@);
    let mut i: usize = 0;
    let mut stop: bool = false;
    while i < out.len() && !stop
        invariant
            i <= out@.len(),
            out@ == base,
            sv == view_entries(base),
            forall|j: int| 0 <= j < i ==> !doc_leq(view_entry(x), sv[j]),
            stop ==> i < out@.len() && doc_leq(view_entry(x), sv[i as int]),
        decreases out@.len() - i + (if stop { 0int } else { 1int }),
    {
        proof {
            lemma_view_entries(base);
            assert(sv[i as int] == view_entry(out@[i as int]));
        }
        if doc_leq_exec(&x, &out[i]) {
            stop = true;
        } else {
            i = i + 1;
        }
    }
    proof {
        lemma_view_entries(base);
        lemma_insert_at(view_entry(x), sv, i as int);
    }
    let ghost xe = view_entry(x);
    out.insert(i, x);
    proof {
        lemma_view_entries(out@);
        assert(out@ == base.insert(i as int, x));
        assert forall|k: int| 0 <= k < out@.len() implies view_entries(out@)[k] == (sv.take(
            i as int,
        ) + seq![xe] + sv.skip(i as int))[k] by {
            lemma_view_entries(base);
            if k < i {
                assert(out@[k] == base[k]);
            } else if k == i {
                assert(out@[k] == x);
            } else {
                assert(out@[k] == base[k - 1]);
            }
        }
        assert(view_entries(out@) =~= sv.take(i as int) + seq![xe] + sv.skip(i as int));
    }
}

/// Filters and orders the children of one directory whose own
/// repository-relative path is `dirpath`; prunes skipped directories.
pub fn filter_nodes(rs: &RuleSet, es: &Vec<FsNode>, dirpath: &Vec<Vec<u8>>) -> (out: Vec<
    DocEntry,
>)
    ensures
        view_entries(out@) == sort_entries(
            filter_list(rs.rules@, dvv(rs.overrides@), view_nodes(es@), dv(dirpath@)),
        ),
    decreases es@,
{
    let ghost rules = rs.rules@;
    let ghost ovs = dvv(rs.overrides@);
    let ghost vp = dv(dirpath@);
    let ghost fv = view_nodes(es@);
    proof {
        lemma_view_nodes(es@);
    }
    let mut out: Vec<DocEntry> = Vec::new();
    let mut k: usize = 0;
    proof {
        assert(fv.take(0) =~= Seq::<FsNodeView>::empty());
        assert(view_entries(out@) =~= sort_entries(filter_list(rules, ovs, fv.take(0), vp)));
    }
    while k < es.len()
        invariant
            k <= es@.len(),
            fv == view_nodes(es@),
            fv.len() == es@.len(),
            forall|i: int| 0 <= i < es@.len() ==> fv[i] == view_node(es@[i]),
            rules == rs.rules@,
            ovs == dvv(rs.overrides@),
            vp == dv(dirpath@),
            view_entries(out@) == sort_entries(filter_list(rules, ovs, fv.take(k as int), vp)),
        decreases es@.len() - k,
    {
        let ghost cur = filter_list(rules, ovs, fv.take(k as int), vp);
        proof {
            assert(fv.take(k + 1).drop_last() =~= fv.take(k as int));
            assert(fv.take(k + 1).last() == fv[k as int]);
        }
        match &es[k] {
            FsNode::Dir { name, entries } => {
                let mut cpath = clone_path(dirpath);
                cpath.push(clone_bytes(name));
                proof {
                    crate::bytestr::lemma_dv_push(dirpath@, cpath@.last());
                    assert(dv(cpath@) =~= vp.push(name@));
                    assert(node_name(fv[k as int]) == name@);
                }
                if keep_exec(rs, &cpath, true) {
                    let sub = filter_nodes(rs, entries, &cpath);
                    let ghost subv = view_entries(sub@);
                    let e = DocEntry::DirE { name: clone_bytes(name), entries: sub };
                    proof {
                        assert(view_entry(e) == filter_entry(
                            rules,
                            ovs,
                            fv[k as int],
                            vp.push(name@),
                        ).unwrap());
                    }
                    insert_entry(&mut out, e);
                    proof {
                        assert(filter_list(rules, ovs, fv.take(k + 1), vp) =~= cur
                            + opt_seq(filter_entry(rules, ovs, fv[k as int], vp.push(name@))));
                        assert((cur + opt_seq(
                            filter_entry(rules, ovs, fv[k as int], vp.push(name@)),
                        )).drop_last() =~= cur);
                    }
                } else {
                    proof {
                        assert(filter_list(rules, ovs, fv.take(k + 1), vp) =~= cur);
                    }
                }
            },
            FsNode::Leaf { name, data } => {
                let mut cpath = clone_path(dirpath);
                cpath.push(clone_bytes(name));
                proof {
                    crate::bytestr::lemma_dv_push(dirpath@, cpath@.last());
                    assert(dv(cpath@) =~= vp.push(name@));
                    assert(node_name(fv[k as int]) == name@);
                }
                if keep_exec(rs, &cpath, false) {
                    let st = classify(data);
                    let e = DocEntry::FileE { name: clone_bytes(name), state: st };
                    proof {
                        assert(view_entry(e) == filter_entry(
                            rules,
                            ovs,
                            fv[k as int],
                            vp.push(name@),
                        ).unwrap());
                    }
                    insert_entry(&mut out, e);
                    proof {
                        assert(filter_list(rules, ovs, fv.take(k + 1), vp) =~= cur
                            + opt_seq(filter_entry(rules, ovs, fv[k as int], vp.push(name@))));
                        assert((cur + opt_seq(
                            filter_entry(rules, ovs, fv[k as int], vp.push(name@)),
                        )).drop_last() =~= cur);
                    }
                } else {
                    proof {
                        assert(filter_list(rules, ovs, fv.take(k + 1), vp) =~= cur);
                    }
                }
            },
        }
        k = k + 1;
    }
    proof {
        assert(fv.take(es@.len() as int) =~= fv);
    }
    out
}

} // verus!
