//! The library's stated laws: determinism, order-independence of
//! listings, pruning and override precedence, and the round trip of
//! embedded text content.
use vstd::prelude::*;
use vstd::multiset::Multiset;
use crate::bytestr::{lex_leq, lemma_lex_total, lemma_lex_antisym, join_sep};
use crate::rules::{IgnoreRule, keep_path};
use crate::snapshot::FsNodeView;
use crate::doc::{DocEntryView, FileStateView, doc_leq, entry_rank, entry_name, insert_sorted,
    sort_entries, filter_list, filter_entry, opt_seq};
use crate::engine::{filtered_root, document_spec, warns_spec, WarnKind};
use crate::render::{file_section, lang_of};

verus! {

/// Determinism: the document and the warnings are functions of the
/// snapshot, the rules and the overrides alone, so two runs on the same
/// inputs yield byte-identical output.
pub proof fn lemma_deterministic(
    repo: Seq<u8>,
    rules: Seq<IgnoreRule>,
    ovs: Seq<Seq<Seq<u8>>>,
    root: Seq<FsNodeView>,
    d1: Seq<u8>,
    d2: Seq<u8>,
    w1: Seq<(Seq<u8>, WarnKind)>,
    w2: Seq<(Seq<u8>, WarnKind)>,
)
    requires
        d1 == document_spec(repo, rules, ovs, root),
        d2 == document_spec(repo, rules, ovs, root),
        w1 == warns_spec(rules, ovs, root),
        w2 == warns_spec(rules, ovs, root),
    ensures
        d1 == d2,
        w1 == w2,
{
}

/// The listing order is total.
pub proof fn lemma_doc_leq_total(a: DocEntryView, b: DocEntryView)
    ensures
        doc_leq(a, b) || doc_leq(b, a),
{
    if entry_rank(a) == entry_rank(b) {
        lemma_lex_total(entry_name(a), entry_name(b));
    }
}

/// The listing order is transitive.
pub proof fn lemma_doc_leq_trans(a: DocEntryView, b: DocEntryView, c: DocEntryView)
    requires
        doc_leq(a, b),
        doc_leq(b, c),
    ensures
        doc_leq(a, c),
{
    if entry_rank(a) == entry_rank(b) && entry_rank(b) == entry_rank(c) {
        crate::bytestr::lemma_lex_trans(entry_name(a), entry_name(b), entry_name(c));
    }
}

/// A listing is sorted when every earlier entry precedes or ties with
/// every later one.
pub open spec fn listing_sorted(s: Seq<DocEntryView>) -> bool {
    forall|i: int, j: int| 0 <= i < j < s.len() ==> doc_leq(#[trigger] s[i], #[trigger] s[j])
}

/// Inserting keeps the multiset of entries, adding the new one.
pub proof fn lemma_insert_sorted_multiset(x: DocEntryView, s: Seq<DocEntryView>)
    ensures
        insert_sorted(x, s).to_multiset() == s.to_multiset().insert(x),
    decreases s.len(),
{
    broadcast use vstd::seq_lib::group_to_multiset_ensures;

    if s.len() == 0 {
        assert(insert_sorted(x, s) =~= Seq::<DocEntryView>::empty().push(x));
        assert(insert_sorted(x, s).to_multiset() =~= s.to_multiset().insert(x));
    } else if doc_leq(x, s[0]) {
        assert(seq![x] + s =~= s.insert(0, x));
        vstd::seq_lib::lemma_multiset_commutative(seq![x], s);
        assert(seq![x].to_multiset() =~= Multiset::<DocEntryView>::empty().insert(x));
        assert((seq![x] + s).to_multiset() =~= s.to_multiset().insert(x));
    } else {
        lemma_insert_sorted_multiset(x, s.drop_first());
        vstd::seq_lib::lemma_multiset_commutative(seq![s[0]], insert_sorted(x, s.drop_first()));
        vstd::seq_lib::lemma_multiset_commutative(seq![s[0]], s.drop_first());
        assert(seq![s[0]] + s.drop_first() =~= s);
        assert(seq![s[0]].to_multiset() =~= Multiset::<DocEntryView>::empty().insert(s[0]));
        assert((seq![s[0]] + insert_sorted(x, s.drop_first())).to_multiset() =~= s.to_multiset()
            .insert(x));
    }
}

/// Inserting into a sorted listing keeps it sorted.
pub proof fn lemma_insert_sorted_ordered(x: DocEntryView, s: Seq<DocEntryView>)
    requires
        listing_sorted(s),
    ensures
        listing_sorted(insert_sorted(x, s)),
    decreases s.len(),
{
    broadcast use vstd::seq_lib::group_to_multiset_ensures;

    if s.len() == 0 {
    } else if doc_leq(x, s[0]) {
        let r = seq![x] + s;
        assert forall|i: int, j: int| 0 <= i < j < r.len() implies doc_leq(r[i], r[j]) by {
            if i == 0 {
                if j > 1 {
                    lemma_doc_leq_trans(x, s[0], s[j - 1]);
                } else {
                    assert(r[j] == s[0]);
                }
            } else {
                assert(r[i] == s[i - 1]);
                assert(r[j] == s[j - 1]);
            }
        }
    } else {
        assert(forall|i: int, j: int|
            0 <= i < j < s.drop_first().len() ==> doc_leq(
                #[trigger] s.drop_first()[i],
                #[trigger] s.drop_first()[j],
            ));
        lemma_insert_sorted_ordered(x, s.drop_first());
        let t = insert_sorted(x, s.drop_first());
        let r = seq![s[0]] + t;
        lemma_insert_sorted_multiset(x, s.drop_first());
        lemma_doc_leq_total(x, s[0]);
        assert forall|i: int, j: int| 0 <= i < j < r.len() implies doc_leq(r[i], r[j]) by {
            if i == 0 {
                assert(t.to_multiset().contains(r[j]));
                assert(t.contains(r[j]) || r[j] == x) by {
                    if r[j] != x {
                        assert(t.to_multiset().count(r[j]) > 0);
                        assert(s.drop_first().to_multiset().count(r[j]) > 0);
                        assert(s.drop_first().contains(r[j]));
                        assert(t.contains(r[j]));
                    }
                }
                if r[j] == x {
                    assert(doc_leq(s[0], x));
                } else {
                    let m = choose|m: int| 0 <= m < t.len() && t[m] == r[j];
                    assert(t.to_multiset() =~= s.drop_first().to_multiset().insert(x));
                    if s.drop_first().contains(r[j]) {
                        let n = choose|n: int|
                            0 <= n < s.drop_first().len() && s.drop_first()[n] == r[j];
                        assert(s[n + 1] == r[j]);
                        assert(doc_leq(s[0], s[n + 1]));
                    } else {
                        assert(s.drop_first().to_multiset().count(r[j]) == 0);
                        assert(t.to_multiset().count(r[j]) > 0);
                        assert(r[j] == x);
                    }
                }
            } else {
                assert(r[i] == t[i - 1]);
                assert(r[j] == t[j - 1]);
            }
        }
    }
}

/// The engine's listings: sorting yields a sorted listing with exactly
/// the filtered entries.
pub proof fn lemma_sort_entries_ensures(s: Seq<DocEntryView>)
    ensures
        listing_sorted(sort_entries(s)),
        sort_entries(s).to_multiset() == s.to_multiset(),
    decreases s.len(),
{
    broadcast use vstd::seq_lib::group_to_multiset_ensures;

    if s.len() == 0 {
        assert(sort_entries(s).to_multiset() =~= s.to_multiset());
    } else {
        lemma_sort_entries_ensures(s.drop_last());
        lemma_insert_sorted_ordered(s.last(), sort_entries(s.drop_last()));
        lemma_insert_sorted_multiset(s.last(), sort_entries(s.drop_last()));
        assert(s.drop_last().push(s.last()) =~= s);
        assert(s.drop_last().push(s.last()).to_multiset() =~= s.drop_last().to_multiset()
            .insert(s.last()));
    }
}

/// Whether two entries would collide in one listing: same group and same
/// name.
pub open spec fn same_key(a: DocEntryView, b: DocEntryView) -> bool {
    entry_rank(a) == entry_rank(b) && entry_name(a) == entry_name(b)
}

/// A listing without colliding entries, as a directory's children are on
/// a filesystem.
pub open spec fn distinct_keys(s: Seq<DocEntryView>) -> bool {
    forall|i: int, j: int|
        0 <= i < j < s.len() ==> !same_key(#[trigger] s[i], #[trigger] s[j])
}

/// Two sorted listings of the same entries, without colliding keys, are
/// equal.
pub proof fn lemma_sorted_unique(x: Seq<DocEntryView>, y: Seq<DocEntryView>)
    requires
        listing_sorted(x),
        listing_sorted(y),
        distinct_keys(x),
        x.to_multiset() == y.to_multiset(),
    ensures
        x == y,
    decreases x.len(),
{
    broadcast use vstd::seq_lib::group_to_multiset_ensures;

    if x.len() == 0 {
        assert(y.to_multiset().len() == 0);
        assert(x =~= y);
    } else {
        assert(x.to_multiset().len() == x.len());
        assert(y.to_multiset().len() == y.len());
        assert(y.len() == x.len());
        assert(x.to_multiset().contains(y[0]));
        assert(x.contains(y[0]));
        let i = choose|i: int| 0 <= i < x.len() && x[i] == y[0];
        assert(y.to_multiset().contains(x[0]));
        assert(y.contains(x[0]));
        let j = choose|j: int| 0 <= j < y.len() && y[j] == x[0];
        if i > 0 {
            assert(doc_leq(x[0], x[i]));
            assert(doc_leq(y[0], y[j]));
            assert(doc_leq(x[0], y[0]) && doc_leq(y[0], x[0]));
            assert(entry_rank(x[0]) == entry_rank(x[i]));
            lemma_lex_antisym(entry_name(x[0]), entry_name(x[i]));
            assert(same_key(x[0], x[i]));
            assert(false);
        }
        assert(x[0] == y[0]);
        assert(x.drop_first() =~= x.remove(0));
        assert(y.drop_first() =~= y.remove(0));
        assert(x.remove(0).to_multiset() =~= x.to_multiset().remove(x[0]));
        assert(y.remove(0).to_multiset() =~= y.to_multiset().remove(y[0]));
        assert(forall|a: int, b: int|
            0 <= a < b < x.drop_first().len() ==> doc_leq(
                #[trigger] x.drop_first()[a],
                #[trigger] x.drop_first()[b],
            ));
        assert(forall|a: int, b: int|
            0 <= a < b < y.drop_first().len() ==> doc_leq(
                #[trigger] y.drop_first()[a],
                #[trigger] y.drop_first()[b],
            ));
        assert(forall|a: int, b: int|
            0 <= a < b < x.drop_first().len() ==> !same_key(
                #[trigger] x.drop_first()[a],
                #[trigger] x.drop_first()[b],
            ));
        lemma_sorted_unique(x.drop_first(), y.drop_first());
        assert(x =~= y) by {
            assert forall|k: int| 0 <= k < x.len() implies x[k] == y[k] by {
                if k > 0 {
                    assert(x[k] == x.drop_first()[k - 1]);
                    assert(y[k] == y.drop_first()[k - 1]);
                }
            }
        }
    }
}

/// Order-independence of listings: the ordered listing of a directory is
/// the same whatever order the filesystem reported its kept children in.
pub proof fn lemma_listing_order_independent(s1: Seq<DocEntryView>, s2: Seq<DocEntryView>)
    requires
        s1.to_multiset() == s2.to_multiset(),
        distinct_keys(sort_entries(s1)),
    ensures
        sort_entries(s1) == sort_entries(s2),
{
    lemma_sort_entries_ensures(s1);
    lemma_sort_entries_ensures(s2);
    lemma_sorted_unique(sort_entries(s1), sort_entries(s2));
}

/// The round trip of embedded text: the bytes standing between the
/// fenced block's opening and closing in a text file's section are
/// exactly the file's content, unchanged.
pub proof fn lemma_text_round_trip(rel: Seq<Seq<u8>>, name: Seq<u8>, content: Seq<u8>)
    ensures
        ({
            let s = file_section(rel, name, FileStateView::TextV(content));
            let lead: int = 18int + join_sep(rel, 47).len() as int + 6int + lang_of(name).len() as int + 1int;
            s.subrange(lead, lead + content.len()) == content
        }),
{
    let s = file_section(rel, name, FileStateView::TextV(content));
    let lead: int = 18int + join_sep(rel, 47).len() as int + 6int + lang_of(name).len() as int + 1int;
    assert(s.subrange(lead, lead + content.len()) =~= content);
}

/// The children of a document directory entry; a file has none.
pub open spec fn dir_children(e: DocEntryView) -> Seq<DocEntryView> {
    match e {
        DocEntryView::DirV { name, entries } => entries,
        DocEntryView::FileV { name, state } => Seq::empty(),
    }
}

/// Whether the document tree holds an entry at the relative path `q`.
pub open spec fn doc_has(es: Seq<DocEntryView>, q: Seq<Seq<u8>>) -> bool
    decreases q.len(),
{
    q.len() > 0 && exists|i: int|
        0 <= i < es.len() && #[trigger] entry_name(es[i]) == q[0] && (q.len() == 1 || (es[i]
            is DirV && doc_has(dir_children(es[i]), q.drop_first())))
}

/// The children of a snapshot directory node; a leaf has none.
pub open spec fn fs_dir_children(v: FsNodeView) -> Seq<FsNodeView> {
    match v {
        FsNodeView::DirV { name, entries } => entries,
        FsNodeView::LeafV { name, data } => Seq::empty(),
    }
}

/// Whether the snapshot holds an entry at the relative path `q`.
pub open spec fn fs_has(es: Seq<FsNodeView>, q: Seq<Seq<u8>>) -> bool
    decreases q.len(),
{
    q.len() > 0 && exists|i: int|
        0 <= i < es.len() && #[trigger] crate::snapshot::node_name(es[i]) == q[0] && (q.len()
            == 1 || (es[i] is DirV && fs_has(fs_dir_children(es[i]), q.drop_first())))
}

/// Every entry of a filtered listing stems from a kept snapshot child.
pub proof fn lemma_filter_list_member(
    rules: Seq<IgnoreRule>,
    ovs: Seq<Seq<Seq<u8>>>,
    es: Seq<FsNodeView>,
    dirpath: Seq<Seq<u8>>,
    x: DocEntryView,
)
    requires
        filter_list(rules, ovs, es, dirpath).contains(x),
    ensures
        exists|ch: FsNodeView|
            #[trigger] filter_entry(
                rules,
                ovs,
                ch,
                dirpath.push(crate::snapshot::node_name(ch)),
            ) == Some(x),
    decreases es.len(),
{
    let l = filter_list(rules, ovs, es, dirpath);
    let prev = filter_list(rules, ovs, es.drop_last(), dirpath);
    let tail = opt_seq(
        filter_entry(
            rules,
            ovs,
            es.last(),
            dirpath.push(crate::snapshot::node_name(es.last())),
        ),
    );
    let k = choose|k: int| 0 <= k < l.len() && l[k] == x;
    if k < prev.len() {
        assert(prev[k] == x);
        assert(prev.contains(x));
        lemma_filter_list_member(rules, ovs, es.drop_last(), dirpath, x);
    } else {
        assert(tail[k - prev.len()] == x);
        assert(filter_entry(
            rules,
            ovs,
            es.last(),
            dirpath.push(crate::snapshot::node_name(es.last())),
        ) == Some(x));
    }
}

/// A kept snapshot child's document entry stands in the filtered listing.
pub proof fn lemma_filter_list_complete(
    rules: Seq<IgnoreRule>,
    ovs: Seq<Seq<Seq<u8>>>,
    es: Seq<FsNodeView>,
    dirpath: Seq<Seq<u8>>,
    i: int,
    x: DocEntryView,
)
    requires
        0 <= i < es.len(),
        filter_entry(rules, ovs, es[i], dirpath.push(crate::snapshot::node_name(es[i])))
            == Some(x),
    ensures
        filter_list(rules, ovs, es, dirpath).contains(x),
    decreases es.len(),
{
    let prev = filter_list(rules, ovs, es.drop_last(), dirpath);
    let tail = opt_seq(
        filter_entry(
            rules,
            ovs,
            es.last(),
            dirpath.push(crate::snapshot::node_name(es.last())),
        ),
    );
    if i == es.len() - 1 {
        assert((prev + tail)[prev.len() as int] == x);
    } else {
        assert(es.drop_last()[i] == es[i]);
        lemma_filter_list_complete(rules, ovs, es.drop_last(), dirpath, i, x);
        let k = choose|k: int| 0 <= k < prev.len() && prev[k] == x;
        assert((prev + tail)[k] == x);
    }
}

/// Pruning correctness: every path the document holds was kept, at every
/// depth up to `m`, when the traversal visited it.
pub proof fn lemma_doc_paths_kept(
    rules: Seq<IgnoreRule>,
    ovs: Seq<Seq<Seq<u8>>>,
    es: Seq<FsNodeView>,
    dirpath: Seq<Seq<u8>>,
    q: Seq<Seq<u8>>,
    m: int,
)
    requires
        doc_has(sort_entries(filter_list(rules, ovs, es, dirpath)), q),
        1 <= m <= q.len(),
    ensures
        keep_path(rules, ovs, dirpath + q.take(m), true) || keep_path(
            rules,
            ovs,
            dirpath + q.take(m),
            false,
        ),
    decreases m,
{
    broadcast use vstd::seq_lib::group_to_multiset_ensures;

    let fl = filter_list(rules, ovs, es, dirpath);
    let listing = sort_entries(fl);
    let i = choose|i: int|
        0 <= i < listing.len() && #[trigger] entry_name(listing[i]) == q[0] && (q.len() == 1
            || (listing[i] is DirV && doc_has(dir_children(listing[i]), q.drop_first())));
    let x = listing[i];
    assert(listing.contains(x));
    lemma_sort_entries_ensures(fl);
    assert(fl.to_multiset().count(x) > 0);
    assert(fl.contains(x));
    lemma_filter_list_member(rules, ovs, es, dirpath, x);
    let ch = choose|ch: FsNodeView|
        #[trigger] filter_entry(rules, ovs, ch, dirpath.push(crate::snapshot::node_name(ch)))
            == Some(x);
    let p0 = dirpath.push(crate::snapshot::node_name(ch));
    assert(crate::snapshot::node_name(ch) == q[0]);
    assert(p0 =~= dirpath + q.take(1));
    if m == 1 {
        match ch {
            FsNodeView::DirV { name, entries } => {
                assert(keep_path(rules, ovs, p0, true));
            },
            FsNodeView::LeafV { name, data } => {
                assert(keep_path(rules, ovs, p0, false));
            },
        }
    } else {
        assert(x is DirV);
        match ch {
            FsNodeView::DirV { name, entries } => {
                assert(dir_children(x) == sort_entries(
                    filter_list(rules, ovs, entries, p0),
                ));
                lemma_doc_paths_kept(rules, ovs, entries, p0, q.drop_first(), m - 1);
                assert(p0 + q.drop_first().take(m - 1) =~= dirpath + q.take(m));
            },
            FsNodeView::LeafV { name, data } => {
                assert(false);
            },
        }
    }
}

/// Pruning correctness at the root: once a path is skipped, neither it
/// nor anything below it appears in the document tree.
pub proof fn lemma_pruned_paths_absent(
    rules: Seq<IgnoreRule>,
    ovs: Seq<Seq<Seq<u8>>>,
    root: Seq<FsNodeView>,
    p: Seq<Seq<u8>>,
    q: Seq<Seq<u8>>,
)
    requires
        1 <= p.len() <= q.len(),
        q.take(p.len() as int) == p,
        !keep_path(rules, ovs, p, true),
        !keep_path(rules, ovs, p, false),
    ensures
        !doc_has(filtered_root(rules, ovs, root), q),
{
    if doc_has(filtered_root(rules, ovs, root), q) {
        lemma_doc_paths_kept(rules, ovs, root, Seq::empty(), q, p.len() as int);
        assert(Seq::<Seq<u8>>::empty() + q.take(p.len() as int) =~= p);
    }
}

/// Override precedence: a snapshot entry whose visited ancestors were all
/// kept and whose own path is kept stands in the document tree.
pub proof fn lemma_kept_path_present(
    rules: Seq<IgnoreRule>,
    ovs: Seq<Seq<Seq<u8>>>,
    es: Seq<FsNodeView>,
    dirpath: Seq<Seq<u8>>,
    q: Seq<Seq<u8>>,
)
    requires
        fs_has(es, q),
        forall|m: int| 1 <= m < q.len() ==> keep_path(rules, ovs, dirpath + q.take(m), true),
        keep_path(rules, ovs, dirpath + q, true),
        keep_path(rules, ovs, dirpath + q, false),
    ensures
        doc_has(sort_entries(filter_list(rules, ovs, es, dirpath)), q),
    decreases q.len(),
{
    broadcast use vstd::seq_lib::group_to_multiset_ensures;

    let i = choose|i: int|
        0 <= i < es.len() && #[trigger] crate::snapshot::node_name(es[i]) == q[0] && (q.len()
            == 1 || (es[i] is DirV && fs_has(fs_dir_children(es[i]), q.drop_first())));
    let ch = es[i];
    let p0 = dirpath.push(crate::snapshot::node_name(ch));
    assert(p0 =~= dirpath + q.take(1));
    if q.len() == 1 {
        assert(q.take(1) =~= q);
    } else {
        assert(keep_path(rules, ovs, dirpath + q.take(1), true));
    }
    let fe = filter_entry(rules, ovs, ch, p0);
    match ch {
        FsNodeView::DirV { name, entries } => {
            assert(fe is Some);
            let x = fe.unwrap();
            lemma_filter_list_complete(rules, ovs, es, dirpath, i, x);
            let fl = filter_list(rules, ovs, es, dirpath);
            lemma_sort_entries_ensures(fl);
            let listing = sort_entries(fl);
            assert(listing.to_multiset().count(x) > 0);
            assert(listing.contains(x));
            let j = choose|j: int| 0 <= j < listing.len() && listing[j] == x;
            assert(entry_name(listing[j]) == q[0]);
            if q.len() > 1 {
                assert forall|m: int|
                    1 <= m < q.drop_first().len() implies keep_path(
                    rules,
                    ovs,
                    p0 + q.drop_first().take(m),
                    true,
                ) by {
                    assert(p0 + q.drop_first().take(m) =~= dirpath + q.take(m + 1));
                }
                assert(p0 + q.drop_first() =~= dirpath + q);
                lemma_kept_path_present(rules, ovs, entries, p0, q.drop_first());
                assert(dir_children(x) == sort_entries(
                    filter_list(rules, ovs, entries, p0),
                ));
                assert(doc_has(dir_children(listing[j]), q.drop_first()));
            }
            assert(doc_has(listing, q));
        },
        FsNodeView::LeafV { name, data } => {
            assert(q.len() == 1);
            assert(fe is Some);
            let x = fe.unwrap();
            lemma_filter_list_complete(rules, ovs, es, dirpath, i, x);
            let fl = filter_list(rules, ovs, es, dirpath);
            lemma_sort_entries_ensures(fl);
            let listing = sort_entries(fl);
            assert(listing.to_multiset().count(x) > 0);
            assert(listing.contains(x));
            let j = choose|j: int| 0 <= j < listing.len() && listing[j] == x;
            assert(entry_name(listing[j]) == q[0]);
            assert(doc_has(listing, q));
        },
    }
}

/// Override precedence at the root: a path an include override matches is
/// present in the document even when ignore rules match it or it falls
/// under the fixed metadata exclusion, as long as no pruned ancestor
/// hides it.
pub proof fn lemma_override_precedence(
    rules: Seq<IgnoreRule>,
    ovs: Seq<Seq<Seq<u8>>>,
    root: Seq<FsNodeView>,
    q: Seq<Seq<u8>>,
)
    requires
        fs_has(root, q),
        crate::rules::override_matches(ovs, q),
        forall|m: int| 1 <= m < q.len() ==> keep_path(rules, ovs, #[trigger] q.take(m), true),
    ensures
        doc_has(filtered_root(rules, ovs, root), q),
{
    assert(keep_path(rules, ovs, q, true));
    assert(keep_path(rules, ovs, q, false));
    assert forall|m: int| 1 <= m < q.len() implies keep_path(
        rules,
        ovs,
        Seq::<Seq<u8>>::empty() + q.take(m),
        true,
    ) by {
        assert(Seq::<Seq<u8>>::empty() + q.take(m) =~= q.take(m));
    }
    assert(Seq::<Seq<u8>>::empty() + q =~= q);
    lemma_kept_path_present(rules, ovs, root, Seq::<Seq<u8>>::empty(), q);
}

/// The ordering law at every directory of the document: the engine's
/// listing is sorted and holds exactly the kept children, whatever order
/// the snapshot reported them in.
pub proof fn lemma_root_listing_sorted(
    rules: Seq<IgnoreRule>,
    ovs: Seq<Seq<Seq<u8>>>,
    root: Seq<FsNodeView>,
)
    ensures
        listing_sorted(filtered_root(rules, ovs, root)),
        filtered_root(rules, ovs, root).to_multiset() == filter_list(
            rules,
            ovs,
            root,
            Seq::<Seq<u8>>::empty(),
        ).to_multiset(),
{
    lemma_sort_entries_ensures(filter_list(rules, ovs, root, Seq::<Seq<u8>>::empty()));
}

/// Filtering distributes over concatenation of child lists.
pub proof fn lemma_filter_list_concat(
    rules: Seq<IgnoreRule>,
    ovs: Seq<Seq<Seq<u8>>>,
    a: Seq<FsNodeView>,
    b: Seq<FsNodeView>,
    dirpath: Seq<Seq<u8>>,
)
    ensures
        filter_list(rules, ovs, a + b, dirpath) == filter_list(rules, ovs, a, dirpath)
            + filter_list(rules, ovs, b, dirpath),
    decreases b.len(),
{
    if b.len() == 0 {
        assert(a + b =~= a);
        assert(filter_list(rules, ovs, a, dirpath) + filter_list(rules, ovs, b, dirpath)
            =~= filter_list(rules, ovs, a, dirpath));
    } else {
        lemma_filter_list_concat(rules, ovs, a, b.drop_last(), dirpath);
        assert((a + b).drop_last() =~= a + b.drop_last());
        assert((a + b).last() == b.last());
        assert((filter_list(rules, ovs, a, dirpath) + filter_list(
            rules,
            ovs,
            b.drop_last(),
            dirpath,
        )) + opt_seq(
            filter_entry(
                rules,
                ovs,
                b.last(),
                dirpath.push(crate::snapshot::node_name(b.last())),
            ),
        ) =~= filter_list(rules, ovs, a, dirpath) + filter_list(rules, ovs, b, dirpath));
    }
}

/// The kept entries of one child, as a sequence.
pub open spec fn filter_one(
    rules: Seq<IgnoreRule>,
    ovs: Seq<Seq<Seq<u8>>>,
    ch: FsNodeView,
    dirpath: Seq<Seq<u8>>,
) -> Seq<DocEntryView> {
    opt_seq(filter_entry(rules, ovs, ch, dirpath.push(crate::snapshot::node_name(ch))))
}

/// Removing one child removes exactly its kept entries from the filtered
/// listing, as multisets.
pub proof fn lemma_filter_list_remove(
    rules: Seq<IgnoreRule>,
    ovs: Seq<Seq<Seq<u8>>>,
    es: Seq<FsNodeView>,
    dirpath: Seq<Seq<u8>>,
    i: int,
)
    requires
        0 <= i < es.len(),
    ensures
        filter_list(rules, ovs, es, dirpath).to_multiset() == filter_list(
            rules,
            ovs,
            es.remove(i),
            dirpath,
        ).to_multiset().add(filter_one(rules, ovs, es[i], dirpath).to_multiset()),
{
    broadcast use vstd::seq_lib::group_to_multiset_ensures;

    let pre = es.take(i);
    let post = es.skip(i + 1);
    assert(es =~= pre + (seq![es[i]] + post));
    assert(es.remove(i) =~= pre + post);
    lemma_filter_list_concat(rules, ovs, pre, seq![es[i]] + post, dirpath);
    lemma_filter_list_concat(rules, ovs, seq![es[i]], post, dirpath);
    lemma_filter_list_concat(rules, ovs, pre, post, dirpath);
    assert(filter_list(rules, ovs, seq![es[i]], dirpath) =~= filter_one(
        rules,
        ovs,
        es[i],
        dirpath,
    )) by {
        assert(seq![es[i]].drop_last() =~= Seq::<FsNodeView>::empty());
        assert(seq![es[i]].last() == es[i]);
        assert(filter_list(rules, ovs, Seq::<FsNodeView>::empty(), dirpath)
            =~= Seq::<DocEntryView>::empty());
    }
    let fp = filter_list(rules, ovs, pre, dirpath);
    let fo = filter_one(rules, ovs, es[i], dirpath);
    let fq = filter_list(rules, ovs, post, dirpath);
    vstd::seq_lib::lemma_multiset_commutative(fp, fo + fq);
    vstd::seq_lib::lemma_multiset_commutative(fo, fq);
    vstd::seq_lib::lemma_multiset_commutative(fp, fq);
    assert(filter_list(rules, ovs, es, dirpath).to_multiset() =~= filter_list(
        rules,
        ovs,
        es.remove(i),
        dirpath,
    ).to_multiset().add(fo.to_multiset()));
}

/// The multiset of kept entries depends only on the multiset of children:
/// the order the filesystem reports them in does not matter.
pub proof fn lemma_filter_list_permuted(
    rules: Seq<IgnoreRule>,
    ovs: Seq<Seq<Seq<u8>>>,
    es1: Seq<FsNodeView>,
    es2: Seq<FsNodeView>,
    dirpath: Seq<Seq<u8>>,
)
    requires
        es1.to_multiset() == es2.to_multiset(),
    ensures
        filter_list(rules, ovs, es1, dirpath).to_multiset() == filter_list(
            rules,
            ovs,
            es2,
            dirpath,
        ).to_multiset(),
    decreases es1.len(),
{
    broadcast use vstd::seq_lib::group_to_multiset_ensures;

    if es1.len() == 0 {
        assert(es2.to_multiset().len() == 0);
        assert(es2 =~= Seq::<FsNodeView>::empty());
        assert(es1 =~= Seq::<FsNodeView>::empty());
    } else {
        let x = es1.last();
        assert(es1.to_multiset().contains(x));
        assert(es2.to_multiset().contains(x));
        assert(es2.contains(x));
        let i = choose|i: int| 0 <= i < es2.len() && es2[i] == x;
        assert(es1.drop_last() =~= es1.remove(es1.len() - 1));
        assert(es1.remove(es1.len() - 1).to_multiset() =~= es1.to_multiset().remove(x));
        assert(es2.remove(i).to_multiset() =~= es2.to_multiset().remove(x));
        lemma_filter_list_permuted(rules, ovs, es1.drop_last(), es2.remove(i), dirpath);
        lemma_filter_list_remove(rules, ovs, es1, dirpath, es1.len() - 1);
        lemma_filter_list_remove(rules, ovs, es2, dirpath, i);
        assert(filter_one(rules, ovs, es1[es1.len() - 1], dirpath) == filter_one(
            rules,
            ovs,
            es2[i],
            dirpath,
        ));
    }
}

/// Idempotence against filesystem iteration order, at the engine's input:
/// two snapshots whose root children are the same entries in different
/// orders yield the same ordered root listing, provided no two entries of
/// the listing collide (as directory children on a filesystem never do).
pub proof fn lemma_sibling_order_irrelevant(
    rules: Seq<IgnoreRule>,
    ovs: Seq<Seq<Seq<u8>>>,
    r1: Seq<FsNodeView>,
    r2: Seq<FsNodeView>,
)
    requires
        r1.to_multiset() == r2.to_multiset(),
        distinct_keys(filtered_root(rules, ovs, r1)),
    ensures
        filtered_root(rules, ovs, r1) == filtered_root(rules, ovs, r2),
{
    lemma_filter_list_permuted(rules, ovs, r1, r2, Seq::<Seq<u8>>::empty());
    lemma_listing_order_independent(
        filter_list(rules, ovs, r1, Seq::<Seq<u8>>::empty()),
        filter_list(rules, ovs, r2, Seq::<Seq<u8>>::empty()),
    );
}

/// Order on snapshot entries: directories first, then names bytewise.
pub open spec fn node_leq(a: FsNodeView, b: FsNodeView) -> bool {
    let ra: int = if a is DirV {
        0int
    } else {
        1int
    };
    let rb: int = if b is DirV {
        0int
    } else {
        1int
    };
    ra < rb || (ra == rb && lex_leq(
        crate::snapshot::node_name(a),
        crate::snapshot::node_name(b),
    ))
}

/// Inserts a snapshot entry into a sorted child list.
pub open spec fn insert_node(x: FsNodeView, s: Seq<FsNodeView>) -> Seq<FsNodeView>
    decreases s.len(),
{
    if s.len() == 0 {
        seq![x]
    } else if node_leq(x, s[0]) {
        seq![x] + s
    } else {
        seq![s[0]] + insert_node(x, s.drop_first())
    }
}

/// Sorts a child list by insertion.
pub open spec fn sort_nodes(s: Seq<FsNodeView>) -> Seq<FsNodeView>
    decreases s.len(),
{
    if s.len() == 0 {
        Seq::empty()
    } else {
        insert_node(s.last(), sort_nodes(s.drop_last()))
    }
}

/// Inserting a snapshot entry keeps the multiset, adding the new one.
pub proof fn lemma_insert_node_multiset(x: FsNodeView, s: Seq<FsNodeView>)
    ensures
        insert_node(x, s).to_multiset() == s.to_multiset().insert(x),
    decreases s.len(),
{
    broadcast use vstd::seq_lib::group_to_multiset_ensures;

    if s.len() == 0 {
        assert(insert_node(x, s) =~= Seq::<FsNodeView>::empty().push(x));
        assert(insert_node(x, s).to_multiset() =~= s.to_multiset().insert(x));
    } else if node_leq(x, s[0]) {
        vstd::seq_lib::lemma_multiset_commutative(seq![x], s);
        assert(seq![x].to_multiset() =~= Multiset::<FsNodeView>::empty().insert(x));
        assert((seq![x] + s).to_multiset() =~= s.to_multiset().insert(x));
    } else {
        lemma_insert_node_multiset(x, s.drop_first());
        vstd::seq_lib::lemma_multiset_commutative(seq![s[0]], insert_node(x, s.drop_first()));
        vstd::seq_lib::lemma_multiset_commutative(seq![s[0]], s.drop_first());
        assert(seq![s[0]] + s.drop_first() =~= s);
        assert(seq![s[0]].to_multiset() =~= Multiset::<FsNodeView>::empty().insert(s[0]));
        assert((seq![s[0]] + insert_node(x, s.drop_first())).to_multiset() =~= s.to_multiset()
            .insert(x));
    }
}

/// Sorting a child list keeps its multiset of entries.
pub proof fn lemma_sort_nodes_multiset(s: Seq<FsNodeView>)
    ensures
        sort_nodes(s).to_multiset() == s.to_multiset(),
    decreases s.len(),
{
    broadcast use vstd::seq_lib::group_to_multiset_ensures;

    if s.len() == 0 {
        assert(sort_nodes(s).to_multiset() =~= s.to_multiset());
    } else {
        lemma_sort_nodes_multiset(s.drop_last());
        lemma_insert_node_multiset(s.last(), sort_nodes(s.drop_last()));
        assert(s.drop_last().push(s.last()) =~= s);
        assert(s.drop_last().push(s.last()).to_multiset() =~= s.drop_last().to_multiset()
            .insert(s.last()));
    }
}

/// The canonical form of a snapshot entry: every directory's children
/// canonicalized and sorted.  Two snapshots of one unchanged filesystem,
/// reported in any per-directory iteration orders, have equal canonical
/// forms up to the order of each sequence's top level.
pub open spec fn canon_node(v: FsNodeView) -> FsNodeView
    decreases v, 2int,
{
    match v {
        FsNodeView::LeafV { name, data } => v,
        FsNodeView::DirV { name, entries } => FsNodeView::DirV {
            name,
            entries: sort_nodes(canon_list(entries)),
        },
    }
}

/// The canonical form of each entry of a child list, in place.
pub open spec fn canon_list(es: Seq<FsNodeView>) -> Seq<FsNodeView>
    decreases es, 3int,
{
    if es.len() == 0 {
        Seq::empty()
    } else {
        canon_list(es.drop_last()).push(canon_node(es.last()))
    }
}

/// No two entries of a child list share a name, as directory children on
/// a filesystem never do.
pub open spec fn distinct_names(es: Seq<FsNodeView>) -> bool {
    forall|i: int, j: int|
        0 <= i < j < es.len() ==> crate::snapshot::node_name(#[trigger] es[i])
            != crate::snapshot::node_name(#[trigger] es[j])
}

/// Well-formedness of one snapshot entry: distinct child names at every
/// level below it.
pub open spec fn wf_node(v: FsNodeView) -> bool
    decreases v, 2int,
{
    match v {
        FsNodeView::LeafV { name, data } => true,
        FsNodeView::DirV { name, entries } => wf_list(entries),
    }
}

/// Well-formedness of each entry of a child list.
pub open spec fn wf_each(es: Seq<FsNodeView>) -> bool
    decreases es, 3int,
{
    if es.len() == 0 {
        true
    } else {
        wf_each(es.drop_last()) && wf_node(es.last())
    }
}

/// A well-formed child list: names distinct here and below.
pub open spec fn wf_list(es: Seq<FsNodeView>) -> bool
    decreases es, 4int,
{
    distinct_names(es) && wf_each(es)
}

/// Whether some entry of the child list carries the name.
pub open spec fn has_name(es: Seq<FsNodeView>, n: Seq<u8>) -> bool {
    exists|i: int| 0 <= i < es.len() && crate::snapshot::node_name(#[trigger] es[i]) == n
}

/// Distinct child names give a filtered listing without colliding keys,
/// and every listed name is a child's name.
pub proof fn lemma_filter_list_distinct(
    rules: Seq<IgnoreRule>,
    ovs: Seq<Seq<Seq<u8>>>,
    es: Seq<FsNodeView>,
    dirpath: Seq<Seq<u8>>,
)
    requires
        distinct_names(es),
    ensures
        distinct_keys(filter_list(rules, ovs, es, dirpath)),
        forall|k: int|
            0 <= k < filter_list(rules, ovs, es, dirpath).len() ==> has_name(
                es,
                entry_name(#[trigger] filter_list(rules, ovs, es, dirpath)[k]),
            ),
    decreases es.len(),
{
    let fl = filter_list(rules, ovs, es, dirpath);
    if es.len() == 0 {
    } else {
        let prev = filter_list(rules, ovs, es.drop_last(), dirpath);
        let tail = opt_seq(
            filter_entry(
                rules,
                ovs,
                es.last(),
                dirpath.push(crate::snapshot::node_name(es.last())),
            ),
        );
        assert(forall|i: int| 0 <= i < es.len() - 1 ==> es.drop_last()[i] == es[i]);
        assert(distinct_names(es.drop_last()));
        lemma_filter_list_distinct(rules, ovs, es.drop_last(), dirpath);
        assert(forall|m: int|
            0 <= m < tail.len() ==> entry_name(#[trigger] tail[m])
                == crate::snapshot::node_name(es.last()));
        assert forall|i: int, j: int| 0 <= i < j < fl.len() implies !same_key(fl[i], fl[j]) by {
            if j < prev.len() {
                assert(fl[i] == prev[i]);
                assert(fl[j] == prev[j]);
            } else {
                assert(fl[j] == tail[j - prev.len()]);
                assert(fl[i] == prev[i]);
                assert(has_name(es.drop_last(), entry_name(prev[i])));
                let m = choose|m: int|
                    0 <= m < es.drop_last().len() && crate::snapshot::node_name(
                        #[trigger] es.drop_last()[m],
                    ) == entry_name(prev[i]);
                assert(crate::snapshot::node_name(es[m]) == entry_name(prev[i]));
                assert(crate::snapshot::node_name(es[m]) != crate::snapshot::node_name(
                    es[es.len() - 1],
                ));
            }
        }
        assert forall|k: int| 0 <= k < fl.len() implies has_name(es, entry_name(fl[k])) by {
            if k < prev.len() {
                assert(fl[k] == prev[k]);
                assert(has_name(es.drop_last(), entry_name(prev[k])));
                let m = choose|m: int|
                    0 <= m < es.drop_last().len() && crate::snapshot::node_name(
                        #[trigger] es.drop_last()[m],
                    ) == entry_name(prev[k]);
                assert(crate::snapshot::node_name(es[m]) == entry_name(fl[k]));
            } else {
                assert(fl[k] == tail[k - prev.len()]);
                assert(crate::snapshot::node_name(es[es.len() - 1]) == entry_name(fl[k]));
            }
        }
    }
}

/// Colliding keys survive any reordering: a listing with the same entries
/// as one without collisions has none either.
pub proof fn lemma_distinct_keys_permuted(xs: Seq<DocEntryView>, ys: Seq<DocEntryView>)
    requires
        distinct_keys(xs),
        xs.to_multiset() == ys.to_multiset(),
    ensures
        distinct_keys(ys),
{
    broadcast use vstd::seq_lib::group_to_multiset_ensures;

    assert forall|i: int, j: int| 0 <= i < j < ys.len() implies !same_key(ys[i], ys[j]) by {
        if same_key(ys[i], ys[j]) {
            if ys[i] == ys[j] {
                assert(ys.remove(j).to_multiset() =~= ys.to_multiset().remove(ys[j]));
                assert(ys.remove(j)[i] == ys[i]);
                assert(ys.remove(j).contains(ys[i]));
                assert(ys.remove(j).to_multiset().count(ys[i]) > 0);
                assert(ys.to_multiset().count(ys[i]) >= 2);
                assert(xs.to_multiset().count(ys[i]) >= 2);
                assert(xs.contains(ys[i]));
                let a = choose|a: int| 0 <= a < xs.len() && xs[a] == ys[i];
                assert(xs.remove(a).to_multiset() =~= xs.to_multiset().remove(xs[a]));
                assert(xs.remove(a).to_multiset().count(ys[i]) >= 1);
                assert(xs.remove(a).contains(ys[i]));
                let b0 = choose|b0: int| 0 <= b0 < xs.remove(a).len() && xs.remove(a)[b0] == ys[i];
                if b0 < a {
                    assert(xs[b0] == ys[i]);
                    assert(!same_key(xs[b0], xs[a]));
                } else {
                    assert(xs[b0 + 1] == ys[i]);
                    assert(!same_key(xs[a], xs[b0 + 1]));
                }
            } else {
                assert(ys.contains(ys[i]) && ys.contains(ys[j]));
                assert(xs.to_multiset().count(ys[i]) > 0);
                assert(xs.to_multiset().count(ys[j]) > 0);
                assert(xs.contains(ys[i]));
                assert(xs.contains(ys[j]));
                let a = choose|a: int| 0 <= a < xs.len() && xs[a] == ys[i];
                let b = choose|b: int| 0 <= b < xs.len() && xs[b] == ys[j];
                if a < b {
                    assert(!same_key(xs[a], xs[b]));
                } else {
                    assert(!same_key(xs[b], xs[a]));
                }
            }
        }
    }
}

/// Filtering one entry gives the same result on its canonical form.
pub proof fn lemma_filter_entry_canon(
    rules: Seq<IgnoreRule>,
    ovs: Seq<Seq<Seq<u8>>>,
    v: FsNodeView,
    path: Seq<Seq<u8>>,
)
    requires
        wf_node(v),
    ensures
        filter_entry(rules, ovs, canon_node(v), path) == filter_entry(rules, ovs, v, path),
    decreases v, 2int, 0int,
{
    match v {
        FsNodeView::LeafV { name, data } => {
        },
        FsNodeView::DirV { name, entries } => {
            lemma_filter_listing_canon(rules, ovs, entries, path);
        },
    }
}

/// Filtering a child list entry by entry gives the same listing on the
/// canonicalized entries, in the same order.
pub proof fn lemma_filter_list_canon_each(
    rules: Seq<IgnoreRule>,
    ovs: Seq<Seq<Seq<u8>>>,
    es: Seq<FsNodeView>,
    dirpath: Seq<Seq<u8>>,
)
    requires
        wf_each(es),
    ensures
        filter_list(rules, ovs, canon_list(es), dirpath) == filter_list(
            rules,
            ovs,
            es,
            dirpath,
        ),
    decreases es, 0int, 0int,
{
    if es.len() == 0 {
        assert(filter_list(rules, ovs, canon_list(es), dirpath) =~= filter_list(
            rules,
            ovs,
            es,
            dirpath,
        ));
    } else {
        lemma_filter_list_canon_each(rules, ovs, es.drop_last(), dirpath);
        let cl = canon_list(es);
        assert(cl.drop_last() =~= canon_list(es.drop_last()));
        assert(cl.last() == canon_node(es.last()));
        assert(crate::snapshot::node_name(canon_node(es.last()))
            == crate::snapshot::node_name(es.last()));
        lemma_filter_entry_canon(
            rules,
            ovs,
            es.last(),
            dirpath.push(crate::snapshot::node_name(es.last())),
        );
        assert(filter_list(rules, ovs, cl, dirpath) =~= filter_list(rules, ovs, es, dirpath));
    }
}

/// The ordered listing of a directory's children equals the one computed
/// from their sorted canonical forms.
pub proof fn lemma_filter_listing_canon(
    rules: Seq<IgnoreRule>,
    ovs: Seq<Seq<Seq<u8>>>,
    es: Seq<FsNodeView>,
    dirpath: Seq<Seq<u8>>,
)
    requires
        wf_list(es),
    ensures
        sort_entries(filter_list(rules, ovs, sort_nodes(canon_list(es)), dirpath))
            == sort_entries(filter_list(rules, ovs, es, dirpath)),
    decreases es, 1int, 0int,
{
    lemma_filter_list_canon_each(rules, ovs, es, dirpath);
    lemma_sort_nodes_multiset(canon_list(es));
    lemma_filter_list_permuted(rules, ovs, sort_nodes(canon_list(es)), canon_list(es),
        dirpath);
    let fl = filter_list(rules, ovs, es, dirpath);
    let fs = filter_list(rules, ovs, sort_nodes(canon_list(es)), dirpath);
    lemma_filter_list_distinct(rules, ovs, es, dirpath);
    lemma_sort_entries_ensures(fl);
    lemma_distinct_keys_permuted(fl, sort_entries(fl));
    lemma_listing_order_independent(fl, fs);
}

/// Iteration-order independence in general: two well-formed snapshots of
/// one unchanged filesystem — their canonical child lists hold the same
/// entries, whatever per-directory order the filesystem reported — yield
/// a byte-identical document and the same warnings.
pub proof fn lemma_snapshot_order_irrelevant(
    repo: Seq<u8>,
    rules: Seq<IgnoreRule>,
    ovs: Seq<Seq<Seq<u8>>>,
    r1: Seq<FsNodeView>,
    r2: Seq<FsNodeView>,
)
    requires
        wf_list(r1),
        wf_list(r2),
        canon_list(r1).to_multiset() == canon_list(r2).to_multiset(),
    ensures
        document_spec(repo, rules, ovs, r1) == document_spec(repo, rules, ovs, r2),
        warns_spec(rules, ovs, r1) == warns_spec(rules, ovs, r2),
{
    let empty = Seq::<Seq<u8>>::empty();
    lemma_filter_list_canon_each(rules, ovs, r1, empty);
    lemma_filter_list_canon_each(rules, ovs, r2, empty);
    lemma_filter_list_permuted(rules, ovs, canon_list(r1), canon_list(r2), empty);
    let f1 = filter_list(rules, ovs, r1, empty);
    let f2 = filter_list(rules, ovs, r2, empty);
    assert(f1.to_multiset() == f2.to_multiset());
    lemma_filter_list_distinct(rules, ovs, r1, empty);
    lemma_sort_entries_ensures(f1);
    lemma_distinct_keys_permuted(f1, sort_entries(f1));
    lemma_listing_order_independent(f1, f2);
    assert(filtered_root(rules, ovs, r1) == filtered_root(rules, ovs, r2));
}

/// A sorted child list: every earlier entry precedes or ties with every
/// later one.
pub open spec fn nodes_sorted(s: Seq<FsNodeView>) -> bool {
    forall|i: int, j: int| 0 <= i < j < s.len() ==> node_leq(#[trigger] s[i], #[trigger] s[j])
}

/// The child order is total.
pub proof fn lemma_node_leq_total(a: FsNodeView, b: FsNodeView)
    ensures
        node_leq(a, b) || node_leq(b, a),
{
    lemma_lex_total(crate::snapshot::node_name(a), crate::snapshot::node_name(b));
}

/// The child order is transitive.
pub proof fn lemma_node_leq_trans(a: FsNodeView, b: FsNodeView, c: FsNodeView)
    requires
        node_leq(a, b),
        node_leq(b, c),
    ensures
        node_leq(a, c),
{
    if (a is DirV == b is DirV) && (b is DirV == c is DirV) {
        crate::bytestr::lemma_lex_trans(
            crate::snapshot::node_name(a),
            crate::snapshot::node_name(b),
            crate::snapshot::node_name(c),
        );
    }
}

/// Inserting into a sorted child list keeps it sorted.
pub proof fn lemma_insert_node_ordered(x: FsNodeView, s: Seq<FsNodeView>)
    requires
        nodes_sorted(s),
    ensures
        nodes_sorted(insert_node(x, s)),
    decreases s.len(),
{
    broadcast use vstd::seq_lib::group_to_multiset_ensures;

    if s.len() == 0 {
    } else if node_leq(x, s[0]) {
        let r = seq![x] + s;
        assert forall|i: int, j: int| 0 <= i < j < r.len() implies node_leq(r[i], r[j]) by {
            if i == 0 {
                if j > 1 {
                    lemma_node_leq_trans(x, s[0], s[j - 1]);
                } else {
                    assert(r[j] == s[0]);
                }
            } else {
                assert(r[i] == s[i - 1]);
                assert(r[j] == s[j - 1]);
            }
        }
    } else {
        assert(forall|i: int, j: int|
            0 <= i < j < s.drop_first().len() ==> node_leq(
                #[trigger] s.drop_first()[i],
                #[trigger] s.drop_first()[j],
            ));
        lemma_insert_node_ordered(x, s.drop_first());
        let t = insert_node(x, s.drop_first());
        let r = seq![s[0]] + t;
        lemma_insert_node_multiset(x, s.drop_first());
        lemma_node_leq_total(x, s[0]);
        assert forall|i: int, j: int| 0 <= i < j < r.len() implies node_leq(r[i], r[j]) by {
            if i == 0 {
                assert(t.to_multiset().contains(r[j]));
                if r[j] == x {
                    assert(node_leq(s[0], x));
                } else {
                    assert(t.to_multiset().count(r[j]) > 0);
                    assert(s.drop_first().to_multiset().count(r[j]) > 0);
                    assert(s.drop_first().contains(r[j]));
                    let n = choose|n: int|
                        0 <= n < s.drop_first().len() && s.drop_first()[n] == r[j];
                    assert(s[n + 1] == r[j]);
                    assert(node_leq(s[0], s[n + 1]));
                }
            } else {
                assert(r[i] == t[i - 1]);
                assert(r[j] == t[j - 1]);
            }
        }
    }
}

/// Sorting a child list yields a sorted list.
pub proof fn lemma_sort_nodes_sorted(s: Seq<FsNodeView>)
    ensures
        nodes_sorted(sort_nodes(s)),
    decreases s.len(),
{
    if s.len() > 0 {
        lemma_sort_nodes_sorted(s.drop_last());
        lemma_insert_node_ordered(s.last(), sort_nodes(s.drop_last()));
    }
}

/// Distinct names survive any reordering of a child list.
pub proof fn lemma_distinct_names_permuted(xs: Seq<FsNodeView>, ys: Seq<FsNodeView>)
    requires
        distinct_names(xs),
        xs.to_multiset() == ys.to_multiset(),
    ensures
        distinct_names(ys),
{
    broadcast use vstd::seq_lib::group_to_multiset_ensures;

    assert forall|i: int, j: int|
        0 <= i < j < ys.len() implies crate::snapshot::node_name(ys[i])
        != crate::snapshot::node_name(ys[j]) by {
        if crate::snapshot::node_name(ys[i]) == crate::snapshot::node_name(ys[j]) {
            if ys[i] == ys[j] {
                assert(ys.remove(j).to_multiset() =~= ys.to_multiset().remove(ys[j]));
                assert(ys.remove(j)[i] == ys[i]);
                assert(ys.remove(j).contains(ys[i]));
                assert(ys.remove(j).to_multiset().count(ys[i]) > 0);
                assert(ys.to_multiset().count(ys[i]) >= 2);
                assert(xs.to_multiset().count(ys[i]) >= 2);
                assert(xs.contains(ys[i]));
                let a = choose|a: int| 0 <= a < xs.len() && xs[a] == ys[i];
                assert(xs.remove(a).to_multiset() =~= xs.to_multiset().remove(xs[a]));
                assert(xs.remove(a).to_multiset().count(ys[i]) >= 1);
                assert(xs.remove(a).contains(ys[i]));
                let b0 = choose|b0: int|
                    0 <= b0 < xs.remove(a).len() && xs.remove(a)[b0] == ys[i];
                if b0 < a {
                    assert(xs[b0] == ys[i]);
                    assert(crate::snapshot::node_name(xs[b0]) != crate::snapshot::node_name(
                        xs[a],
                    ));
                } else {
                    assert(xs[b0 + 1] == ys[i]);
                    assert(crate::snapshot::node_name(xs[a]) != crate::snapshot::node_name(
                        xs[b0 + 1],
                    ));
                }
            } else {
                assert(ys.contains(ys[i]) && ys.contains(ys[j]));
                assert(xs.to_multiset().count(ys[i]) > 0);
                assert(xs.to_multiset().count(ys[j]) > 0);
                assert(xs.contains(ys[i]));
                assert(xs.contains(ys[j]));
                let a = choose|a: int| 0 <= a < xs.len() && xs[a] == ys[i];
                let b = choose|b: int| 0 <= b < xs.len() && xs[b] == ys[j];
                if a < b {
                    assert(crate::snapshot::node_name(xs[a]) != crate::snapshot::node_name(
                        xs[b],
                    ));
                } else {
                    assert(crate::snapshot::node_name(xs[b]) != crate::snapshot::node_name(
                        xs[a],
                    ));
                }
            }
        }
    }
}

/// Two sorted child lists of the same distinctly-named entries are equal.
pub proof fn lemma_sorted_nodes_unique(x: Seq<FsNodeView>, y: Seq<FsNodeView>)
    requires
        nodes_sorted(x),
        nodes_sorted(y),
        distinct_names(x),
        x.to_multiset() == y.to_multiset(),
    ensures
        x == y,
    decreases x.len(),
{
    broadcast use vstd::seq_lib::group_to_multiset_ensures;

    if x.len() == 0 {
        assert(y.to_multiset().len() == 0);
        assert(x =~= y);
    } else {
        assert(x.to_multiset().len() == x.len());
        assert(y.to_multiset().len() == y.len());
        assert(x.to_multiset().contains(y[0]));
        assert(x.contains(y[0]));
        let i = choose|i: int| 0 <= i < x.len() && x[i] == y[0];
        assert(y.to_multiset().contains(x[0]));
        assert(y.contains(x[0]));
        let j = choose|j: int| 0 <= j < y.len() && y[j] == x[0];
        if i > 0 {
            assert(node_leq(x[0], x[i]));
            assert(node_leq(y[0], y[j]));
            assert(node_leq(x[0], y[0]) && node_leq(y[0], x[0]));
            assert(x[0] is DirV == x[i] is DirV);
            lemma_lex_antisym(
                crate::snapshot::node_name(x[0]),
                crate::snapshot::node_name(x[i]),
            );
            assert(false);
        }
        assert(x[0] == y[0]);
        assert(x.drop_first() =~= x.remove(0));
        assert(y.drop_first() =~= y.remove(0));
        assert(x.remove(0).to_multiset() =~= x.to_multiset().remove(x[0]));
        assert(y.remove(0).to_multiset() =~= y.to_multiset().remove(y[0]));
        assert(forall|a: int, b: int|
            0 <= a < b < x.drop_first().len() ==> node_leq(
                #[trigger] x.drop_first()[a],
                #[trigger] x.drop_first()[b],
            ));
        assert(forall|a: int, b: int|
            0 <= a < b < y.drop_first().len() ==> node_leq(
                #[trigger] y.drop_first()[a],
                #[trigger] y.drop_first()[b],
            ));
        assert(forall|a: int, b: int|
            0 <= a < b < x.drop_first().len() ==> crate::snapshot::node_name(
                #[trigger] x.drop_first()[a],
            ) != crate::snapshot::node_name(#[trigger] x.drop_first()[b]));
        lemma_sorted_nodes_unique(x.drop_first(), y.drop_first());
        assert(x =~= y) by {
            assert forall|k: int| 0 <= k < x.len() implies x[k] == y[k] by {
                if k > 0 {
                    assert(x[k] == x.drop_first()[k - 1]);
                    assert(y[k] == y.drop_first()[k - 1]);
                }
            }
        }
    }
}

/// Sorting a directory's children does not depend on the order the
/// filesystem reported them in: this introduces the canonical-form
/// hypothesis of `lemma_snapshot_order_irrelevant` one directory at a
/// time, from the leaves upward.
pub proof fn lemma_sort_nodes_order_independent(cs1: Seq<FsNodeView>, cs2: Seq<FsNodeView>)
    requires
        distinct_names(cs1),
        cs1.to_multiset() == cs2.to_multiset(),
    ensures
        sort_nodes(cs1) == sort_nodes(cs2),
{
    lemma_sort_nodes_sorted(cs1);
    lemma_sort_nodes_sorted(cs2);
    lemma_sort_nodes_multiset(cs1);
    lemma_sort_nodes_multiset(cs2);
    lemma_distinct_names_permuted(cs1, sort_nodes(cs1));
    lemma_sorted_nodes_unique(sort_nodes(cs1), sort_nodes(cs2));
}

} // verus!
