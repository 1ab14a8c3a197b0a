//! Rendering: ASCII tree diagrams of directory listings, and the Markdown
//! document with per-directory headings and fenced source blocks.
use vstd::prelude::*;
use crate::bytestr::{dv, rep_byte, join_sep, append_bytes, append_lit, append_rep, append_join,
    clone_bytes, clone_path, sub_bytes, eq_lit};
use crate::doc::{DocEntry, DocEntryView, FileState, FileStateView, view_state, view_entry,
    view_entries, lemma_view_entries};

verus! {

/// The indent unit: four spaces per nesting level.
pub open spec fn indent(level: nat) -> Seq<u8> {
    rep_byte(32, 4 * level)
}

/// The branch glyphs: a closing branch for the last entry of a listing, a
/// through branch otherwise.
pub open spec fn branch(is_last: bool) -> Seq<u8> {
    if is_last {
        seq![96u8, 45u8, 45u8, 32u8]
    } else {
        seq![124u8, 45u8, 45u8, 32u8]
    }
}

/// The bracketed classification suffix of a file line.
pub open spec fn kind_label(s: FileStateView) -> Seq<u8> {
    match s {
        FileStateView::TextV(b) => seq![91u8, 116u8, 101u8, 120u8, 116u8, 93u8],
        FileStateView::LinkV => seq![
            91u8,
            115u8,
            121u8,
            109u8,
            108u8,
            105u8,
            110u8,
            107u8,
            93u8,
        ],
        _ => seq![91u8, 98u8, 105u8, 110u8, 97u8, 114u8, 121u8, 93u8],
    }
}

/// The tree text of one listing from entry `k` on, at the given level.
pub open spec fn tree_from(es: Seq<DocEntryView>, k: int, level: nat) -> Seq<u8>
    decreases es, es.len() - k,
{
    if k < 0 || k >= es.len() {
        Seq::empty()
    } else {
        tree_one(es[k], level, k == es.len() - 1) + tree_from(es, k + 1, level)
    }
}

/// The tree text of one entry: directories get a trailing separator and
/// their own nested rendering; files get the classification suffix.
pub open spec fn tree_one(e: DocEntryView, level: nat, is_last: bool) -> Seq<u8>
    decreases e, 0int,
{
    match e {
        DocEntryView::DirV { name, entries } => indent(level) + branch(is_last) + name + seq![
            47u8,
            10u8,
        ] + tree_from(entries, 0, level + 1),
        DocEntryView::FileV { name, state } => indent(level) + branch(is_last) + name + seq![
            32u8,
            32u8,
            32u8,
            32u8,
        ] + kind_label(state) + seq![10u8],
    }
}

/// Appends one more indent unit to a pad.
pub fn widen_pad(pad: &Vec<u8>) -> (r: Vec<u8>)
    ensures
        r@ == pad@ + seq![32u8, 32u8, 32u8, 32u8],
{
    let mut r = clone_bytes(pad);
    let sp: [u8; 4] = [32u8, 32u8, 32u8, 32u8];
    append_lit(&mut r, sp.as_slice());
    proof {
        assert(r@ =~= pad@ + seq![32u8, 32u8, 32u8, 32u8]);
    }
    r
}

/// A pad of `level` indent units is the indent of that level.
pub proof fn lemma_widen_indent(level: nat)
    ensures
        indent(level) + seq![32u8, 32u8, 32u8, 32u8] =~= indent(level + 1),
{
}

/// Appends the branch glyphs.
pub fn append_branch(out: &mut Vec<u8>, is_last: bool)
    ensures
        final(out)@ == old(out)@ + branch(is_last),
{
    if is_last {
        let b: [u8; 4] = [96u8, 45u8, 45u8, 32u8];
        proof {
            assert(b@ =~= branch(true));
        }
        append_lit(out, b.as_slice());
    } else {
        let b: [u8; 4] = [124u8, 45u8, 45u8, 32u8];
        proof {
            assert(b@ =~= branch(false));
        }
        append_lit(out, b.as_slice());
    }
}

/// Appends the classification suffix.
pub fn append_label(out: &mut Vec<u8>, s: &FileState)
    ensures
        final(out)@ == old(out)@ + kind_label(view_state(*s)),
{
    match s {
        FileState::Text(b) => {
            let l: [u8; 6] = [91u8, 116u8, 101u8, 120u8, 116u8, 93u8];
            proof {
                assert(l@ =~= kind_label(view_state(*s)));
            }
            append_lit(out, l.as_slice());
        },
        FileState::Link => {
            let l: [u8; 9] = [91u8, 115u8, 121u8, 109u8, 108u8, 105u8, 110u8, 107u8, 93u8];
            proof {
                assert(l@ =~= kind_label(view_state(*s)));
            }
            append_lit(out, l.as_slice());
        },
        FileState::Binary => {
            let l: [u8; 8] = [91u8, 98u8, 105u8, 110u8, 97u8, 114u8, 121u8, 93u8];
            proof {
                assert(l@ =~= kind_label(view_state(*s)));
            }
            append_lit(out, l.as_slice());
        },
        FileState::Failed => {
            let l: [u8; 8] = [91u8, 98u8, 105u8, 110u8, 97u8, 114u8, 121u8, 93u8];
            proof {
                assert(l@ =~= kind_label(view_state(*s)));
            }
            append_lit(out, l.as_slice());
        },
    }
}

/// Appends the tree text of the listing `es` from entry `k` on; `pad` is
/// the indent of the ghost nesting level.
pub fn render_tree_from(
    es: &Vec<DocEntry>,
    k: usize,
    pad: &Vec<u8>,
    Ghost(level): Ghost<nat>,
    out: &mut Vec<u8>,
)
    requires
        k <= es@.len(),
        pad@ == indent(level),
    ensures
        final(out)@ == old(out)@ + tree_from(view_entries(es@), k as int, level),
    decreases es@, es@.len() - k,
{
    let ghost ev = view_entries(es@);
    proof {
        lemma_view_entries(es@);
    }
    if k == es.len() {
        proof {
            assert(out@ =~= old(out)@ + tree_from(ev, k as int, level));
        }
        return ;
    }
    let is_last = k + 1 == es.len();
    append_bytes(out, pad);
    append_branch(out, is_last);
    match &es[k] {
        DocEntry::DirE { name, entries } => {
            append_bytes(out, name);
            let sl: [u8; 2] = [47u8, 10u8];
            append_lit(out, sl.as_slice());
            let wide = widen_pad(pad);
            proof {
                lemma_widen_indent(level);
            }
            render_tree_from(entries, 0, &wide, Ghost(level + 1), out);
            proof {
                assert(sl@ =~= seq![47u8, 10u8]);
                assert(out@ =~= old(out)@ + tree_one(ev[k as int], level, is_last));
            }
        },
        DocEntry::FileE { name, state } => {
            append_bytes(out, name);
            let sp: [u8; 4] = [32u8, 32u8, 32u8, 32u8];
            append_lit(out, sp.as_slice());
            append_label(out, state);
            out.push(10u8);
            proof {
                assert(sp@ =~= seq![32u8, 32u8, 32u8, 32u8]);
                assert(out@ =~= old(out)@ + tree_one(ev[k as int], level, is_last));
            }
        },
    }
    render_tree_from(es, k + 1, pad, Ghost(level), out);
    proof {
        assert(out@ =~= old(out)@ + tree_from(ev, k as int, level));
    }
}

/// Index of the last dot in a name, or -1.
pub open spec fn last_dot(s: Seq<u8>) -> int
    decreases s.len(),
{
    if s.len() == 0 {
        -1
    } else if s.last() == 46 {
        s.len() - 1
    } else {
        last_dot(s.drop_last())
    }
}

/// `last_dot` finds the largest index holding a dot, if any.
pub proof fn lemma_last_dot(s: Seq<u8>)
    ensures
        -1 <= last_dot(s) < s.len(),
        last_dot(s) == -1 ==> forall|j: int| 0 <= j < s.len() ==> s[j] != 46,
        last_dot(s) >= 0 ==> s[last_dot(s)] == 46,
        last_dot(s) >= 0 ==> forall|j: int| last_dot(s) < j < s.len() ==> s[j] != 46,
    decreases s.len(),
{
    if s.len() != 0 && s.last() != 46 {
        lemma_last_dot(s.drop_last());
        assert(forall|j: int| 0 <= j < s.len() - 1 ==> s[j] == s.drop_last()[j]);
    }
}

/// The extension of a file name: the text after the last dot, provided
/// the dot is neither absent nor the leading byte.
pub open spec fn ext_of(name: Seq<u8>) -> Seq<u8> {
    let i = last_dot(name);
    if i <= 0 {
        Seq::empty()
    } else {
        name.skip(i + 1)
    }
}

/// The fenced-block language tag: a small table maps known extensions to
/// their highlight names, unknown extensions pass through verbatim, and no
/// extension yields an untagged block.
pub open spec fn lang_of(name: Seq<u8>) -> Seq<u8> {
    let e = ext_of(name);
    if e == seq![114u8, 115u8] {
        seq![114u8, 117u8, 115u8, 116u8]
    } else if e == seq![109u8, 100u8] {
        seq![109u8, 97u8, 114u8, 107u8, 100u8, 111u8, 119u8, 110u8]
    } else {
        e
    }
}

/// Appends the language tag of the file name.
pub fn append_lang(out: &mut Vec<u8>, name: &Vec<u8>)
    ensures
        final(out)@ == old(out)@ + lang_of(name@),
{
    proof {
        lemma_last_dot(name@);
    }
    let mut j: usize = name.len();
    let mut dot: usize = 0;
    let mut found: bool = false;
    while j > 0 && !found
        invariant
            j <= name@.len(),
            !found ==> forall|m: int| j <= m < name@.len() ==> name@[m] != 46,
            found ==> j < name@.len() && name@[j as int] == 46 && dot == j && (forall|m: int|
                j < m < name@.len() ==> name@[m] != 46),
        decreases j + (if found { 0int } else { 1int }),
    {
        if name[j - 1] == 46 {
            dot = j - 1;
            found = true;
            j = j - 1;
        } else {
            j = j - 1;
        }
    }
    let ghost ld = last_dot(name@);
    proof {
        if found {
            assert(ld == dot) by {
                if ld < dot as int {
                    assert(name@[dot as int] != 46);
                } else if ld > dot as int {
                    assert(name@[ld] != 46);
                }
            }
        } else {
            assert(ld == -1) by {
                if ld >= 0 {
                    assert(name@[ld] != 46);
                }
            }
        }
    }
    if !found || dot == 0 {
        proof {
            assert(lang_of(name@) =~= Seq::<u8>::empty());
            assert(out@ =~= old(out)@ + lang_of(name@));
        }
        return ;
    }
    let e = sub_bytes(name, dot + 1, name.len());
    proof {
        assert(e@ =~= ext_of(name@));
    }
    let rs_ext: [u8; 2] = [114u8, 115u8];
    let md_ext: [u8; 2] = [109u8, 100u8];
    if eq_lit(&e, rs_ext.as_slice()) {
        let rust_tag: [u8; 4] = [114u8, 117u8, 115u8, 116u8];
        proof {
            assert(rs_ext@ =~= seq![114u8, 115u8]);
            assert(rust_tag@ =~= lang_of(name@));
        }
        append_lit(out, rust_tag.as_slice());
    } else if eq_lit(&e, md_ext.as_slice()) {
        let md_tag: [u8; 8] = [109u8, 97u8, 114u8, 107u8, 100u8, 111u8, 119u8, 110u8];
        proof {
            assert(md_ext@ =~= seq![109u8, 100u8]);
            assert(md_tag@ =~= lang_of(name@));
        }
        append_lit(out, md_tag.as_slice());
    } else {
        proof {
            assert(rs_ext@ =~= seq![114u8, 115u8]);
            assert(md_ext@ =~= seq![109u8, 100u8]);
            assert(e@ == lang_of(name@));
        }
        append_bytes(out, &e);
    }
}

/// The heading marks of a directory at the given depth below the root:
/// the root listing gets two marks, each level one more.
pub open spec fn heading_marks(depth: nat) -> Seq<u8> {
    rep_byte(35, depth + 2)
}

/// The Markdown section of one text file: a level-3 heading with the
/// repository-relative path, then a fenced block, tagged by extension,
/// holding the exact content.
pub open spec fn file_section(rel: Seq<Seq<u8>>, name: Seq<u8>, state: FileStateView) -> Seq<
    u8,
> {
    match state {
        FileStateView::TextV(content) => seq![
            35u8,
            35u8,
            35u8,
            32u8,
            83u8,
            111u8,
            117u8,
            114u8,
            99u8,
            101u8,
            32u8,
            102u8,
            105u8,
            108u8,
            101u8,
            58u8,
            32u8,
            96u8,
        ] + join_sep(rel, 47) + seq![96u8, 10u8, 10u8, 96u8, 96u8, 96u8] + lang_of(name) + seq![
            10u8,
        ] + content + seq![10u8, 96u8, 96u8, 96u8, 10u8, 10u8],
        _ => Seq::empty(),
    }
}

/// The Markdown section of one directory: a heading whose level grows
/// with the depth, the fenced tree diagram of the whole listing, then the
/// sections of the ordered entries.
pub open spec fn dir_section(rel: Seq<Seq<u8>>, entries: Seq<DocEntryView>) -> Seq<u8>
    decreases entries, 1int, 0int,
{
    heading_marks(rel.len()) + seq![
        32u8,
        68u8,
        105u8,
        114u8,
        101u8,
        99u8,
        116u8,
        111u8,
        114u8,
        121u8,
        32u8,
        96u8,
    ] + join_sep(rel, 47) + seq![47u8, 96u8, 10u8, 10u8] + seq![
        96u8,
        96u8,
        96u8,
        115u8,
        104u8,
        10u8,
    ] + tree_from(entries, 0, 0) + seq![96u8, 96u8, 96u8, 10u8, 10u8] + doc_from(entries, 0, rel)
}

/// The sections of the entries of one directory, from entry `k` on.
pub open spec fn doc_from(es: Seq<DocEntryView>, k: int, rel: Seq<Seq<u8>>) -> Seq<u8>
    decreases es, 0int, es.len() - k,
{
    if k < 0 || k >= es.len() {
        Seq::empty()
    } else {
        let part = match es[k] {
            DocEntryView::DirV { name, entries } => dir_section(rel.push(name), entries),
            DocEntryView::FileV { name, state } => file_section(rel.push(name), name, state),
        };
        part + doc_from(es, k + 1, rel)
    }
}

/// Appends the sections of the listing `es` from entry `k` on.
pub fn render_doc_from(es: &Vec<DocEntry>, k: usize, rel: &Vec<Vec<u8>>, out: &mut Vec<u8>)
    requires
        k <= es@.len(),
    ensures
        final(out)@ == old(out)@ + doc_from(view_entries(es@), k as int, dv(rel@)),
    decreases es@, 0int, es@.len() - k,
{
    let ghost ev = view_entries(es@);
    proof {
        lemma_view_entries(es@);
    }
    if k == es.len() {
        proof {
            assert(out@ =~= old(out)@ + doc_from(ev, k as int, dv(rel@)));
        }
        return ;
    }
    match &es[k] {
        DocEntry::DirE { name, entries } => {
            let mut crel = clone_path(rel);
            crel.push(clone_bytes(name));
            proof {
                crate::bytestr::lemma_dv_push(rel@, crel@.last());
                assert(dv(crel@) =~= dv(rel@).push(name@));
            }
            render_dir(entries, &crel, out);
        },
        DocEntry::FileE { name, state } => {
            let mut crel = clone_path(rel);
            crel.push(clone_bytes(name));
            proof {
                crate::bytestr::lemma_dv_push(rel@, crel@.last());
                assert(dv(crel@) =~= dv(rel@).push(name@));
            }
            render_file(name, state, &crel, out);
        },
    }
    render_doc_from(es, k + 1, rel, out);
    proof {
        assert(out@ =~= old(out)@ + doc_from(ev, k as int, dv(rel@)));
    }
}

/// Appends the section of one directory whose repository-relative path is
/// `rel` and whose ordered listing is `entries`.
pub fn render_dir(entries: &Vec<DocEntry>, rel: &Vec<Vec<u8>>, out: &mut Vec<u8>)
    ensures
        final(out)@ == old(out)@ + dir_section(dv(rel@), view_entries(entries@)),
    decreases entries@, 1int, 0int,
{
    append_rep(out, 35u8, rel.len());
    let hm: [u8; 2] = [35u8, 35u8];
    append_lit(out, hm.as_slice());
    proof {
        assert(rep_byte(35, rel@.len() as nat) + hm@ =~= heading_marks(dv(rel@).len()));
    }
    let dirlbl: [u8; 12] = [32u8, 68u8, 105u8, 114u8, 101u8, 99u8, 116u8, 111u8, 114u8, 121u8,
        32u8, 96u8];
    append_lit(out, dirlbl.as_slice());
    append_join(out, rel, 47);
    let sfx: [u8; 4] = [47u8, 96u8, 10u8, 10u8];
    append_lit(out, sfx.as_slice());
    let fence: [u8; 6] = [96u8, 96u8, 96u8, 115u8, 104u8, 10u8];
    append_lit(out, fence.as_slice());
    let pad: Vec<u8> = Vec::new();
    proof {
        assert(pad@ =~= indent(0));
    }
    render_tree_from(entries, 0, &pad, Ghost(0nat), out);
    let close: [u8; 5] = [96u8, 96u8, 96u8, 10u8, 10u8];
    append_lit(out, close.as_slice());
    render_doc_from(entries, 0, rel, out);
    proof {
        assert(dirlbl@ =~= seq![32u8, 68u8, 105u8, 114u8, 101u8, 99u8, 116u8, 111u8, 114u8,
            121u8, 32u8, 96u8]);
        assert(sfx@ =~= seq![47u8, 96u8, 10u8, 10u8]);
        assert(fence@ =~= seq![96u8, 96u8, 96u8, 115u8, 104u8, 10u8]);
        assert(close@ =~= seq![96u8, 96u8, 96u8, 10u8, 10u8]);
        assert(out@ =~= old(out)@ + dir_section(dv(rel@), view_entries(entries@)));
    }
}

/// Appends the section of one file.
pub fn render_file(name: &Vec<u8>, state: &FileState, rel: &Vec<Vec<u8>>, out: &mut Vec<u8>)
    ensures
        final(out)@ == old(out)@ + file_section(dv(rel@), name@, view_state(*state)),
{
    match state {
        FileState::Text(content) => {
            let head: [u8; 18] = [35u8, 35u8, 35u8, 32u8, 83u8, 111u8, 117u8, 114u8, 99u8,
                101u8, 32u8, 102u8, 105u8, 108u8, 101u8, 58u8, 32u8, 96u8];
            append_lit(out, head.as_slice());
            append_join(out, rel, 47);
            let mid: [u8; 6] = [96u8, 10u8, 10u8, 96u8, 96u8, 96u8];
            append_lit(out, mid.as_slice());
            append_lang(out, name);
            out.push(10u8);
            append_bytes(out, content);
            let tail: [u8; 6] = [10u8, 96u8, 96u8, 96u8, 10u8, 10u8];
            append_lit(out, tail.as_slice());
            proof {
                assert(head@ =~= seq![35u8, 35u8, 35u8, 32u8, 83u8, 111u8, 117u8, 114u8, 99u8,
                    101u8, 32u8, 102u8, 105u8, 108u8, 101u8, 58u8, 32u8, 96u8]);
                assert(mid@ =~= seq![96u8, 10u8, 10u8, 96u8, 96u8, 96u8]);
                assert(tail@ =~= seq![10u8, 96u8, 96u8, 96u8, 10u8, 10u8]);
                assert(out@ =~= old(out)@ + file_section(dv(rel@), name@, view_state(*state)));
            }
        },
        _ => {
            proof {
                assert(out@ =~= old(out)@ + file_section(dv(rel@), name@, view_state(*state)));
            }
        },
    }
}

/// ASCII whitespace, as trimmed from the document's end.
pub open spec fn is_ws(b: u8) -> bool {
    b == 32 || b == 9 || b == 10 || b == 13
}

/// The text with trailing whitespace removed.
pub open spec fn trim_end_ws(s: Seq<u8>) -> Seq<u8>
    decreases s.len(),
{
    if s.len() > 0 && is_ws(s.last()) {
        trim_end_ws(s.drop_last())
    } else {
        s
    }
}

/// Trims trailing whitespace in place.
pub fn trim_end_exec(out: &mut Vec<u8>)
    ensures
        final(out)@ == trim_end_ws(old(out)@),
{
    let mut n: usize = out.len();
    let mut stop: bool = false;
    proof {
        assert(out@.take(out@.len() as int) =~= out@);
    }
    while n > 0 && !stop
        invariant
            n <= out@.len(),
            out@ == old(out)@,
            trim_end_ws(old(out)@) == trim_end_ws(out@.take(n as int)),
            stop ==> n > 0 && !is_ws(out@[n - 1]),
        decreases n + (if stop { 0int } else { 1int }),
    {
        let b = out[n - 1];
        if b == 32 || b == 9 || b == 10 || b == 13 {
            proof {
                assert(out@.take(n as int).last() == out@[n - 1]);
                assert(out@.take(n as int).drop_last() =~= out@.take(n - 1));
            }
            n = n - 1;
        } else {
            stop = true;
        }
    }
    proof {
        if n > 0 {
            assert(out@.take(n as int).last() == out@[n - 1]);
        }
        assert(trim_end_ws(out@.take(n as int)) == out@.take(n as int));
    }
    out.truncate(n);
    proof {
        assert(out@ =~= old(out)@.take(n as int));
    }
}

} // verus!
