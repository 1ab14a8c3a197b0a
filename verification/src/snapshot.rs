//! The in-memory snapshot of the repository tree that the engine works
//! on, and its mathematical view.
use vstd::prelude::*;

verus! {

/// A file's observed state: its raw bytes, a failed read, or a symbolic
/// link (never followed, never read).
pub enum FileData {
    Bytes(Vec<u8>),
    ReadFailed,
    Symlink,
}

/// One snapshot entry: a directory with its children in any order, or a
/// leaf (regular file or symbolic link).
pub enum FsNode {
    Dir { name: Vec<u8>, entries: Vec<FsNode> },
    Leaf { name: Vec<u8>, data: FileData },
}

/// Mathematical view of a file's state.
pub enum FileDataView {
    BytesV(Seq<u8>),
    ReadFailedV,
    SymlinkV,
}

/// Mathematical view of a snapshot entry.
pub enum FsNodeView {
    DirV { name: Seq<u8>, entries: Seq<FsNodeView> },
    LeafV { name: Seq<u8>, data: FileDataView },
}

/// View of a file state.
pub open spec fn view_data(d: FileData) -> FileDataView {
    match d {
        FileData::Bytes(b) => FileDataView::BytesV(b@),
        FileData::ReadFailed => FileDataView::ReadFailedV,
        FileData::Symlink => FileDataView::SymlinkV,
    }
}

/// View of a snapshot entry.
pub open spec fn view_node(n: FsNode) -> FsNodeView
    decreases n,
{
    match n {
        FsNode::Dir { name, entries } => FsNodeView::DirV {
            name: name@,
            entries: view_nodes(entries@),
        },
        FsNode::Leaf { name, data } => FsNodeView::LeafV { name: name@, data: view_data(data) },
    }
}

/// View of a list of snapshot entries.
pub open spec fn view_nodes(es: Seq<FsNode>) -> Seq<FsNodeView>
    decreases es,
{
    if es.len() == 0 {
        Seq::empty()
    } else {
        view_nodes(es.drop_last()).push(view_node(es.last()))
    }
}

/// `view_nodes` views the entries one by one.
pub proof fn lemma_view_nodes(es: Seq<FsNode>)
    ensures
        view_nodes(es).len() == es.len(),
        forall|i: int| 0 <= i < es.len() ==> view_nodes(es)[i] == view_node(es[i]),
    decreases es,
{
    if es.len() > 0 {
        lemma_view_nodes(es.drop_last());
    }
}

/// The name of a snapshot entry, in view form.
pub open spec fn node_name(v: FsNodeView) -> Seq<u8> {
    match v {
        FsNodeView::DirV { name, entries } => name,
        FsNodeView::LeafV { name, data } => name,
    }
}

} // verus!
