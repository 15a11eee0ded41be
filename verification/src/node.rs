//! The directory tree: what a conversion reads from disk or writes to it.

use vstd::prelude::*;

verus! {

/// One entry of a directory listing.
#[derive(Debug, PartialEq, Eq)]
pub struct Entry {
    /// The entry's name, or `None` where the name is not valid text.
    pub name: Option<String>,
    pub node: Node,
}

/// A node of the directory tree.
#[derive(Debug, PartialEq, Eq)]
pub enum Node {
    /// A file, with its content.
    File(String),
    /// A directory, with its entries in the order in which they were
    /// listed.
    Directory(Vec<Entry>),
    /// Anything else: a link, a device, a missing path.
    Other,
}

/// The model of a directory entry.
pub ghost struct EntryView {
    pub name: Option<Seq<char>>,
    pub node: NodeView,
}

/// The model of a directory tree.
pub ghost enum NodeView {
    File(Seq<char>),
    Directory(Seq<EntryView>),
    Other,
}

impl NodeView {
    /// Whether the tree holds files and directories only, and in each
    /// directory every name is text and no name occurs twice.
    pub open spec fn readable(self) -> bool
        decreases self,
    {
        match self {
            NodeView::File(_) => true,
            NodeView::Directory(entries) => {
                &&& forall|i: int| 0 <= i < entries.len() ==> (#[trigger] entries[i]).name is Some
                &&& forall|i: int, j: int|
                    0 <= i < j < entries.len() ==> (#[trigger] entries[i]).name
                        != (#[trigger] entries[j]).name
                &&& forall|i: int| 0 <= i < entries.len() ==> (#[trigger] entries[i]).node.readable()
            },
            NodeView::Other => false,
        }
    }
}

/// The model of a directory entry.
pub open spec fn entry_view(entry: Entry) -> EntryView
    decreases entry,
{
    EntryView {
        name: match entry.name {
            Some(name) => Some(name@),
            None => None,
        },
        node: node_view(entry.node),
    }
}

/// The model of a directory tree: the same tree, with the characters of
/// each string and the entries of each listing.
pub open spec fn node_view(node: Node) -> NodeView
    decreases node,
{
    match node {
        Node::File(content) => NodeView::File(content@),
        Node::Directory(entries) => NodeView::Directory(
            Seq::new(
                entries.len() as nat,
                |i: int|
                    if 0 <= i < entries.len() {
                        entry_view(entries[i])
                    } else {
                        EntryView { name: None, node: NodeView::Other }
                    },
            ),
        ),
        Node::Other => NodeView::Other,
    }
}

impl View for Entry {
    type V = EntryView;

    open spec fn view(&self) -> EntryView {
        entry_view(*self)
    }
}

impl View for Node {
    type V = NodeView;

    open spec fn view(&self) -> NodeView {
        node_view(*self)
    }
}

/// The models of a list of entries, one by one.
pub open spec fn entries_view(entries: Seq<Entry>) -> Seq<EntryView> {
    Seq::new(entries.len(), |i: int| entries[i]@)
}

/// The names of a listing, in its order.
pub open spec fn entry_names(entries: Seq<EntryView>) -> Seq<Option<Seq<char>>> {
    Seq::new(entries.len(), |i: int| entries[i].name)
}

/// A directory's model lists the models of its entries.
pub proof fn lemma_directory_view(entries: Vec<Entry>)
    ensures
        Node::Directory(entries)@ == NodeView::Directory(entries_view(entries@)),
{
    assert(Node::Directory(entries)@->Directory_0 =~= entries_view(entries@));
}

} // verus!
