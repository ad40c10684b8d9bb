//! The working directory as a value, and what a snapshot of it is.

use crate::data::{object_id, put_object, ObjectKind, Objects};
use crate::order::sorted_triples;
use crate::strmap::Table;
use crate::text::{is_part, lemma_first_index, lemma_split_contains, split};
use crate::tree::{blob_word, tree_text, tree_word, EntryView};
use vstd::prelude::*;
use vstd::utf8::encode_utf8;

verus! {

/// A file or a directory, with its name inside the directory that holds it.
#[derive(Debug)]
pub enum Node {
    File { name: String, content: Vec<u8> },
    Dir { name: String, children: Vec<Node> },
}

/// The mathematical value of a `Node`.
pub enum NodeView {
    File { name: Seq<char>, content: Seq<u8> },
    Dir { name: Seq<char>, children: Seq<NodeView> },
}

impl View for Node {
    type V = NodeView;

    open spec fn view(&self) -> NodeView
        decreases self,
    {
        match self {
            Node::File { name, content } => NodeView::File { name: name@, content: content@ },
            Node::Dir { name, children } => NodeView::Dir {
                name: name@,
                children: Seq::new(
                    children@.len(),
                    |i: int|
                        if 0 <= i < children@.len() {
                            children[i]@
                        } else {
                            NodeView::File { name: Seq::empty(), content: Seq::empty() }
                        },
                ),
            },
        }
    }
}

/// The views of the nodes of a directory.
pub open spec fn node_views(v: Seq<Node>) -> Seq<NodeView> {
    Seq::new(v.len(), |i: int| v[i]@)
}

/// The name of the storage root, which no snapshot looks into.
pub open spec fn root_name() -> Seq<char> {
    seq!['.', 'r', 'g', 'i', 't']
}

/// Whether a path is left out of every snapshot: it is the storage root
/// or lies under it, that is, one of its parts between separators is the
/// storage root's name.
pub open spec fn ignored(path: Seq<char>) -> bool {
    split(path, '/').contains(root_name())
}

/// A path is left out exactly if the storage root's name stands in it
/// between separators or ends: `.rgit` and `./.rgit/objects` are, and
/// `./a.rgit.txt` is not.
pub proof fn lemma_ignored_is_a_part(path: Seq<char>)
    ensures
        ignored(path) <==> exists|at: int| is_part(path, root_name(), '/', at),
{
    assert(!root_name().contains('/'));
    lemma_split_contains(path, root_name(), '/');
}

/// Of all names without a separator, only the storage root's is left out.
pub proof fn lemma_ignored_name(name: Seq<char>)
    requires
        !name.contains('/'),
    ensures
        ignored(name) <==> name == root_name(),
{
    lemma_first_index(name, '/');
    let pieces = split(name, '/');
    assert(pieces == seq![name]);
    if name == root_name() {
        assert(pieces[0] == root_name());
    }
}

impl NodeView {
    /// The node's name.
    pub open spec fn name(self) -> Seq<char> {
        match self {
            NodeView::File { name, .. } => name,
            NodeView::Dir { name, .. } => name,
        }
    }
}

/// The tree entry of a node.
pub open spec fn node_entry(n: NodeView) -> EntryView
    decreases n, 0int,
{
    match n {
        NodeView::File { name, content } => (name, object_id(ObjectKind::Blob, content), blob_word()),
        NodeView::Dir { name, children } => (name, tree_id(children), tree_word()),
    }
}

/// The entries of a directory's nodes, in their order, the storage root
/// left out.
pub open spec fn dir_entries(nodes: Seq<NodeView>) -> Seq<EntryView>
    decreases nodes, 0int,
{
    if nodes.len() == 0 {
        Seq::empty()
    } else if ignored(nodes.last().name()) {
        dir_entries(nodes.drop_last())
    } else {
        dir_entries(nodes.drop_last()).push(node_entry(nodes.last()))
    }
}

/// The content of the tree object of a directory: its entries, sorted.
pub open spec fn tree_content(nodes: Seq<NodeView>) -> Seq<u8>
    decreases nodes, 1int,
{
    encode_utf8(tree_text(sorted_triples(dir_entries(nodes))))
}

/// The id of the tree object of a directory. It depends on the directory
/// alone.
pub open spec fn tree_id(nodes: Seq<NodeView>) -> Seq<char>
    decreases nodes, 2int,
{
    object_id(ObjectKind::Tree, tree_content(nodes))
}

/// The store after a node was written: a file's blob, or all of a
/// directory.
pub open spec fn store_node(objects: Objects, n: NodeView) -> Objects
    decreases n, 0int,
{
    match n {
        NodeView::File { name, content } => put_object(objects, ObjectKind::Blob, content),
        NodeView::Dir { name, children } => store_dir(objects, children),
    }
}

/// The store after the nodes of a directory were written, the storage root
/// left out.
pub open spec fn store_nodes(objects: Objects, nodes: Seq<NodeView>) -> Objects
    decreases nodes, 0int,
{
    if nodes.len() == 0 {
        objects
    } else if ignored(nodes.last().name()) {
        store_nodes(objects, nodes.drop_last())
    } else {
        store_node(store_nodes(objects, nodes.drop_last()), nodes.last())
    }
}

/// The store after a directory was written: its nodes, then its tree.
pub open spec fn store_dir(objects: Objects, nodes: Seq<NodeView>) -> Objects
    decreases nodes, 1int,
{
    put_object(store_nodes(objects, nodes), ObjectKind::Tree, tree_content(nodes))
}

/// `acc` with the files of a directory added, each by its path below `base`
/// with the id of its blob; the storage root left out.
pub open spec fn snapshot_into(acc: Table<Seq<char>>, nodes: Seq<NodeView>, base: Seq<char>) -> Table<
    Seq<char>,
>
    decreases nodes,
{
    if nodes.len() == 0 {
        acc
    } else {
        let before = snapshot_into(acc, nodes.drop_last(), base);
        let n = nodes.last();
        if ignored(n.name()) {
            before
        } else {
            match n {
                NodeView::File { name, content } => before.insert(
                    base + name,
                    object_id(ObjectKind::Blob, content),
                ),
                NodeView::Dir { name, children } => snapshot_into(
                    before,
                    children,
                    base + name + seq!['/'],
                ),
            }
        }
    }
}

/// The files of a working directory by their path, each with the id of its
/// blob.
pub open spec fn snapshot(nodes: Seq<NodeView>) -> Table<Seq<char>> {
    snapshot_into(Table::empty(), nodes, Seq::empty())
}

impl Node {
    /// The node's name.
    pub fn name(&self) -> (name: &String)
        ensures
            name@ == self@.name(),
    {
        match self {
            Node::File { name, .. } => name,
            Node::Dir { name, .. } => name,
        }
    }
}

/// The view of a directory node's children.
pub proof fn lemma_children_view(name: String, children: Vec<Node>)
    ensures
        (Node::Dir { name, children })@ == (NodeView::Dir {
            name: name@,
            children: node_views(children@),
        }),
{
    let n = Node::Dir { name, children };
    assert(n@->Dir_children =~= node_views(children@));
}

} // verus!
