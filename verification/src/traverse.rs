//! The filesystem tree: entries, the graph that holds them, and the trusted
//! view of that graph.
//!
//! The graph itself is `petgraph`'s `StableGraph`; the scanner owns the
//! writing side, this crate only queries it. Contracts speak of the graph
//! through two uninterpreted names: `tree_entries`, the entries present in
//! the graph, and `tree_children`, the children of a node in the graph's own
//! iteration order.
use vstd::prelude::*;

verus! {

/// One filesystem object's display-relevant facts. The name is kept as raw
/// bytes because a path segment need not be valid text. For directories,
/// `size` is the aggregate of the descendants as computed by the scanner.
#[derive(Clone, Debug, PartialEq, Eq)]
pub struct EntryData {
    pub name: Vec<u8>,
    pub size: u64,
    pub metadata_io_error: bool,
}

/// What contracts know of one entry: its name bytes, size and error flag.
pub type EntryView = (Seq<u8>, u64, bool);

pub open spec fn entry_view(e: EntryData) -> EntryView {
    (e.name@, e.size, e.metadata_io_error)
}

#[verifier::external_type_specification]
#[verifier::external_body]
#[verifier::reject_recursive_types(N)]
#[verifier::reject_recursive_types(E)]
#[verifier::reject_recursive_types(Ty)]
#[verifier::reject_recursive_types(Ix)]
pub struct ExStableGraph<N, E, Ty, Ix>(petgraph::stable_graph::StableGraph<N, E, Ty, Ix>);

#[verifier::external_type_specification]
#[verifier::external_body]
pub struct ExDirected(petgraph::Directed);

/// The directed graph of entries. Edges run from a directory to its
/// immediate children; node identities are the graph's own stable indices.
pub type Tree = petgraph::stable_graph::StableGraph<EntryData, (), petgraph::Directed, usize>;

/// The entries the graph currently holds, keyed by node identity.
pub uninterp spec fn tree_entries(t: &Tree) -> Map<nat, EntryView>;

/// The children of a node, in the graph's own (deterministic) iteration
/// order of outgoing neighbors. Empty for nodes not present in the graph.
pub uninterp spec fn tree_children(t: &Tree, id: nat) -> Seq<nat>;

/// `c` is a direct child of `p` in the tree.
pub open spec fn is_child_of(t: &Tree, c: nat, p: nat) -> bool {
    tree_children(t, p).contains(c)
}

/// The node has an incoming edge, i.e. it is not the scan root.
pub open spec fn has_parent(t: &Tree, c: nat) -> bool {
    exists|p: nat| is_child_of(t, c, p)
}

/// The unique parent of a node that has one (unique under `tree_wf`).
pub open spec fn parent_id(t: &Tree, c: nat) -> nat {
    choose|p: nat| is_child_of(t, c, p)
}

/// What the scanner guarantees of the tree whenever it hands control back:
/// every edge joins nodes present in the graph, node identities are graph
/// indices (so they fit a `usize`), no node has two parents, and no child is
/// listed twice under one parent.
pub open spec fn tree_wf(t: &Tree) -> bool {
    &&& forall|p: nat, c: nat|
        #[trigger] is_child_of(t, c, p) ==> tree_entries(t).dom().contains(c)
            && tree_entries(t).dom().contains(p) && c <= usize::MAX as nat && p
            <= usize::MAX as nat
    &&& forall|p1: nat, p2: nat, c: nat|
        is_child_of(t, c, p1) && is_child_of(t, c, p2) ==> p1 == p2
    &&& forall|p: nat, i: int, j: int|
        0 <= i < j < tree_children(t, p).len() ==> tree_children(t, p)[i] != tree_children(
            t,
            p,
        )[j]
}

/// Relies on `StableGraph::node_weight`: `Some` exactly when the node is
/// present, and then a field-for-field copy of its entry.
#[verifier::external_body]
pub(crate) fn node_entry(t: &Tree, id: usize) -> (r: Option<EntryData>)
    ensures
        match r {
            Some(e) => tree_entries(t).dom().contains(id as nat) && entry_view(e) == tree_entries(
                t,
            )[id as nat],
            None => !tree_entries(t).dom().contains(id as nat),
        },
{
    t.node_weight(petgraph::stable_graph::NodeIndex::new(id)).cloned()
}

/// Relies on `StableGraph::neighbors_directed` with `Outgoing`: all nodes an
/// edge leads to from `id`, in the graph's deterministic iteration order
/// (reverse order of edge addition), empty if the node does not exist.
#[verifier::external_body]
pub(crate) fn children_of(t: &Tree, id: usize) -> (r: Vec<usize>)
    ensures
        r@.map_values(|c: usize| c as nat) == tree_children(t, id as nat),
{
    t.neighbors_directed(petgraph::stable_graph::NodeIndex::new(id), petgraph::Direction::Outgoing)
        .map(|n: petgraph::stable_graph::NodeIndex<usize>| n.index())
        .collect()
}

/// Relies on `StableGraph::neighbors_directed` with `Incoming`: its first
/// element is the source of an incoming edge, and there is none exactly when
/// the node has no incoming edge (an edge into `id` from `p` is the same
/// edge that lists `id` among `p`'s outgoing neighbors).
#[verifier::external_body]
pub(crate) fn parent_of(t: &Tree, id: usize) -> (r: Option<usize>)
    ensures
        match r {
            Some(p) => is_child_of(t, id as nat, p as nat),
            None => !has_parent(t, id as nat),
        },
{
    t.neighbors_directed(petgraph::stable_graph::NodeIndex::new(id), petgraph::Direction::Incoming)
        .next()
        .map(|n: petgraph::stable_graph::NodeIndex<usize>| n.index())
}

/// What the scan left behind: the tree, the identity of its root, and how
/// many entries could not be stat'ed.
pub struct Traversal {
    pub tree: Tree,
    pub root_index: usize,
    pub io_errors: u64,
}

} // verus!
