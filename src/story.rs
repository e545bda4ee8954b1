//! The story graph, a petgraph `DiGraph` of byte ranges, and the calls into
//! petgraph that build it.
use core::ops;
use petgraph::graph::{DiGraph, Graph, NodeIndex};
use vstd::prelude::*;

verus! {

/// petgraph's `Graph`, held opaque; its contents are named by `story_nodes`
/// and `story_edges`.
#[verifier::external_type_specification]
#[verifier::external_body]
#[verifier::reject_recursive_types(N)]
#[verifier::reject_recursive_types(E)]
#[verifier::reject_recursive_types(Ty)]
#[verifier::reject_recursive_types(Ix)]
pub struct ExGraph<N, E, Ty, Ix>(Graph<N, E, Ty, Ix>);

/// petgraph's marker type for directed graphs.
#[verifier::external_type_specification]
#[verifier::external_body]
pub struct ExDirected(petgraph::Directed);

/// A story: each node holds the byte range of the text of a bookmark, each
/// edge the byte range of the text of a choice.
pub type Story = DiGraph<ops::Range<usize>, ops::Range<usize>>;

/// The node weights of a story as `(start, end)`, in the order of insertion.
pub uninterp spec fn story_nodes(g: Story) -> Seq<(int, int)>;

/// The edges of a story as `(source, target, (start, end))`, in the order of
/// insertion.
pub uninterp spec fn story_edges(g: Story) -> Seq<(int, int, (int, int))>;

/// Relies on petgraph's `Graph::new`: a graph without nodes or edges.
#[verifier::external_body]
pub(crate) fn new_story() -> (g: Story)
    ensures
        story_nodes(g) == Seq::<(int, int)>::empty(),
        story_edges(g) == Seq::<(int, int, (int, int))>::empty(),
{
    DiGraph::new()
}

/// Relies on petgraph's `Graph::add_node`: pushes a node and returns its
/// index, which is the former node count. It panics once the count reaches
/// the `u32` index's maximum.
#[verifier::external_body]
pub(crate) fn add_node(g: &mut Story, weight: ops::Range<usize>) -> (i: usize)
    requires
        story_nodes(*old(g)).len() < u32::MAX,
    ensures
        story_nodes(*final(g)) == story_nodes(*old(g)).push(
            (weight.start as int, weight.end as int),
        ),
        story_edges(*final(g)) == story_edges(*old(g)),
        i == story_nodes(*old(g)).len(),
{
    g.add_node(weight).index()
}

/// Relies on petgraph's `Graph::add_edge`: pushes an edge from node `a` to
/// node `b`. It panics where a node does not exist, or once the edge count
/// reaches the `u32` index's maximum.
#[verifier::external_body]
pub(crate) fn add_edge(g: &mut Story, a: usize, b: usize, weight: ops::Range<usize>)
    requires
        a < story_nodes(*old(g)).len(),
        b < story_nodes(*old(g)).len(),
        story_nodes(*old(g)).len() <= u32::MAX,
        story_edges(*old(g)).len() < u32::MAX,
    ensures
        story_edges(*final(g)) == story_edges(*old(g)).push(
            (a as int, b as int, (weight.start as int, weight.end as int)),
        ),
        story_nodes(*final(g)) == story_nodes(*old(g)),
{
    g.add_edge(NodeIndex::new(a), NodeIndex::new(b), weight);
}

} // verus!
