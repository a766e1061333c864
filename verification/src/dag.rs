//! The graph of combinational components, kept by `petgraph` in a structure
//! that refuses every edge that would close a cycle.
//!
//! Nothing in this file is proved: each function makes one call into
//! `petgraph`, and its contract says what that call does.

use crate::paths::reaches;
use petgraph::acyclic::Acyclic;
use petgraph::data::Build;
use petgraph::graphmap::GraphMap;
use petgraph::Directed;
use petgraph::Direction::Outgoing;
use vstd::prelude::*;

verus! {

/// A directed graph on numbered nodes that never holds a cycle. It is
/// `petgraph`'s `Acyclic` around a `GraphMap`; Verus sees its contents only
/// through [`dag_nodes`] and [`dag_edges`].
#[verifier::external_body]
pub struct CombinationalDag {
    graph: Acyclic<GraphMap<usize, (), Directed>>,
}

/// The nodes of the graph, in the order in which they were added.
pub uninterp spec fn dag_nodes(dag: CombinationalDag) -> Seq<usize>;

/// The edges of the graph, each as the pair of the node it leaves and the
/// node it enters.
pub uninterp spec fn dag_edges(dag: CombinationalDag) -> Set<(usize, usize)>;

/// `Acyclic::new`: a graph without nodes and without edges.
#[verifier::external_body]
pub(crate) fn dag_new() -> (dag: CombinationalDag)
    ensures
        dag_nodes(dag) == Seq::<usize>::empty(),
        dag_edges(dag) == Set::<(usize, usize)>::empty(),
{
    CombinationalDag { graph: Acyclic::new() }
}

/// `Acyclic::add_node` (of its `Build` impl): a node that the graph does not
/// hold yet is added behind the others; the edges stay as they are.
#[verifier::external_body]
pub(crate) fn dag_add_node(dag: &mut CombinationalDag, node: usize)
    requires
        !dag_nodes(*old(dag)).contains(node),
    ensures
        dag_nodes(*final(dag)) == dag_nodes(*old(dag)).push(node),
        dag_edges(*final(dag)) == dag_edges(*old(dag)),
{
    Build::add_node(&mut dag.graph, node);
}

/// `Acyclic::try_update_edge`: the edge from `a` to `b` is added, and `true`
/// returned, unless `b` reaches `a` already (as it does where the two are the
/// same node); then the graph stays as it is and `false` is returned.
///
/// `petgraph` looks both nodes up and panics on one that the graph does not
/// hold. Its search marks each node it meets in a bit set as long as the
/// graph has nodes, at the place that the node's own number gives: so every
/// node has to be a number below the count of the nodes.
#[verifier::external_body]
pub(crate) fn dag_try_update_edge(
    dag: &mut CombinationalDag,
    a: usize,
    b: usize,
) -> (added: bool)
    requires
        dag_nodes(*old(dag)).contains(a),
        dag_nodes(*old(dag)).contains(b),
        forall|i: int|
            0 <= i < dag_nodes(*old(dag)).len() ==> dag_nodes(*old(dag))[i] < dag_nodes(
                *old(dag),
            ).len(),
    ensures
        added == !reaches(dag_edges(*old(dag)), b, a),
        dag_nodes(*final(dag)) == dag_nodes(*old(dag)),
        dag_edges(*final(dag)) == if added {
            dag_edges(*old(dag)).insert((a, b))
        } else {
            dag_edges(*old(dag))
        },
{
    dag.graph.try_update_edge(a, b, ()).is_ok()
}

/// `GraphMap::nodes`: the nodes, in the order in which they were added.
#[verifier::external_body]
pub(crate) fn dag_node_list(dag: &CombinationalDag) -> (nodes: Vec<usize>)
    ensures
        nodes@ == dag_nodes(*dag),
{
    dag.graph.nodes().collect()
}

/// `GraphMap::edges_directed`, asked for the edges that leave `node`:
/// whether there is one.
#[verifier::external_body]
pub(crate) fn dag_has_successor(dag: &CombinationalDag, node: usize) -> (b:
    bool)
    ensures
        b == exists|next: usize| dag_edges(*dag).contains((node, next)),
{
    dag.graph.edges_directed(node, Outgoing).next().is_some()
}

} // verus!
