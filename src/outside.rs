//! Calls into petgraph, rand and chrono, with what the library relies on.
use vstd::prelude::*;
use rand::Rng;
use petgraph::graph::NodeIndex;
use crate::structure::is_walk;

verus! {

/// Relies on `petgraph::algo::all_simple_paths` (no bounds on the number of
/// intermediate nodes) over the undirected `petgraph::graph::UnGraph` with
/// `node_count` nodes and the given edges: every path it yields starts at
/// `from`, ends at `to`, and steps along edges; and its depth-first search
/// yields every simple path, so there is one where two distinct nodes are
/// joined by a walk.
#[verifier::external_body]
pub(crate) fn simple_paths(node_count: usize, edges: &Vec<(usize, usize)>, from: usize, to: usize) -> (r: Vec<Vec<usize>>)
    requires
        from < node_count,
        to < node_count,
        node_count < u32::MAX,
        edges@.len() < u32::MAX,
        forall|k: int| 0 <= k < edges@.len() ==> (#[trigger] edges@[k]).0 < node_count && edges@[k].1 < node_count,
    ensures
        forall|i: int| 0 <= i < r@.len() ==> is_walk((#[trigger] r@[i])@, node_count as nat, edges@, from, to),
        from != to && (exists|p: Seq<usize>| is_walk(p, node_count as nat, edges@, from, to)) ==> r@.len() > 0,
{
    let mut g = petgraph::graph::UnGraph::<(), ()>::with_capacity(node_count, edges.len());
    for _ in 0..node_count {
        g.add_node(());
    }
    for &(a, b) in edges.iter() {
        g.add_edge(NodeIndex::new(a), NodeIndex::new(b), ());
    }
    petgraph::algo::all_simple_paths::<Vec<NodeIndex>, _>(&g, NodeIndex::new(from), NodeIndex::new(to), 0, None)
        .map(|p| p.into_iter().map(|v| v.index()).collect())
        .collect()
}

/// Relies on `rand::Rng::gen_range` on `rand::thread_rng()`: a number drawn
/// from `0..n`, which must not be empty.
#[verifier::external_body]
pub(crate) fn random_below(n: usize) -> (r: usize)
    requires
        n > 0,
    ensures
        r < n,
{
    rand::thread_rng().gen_range(0..n)
}

/// Relies on `chrono::Local::now` and `DateTime::timestamp_millis`: the
/// current time in milliseconds since the Unix epoch.
#[verifier::external_body]
pub(crate) fn now_millis() -> (r: i64) {
    chrono::Local::now().timestamp_millis()
}

/// Relies on `chrono::Local::now` and `DateTime::timestamp_subsec_millis`:
/// milliseconds since the last second boundary, at most 1999 in a leap
/// second.
#[verifier::external_body]
pub(crate) fn subsecond_millis() -> (r: u32)
    ensures
        r < 2000,
{
    chrono::Local::now().timestamp_subsec_millis()
}

} // verus!
