//! The graph of fetched rows (a `petgraph` graph: an edge goes from a row to
//! a row it refers to) and its rows collected level by level with a depth
//! first walk: rows that refer to a row one level below it, rows it refers to
//! one level above.

use std::collections::HashMap;

use petgraph::graph::{Graph, NodeIndex};
use petgraph::visit::EdgeRef;
use petgraph::{Directed, Direction};

use vstd::prelude::*;
use vstd::std_specs::hash::obeys_key_model;
use vstd::std_specs::iter::IteratorSpec;

use crate::dto::{PsqlTableRow, RowModel};
use crate::text::str_eq;

verus! {

#[verifier::external_type_specification]
#[verifier::external_body]
#[verifier::reject_recursive_types(N)]
#[verifier::reject_recursive_types(E)]
#[verifier::reject_recursive_types(Ty)]
#[verifier::reject_recursive_types(Ix)]
pub struct ExGraph<N, E, Ty, Ix>(Graph<N, E, Ty, Ix>);

#[verifier::external_type_specification]
#[verifier::external_body]
pub struct ExDirected(Directed);

/// The rows of a row graph, by node index.
pub uninterp spec fn graph_rows(g: Graph<PsqlTableRow, i32, Directed, u32>) -> Seq<RowModel>;

/// The sources of the edges into node `node`, in the order the graph lists
/// them.
pub uninterp spec fn graph_sources(g: Graph<PsqlTableRow, i32, Directed, u32>, node: int) -> Seq<
    usize,
>;

/// The targets of the edges out of node `node`, in the order the graph lists
/// them.
pub uninterp spec fn graph_targets(g: Graph<PsqlTableRow, i32, Directed, u32>, node: int) -> Seq<
    usize,
>;

/// The weights of the edges out of node `node`, in the order of
/// `graph_targets`.
pub uninterp spec fn graph_weights(g: Graph<PsqlTableRow, i32, Directed, u32>, node: int) -> Seq<
    i32,
>;

/// The number of edges of a row graph.
pub uninterp spec fn graph_edge_count(g: Graph<PsqlTableRow, i32, Directed, u32>) -> nat;

/// `Graph::default`: a graph without nodes or edges.
#[verifier::external_body]
pub(crate) fn new_graph() -> (g: Graph<PsqlTableRow, i32, Directed, u32>)
    ensures
        graph_rows(g) == Seq::<RowModel>::empty(),
        graph_edge_count(g) == 0,
        forall|k: int| 0 <= k ==> #[trigger] graph_sources(g, k) == Seq::<usize>::empty(),
        forall|k: int| 0 <= k ==> #[trigger] graph_targets(g, k) == Seq::<usize>::empty(),
        forall|k: int| 0 <= k ==> #[trigger] graph_weights(g, k) == Seq::<i32>::empty(),
{
    Graph::default()
}

/// `Graph::add_node`: the row becomes the last node, without edges
/// (adding a node at the index limit of `u32` panics).
#[verifier::external_body]
fn add_node(g: &mut Graph<PsqlTableRow, i32, Directed, u32>, row: PsqlTableRow) -> (i: usize)
    requires
        graph_rows(*old(g)).len() < u32::MAX,
    ensures
        i == graph_rows(*old(g)).len(),
        graph_rows(*final(g)) == graph_rows(*old(g)).push(row@),
        graph_edge_count(*final(g)) == graph_edge_count(*old(g)),
        forall|k: int| 0 <= k < i ==> graph_sources(*final(g), k) == graph_sources(*old(g), k),
        forall|k: int| 0 <= k < i ==> graph_targets(*final(g), k) == graph_targets(*old(g), k),
        forall|k: int| 0 <= k < i ==> graph_weights(*final(g), k) == graph_weights(*old(g), k),
        graph_sources(*final(g), i as int) == Seq::<usize>::empty(),
        graph_targets(*final(g), i as int) == Seq::<usize>::empty(),
        graph_weights(*final(g), i as int) == Seq::<i32>::empty(),
{
    g.add_node(row).index()
}

/// `Graph::update_edge(a, b, weight)`: an edge from `a` to `b` that is there
/// keeps its place and takes the weight (the first such edge in `a`'s list;
/// which one is not said here); otherwise the new edge, with the weight,
/// comes first in the lists of `a`'s targets and `b`'s sources (adding an
/// edge at the index limit of `u32`, or between nodes that are not there,
/// panics).
#[verifier::external_body]
fn update_edge(g: &mut Graph<PsqlTableRow, i32, Directed, u32>, a: usize, b: usize, weight: i32)
    requires
        a < graph_rows(*old(g)).len(),
        b < graph_rows(*old(g)).len(),
        graph_edge_count(*old(g)) < u32::MAX,
    ensures
        graph_rows(*final(g)) == graph_rows(*old(g)),
        graph_targets(*old(g), a as int).contains(b) ==> graph_edge_count(*final(g))
            == graph_edge_count(*old(g)) && (forall|k: int|
            graph_sources(*final(g), k) == graph_sources(*old(g), k)) && (forall|k: int|
            graph_targets(*final(g), k) == graph_targets(*old(g), k)) && (forall|k: int|
            k != a ==> graph_weights(*final(g), k) == graph_weights(*old(g), k)) && graph_weights(
            *final(g),
            a as int,
        ).len() == graph_weights(*old(g), a as int).len() && (forall|m: int|
            0 <= m < graph_weights(*old(g), a as int).len() ==> graph_weights(*final(g), a as int)[m]
                == graph_weights(*old(g), a as int)[m] || (graph_targets(*old(g), a as int)[m] == b
                && graph_weights(*final(g), a as int)[m] == weight)),
        !graph_targets(*old(g), a as int).contains(b) ==> graph_weights(*final(g), a as int) == seq![
            weight,
        ] + graph_weights(*old(g), a as int) && (forall|k: int|
            k != a ==> graph_weights(*final(g), k) == graph_weights(*old(g), k)),
        !graph_targets(*old(g), a as int).contains(b) ==> graph_edge_count(*final(g))
            == graph_edge_count(*old(g)) + 1 && graph_targets(*final(g), a as int) == seq![b]
            + graph_targets(*old(g), a as int) && graph_sources(*final(g), b as int) == seq![a]
            + graph_sources(*old(g), b as int) && (forall|k: int|
            k != a ==> graph_targets(*final(g), k) == graph_targets(*old(g), k)) && (forall|k: int|
            k != b ==> graph_sources(*final(g), k) == graph_sources(*old(g), k)),
{
    g.update_edge(NodeIndex::new(a), NodeIndex::new(b), weight);
}

/// `Graph::node_count`: the number of rows.
#[verifier::external_body]
pub(crate) fn node_count(g: &Graph<PsqlTableRow, i32, Directed, u32>) -> (n: usize)
    ensures
        n == graph_rows(*g).len(),
{
    g.node_count()
}

/// The row of node `i` (`Graph`'s indexing).
#[verifier::external_body]
pub(crate) fn node_row(g: &Graph<PsqlTableRow, i32, Directed, u32>, i: usize) -> (r: &PsqlTableRow)
    requires
        i < graph_rows(*g).len(),
    ensures
        r@ == graph_rows(*g)[i as int],
{
    &g[NodeIndex::new(i)]
}

/// The sources of `Graph::edges_directed(i, Incoming)`, in that order; every
/// edge joins nodes of the graph (adding one that does not panics).
#[verifier::external_body]
fn incoming_sources(g: &Graph<PsqlTableRow, i32, Directed, u32>, i: usize) -> (r: Vec<usize>)
    requires
        i < graph_rows(*g).len(),
    ensures
        r@ == graph_sources(*g, i as int),
        forall|k: int| 0 <= k < r@.len() ==> r@[k] < graph_rows(*g).len(),
{
    g.edges_directed(NodeIndex::new(i), Direction::Incoming).map(|e| e.source().index()).collect()
}

/// The targets of `Graph::edges_directed(i, Outgoing)`, in that order; every
/// edge joins nodes of the graph (adding one that does not panics).
#[verifier::external_body]
fn outgoing_targets(g: &Graph<PsqlTableRow, i32, Directed, u32>, i: usize) -> (r: Vec<usize>)
    requires
        i < graph_rows(*g).len(),
    ensures
        r@ == graph_targets(*g, i as int),
        forall|k: int| 0 <= k < r@.len() ==> r@[k] < graph_rows(*g).len(),
{
    g.edges_directed(NodeIndex::new(i), Direction::Outgoing).map(|e| e.target().index()).collect()
}

// ---------------------------------------------------------------------
// The walk
// ---------------------------------------------------------------------

/// The number of nodes not visited yet.
pub open spec fn unvisited_count(visited: Seq<bool>) -> nat
    decreases visited.len(),
{
    if visited.len() == 0 {
        0
    } else {
        unvisited_count(visited.drop_last()) + if visited.last() {
            0nat
        } else {
            1nat
        }
    }
}

/// Marking an unvisited node leaves one node fewer to visit.
pub proof fn lemma_mark_visited(visited: Seq<bool>, i: int)
    requires
        0 <= i < visited.len(),
        !visited[i],
    ensures
        unvisited_count(visited.update(i, true)) + 1 == unvisited_count(visited),
    decreases visited.len(),
{
    let updated = visited.update(i, true);
    if i < visited.len() - 1 {
        lemma_mark_visited(visited.drop_last(), i);
        assert(updated.drop_last() =~= visited.drop_last().update(i, true));
    } else {
        assert(updated.drop_last() =~= visited.drop_last());
    }
}

/// No more nodes to visit than nodes.
pub proof fn lemma_unvisited_bound(visited: Seq<bool>)
    ensures
        unvisited_count(visited) <= visited.len(),
    decreases visited.len(),
{
    if visited.len() > 0 {
        lemma_unvisited_bound(visited.drop_last());
    }
}

/// The node put at a level, after the nodes already there (once).
pub open spec fn add_at_level(levels: Map<i32, Seq<usize>>, level: i32, node: usize) -> Map<
    i32,
    Seq<usize>,
> {
    let current = if levels.contains_key(level) {
        levels[level]
    } else {
        Seq::empty()
    };
    levels.insert(
        level,
        if current.contains(node) {
            current
        } else {
            current.push(node)
        },
    )
}

/// The walk from node `node` at `level`: the node is put at its level, then
/// each node with an edge into it that is not visited yet is marked and
/// walked one level below, then each node it has an edge to one level above,
/// in the order the graph lists them. Gives the visited nodes and the levels.
pub open spec fn fill_levels(
    g: Graph<PsqlTableRow, i32, Directed, u32>,
    node: usize,
    level: i32,
    visited: Seq<bool>,
    levels: Map<i32, Seq<usize>>,
) -> (Seq<bool>, Map<i32, Seq<usize>>)
    decreases unvisited_count(visited), 1int, 0int,
{
    if node >= graph_rows(g).len() {
        (visited, levels)
    } else {
        let put = add_at_level(levels, level, node);
        let below = visit_levels(g, graph_sources(g, node as int), (level + 1) as i32, visited, put);
        if unvisited_count(below.0) <= unvisited_count(visited) {
            visit_levels(g, graph_targets(g, node as int), (level - 1) as i32, below.0, below.1)
        } else {
            below
        }
    }
}

/// The walk of the nodes of `list` that are not visited yet, in order, each
/// marked visited before it is walked at `level`.
pub open spec fn visit_levels(
    g: Graph<PsqlTableRow, i32, Directed, u32>,
    list: Seq<usize>,
    level: i32,
    visited: Seq<bool>,
    levels: Map<i32, Seq<usize>>,
) -> (Seq<bool>, Map<i32, Seq<usize>>)
    decreases unvisited_count(visited), 0int, list.len(),
{
    if list.len() == 0 {
        (visited, levels)
    } else {
        let x = list[0];
        if x >= visited.len() || visited[x as int] {
            visit_levels(g, list.drop_first(), level, visited, levels)
        } else {
            proof {
                lemma_mark_visited(visited, x as int);
            }
            let walked = fill_levels(g, x, level, visited.update(x as int, true), levels);
            if unvisited_count(walked.0) <= unvisited_count(visited) {
                visit_levels(g, list.drop_first(), level, walked.0, walked.1)
            } else {
                walked
            }
        }
    }
}

/// No level holds a node twice.
pub open spec fn levels_once(levels: Map<i32, Seq<usize>>) -> bool {
    forall|l: i32| #[trigger] levels.contains_key(l) ==> levels[l].no_duplicates()
}

/// Putting a node at a level keeps every level free of repeats.
proof fn lemma_add_at_level_once(levels: Map<i32, Seq<usize>>, level: i32, node: usize)
    requires
        levels_once(levels),
    ensures
        levels_once(add_at_level(levels, level, node)),
{
    let current = if levels.contains_key(level) {
        levels[level]
    } else {
        Seq::<usize>::empty()
    };
    let after = add_at_level(levels, level, node);
    assert forall|l: i32| #[trigger] after.contains_key(l) implies after[l].no_duplicates() by {
        if l == level && !current.contains(node) {
            let p = current.push(node);
            assert(after[l] == p);
            assert forall|a: int, b: int| 0 <= a < p.len() && 0 <= b < p.len() && a != b implies p[a] != p[b] by {
                if a == current.len() {
                    assert(p[b] == current[b]);
                } else if b == current.len() {
                    assert(p[a] == current[a]);
                } else {
                    assert(p[a] == current[a] && p[b] == current[b]);
                }
            }
        }
    }
}

/// The walk from a node keeps every level free of repeats.
proof fn lemma_fill_levels_once(
    g: Graph<PsqlTableRow, i32, Directed, u32>,
    node: usize,
    level: i32,
    visited: Seq<bool>,
    levels: Map<i32, Seq<usize>>,
)
    requires
        levels_once(levels),
    ensures
        levels_once(fill_levels(g, node, level, visited, levels).1),
    decreases unvisited_count(visited), 1int, 0int,
{
    if node < graph_rows(g).len() {
        let put = add_at_level(levels, level, node);
        lemma_add_at_level_once(levels, level, node);
        let below = visit_levels(g, graph_sources(g, node as int), (level + 1) as i32, visited, put);
        lemma_visit_levels_once(g, graph_sources(g, node as int), (level + 1) as i32, visited, put);
        if unvisited_count(below.0) <= unvisited_count(visited) {
            lemma_visit_levels_once(g, graph_targets(g, node as int), (level - 1) as i32, below.0, below.1);
        }
    }
}

/// The walk of a list of nodes keeps every level free of repeats.
proof fn lemma_visit_levels_once(
    g: Graph<PsqlTableRow, i32, Directed, u32>,
    list: Seq<usize>,
    level: i32,
    visited: Seq<bool>,
    levels: Map<i32, Seq<usize>>,
)
    requires
        levels_once(levels),
    ensures
        levels_once(visit_levels(g, list, level, visited, levels).1),
    decreases unvisited_count(visited), 0int, list.len(),
{
    if list.len() > 0 {
        let x = list[0];
        if x >= visited.len() || visited[x as int] {
            lemma_visit_levels_once(g, list.drop_first(), level, visited, levels);
        } else {
            lemma_mark_visited(visited, x as int);
            let walked = fill_levels(g, x, level, visited.update(x as int, true), levels);
            lemma_fill_levels_once(g, x, level, visited.update(x as int, true), levels);
            if unvisited_count(walked.0) <= unvisited_count(visited) {
                lemma_visit_levels_once(g, list.drop_first(), level, walked.0, walked.1);
            }
        }
    }
}

/// No level of the walk holds a node twice: each row is listed at most once
/// at a level, as a set of rows would hold it.
pub proof fn lemma_walk_levels_once(g: Graph<PsqlTableRow, i32, Directed, u32>, node: usize, level: i32)
    ensures
        forall|l: i32|
            #[trigger] walk_levels(g, node, level).contains_key(l) ==> walk_levels(g, node, level)[l].no_duplicates(),
{
    lemma_fill_levels_once(g, node, level, Seq::new(graph_rows(g).len(), |i: int| false), Map::empty());
}

/// Every node at a level of `a` is at that level of `b`.
pub open spec fn levels_within(a: Map<i32, Seq<usize>>, b: Map<i32, Seq<usize>>) -> bool {
    forall|l: i32, n: usize| a.contains_key(l) && #[trigger] a[l].contains(n) ==> b.contains_key(l) && b[l].contains(n)
}

/// Keeping nodes where they are chains.
proof fn lemma_levels_within_trans(a: Map<i32, Seq<usize>>, b: Map<i32, Seq<usize>>, c: Map<i32, Seq<usize>>)
    requires
        levels_within(a, b),
        levels_within(b, c),
    ensures
        levels_within(a, c),
{
    assert forall|l: i32, n: usize| a.contains_key(l) && #[trigger] a[l].contains(n) implies c.contains_key(l)
        && c[l].contains(n) by {
        assert(b.contains_key(l) && b[l].contains(n));
    }
}

/// Putting a node at a level keeps every node where it was, and puts the
/// node there.
proof fn lemma_add_at_level_within(levels: Map<i32, Seq<usize>>, level: i32, node: usize)
    ensures
        levels_within(levels, add_at_level(levels, level, node)),
        add_at_level(levels, level, node).contains_key(level),
        add_at_level(levels, level, node)[level].contains(node),
{
    let current = if levels.contains_key(level) {
        levels[level]
    } else {
        Seq::<usize>::empty()
    };
    let after = add_at_level(levels, level, node);
    assert forall|l: i32, n: usize| levels.contains_key(l) && #[trigger] levels[l].contains(n) implies after.contains_key(l)
        && after[l].contains(n) by {
        if l == level && !current.contains(node) {
            let i = choose|i: int| 0 <= i < current.len() && current[i] == n;
            assert(current.push(node)[i] == n);
        }
    }
    if !current.contains(node) {
        assert(current.push(node)[current.len() as int] == node);
    }
}

/// The walk from a node only adds to the levels.
proof fn lemma_fill_levels_within(
    g: Graph<PsqlTableRow, i32, Directed, u32>,
    node: usize,
    level: i32,
    visited: Seq<bool>,
    levels: Map<i32, Seq<usize>>,
)
    ensures
        levels_within(levels, fill_levels(g, node, level, visited, levels).1),
        node < graph_rows(g).len() ==> fill_levels(g, node, level, visited, levels).1.contains_key(level)
            && fill_levels(g, node, level, visited, levels).1[level].contains(node),
    decreases unvisited_count(visited), 1int, 0int,
{
    if node < graph_rows(g).len() {
        let put = add_at_level(levels, level, node);
        lemma_add_at_level_within(levels, level, node);
        let below = visit_levels(g, graph_sources(g, node as int), (level + 1) as i32, visited, put);
        lemma_visit_levels_within(g, graph_sources(g, node as int), (level + 1) as i32, visited, put);
        let r = fill_levels(g, node, level, visited, levels).1;
        if unvisited_count(below.0) <= unvisited_count(visited) {
            lemma_visit_levels_within(g, graph_targets(g, node as int), (level - 1) as i32, below.0, below.1);
            lemma_levels_within_trans(put, below.1, r);
        }
        lemma_levels_within_trans(levels, put, r);
        assert(put.contains_key(level) && put[level].contains(node));
    }
}

/// The walk of a list of nodes only adds to the levels.
proof fn lemma_visit_levels_within(
    g: Graph<PsqlTableRow, i32, Directed, u32>,
    list: Seq<usize>,
    level: i32,
    visited: Seq<bool>,
    levels: Map<i32, Seq<usize>>,
)
    ensures
        levels_within(levels, visit_levels(g, list, level, visited, levels).1),
    decreases unvisited_count(visited), 0int, list.len(),
{
    if list.len() > 0 {
        let x = list[0];
        if x >= visited.len() || visited[x as int] {
            lemma_visit_levels_within(g, list.drop_first(), level, visited, levels);
        } else {
            lemma_mark_visited(visited, x as int);
            let walked = fill_levels(g, x, level, visited.update(x as int, true), levels);
            lemma_fill_levels_within(g, x, level, visited.update(x as int, true), levels);
            if unvisited_count(walked.0) <= unvisited_count(visited) {
                lemma_visit_levels_within(g, list.drop_first(), level, walked.0, walked.1);
                let r = visit_levels(g, list.drop_first(), level, walked.0, walked.1).1;
                lemma_levels_within_trans(levels, walked.1, r);
            }
        }
    } else {
        assert(levels_within(levels, levels));
    }
}

/// The walk starts where it is asked to: a node of the graph sits at its own
/// level.
pub proof fn lemma_walk_levels_start(g: Graph<PsqlTableRow, i32, Directed, u32>, node: usize, level: i32)
    requires
        node < graph_rows(g).len(),
    ensures
        walk_levels(g, node, level).contains_key(level),
        walk_levels(g, node, level)[level].contains(node),
{
    lemma_fill_levels_within(g, node, level, Seq::new(graph_rows(g).len(), |i: int| false), Map::empty());
}

/// The view of levels of node indices.
pub open spec fn index_levels(m: Map<i32, Vec<usize>>) -> Map<i32, Seq<usize>> {
    m.map_values(|v: Vec<usize>| v@)
}

/// The nodes at each level of the walk from `node` at `level`, nothing
/// visited at first.
pub open spec fn walk_levels(
    g: Graph<PsqlTableRow, i32, Directed, u32>,
    node: usize,
    level: i32,
) -> Map<i32, Seq<usize>> {
    fill_levels(g, node, level, Seq::new(graph_rows(g).len(), |i: int| false), Map::empty()).1
}

/// Puts `node` at `level`, after the nodes already there, once.
fn put_at_level(levels: &mut HashMap<i32, Vec<usize>>, level: i32, node: usize)
    requires
        obeys_key_model::<i32>(),
    ensures
        index_levels(final(levels)@) == add_at_level(index_levels(old(levels)@), level, node),
{
    let mut current: Vec<usize> = match levels.get(&level) {
        Some(v) => v.clone(),
        None => Vec::new(),
    };
    let ghost before = current@;
    let mut present = false;
    let mut k: usize = 0;
    while k < current.len()
        invariant
            k <= current@.len(),
            current@ == before,
            present <==> exists|j: int| 0 <= j < k && current@[j] == node,
        decreases current@.len() - k,
    {
        if current[k] == node {
            present = true;
        }
        k = k + 1;
    }
    assert(present <==> current@.contains(node));
    if !present {
        current.push(node);
    }
    levels.insert(level, current);
    assert(index_levels(levels@) =~= add_at_level(index_levels(old(levels)@), level, node));
}

/// The levels are within reach of 32 bit arithmetic: no walk from
/// `start` goes further than the number of nodes.
pub open spec fn level_fits(start: i32, nodes: nat) -> bool {
    i32::MIN + nodes + 2 <= start && start + nodes + 2 <= i32::MAX
}

/// The walk from node `node` (see `fill_levels`).
fn fill(
    g: &Graph<PsqlTableRow, i32, Directed, u32>,
    node: usize,
    level: i32,
    visited: &mut Vec<bool>,
    levels: &mut HashMap<i32, Vec<usize>>,
    Ghost(start): Ghost<i32>,
)
    requires
        obeys_key_model::<i32>(),
        old(visited)@.len() == graph_rows(*g).len(),
        level_fits(start, graph_rows(*g).len()),
        start - (graph_rows(*g).len() - unvisited_count(old(visited)@)) <= level,
        level <= start + (graph_rows(*g).len() - unvisited_count(old(visited)@)),
        index_node_bound(index_levels(old(levels)@), graph_rows(*g).len()),
    ensures
        index_node_bound(index_levels(final(levels)@), graph_rows(*g).len()),
        (final(visited)@, index_levels(final(levels)@)) == fill_levels(
            *g,
            node,
            level,
            old(visited)@,
            index_levels(old(levels)@),
        ),
        final(visited)@.len() == old(visited)@.len(),
        unvisited_count(final(visited)@) <= unvisited_count(old(visited)@),
    decreases unvisited_count(old(visited)@), 1int, 0int,
{
    let n = node_count(g);
    if node >= n {
        return ;
    }
    proof {
        lemma_unvisited_bound(old(visited)@);
    }
    let ghost v0 = visited@;
    let ghost l0 = index_levels(levels@);
    put_at_level(levels, level, node);
    assert(index_node_bound(index_levels(levels@), graph_rows(*g).len())) by {
        assert forall|l: i32, k: int|
            index_levels(levels@).contains_key(l) && 0 <= k < index_levels(levels@)[l].len()
                implies #[trigger] index_levels(levels@)[l][k] < graph_rows(*g).len() by {
            if l != level {
                assert(index_levels(levels@)[l] == l0[l]);
            } else if l0.contains_key(l) && k < l0[l].len() {
                assert(index_levels(levels@)[l][k] == l0[l][k]);
            }
        }
    }
    let sources = incoming_sources(g, node);
    visit(g, &sources, 0, level + 1, visited, levels, Ghost(start));
    let ghost below = (visited@, index_levels(levels@));
    assert(below == visit_levels(
        *g,
        graph_sources(*g, node as int),
        (level + 1) as i32,
        v0,
        add_at_level(l0, level, node),
    )) by {
        assert(sources@.skip(0) =~= sources@);
    }
    let targets = outgoing_targets(g, node);
    visit(g, &targets, 0, level - 1, visited, levels, Ghost(start));
    assert(targets@.skip(0) =~= targets@);
}

/// The walk of the nodes of `list[from..]` (see `visit_levels`).
fn visit(
    g: &Graph<PsqlTableRow, i32, Directed, u32>,
    list: &Vec<usize>,
    from: usize,
    level: i32,
    visited: &mut Vec<bool>,
    levels: &mut HashMap<i32, Vec<usize>>,
    Ghost(start): Ghost<i32>,
)
    requires
        obeys_key_model::<i32>(),
        from <= list@.len(),
        forall|k: int| 0 <= k < list@.len() ==> list@[k] < graph_rows(*g).len(),
        old(visited)@.len() == graph_rows(*g).len(),
        level_fits(start, graph_rows(*g).len()),
        start - (graph_rows(*g).len() - unvisited_count(old(visited)@)) - 1 <= level,
        level <= start + (graph_rows(*g).len() - unvisited_count(old(visited)@)) + 1,
        index_node_bound(index_levels(old(levels)@), graph_rows(*g).len()),
    ensures
        index_node_bound(index_levels(final(levels)@), graph_rows(*g).len()),
        (final(visited)@, index_levels(final(levels)@)) == visit_levels(
            *g,
            list@.skip(from as int),
            level,
            old(visited)@,
            index_levels(old(levels)@),
        ),
        final(visited)@.len() == old(visited)@.len(),
        unvisited_count(final(visited)@) <= unvisited_count(old(visited)@),
    decreases unvisited_count(old(visited)@), 0int, list@.len() - from,
{
    if from == list.len() {
        return ;
    }
    let ghost rest = list@.skip(from as int);
    assert(rest.drop_first() =~= list@.skip(from + 1));
    assert(rest[0] == list@[from as int]);
    let x = list[from];
    if visited[x] {
        visit(g, list, from + 1, level, visited, levels, Ghost(start));
    } else {
        let ghost v0 = visited@;
        proof {
            lemma_mark_visited(v0, x as int);
        }
        visited.set(x, true);
        fill(g, x, level, visited, levels, Ghost(start));
        visit(g, list, from + 1, level, visited, levels, Ghost(start));
    }
}

/// The rows of the graph at each level of a depth first walk from node
/// `node_index` at level `current_level` (see `fill_levels`): the node's row
/// at its level, rows that refer to a row one level below it, rows it refers
/// to one level above, every row once at the level where the walk first
/// reaches it. Nothing when the node is not in the graph.
pub fn create_nodes_by_level(
    graph: &Graph<PsqlTableRow, i32, Directed, u32>,
    node_index: usize,
    current_level: i32,
) -> (levels: HashMap<i32, Vec<PsqlTableRow>>)
    requires
        level_fits(current_level, graph_rows(*graph).len()),
    ensures
        levels@.dom() == walk_levels(*graph, node_index, current_level).dom(),
        forall|l: i32|
            #[trigger] levels@.contains_key(l) ==> levels@[l]@.map_values(|r: PsqlTableRow| r@)
                == walk_levels(*graph, node_index, current_level)[l].map_values(
                |i: usize| graph_rows(*graph)[i as int],
            ),
{
    broadcast use vstd::std_specs::hash::group_hash_axioms;

    let n = node_count(graph);
    let mut visited: Vec<bool> = Vec::new();
    while visited.len() < n
        invariant
            visited@.len() <= n,
            forall|k: int| 0 <= k < visited@.len() ==> !visited@[k],
        decreases n - visited@.len(),
    {
        visited.push(false);
    }
    assert(visited@ =~= Seq::new(graph_rows(*graph).len(), |i: int| false));
    let ghost v0 = visited@;
    assert(unvisited_count(v0) == n) by {
        lemma_all_unvisited(v0);
    }
    let mut indices: HashMap<i32, Vec<usize>> = HashMap::new();
    assert(index_levels(indices@) =~= Map::<i32, Seq<usize>>::empty());
    fill(graph, node_index, current_level, &mut visited, &mut indices, Ghost(current_level));
    let ghost walked = walk_levels(*graph, node_index, current_level);
    assert(index_levels(indices@) == walked);
    let mut levels: HashMap<i32, Vec<PsqlTableRow>> = HashMap::new();
    let ghost ks: Seq<i32> = indices.keys().remaining().unref();
    let ghost mut count: int = 0;
    for level in it: indices.keys()
        invariant
            obeys_key_model::<i32>(),
            ks.to_set() == indices@.dom(),
            it.seq().unref() == ks,
            count == it.index(),
            index_levels(indices@) == walked,
            n == graph_rows(*graph).len(),
            index_node_bound(walked, n as nat),
            levels@.dom() == ks.take(count).to_set(),
            forall|l: i32|
                #[trigger] levels@.contains_key(l) ==> levels@[l]@.map_values(
                    |r: PsqlTableRow| r@,
                ) == walked[l].map_values(|i: usize| graph_rows(*graph)[i as int]),
    {
        let ghost done = ks.take(count);
        assert(ks[count] == *level);
        let nodes = indices.get(level).unwrap();
        assert(nodes@ == walked[*level]);
        let mut rows: Vec<PsqlTableRow> = Vec::new();
        let mut j: usize = 0;
        while j < nodes.len()
            invariant
                j <= nodes@.len(),
                n == graph_rows(*graph).len(),
                nodes@ == walked[*level],
                index_node_bound(walked, n as nat),
                walked.contains_key(*level),
                rows@.map_values(|r: PsqlTableRow| r@) == nodes@.take(j as int).map_values(
                    |i: usize| graph_rows(*graph)[i as int],
                ),
            decreases nodes@.len() - j,
        {
            let row = node_row(graph, nodes[j]).clone();
            let ghost before = rows@.map_values(|r: PsqlTableRow| r@);
            rows.push(row);
            assert(rows@.map_values(|r: PsqlTableRow| r@) =~= before.push(
                graph_rows(*graph)[nodes@[j as int] as int],
            ));
            assert(nodes@.take(j + 1).map_values(|i: usize| graph_rows(*graph)[i as int])
                =~= nodes@.take(j as int).map_values(|i: usize| graph_rows(*graph)[i as int]).push(
                graph_rows(*graph)[nodes@[j as int] as int],
            ));
            j = j + 1;
        }
        assert(nodes@.take(j as int) =~= nodes@);
        levels.insert(*level, rows);
        proof {
            let grown = ks.take(count + 1);
            assert(grown =~= done.push(*level));
            assert(levels@.dom() =~= grown.to_set()) by {
                assert forall|y: i32| grown.to_set().contains(y) <==> levels@.dom().contains(y) by {
                    if grown.to_set().contains(y) {
                        let q = choose|q: int| 0 <= q < grown.len() && grown[q] == y;
                        if q < count {
                            assert(done[q] == y);
                        }
                    }
                    if done.to_set().contains(y) {
                        let q = choose|q: int| 0 <= q < done.len() && done[q] == y;
                        assert(grown[q] == y);
                    }
                    if y == *level {
                        assert(grown[count] == y);
                    }
                }
            }
            count = count + 1;
        }
    }
    assert(levels@.dom() =~= walked.dom()) by {
        assert(ks.take(count) =~= ks);
    }
    levels
}

/// Every node at a level is a node of the graph.
pub open spec fn index_node_bound(levels: Map<i32, Seq<usize>>, n: nat) -> bool {
    forall|l: i32, k: int|
        levels.contains_key(l) && 0 <= k < levels[l].len() ==> #[trigger] levels[l][k] < n
}

/// With nothing visited, every node is left to visit.
proof fn lemma_all_unvisited(visited: Seq<bool>)
    requires
        forall|k: int| 0 <= k < visited.len() ==> !visited[k],
    ensures
        unvisited_count(visited) == visited.len(),
    decreases visited.len(),
{
    if visited.len() > 0 {
        lemma_all_unvisited(visited.drop_last());
    }
}

/// `after` is `before` with node `i` holding `row`: the first node of
/// `before` with the same row, or a new last node without edges when there is
/// none; no edge changes.
pub open spec fn finds_or_adds(
    before: Graph<PsqlTableRow, i32, Directed, u32>,
    after: Graph<PsqlTableRow, i32, Directed, u32>,
    row: RowModel,
    i: usize,
) -> bool {
    &&& graph_edge_count(after) == graph_edge_count(before)
    &&& forall|k: int|
        0 <= k < graph_rows(before).len() ==> graph_sources(after, k) == graph_sources(before, k)
            && graph_targets(after, k) == graph_targets(before, k) && graph_weights(after, k)
            == graph_weights(before, k)
    &&& i < graph_rows(after).len()
    &&& same_row(graph_rows(after)[i as int], row)
    &&& forall|k: int| 0 <= k < i ==> !same_row(graph_rows(before)[k], row)
    &&& (exists|k: int| 0 <= k < graph_rows(before).len() && same_row(graph_rows(before)[k], row))
        ==> graph_rows(after) == graph_rows(before)
    &&& !(exists|k: int| 0 <= k < graph_rows(before).len() && same_row(graph_rows(before)[k], row))
        ==> graph_rows(after) == graph_rows(before).push(row) && i == graph_rows(before).len()
        && graph_sources(after, i as int) == Seq::<usize>::empty() && graph_targets(after, i as int)
        == Seq::<usize>::empty() && graph_weights(after, i as int) == Seq::<i32>::empty()
}

/// The node of the first row of the graph equal to `row`, the row added as
/// a new node when there is none.
pub fn find_or_add_row(graph: &mut Graph<PsqlTableRow, i32, Directed, u32>, row: PsqlTableRow) -> (i:
    usize)
    requires
        graph_rows(*old(graph)).len() < u32::MAX,
    ensures
        finds_or_adds(*old(graph), *final(graph), row@, i),
        rows_distinct(graph_rows(*old(graph))) ==> rows_distinct(graph_rows(*final(graph))),
{
    let n = node_count(graph);
    let mut k: usize = 0;
    while k < n
        invariant
            k <= n,
            n == graph_rows(*graph).len(),
            *graph == *old(graph),
            forall|j: int| 0 <= j < k ==> !same_row(graph_rows(*graph)[j], row@),
        decreases n - k,
    {
        if rows_equal(node_row(graph, k), &row) {
            assert(same_row(graph_rows(*graph)[k as int], row@));
            return k;
        }
        k = k + 1;
    }
    let ghost before = graph_rows(*graph);
    let ghost added = row@;
    let i = add_node(graph, row);
    proof {
        let after = graph_rows(*graph);
        assert forall|a: int, b: int|
            0 <= a < after.len() && 0 <= b < after.len() && a != b && rows_distinct(before)
                implies !same_row(#[trigger] after[a], #[trigger] after[b]) by {
            if a == before.len() {
                assert(!same_row(before[b], added));
            } else if b == before.len() {
                assert(!same_row(before[a], added));
            }
        }
    }
    i
}

/// `after` is `before` with an edge of weight `-1` from `from` to `to`: when
/// there is one, the edges stay and such an edge takes the weight; else the
/// new edge comes first among `from`'s targets and `to`'s sources; the rows
/// stay.
pub open spec fn links(
    before: Graph<PsqlTableRow, i32, Directed, u32>,
    after: Graph<PsqlTableRow, i32, Directed, u32>,
    from: usize,
    to: usize,
) -> bool {
    &&& graph_rows(after) == graph_rows(before)
    &&& graph_targets(before, from as int).contains(to) ==> graph_edge_count(after)
        == graph_edge_count(before) && (forall|k: int| graph_sources(after, k) == graph_sources(before, k))
        && (forall|k: int| graph_targets(after, k) == graph_targets(before, k))
    &&& !graph_targets(before, from as int).contains(to) ==> graph_edge_count(after)
        == graph_edge_count(before) + 1 && graph_targets(after, from as int) == seq![to]
        + graph_targets(before, from as int) && graph_sources(after, to as int) == seq![from]
        + graph_sources(before, to as int) && (forall|k: int|
        k != from ==> graph_targets(after, k) == graph_targets(before, k)) && (forall|k: int|
        k != to ==> graph_sources(after, k) == graph_sources(before, k))
    &&& forall|k: int| k != from ==> #[trigger] graph_weights(after, k) == graph_weights(before, k)
    &&& graph_targets(before, from as int).contains(to) ==> graph_weights(after, from as int).len()
        == graph_weights(before, from as int).len() && (forall|m: int|
        0 <= m < graph_weights(before, from as int).len() ==> graph_weights(after, from as int)[m]
            == graph_weights(before, from as int)[m] || (graph_targets(before, from as int)[m] == to
            && graph_weights(after, from as int)[m] == -1))
    &&& !graph_targets(before, from as int).contains(to) ==> graph_weights(after, from as int) == seq![
        -1i32,
    ] + graph_weights(before, from as int)
}

/// Links `from` to `to` with an edge of weight `-1`, unless they are linked.
pub fn link_rows(graph: &mut Graph<PsqlTableRow, i32, Directed, u32>, from: usize, to: usize)
    requires
        from < graph_rows(*old(graph)).len(),
        to < graph_rows(*old(graph)).len(),
        graph_edge_count(*old(graph)) < u32::MAX,
    ensures
        links(*old(graph), *final(graph), from, to),
        graph_targets(*old(graph), from as int).no_duplicates() ==> graph_targets(
            *final(graph),
            from as int,
        ).no_duplicates(),
{
    let ghost before = graph_targets(*graph, from as int);
    update_edge(graph, from, to, -1);
    proof {
        if !before.contains(to) {
            let after = graph_targets(*graph, from as int);
            assert forall|a: int, b: int|
                0 <= a < after.len() && 0 <= b < after.len() && a != b && before.no_duplicates()
                    implies #[trigger] after[a] != #[trigger] after[b] by {
                if a == 0 {
                    assert(after[b] == before[b - 1]);
                } else if b == 0 {
                    assert(after[a] == before[a - 1]);
                } else {
                    assert(after[a] == before[a - 1] && after[b] == before[b - 1]);
                }
            }
        }
    }
}

/// No two nodes hold the same row.
pub open spec fn rows_distinct(rows: Seq<RowModel>) -> bool {
    forall|a: int, b: int|
        0 <= a < rows.len() && 0 <= b < rows.len() && a != b ==> !same_row(
            #[trigger] rows[a],
            #[trigger] rows[b],
        )
}

/// Two fetched rows are the same row: same table, same id, same column
/// values.
pub open spec fn same_row(a: RowModel, b: RowModel) -> bool {
    a.table.id == b.table.id && a.row_id == b.row_id && a.columns == b.columns
}

/// Whether two fetched rows are the same row.
fn rows_equal(a: &PsqlTableRow, b: &PsqlTableRow) -> (r: bool)
    ensures
        r == same_row(a@, b@),
{
    if !a.table.id.same_as(&b.table.id) || !str_eq(
        a.row_id_representation.as_str(),
        b.row_id_representation.as_str(),
    ) || a.column_values.len() != b.column_values.len() {
        assert(a.column_values.len() != b.column_values.len() ==> a@.columns.len()
            != b@.columns.len());
        return false;
    }
    let mut i: usize = 0;
    while i < a.column_values.len()
        invariant
            i <= a.column_values@.len(),
            a.column_values@.len() == b.column_values@.len(),
            forall|j: int| 0 <= j < i ==> a@.columns[j] == b@.columns[j],
        decreases a.column_values@.len() - i,
    {
        let x = &a.column_values[i];
        let y = &b.column_values[i];
        if !str_eq(x.name.as_str(), y.name.as_str()) || !str_eq(x.value.as_str(), y.value.as_str()) {
            assert(a@.columns[i as int] != b@.columns[i as int]);
            return false;
        }
        i = i + 1;
    }
    assert(a@.columns =~= b@.columns);
    true
}

/// `Graph::edge_count`: the number of edges.
#[verifier::external_body]
pub(crate) fn edge_count(g: &Graph<PsqlTableRow, i32, Directed, u32>) -> (n: usize)
    ensures
        n == graph_edge_count(*g),
{
    g.edge_count()
}

/// `find_or_add_row` when the graph has room for another node; otherwise
/// nothing, and the graph stays as it is.
pub fn try_find_or_add_row(graph: &mut Graph<PsqlTableRow, i32, Directed, u32>, row: PsqlTableRow) -> (r:
    Option<usize>)
    ensures
        r is Some <==> graph_rows(*old(graph)).len() < u32::MAX,
        r is None ==> *final(graph) == *old(graph),
        r matches Some(i) ==> finds_or_adds(*old(graph), *final(graph), row@, i),
        rows_distinct(graph_rows(*old(graph))) ==> rows_distinct(graph_rows(*final(graph))),
{
    if node_count(graph) < 0xffff_ffff {
        Some(find_or_add_row(graph, row))
    } else {
        None
    }
}

/// `link_rows` when both nodes are in the graph and it has room for another
/// edge (answering `true`); otherwise `false`, and the graph stays as it is.
pub fn try_link_rows(graph: &mut Graph<PsqlTableRow, i32, Directed, u32>, from: usize, to: usize) -> (r:
    bool)
    ensures
        r <==> (from < graph_rows(*old(graph)).len() && to < graph_rows(*old(graph)).len()
            && graph_edge_count(*old(graph)) < u32::MAX),
        !r ==> *final(graph) == *old(graph),
        r ==> links(*old(graph), *final(graph), from, to),
{
    let n = node_count(graph);
    if from < n && to < n && edge_count(graph) < 0xffff_ffff {
        link_rows(graph, from, to);
        true
    } else {
        false
    }
}

/// `create_nodes_by_level` when the levels of the walk fit in an `i32`
/// (see `level_fits`); otherwise nothing.
pub fn try_create_nodes_by_level(
    graph: &Graph<PsqlTableRow, i32, Directed, u32>,
    node_index: usize,
    current_level: i32,
) -> (r: Option<HashMap<i32, Vec<PsqlTableRow>>>)
    ensures
        r is Some <==> level_fits(current_level, graph_rows(*graph).len()),
        r matches Some(levels) ==> {
            &&& levels@.dom() == walk_levels(*graph, node_index, current_level).dom()
            &&& forall|l: i32|
                #[trigger] levels@.contains_key(l) ==> levels@[l]@.map_values(|r: PsqlTableRow| r@)
                    == walk_levels(*graph, node_index, current_level)[l].map_values(
                    |i: usize| graph_rows(*graph)[i as int],
                )
        },
{
    let n = node_count(graph);
    let fits = if current_level >= 0 {
        n <= 0x7fff_fffd && current_level as usize <= 0x7fff_fffd - n
    } else {
        n <= 0x7fff_fffe && (current_level as i64) >= -0x7fff_fffe + (n as i64)
    };
    if fits {
        Some(create_nodes_by_level(graph, node_index, current_level))
    } else {
        None
    }
}

} // verus!
