//! Bounded breadth-first walks over a materialized graph projection.
//!
//! A walk discovers nodes level by level: the distinct seeds form level 0,
//! and level `k + 1` is every node first reached from level `k`, scanning
//! level `k` in discovery order and each node's neighbours in adjacency
//! order. Levels stop at the depth bound; the emitted nodes are the
//! discovery order (without level 0 unless the seeds are included), cut at
//! the node limit.
use crate::error::DbError;
use crate::id::{ElementId, RelationId};
use crate::projection::{
    graph_wf, lemma_graph_rows_in_range, GraphProjection, GraphView, ProjectionElementId, ProjectionRelationId,
};
use vstd::prelude::*;

verus! {

/// Direction a graph navigation expands along.
#[derive(Clone, Copy, Debug, PartialEq, Eq, Structural, Hash, PartialOrd, Ord)]
#[non_exhaustive]
pub enum Direction {
    /// Follow outgoing edges: the element plays the source role.
    Outgoing,
    /// Follow incoming edges: the element plays the target role.
    Incoming,
    /// Follow outgoing edges first, then incoming edges.
    Both,
}

impl Default for Direction {
    /// Outgoing.
    fn default() -> (d: Self)
        ensures
            d == Direction::Outgoing,
    {
        Direction::Outgoing
    }
}

/// Bounds for a bounded graph projection walk.
#[derive(Clone, Copy, Debug, PartialEq, Eq, Structural)]
pub struct Walk {
    /// Maximum hop depth to expand from any seed.
    pub max_depth: usize,
    /// Direction used to expand each frontier element.
    pub direction: Direction,
    /// Maximum number of nodes to emit.
    pub limit: usize,
    /// Whether depth-0 seed elements are included in the result nodes.
    pub include_start: bool,
}

impl Default for Walk {
    /// An outgoing depth-1 walk with an unbounded node limit, excluding the
    /// seeds.
    fn default() -> (w: Self)
        ensures
            w == (Walk { max_depth: 1, direction: Direction::Outgoing, limit: usize::MAX, include_start: false }),
    {
        Walk { max_depth: 1, direction: Direction::Outgoing, limit: usize::MAX, include_start: false }
    }
}

/// One node discovered by a walk.
#[derive(Clone, Copy, Debug, PartialEq, Eq, Structural, Hash, PartialOrd, Ord)]
pub struct TraversedNode {
    /// Canonical element discovered by the walk.
    pub element: ElementId,
    /// Shortest discovered hop depth from any seed.
    pub depth: usize,
}

/// One edge traversed by a walk.
#[derive(Clone, Copy, Debug, PartialEq, Eq, Structural, Hash, PartialOrd, Ord)]
pub struct TraversedEdge {
    /// Canonical relation backing this edge.
    pub relation: RelationId,
    /// Source endpoint element (the projection source role).
    pub source: ElementId,
    /// Target endpoint element (the projection target role).
    pub target: ElementId,
}

/// A discovered subgraph: nodes in first-discovery order plus the projection
/// edges among them.
#[derive(Clone, Debug, PartialEq, Eq)]
pub struct Subgraph {
    /// Discovered nodes in first-discovery order.
    pub nodes: Vec<TraversedNode>,
    /// Edges connecting two discovered nodes, ascending by
    /// `(source, target, relation)`.
    pub edges: Vec<TraversedEdge>,
}

impl Default for Subgraph {
    /// The empty subgraph.
    fn default() -> (s: Self)
        ensures
            s.nodes@.len() == 0,
            s.edges@.len() == 0,
    {
        Subgraph { nodes: Vec::new(), edges: Vec::new() }
    }
}

impl Subgraph {
    /// Returns the discovered nodes.
    pub fn nodes(&self) -> (n: &[TraversedNode])
        ensures
            n@ == self.nodes@,
    {
        self.nodes.as_slice()
    }

    /// Returns the traversed edges.
    pub fn edges(&self) -> (e: &[TraversedEdge])
        ensures
            e@ == self.edges@,
    {
        self.edges.as_slice()
    }
}

/// The neighbour rows a walk follows in `direction`.
pub open spec fn adjacency(g: GraphView, direction: Direction) -> Seq<Seq<u32>> {
    Seq::new(
        g.elements.len(),
        |u: int|
            match direction {
                Direction::Outgoing => g.successors[u],
                Direction::Incoming => g.predecessors[u],
                Direction::Both => g.successors[u] + g.predecessors[u],
            },
    )
}

/// Appends, in order, each entry of `row` that `order` does not hold yet.
pub open spec fn add_all(order: Seq<u32>, row: Seq<u32>) -> Seq<u32>
    decreases row.len(),
{
    if row.len() == 0 {
        order
    } else {
        let o = add_all(order, row.drop_last());
        if o.contains(row.last()) {
            o
        } else {
            o.push(row.last())
        }
    }
}

/// Discovers the neighbours of the first `k` frontier nodes
/// `order[lo], order[lo + 1], ...`.
pub open spec fn expand(adj: Seq<Seq<u32>>, order: Seq<u32>, lo: int, k: nat) -> Seq<u32>
    decreases k,
{
    if k == 0 {
        order
    } else {
        add_all(expand(adj, order, lo, (k - 1) as nat), adj[order[lo + k - 1] as int])
    }
}

/// A breadth-first discovery after some number of levels: every node in
/// discovery order, its level, and where the last level begins.
pub struct BfsState {
    /// Discovered nodes in discovery order.
    pub order: Seq<u32>,
    /// The level of each discovered node.
    pub depths: Seq<nat>,
    /// Index in `order` where the last level begins.
    pub lo: nat,
}

/// The discovery after expanding `k` levels from `seeds`.
pub open spec fn bfs_state(adj: Seq<Seq<u32>>, seeds: Seq<u32>, k: nat) -> BfsState
    decreases k,
{
    if k == 0 {
        let order = add_all(Seq::empty(), seeds);
        BfsState { order, depths: Seq::new(order.len(), |i: int| 0nat), lo: 0 }
    } else {
        let st = bfs_state(adj, seeds, (k - 1) as nat);
        let order = expand(adj, st.order, st.lo as int, (st.order.len() - st.lo) as nat);
        BfsState {
            order,
            depths: st.depths + Seq::new((order.len() - st.order.len()) as nat, |i: int| k),
            lo: st.order.len(),
        }
    }
}

/// Every node rows and seeds name is one of `n` nodes.
pub open spec fn nodes_below(rows: Seq<Seq<u32>>, n: nat) -> bool {
    forall|u: int, j: int| 0 <= u < rows.len() && 0 <= j < rows[u].len() ==> #[trigger] rows[u][j] < n
}

/// `add_all` extends its input.
proof fn lemma_add_all_extends(order: Seq<u32>, row: Seq<u32>)
    ensures
        add_all(order, row).len() >= order.len(),
        add_all(order, row).subrange(0, order.len() as int) == order,
    decreases row.len(),
{
    if row.len() > 0 {
        lemma_add_all_extends(order, row.drop_last());
        let o = add_all(order, row.drop_last());
        if !o.contains(row.last()) {
            assert(o.push(row.last()).subrange(0, order.len() as int) =~= o.subrange(0, order.len() as int));
        }
    }
}

/// `expand` extends its input.
proof fn lemma_expand_extends(adj: Seq<Seq<u32>>, order: Seq<u32>, lo: int, k: nat)
    ensures
        expand(adj, order, lo, k).len() >= order.len(),
        expand(adj, order, lo, k).subrange(0, order.len() as int) == order,
    decreases k,
{
    if k > 0 {
        lemma_expand_extends(adj, order, lo, (k - 1) as nat);
        let e = expand(adj, order, lo, (k - 1) as nat);
        lemma_add_all_extends(e, adj[order[lo + k - 1] as int]);
        let f = add_all(e, adj[order[lo + k - 1] as int]);
        assert(f.subrange(0, order.len() as int) =~= f.subrange(0, e.len() as int).subrange(0, order.len() as int));
    }
}

/// Each level holds the nodes at the end of the order, and every level is
/// recorded for each node.
proof fn lemma_bfs_state_shape(adj: Seq<Seq<u32>>, seeds: Seq<u32>, k: nat)
    ensures
        bfs_state(adj, seeds, k).lo <= bfs_state(adj, seeds, k).order.len(),
        bfs_state(adj, seeds, k).depths.len() == bfs_state(adj, seeds, k).order.len(),
    decreases k,
{
    if k > 0 {
        lemma_bfs_state_shape(adj, seeds, (k - 1) as nat);
        let st = bfs_state(adj, seeds, (k - 1) as nat);
        lemma_expand_extends(adj, st.order, st.lo as int, (st.order.len() - st.lo) as nat);
    }
}

/// Once a level is empty, no later level discovers anything.
proof fn lemma_bfs_fixpoint(adj: Seq<Seq<u32>>, seeds: Seq<u32>, k: nat, j: nat)
    requires
        k <= j,
        bfs_state(adj, seeds, k).lo == bfs_state(adj, seeds, k).order.len(),
    ensures
        bfs_state(adj, seeds, j).order == bfs_state(adj, seeds, k).order,
        bfs_state(adj, seeds, j).depths == bfs_state(adj, seeds, k).depths,
        bfs_state(adj, seeds, j).lo == bfs_state(adj, seeds, k).order.len(),
    decreases j - k,
{
    if j > k {
        lemma_bfs_fixpoint(adj, seeds, k, (j - 1) as nat);
        let st = bfs_state(adj, seeds, (j - 1) as nat);
        lemma_bfs_state_shape(adj, seeds, (j - 1) as nat);
        assert(bfs_state(adj, seeds, j).depths =~= st.depths);
    }
}

/// Runs the level-by-level discovery from `seeds` over `adj`, expanding at
/// most `max_depth` levels.
fn bfs(adj: &Vec<Vec<u32>>, seeds: &Vec<u32>, max_depth: u32) -> (r: (Vec<u32>, Vec<u32>, usize))
    requires
        adj@.len() <= u32::MAX + 1,
        nodes_below(adj@.map_values(|row: Vec<u32>| row@), adj@.len() as nat),
        forall|i: int| 0 <= i < seeds@.len() ==> #[trigger] seeds@[i] < adj@.len(),
    ensures
        r.0@ == bfs_state(adj@.map_values(|row: Vec<u32>| row@), seeds@, max_depth as nat).order,
        r.1@.map_values(|d: u32| d as nat) == bfs_state(
            adj@.map_values(|row: Vec<u32>| row@),
            seeds@,
            max_depth as nat,
        ).depths,
        r.2 == add_all(Seq::empty(), seeds@).len(),
{
    let ghost a = adj@.map_values(|row: Vec<u32>| row@);
    let n = adj.len();
    let mut visited: Vec<bool> = Vec::new();
    let mut i: usize = 0;
    while i < n
        invariant
            i <= n,
            visited@.len() == i,
            forall|k: int| 0 <= k < i ==> !(#[trigger] visited@[k]),
        decreases n - i,
    {
        visited.push(false);
        i = i + 1;
    }
    let mut order: Vec<u32> = Vec::new();
    let mut depths: Vec<u32> = Vec::new();
    let mut s: usize = 0;
    proof {
        assert(seeds@.take(0) =~= Seq::<u32>::empty());
    }
    while s < seeds.len()
        invariant
            s <= seeds@.len(),
            n == adj@.len(),
            n <= u32::MAX + 1,
            visited@.len() == n,
            forall|i: int| 0 <= i < seeds@.len() ==> #[trigger] seeds@[i] < n,
            order@ == add_all(Seq::empty(), seeds@.take(s as int)),
            forall|w: int| 0 <= w < n ==> (#[trigger] visited@[w] <==> order@.contains(w as u32)),
            forall|k: int| 0 <= k < order@.len() ==> #[trigger] order@[k] < n,
            depths@.len() == order@.len(),
            forall|k: int| 0 <= k < depths@.len() ==> #[trigger] depths@[k] == 0,
        decreases seeds@.len() - s,
    {
        let w = seeds[s];
        proof {
            assert(seeds@.take(s + 1).drop_last() =~= seeds@.take(s as int));
            assert(seeds@.take(s + 1).last() == w);
        }
        if !visited[w as usize] {
            visited.set(w as usize, true);
            let ghost o = order@;
            order.push(w);
            depths.push(0);
            proof {
                assert forall|x: int| 0 <= x < n implies (#[trigger] visited@[x] <==> order@.contains(x as u32)) by {
                    if order@.contains(x as u32) && x != w {
                        let t = choose|t: int| 0 <= t < order@.len() && order@[t] == x as u32;
                        assert(o[t] == x as u32);
                    }
                    if o.contains(x as u32) {
                        let t = choose|t: int| 0 <= t < o.len() && o[t] == x as u32;
                        assert(order@[t] == x as u32);
                    }
                    if x == w {
                        assert(order@[o.len() as int] == w);
                    }
                }
            }
        }
        s = s + 1;
    }
    proof {
        assert(seeds@.take(s as int) =~= seeds@);
    }
    let first = order.len();
    let mut lo: usize = 0;
    let mut level: u32 = 0;
    proof {
        assert(depths@.map_values(|d: u32| d as nat) =~= bfs_state(a, seeds@, 0).depths);
    }
    while level < max_depth && lo < order.len()
        invariant
            level <= max_depth,
            n == adj@.len(),
            n <= u32::MAX + 1,
            a == adj@.map_values(|row: Vec<u32>| row@),
            nodes_below(a, n as nat),
            visited@.len() == n,
            forall|w: int| 0 <= w < n ==> (#[trigger] visited@[w] <==> order@.contains(w as u32)),
            forall|k: int| 0 <= k < order@.len() ==> #[trigger] order@[k] < n,
            order@ == bfs_state(a, seeds@, level as nat).order,
            depths@.map_values(|d: u32| d as nat) == bfs_state(a, seeds@, level as nat).depths,
            lo == bfs_state(a, seeds@, level as nat).lo,
            forall|k: int| 0 <= k < depths@.len() ==> #[trigger] depths@[k] <= level,
        decreases max_depth - level, order@.len() - lo,
    {
        let ghost order0 = order@;
        let ghost depths0 = depths@;
        let hi = order.len();
        let mut idx: usize = lo;
        proof {
            lemma_bfs_state_shape(a, seeds@, level as nat);
        }
        while idx < hi
            invariant
                lo <= idx <= hi,
                hi == order0.len(),
                level < max_depth,
                n == adj@.len(),
                n <= u32::MAX + 1,
                a == adj@.map_values(|row: Vec<u32>| row@),
                nodes_below(a, n as nat),
                visited@.len() == n,
                forall|w: int| 0 <= w < n ==> (#[trigger] visited@[w] <==> order@.contains(w as u32)),
                forall|k: int| 0 <= k < order@.len() ==> #[trigger] order@[k] < n,
                order@ == expand(a, order0, lo as int, (idx - lo) as nat),
                depths@.len() == order@.len(),
                depths@.subrange(0, hi as int) == depths0,
                forall|k: int| hi <= k < depths@.len() ==> #[trigger] depths@[k] == level + 1,
                forall|k: int| 0 <= k < depths@.len() ==> #[trigger] depths@[k] <= level + 1,
            decreases hi - idx,
        {
            proof {
                lemma_expand_extends(a, order0, lo as int, (idx - lo) as nat);
                assert(order@[idx as int] == order0[idx as int]);
            }
            let u = order[idx];
            let row = &adj[u as usize];
            proof {
                assert(a[u as int] == row@);
            }
            let ghost before = order@;
            let mut j: usize = 0;
            proof {
                assert(row@.take(0) =~= Seq::<u32>::empty());
            }
            while j < row.len()
                invariant
                    j <= row@.len(),
                    hi == order0.len(),
                    level < max_depth,
                    n == adj@.len(),
                    n <= u32::MAX + 1,
                    a.len() == n,
                    a[u as int] == row@,
                    nodes_below(a, n as nat),
                    (u as int) < n,
                    visited@.len() == n,
                    forall|w: int| 0 <= w < n ==> (#[trigger] visited@[w] <==> order@.contains(w as u32)),
                    forall|k: int| 0 <= k < order@.len() ==> #[trigger] order@[k] < n,
                    order@ == add_all(before, row@.take(j as int)),
                    before.len() >= hi,
                    depths@.len() == order@.len(),
                    depths@.subrange(0, hi as int) == depths0,
                    forall|k: int| hi <= k < depths@.len() ==> #[trigger] depths@[k] == level + 1,
                    forall|k: int| 0 <= k < depths@.len() ==> #[trigger] depths@[k] <= level + 1,
                decreases row@.len() - j,
            {
                let w = row[j];
                proof {
                    assert(a[u as int][j as int] < n);
                    assert(row@.take(j + 1).drop_last() =~= row@.take(j as int));
                    assert(row@.take(j + 1).last() == w);
                }
                if !visited[w as usize] {
                    visited.set(w as usize, true);
                    let ghost o = order@;
                    let ghost d0 = depths@;
                    order.push(w);
                    depths.push(level + 1);
                    proof {
                        assert forall|x: int| 0 <= x < n implies (#[trigger] visited@[x] <==> order@.contains(x as u32)) by {
                            if order@.contains(x as u32) && x != w {
                                let t = choose|t: int| 0 <= t < order@.len() && order@[t] == x as u32;
                                assert(o[t] == x as u32);
                            }
                            if o.contains(x as u32) {
                                let t = choose|t: int| 0 <= t < o.len() && o[t] == x as u32;
                                assert(order@[t] == x as u32);
                            }
                            if x == w {
                                assert(order@[o.len() as int] == w);
                            }
                        }
                        lemma_add_all_extends(before, row@.take(j as int));
                        assert(depths@.subrange(0, hi as int) =~= d0.subrange(0, hi as int));
                    }
                }
                j = j + 1;
            }
            proof {
                assert(row@.take(j as int) =~= row@);
                assert(expand(a, order0, lo as int, (idx + 1 - lo) as nat) == add_all(
                    expand(a, order0, lo as int, (idx - lo) as nat),
                    a[order0[lo + (idx + 1 - lo) - 1] as int],
                ));
            }
            idx = idx + 1;
        }
        proof {
            let st = bfs_state(a, seeds@, level as nat);
            assert(bfs_state(a, seeds@, (level + 1) as nat).order == order@);
            let nd = bfs_state(a, seeds@, (level + 1) as nat).depths;
            lemma_expand_extends(a, order0, lo as int, (hi - lo) as nat);
            assert(depths@.map_values(|d: u32| d as nat) =~= nd) by {
                assert(nd == st.depths + Seq::new((order@.len() - order0.len()) as nat, |i: int| (level + 1) as nat));
                assert forall|k: int| 0 <= k < order@.len() implies depths@.map_values(|d: u32| d as nat)[k] == nd[k] by {
                    if k < hi {
                        assert(depths@[k] == depths0[k]);
                    }
                }
            }
        }
        lo = hi;
        level = level + 1;
    }
    proof {
        lemma_bfs_state_shape(a, seeds@, level as nat);
        if level < max_depth {
            lemma_bfs_fixpoint(a, seeds@, level as nat, max_depth as nat);
        }
    }
    (order, depths, first)
}


/// The raw ids of a row of local elements.
pub open spec fn raw_elements(row: Seq<ProjectionElementId>) -> Seq<u32> {
    row.map_values(|e: ProjectionElementId| e.raw())
}

/// The neighbour rows of a projection in `direction`.
fn adjacency_rows(graph: &GraphProjection, direction: Direction) -> (rows: Vec<Vec<u32>>)
    requires
        graph_wf(graph@),
    ensures
        rows@.map_values(|row: Vec<u32>| row@) == adjacency(graph@, direction),
{
    let n = graph.element_count();
    let mut rows: Vec<Vec<u32>> = Vec::new();
    let mut u: usize = 0;
    while u < n
        invariant
            u <= n,
            graph_wf(graph@),
            n == graph@.elements.len(),
            n <= u32::MAX + 1,
            rows@.len() == u,
            forall|w: int| 0 <= w < u ==> (#[trigger] rows@[w])@ == adjacency(graph@, direction)[w],
        decreases n - u,
    {
        let node = ProjectionElementId::new(u as u32);
        let row = match direction {
            Direction::Outgoing => raw_row(&graph.element_successors(node)),
            Direction::Incoming => raw_row(&graph.element_predecessors(node)),
            Direction::Both => {
                let mut out = raw_row(&graph.element_successors(node));
                let mut back = raw_row(&graph.element_predecessors(node));
                out.append(&mut back);
                out
            },
        };
        proof {
            let g = graph@;
            let ep = g.endpoints;
            assert(g.successors[u as int] == crate::projection::targets_of(ep, crate::projection::out_row(ep, u as int)));
            assert(g.predecessors[u as int] == crate::projection::sources_of(ep, crate::projection::in_row(ep, n as nat, u as int)));
            assert(row@ == adjacency(g, direction)[u as int]);
        }
        rows.push(row);
        u = u + 1;
    }
    proof {
        assert(rows@.map_values(|row: Vec<u32>| row@) =~= adjacency(graph@, direction));
    }
    rows
}

/// The raw ids of a row of local elements (executable form).
fn raw_row(row: &Vec<ProjectionElementId>) -> (raw: Vec<u32>)
    ensures
        raw@ == raw_elements(row@),
{
    let mut out: Vec<u32> = Vec::new();
    let mut i: usize = 0;
    while i < row.len()
        invariant
            i <= row@.len(),
            out@ == raw_elements(row@).take(i as int),
        decreases row@.len() - i,
    {
        out.push(row[i].get());
        proof {
            assert(out@ =~= raw_elements(row@).take(i + 1));
        }
        i = i + 1;
    }
    proof {
        assert(raw_elements(row@).take(i as int) =~= raw_elements(row@));
    }
    out
}

/// The local ids of the seeds, or the first seed the projection lacks.
pub open spec fn seed_locals(g: GraphView, seeds: Seq<ElementId>) -> Result<Seq<u32>, ElementId>
    decreases seeds.len(),
{
    if seeds.len() == 0 {
        Ok(Seq::empty())
    } else {
        match seed_locals(g, seeds.drop_last()) {
            Err(id) => Err(id),
            Ok(locals) => if g.elements.contains(seeds.last().0) {
                Ok(locals.push(g.elements.index_of(seeds.last().0) as u32))
            } else {
                Err(seeds.last())
            },
        }
    }
}

/// The depth bound a walk expands to: its maximum depth, capped at the
/// local id range.
pub open spec fn depth_bound(walk: Walk) -> nat {
    if walk.max_depth > u32::MAX {
        u32::MAX as nat
    } else {
        walk.max_depth as nat
    }
}

/// The nodes a walk emits from local seeds `locals`, as `(element, depth)`.
pub open spec fn walk_nodes(g: GraphView, locals: Seq<u32>, walk: Walk) -> Seq<(u64, nat)> {
    let st = bfs_state(adjacency(g, walk.direction), locals, depth_bound(walk));
    let all = Seq::new(st.order.len(), |i: int| (g.elements[st.order[i] as int], st.depths[i]));
    let shown = if walk.include_start {
        all
    } else {
        all.skip(add_all(Seq::empty(), locals).len() as int)
    };
    if shown.len() > walk.limit {
        shown.take(walk.limit as int)
    } else {
        shown
    }
}

/// The `(element, depth)` of each emitted node.
pub open spec fn node_views(nodes: Seq<TraversedNode>) -> Seq<(u64, nat)> {
    nodes.map_values(|n: TraversedNode| (n.element.0, n.depth as nat))
}

/// The `(source, target, relation)` key of an edge.
pub open spec fn edge_key(e: TraversedEdge) -> (u64, u64, u64) {
    (e.source.0, e.target.0, e.relation.0)
}

/// Lexicographic order of edge keys.
pub open spec fn key_lt(a: (u64, u64, u64), b: (u64, u64, u64)) -> bool {
    a.0 < b.0 || (a.0 == b.0 && (a.1 < b.1 || (a.1 == b.1 && a.2 < b.2)))
}

/// Edges strictly ascending by key.
pub open spec fn edges_sorted(edges: Seq<TraversedEdge>) -> bool {
    forall|i: int, j: int| 0 <= i < j < edges.len() ==> key_lt(edge_key(edges[i]), edge_key(edges[j]))
}

/// The keys of the projection edges whose both ends lie in `discovered`.
pub open spec fn internal_edges(g: GraphView, discovered: Set<u64>) -> Set<(u64, u64, u64)> {
    Set::new(
        |t: (u64, u64, u64)|
            exists|e: int|
                0 <= e < g.relations.len() && discovered.contains(g.elements[g.endpoints[e].0 as int])
                    && discovered.contains(g.elements[g.endpoints[e].1 as int]) && t == (
                    g.elements[g.endpoints[e].0 as int],
                    g.elements[g.endpoints[e].1 as int],
                    #[trigger] g.relations[e],
                ),
    )
}

/// The keys of a list of edges.
pub open spec fn edge_keys(edges: Seq<TraversedEdge>) -> Seq<(u64, u64, u64)> {
    edges.map_values(|e: TraversedEdge| edge_key(e))
}

/// Inserts an edge into a key-sorted edge list at its place.
fn insert_sorted(edges: &mut Vec<TraversedEdge>, x: TraversedEdge)
    requires
        edges_sorted(old(edges)@),
        !edge_keys(old(edges)@).contains(edge_key(x)),
    ensures
        edges_sorted(final(edges)@),
        edge_keys(final(edges)@).to_set() == edge_keys(old(edges)@).to_set().insert(edge_key(x)),
{
    let ghost before = edges@;
    let mut p: usize = 0;
    while p < edges.len() && !key_less(&x, &edges[p])
        invariant
            p <= edges@.len(),
            edges@ == before,
            edges_sorted(before),
            !edge_keys(before).contains(edge_key(x)),
            forall|i: int| 0 <= i < p ==> key_lt(edge_key(#[trigger] before[i]), edge_key(x)),
        decreases edges@.len() - p,
    {
        proof {
            assert(edge_keys(before)[p as int] == edge_key(before[p as int]));
            assert(edge_key(before[p as int]) != edge_key(x));
        }
        p = p + 1;
    }
    edges.insert(p, x);
    proof {
        let after = edges@;
        assert(after =~= before.insert(p as int, x));
        assert forall|i: int, j: int| 0 <= i < j < after.len() implies key_lt(edge_key(after[i]), edge_key(after[j])) by {
            if j < p {
                assert(after[i] == before[i] && after[j] == before[j]);
            } else if j == p {
                assert(after[i] == before[i]);
            } else if i < p {
                assert(after[i] == before[i] && after[j] == before[j - 1]);
                assert(key_lt(edge_key(before[i]), edge_key(x)));
                assert(key_lt(edge_key(x), edge_key(before[p as int])));
                if j - 1 > p {
                    assert(key_lt(edge_key(before[p as int]), edge_key(before[j - 1])));
                }
            } else if i == p {
                assert(after[j] == before[j - 1]);
                assert(key_lt(edge_key(x), edge_key(before[p as int])));
                if j - 1 > p {
                    assert(key_lt(edge_key(before[p as int]), edge_key(before[j - 1])));
                }
            } else {
                assert(after[i] == before[i - 1] && after[j] == before[j - 1]);
            }
        }
        assert forall|t: (u64, u64, u64)| #[trigger] edge_keys(after).to_set().contains(t) <==> edge_keys(
            before,
        ).to_set().insert(edge_key(x)).contains(t) by {
            if edge_keys(after).contains(t) {
                let k = choose|k: int| 0 <= k < after.len() && edge_keys(after)[k] == t;
                if k < p {
                    assert(edge_keys(before)[k] == t);
                } else if k > p {
                    assert(edge_keys(before)[k - 1] == t);
                }
            }
            if edge_keys(before).contains(t) {
                let k = choose|k: int| 0 <= k < before.len() && edge_keys(before)[k] == t;
                if k < p {
                    assert(edge_keys(after)[k] == t);
                } else {
                    assert(edge_keys(after)[k + 1] == t);
                }
            }
            if t == edge_key(x) {
                assert(edge_keys(after)[p as int] == t);
            }
        }
        assert(edge_keys(after).to_set() =~= edge_keys(before).to_set().insert(edge_key(x)));
    }
}

/// Whether `a`'s key sorts strictly before `b`'s.
fn key_less(a: &TraversedEdge, b: &TraversedEdge) -> (r: bool)
    ensures
        r == key_lt(edge_key(*a), edge_key(*b)),
{
    a.source.0 < b.source.0 || (a.source.0 == b.source.0 && (a.target.0 < b.target.0 || (a.target.0
        == b.target.0 && a.relation.0 < b.relation.0)))
}


/// The canonical ids of the locally marked nodes.
pub open spec fn discovered_ids(g: GraphView, disc: Seq<bool>) -> Set<u64> {
    Set::new(|k: u64| exists|u: int| 0 <= u < disc.len() && disc[u] && #[trigger] g.elements[u] == k)
}

/// The projection edges whose both ends are marked, ascending by key.
fn collect_internal_edges(graph: &GraphProjection, disc: &Vec<bool>) -> (edges: Vec<TraversedEdge>)
    requires
        graph_wf(graph@),
        disc@.len() == graph@.elements.len(),
    ensures
        edges_sorted(edges@),
        edge_keys(edges@).to_set() == internal_edges(graph@, discovered_ids(graph@, disc@)),
{
    let ghost g = graph@;
    let ghost d = discovered_ids(g, disc@);
    let m = graph.relation_count();
    let mut out: Vec<TraversedEdge> = Vec::new();
    let mut e: usize = 0;
    proof {
        assert(edge_keys(out@).to_set() =~= Set::<(u64, u64, u64)>::empty());
    }
    while e < m
        invariant
            e <= m,
            g == graph@,
            graph_wf(g),
            m == g.relations.len(),
            disc@.len() == g.elements.len(),
            d == discovered_ids(g, disc@),
            edges_sorted(out@),
            edge_keys(out@).to_set() == Set::new(
                |t: (u64, u64, u64)|
                    exists|x: int|
                        0 <= x < e && d.contains(g.elements[g.endpoints[x].0 as int]) && d.contains(
                            g.elements[g.endpoints[x].1 as int],
                        ) && t == (g.elements[g.endpoints[x].0 as int], g.elements[g.endpoints[x].1 as int], #[trigger] g.relations[x]),
            ),
            forall|k: int| 0 <= k < out@.len() ==> exists|x: int| 0 <= x < e && #[trigger] g.relations[x] == (#[trigger] out@[k]).relation.0,
        decreases m - e,
    {
        let edge = ProjectionRelationId::new(e as u32);
        let s = graph.source(edge);
        let t = graph.target(edge);
        let ghost key = (g.elements[g.endpoints[e as int].0 as int], g.elements[g.endpoints[e as int].1 as int], g.relations[e as int]);
        proof {
            assert forall|u: int| 0 <= u < disc@.len() implies (#[trigger] disc@[u] <==> d.contains(g.elements[u])) by {
                if d.contains(g.elements[u]) {
                    let w = choose|w: int| 0 <= w < disc@.len() && disc@[w] && #[trigger] g.elements[w] == g.elements[u];
                    assert(w == u);
                }
            }
        }
        let hit = disc[s.get() as usize] && disc[t.get() as usize];
        let ghost before = out@;
        if hit {
            let x = TraversedEdge {
                relation: graph.canonical_relation_id(edge),
                source: graph.canonical_element_id(s),
                target: graph.canonical_element_id(t),
            };
            proof {
                assert(edge_key(x) == key);
                if edge_keys(out@).contains(key) {
                    let k = choose|k: int| 0 <= k < out@.len() && edge_keys(out@)[k] == key;
                    let y = choose|y: int| 0 <= y < e && #[trigger] g.relations[y] == out@[k].relation.0;
                    assert(g.relations[y] == g.relations[e as int]);
                }
            }
            insert_sorted(&mut out, x);
        }
        proof {
            let next = Set::new(
                |t: (u64, u64, u64)|
                    exists|x: int|
                        0 <= x < e + 1 && d.contains(g.elements[g.endpoints[x].0 as int]) && d.contains(
                            g.elements[g.endpoints[x].1 as int],
                        ) && t == (g.elements[g.endpoints[x].0 as int], g.elements[g.endpoints[x].1 as int], #[trigger] g.relations[x]),
            );
            assert(edge_keys(out@).to_set() =~= next) by {
                assert forall|t: (u64, u64, u64)| #[trigger] next.contains(t) implies edge_keys(out@).to_set().contains(t) by {
                    let x = choose|x: int|
                        0 <= x < e + 1 && d.contains(g.elements[g.endpoints[x].0 as int]) && d.contains(
                            g.elements[g.endpoints[x].1 as int],
                        ) && t == (g.elements[g.endpoints[x].0 as int], g.elements[g.endpoints[x].1 as int], #[trigger] g.relations[x]);
                    if x < e {
                        assert(edge_keys(before).to_set().contains(t));
                    }
                }
            }
            assert forall|k: int| 0 <= k < out@.len() implies exists|x: int| 0 <= x < e + 1 && #[trigger] g.relations[x] == (#[trigger] out@[k]).relation.0 by {
                let key_k = edge_keys(out@)[k];
                assert(edge_keys(out@).to_set().contains(key_k));
                assert(next.contains(key_k));
            }
        }
        e = e + 1;
    }
    proof {
        assert(internal_edges(g, d) =~= Set::new(
            |t: (u64, u64, u64)|
                exists|x: int|
                    0 <= x < e && d.contains(g.elements[g.endpoints[x].0 as int]) && d.contains(
                        g.elements[g.endpoints[x].1 as int],
                    ) && t == (g.elements[g.endpoints[x].0 as int], g.elements[g.endpoints[x].1 as int], #[trigger] g.relations[x]),
        ));
    }
    out
}


/// Once a seed is missing, every longer seed prefix reports the same seed.
proof fn lemma_seed_error_sticks(g: GraphView, seeds: Seq<ElementId>, i: int, j: int)
    requires
        0 <= i <= j <= seeds.len(),
        seed_locals(g, seeds.take(i)) is Err,
    ensures
        seed_locals(g, seeds.take(j)) == seed_locals(g, seeds.take(i)),
    decreases j - i,
{
    if j > i {
        lemma_seed_error_sticks(g, seeds, i, j - 1);
        assert(seeds.take(j).drop_last() =~= seeds.take(j - 1));
    }
}

/// Walks a materialized graph projection breadth-first from `seeds`,
/// returning the discovered nodes and the projection edges whose two ends
/// are both among the returned nodes.
///
/// An empty seed list yields the empty subgraph; otherwise the first seed
/// outside the projection is `UnknownElement`, whatever the node limit.
pub fn walk_graph_projection(graph: &GraphProjection, seeds: &[ElementId], walk: Walk) -> (r: Result<
    Subgraph,
    DbError,
>)
    ensures
        seeds@.len() == 0 ==> (r matches Ok(sg) && sg.nodes@.len() == 0 && sg.edges@.len() == 0),
        seeds@.len() != 0 ==> match seed_locals(graph@, seeds@) {
            Err(id) => r == Err::<Subgraph, DbError>(DbError::UnknownElement { id }),
            Ok(locals) => r matches Ok(sg) && node_views(sg.nodes@) == walk_nodes(graph@, locals, walk) && edges_sorted(
                sg.edges@,
            ) && edge_keys(sg.edges@).to_set() == internal_edges(
                graph@,
                node_views(sg.nodes@).map_values(|p: (u64, nat)| p.0).to_set(),
            ),
        },
{
    if seeds.len() == 0 {
        return Ok(Subgraph::default());
    }
    graph.check_structure();
    let ghost g = graph@;
    let n = graph.element_count();
    let mut locals: Vec<u32> = Vec::new();
    let mut i: usize = 0;
    proof {
        assert(seeds@.take(0) =~= Seq::<ElementId>::empty());
    }
    while i < seeds.len()
        invariant
            i <= seeds@.len(),
            seeds@.len() > 0,
            g == graph@,
            graph_wf(g),
            n == g.elements.len(),
            seed_locals(g, seeds@.take(i as int)) == Ok::<Seq<u32>, ElementId>(locals@),
            locals@.len() == i,
            forall|j: int| 0 <= j < i ==> #[trigger] locals@[j] < n && g.elements[locals@[j] as int] == seeds@[j].0,
        decreases seeds@.len() - i,
    {
        let seed = seeds[i];
        proof {
            assert(seeds@.take(i + 1).drop_last() =~= seeds@.take(i as int));
            assert(seeds@.take(i + 1).last() == seed);
        }
        match graph.local_element_id(seed) {
            Some(l) => {
                proof {
                    lemma_index_of_elements(g.elements, l.raw() as int);
                }
                locals.push(l.get());
            },
            None => {
                proof {
                    lemma_seed_error_sticks(g, seeds@, i + 1, seeds@.len() as int);
                    assert(seeds@.take(seeds@.len() as int) =~= seeds@);
                }
                return Err(DbError::UnknownElement { id: seed });
            },
        }
        i = i + 1;
    }
    proof {
        assert(seeds@.take(i as int) =~= seeds@);
        lemma_graph_rows_in_range(g);
    }
    if walk.limit == 0 {
        let empty = Subgraph::default();
        proof {
            assert(walk_nodes(g, locals@, walk) =~= Seq::<(u64, nat)>::empty());
            assert(node_views(empty.nodes@) =~= Seq::<(u64, nat)>::empty());
            assert(node_views(empty.nodes@).map_values(|p: (u64, nat)| p.0).to_set() =~= Set::<u64>::empty());
            assert(edge_keys(empty.edges@).to_set() =~= internal_edges(g, Set::<u64>::empty()));
        }
        return Ok(empty);
    }
    let depth: u32 = if walk.max_depth > 0xFFFF_FFFFusize {
        0xFFFF_FFFFu32
    } else {
        walk.max_depth as u32
    };
    let adj = adjacency_rows(graph, walk.direction);
    let ghost a = adjacency(g, walk.direction);
    proof {
        lemma_adjacency_below(g, walk.direction);
    }
    proof {
        assert(adj@.len() == a.len());
    }
    let (order, depths, first) = bfs(&adj, &locals, depth);
    let ghost st = bfs_state(a, locals@, depth as nat);
    let ghost all = Seq::new(st.order.len(), |k: int| (g.elements[st.order[k] as int], st.depths[k]));
    proof {
        lemma_bfs_state_shape(a, locals@, depth as nat);
        lemma_bfs_order_below(a, locals@, depth as nat, n as nat);
        lemma_bfs_first_level(a, locals@, depth as nat);
    }
    let start = if walk.include_start {
        0
    } else {
        first
    };
    let mut disc: Vec<bool> = Vec::new();
    let mut k: usize = 0;
    while k < n
        invariant
            k <= n,
            disc@.len() == k,
            forall|x: int| 0 <= x < k ==> !(#[trigger] disc@[x]),
        decreases n - k,
    {
        disc.push(false);
        k = k + 1;
    }
    let mut nodes: Vec<TraversedNode> = Vec::new();
    let mut p: usize = start;
    while p < order.len() && nodes.len() < walk.limit
        invariant
            start <= p <= order@.len(),
            order@ == st.order,
            depths@.len() == order@.len(),
            depths@.map_values(|d: u32| d as nat) == st.depths,
            g == graph@,
            n == g.elements.len(),
            n <= u32::MAX + 1,
            forall|x: int| 0 <= x < order@.len() ==> #[trigger] order@[x] < n,
            all == Seq::new(st.order.len(), |k: int| (g.elements[st.order[k] as int], st.depths[k])),
            node_views(nodes@) == all.subrange(start as int, p as int),
            nodes@.len() <= walk.limit,
            disc@.len() == n,
            forall|u: int| 0 <= u < n ==> (#[trigger] disc@[u] <==> order@.subrange(start as int, p as int).contains(
                u as u32,
            )),
        decreases order@.len() - p,
    {
        let u = order[p];
        let element = graph.canonical_element_id(ProjectionElementId::new(u));
        proof {
            assert(depths@.map_values(|d: u32| d as nat)[p as int] == depths@[p as int] as nat);
        }
        let ghost nodes_before = nodes@;
        nodes.push(TraversedNode { element, depth: depths[p] as usize });
        disc.set(u as usize, true);
        proof {
            assert(element.0 == g.elements[u as int]);
            assert(st.order[p as int] == u);
            assert(all[p as int] == (g.elements[u as int], st.depths[p as int]));
            assert(node_views(nodes@) =~= node_views(nodes_before).push((element.0, depths@[p as int] as nat)));
            assert(node_views(nodes@) =~= all.subrange(start as int, p + 1));
            assert forall|w: int| 0 <= w < n implies (#[trigger] disc@[w] <==> order@.subrange(
                start as int,
                p + 1,
            ).contains(w as u32)) by {
                let t0 = order@.subrange(start as int, p as int);
                let t1 = order@.subrange(start as int, p + 1);
                if t1.contains(w as u32) {
                    let q = choose|q: int| 0 <= q < t1.len() && t1[q] == w as u32;
                    if q < t0.len() {
                        assert(t0[q] == w as u32);
                    }
                }
                if t0.contains(w as u32) {
                    let q = choose|q: int| 0 <= q < t0.len() && t0[q] == w as u32;
                    assert(t1[q] == w as u32);
                }
                if w == u {
                    assert(t1[p - start] == w as u32);
                }
            }
        }
        p = p + 1;
    }
    let edges = collect_internal_edges(graph, &disc);
    proof {
        let shown = if walk.include_start {
            all
        } else {
            all.skip(add_all(Seq::empty(), locals@).len() as int)
        };
        assert(depth as nat == depth_bound(walk));
        assert(shown =~= all.subrange(start as int, all.len() as int));
        assert(node_views(nodes@).len() == p - start);
        if p < order@.len() {
            assert(nodes@.len() >= walk.limit);
            assert(shown.take(walk.limit as int) =~= all.subrange(start as int, p as int));
        } else {
            assert(shown =~= all.subrange(start as int, p as int));
        }
        assert(walk_nodes(g, locals@, walk) =~= node_views(nodes@));
        let node_ids = node_views(nodes@).map_values(|q: (u64, nat)| q.0).to_set();
        assert forall|key: u64| #[trigger] discovered_ids(g, disc@).contains(key) <==> node_ids.contains(key) by {
            if discovered_ids(g, disc@).contains(key) {
                let u = choose|u: int| 0 <= u < disc@.len() && disc@[u] && #[trigger] g.elements[u] == key;
                let sub = order@.subrange(start as int, p as int);
                let q = choose|q: int| 0 <= q < sub.len() && sub[q] == u as u32;
                assert(node_views(nodes@)[q] == all[start + q]);
                assert(node_views(nodes@).map_values(|v: (u64, nat)| v.0)[q] == key);
            }
            if node_ids.contains(key) {
                let nids = node_views(nodes@).map_values(|v: (u64, nat)| v.0);
                let q = choose|q: int| 0 <= q < nids.len() && nids[q] == key;
                assert(node_views(nodes@)[q] == all[start + q]);
                let u = order@[start + q] as int;
                assert(order@.subrange(start as int, p as int)[q] == u as u32);
                assert(disc@[u]);
            }
        }
        assert(discovered_ids(g, disc@) =~= node_ids);
    }
    Ok(Subgraph { nodes, edges })
}

/// A member of a duplicate-free id list sits at its index.
proof fn lemma_index_of_elements(ids: Seq<u64>, i: int)
    requires
        ids.no_duplicates(),
        0 <= i < ids.len(),
    ensures
        ids.index_of(ids[i]) == i,
{
    assert(ids.contains(ids[i]));
}

/// Every discovered node is one of `n` nodes.
proof fn lemma_bfs_order_below(adj: Seq<Seq<u32>>, seeds: Seq<u32>, k: nat, n: nat)
    requires
        nodes_below(adj, n),
        adj.len() == n,
        forall|i: int| 0 <= i < seeds.len() ==> #[trigger] seeds[i] < n,
    ensures
        forall|x: int| 0 <= x < bfs_state(adj, seeds, k).order.len() ==> #[trigger] bfs_state(adj, seeds, k).order[x] < n,
    decreases k,
{
    if k == 0 {
        lemma_add_all_below(Seq::empty(), seeds, n);
    } else {
        lemma_bfs_order_below(adj, seeds, (k - 1) as nat, n);
        let st = bfs_state(adj, seeds, (k - 1) as nat);
        lemma_bfs_state_shape(adj, seeds, (k - 1) as nat);
        lemma_expand_below(adj, st.order, st.lo as int, (st.order.len() - st.lo) as nat, n);
    }
}

/// `add_all` keeps every entry below `n`.
proof fn lemma_add_all_below(order: Seq<u32>, row: Seq<u32>, n: nat)
    requires
        forall|i: int| 0 <= i < order.len() ==> #[trigger] order[i] < n,
        forall|i: int| 0 <= i < row.len() ==> #[trigger] row[i] < n,
    ensures
        forall|i: int| 0 <= i < add_all(order, row).len() ==> #[trigger] add_all(order, row)[i] < n,
    decreases row.len(),
{
    if row.len() > 0 {
        lemma_add_all_below(order, row.drop_last(), n);
        let o = add_all(order, row.drop_last());
        assert(row.last() == row[row.len() - 1]);
        if !o.contains(row.last()) {
            assert forall|i: int| 0 <= i < o.push(row.last()).len() implies #[trigger] o.push(row.last())[i] < n by {
                if i < o.len() {
                    assert(o.push(row.last())[i] == o[i]);
                }
            }
        }
    }
}

/// `expand` keeps every entry below `n`.
proof fn lemma_expand_below(adj: Seq<Seq<u32>>, order: Seq<u32>, lo: int, k: nat, n: nat)
    requires
        nodes_below(adj, n),
        0 <= lo,
        lo + k <= order.len(),
        forall|i: int| 0 <= i < order.len() ==> #[trigger] order[i] < n,
        adj.len() == n,
    ensures
        forall|i: int| 0 <= i < expand(adj, order, lo, k).len() ==> #[trigger] expand(adj, order, lo, k)[i] < n,
    decreases k,
{
    if k > 0 {
        lemma_expand_below(adj, order, lo, (k - 1) as nat, n);
        let u = order[lo + k - 1] as int;
        assert forall|i: int| 0 <= i < adj[u].len() implies #[trigger] adj[u][i] < n by {}
        lemma_add_all_below(expand(adj, order, lo, (k - 1) as nat), adj[u], n);
    }
}

/// The first level is the distinct seeds, at the front of the order.
proof fn lemma_bfs_first_level(adj: Seq<Seq<u32>>, seeds: Seq<u32>, k: nat)
    ensures
        add_all(Seq::empty(), seeds).len() <= bfs_state(adj, seeds, k).order.len(),
        bfs_state(adj, seeds, k).order.subrange(0, add_all(Seq::empty(), seeds).len() as int) == add_all(
            Seq::empty(),
            seeds,
        ),
    decreases k,
{
    let s0 = add_all(Seq::empty(), seeds).len() as int;
    if k == 0 {
        assert(bfs_state(adj, seeds, k).order.subrange(0, s0) =~= add_all(Seq::empty(), seeds));
    } else {
        lemma_bfs_first_level(adj, seeds, (k - 1) as nat);
        let st = bfs_state(adj, seeds, (k - 1) as nat);
        lemma_expand_extends(adj, st.order, st.lo as int, (st.order.len() - st.lo) as nat);
        let o = bfs_state(adj, seeds, k).order;
        assert(o.subrange(0, s0) =~= o.subrange(0, st.order.len() as int).subrange(0, s0));
    }
}

/// Every neighbour row of a well-formed graph names one of its nodes.
proof fn lemma_adjacency_below(g: GraphView, direction: Direction)
    requires
        graph_wf(g),
    ensures
        nodes_below(adjacency(g, direction), g.elements.len()),
        adjacency(g, direction).len() == g.elements.len(),
{
    lemma_graph_rows_in_range(g);
    let a = adjacency(g, direction);
    let n = g.elements.len();
    assert forall|u: int, j: int| 0 <= u < a.len() && 0 <= j < a[u].len() implies #[trigger] a[u][j] < n by {
        match direction {
            Direction::Outgoing => {
                assert(a[u][j] == g.successors[u][j]);
            },
            Direction::Incoming => {
                assert(a[u][j] == g.predecessors[u][j]);
            },
            Direction::Both => {
                if j < g.successors[u].len() {
                    assert(a[u][j] == g.successors[u][j]);
                } else {
                    assert(a[u][j] == g.predecessors[u][j - g.successors[u].len()]);
                }
            },
        }
    }
}

/// The nodes a walk emits: at most its limit, each element once, in
/// non-decreasing depth, none deeper than the depth bound, and, unless the
/// seeds are included, none at depth 0.
pub proof fn lemma_walk_nodes_shape(g: GraphView, locals: Seq<u32>, walk: Walk)
    requires
        graph_wf(g),
        forall|i: int| 0 <= i < locals.len() ==> #[trigger] locals[i] < g.elements.len(),
    ensures
        ({
            let nodes = walk_nodes(g, locals, walk);
            &&& nodes.len() <= walk.limit
            &&& nodes.map_values(|p: (u64, nat)| p.0).no_duplicates()
            &&& forall|i: int| 0 <= i < nodes.len() ==> #[trigger] nodes[i].1 <= depth_bound(walk)
            &&& forall|i: int, j: int| 0 <= i < j < nodes.len() ==> nodes[i].1 <= nodes[j].1
            &&& !walk.include_start ==> forall|i: int| 0 <= i < nodes.len() ==> #[trigger] nodes[i].1 > 0
        }),
{
    let a = adjacency(g, walk.direction);
    let k = depth_bound(walk);
    let n = g.elements.len();
    lemma_adjacency_below(g, walk.direction);
    lemma_bfs_levels(a, locals, k);
    lemma_bfs_order_below(a, locals, k, n);
    lemma_bfs_first_level(a, locals, k);
    lemma_add_all_members(Seq::empty(), locals);
    let st = bfs_state(a, locals, k);
    let all = Seq::new(st.order.len(), |i: int| (g.elements[st.order[i] as int], st.depths[i]));
    let s0 = add_all(Seq::<u32>::empty(), locals).len() as int;
    let shown = if walk.include_start {
        all
    } else {
        all.skip(s0)
    };
    let off = if walk.include_start {
        0
    } else {
        s0
    };
    assert forall|i: int| 0 <= i < shown.len() implies #[trigger] shown[i] == all[i + off] by {}
    let nodes = walk_nodes(g, locals, walk);
    assert(nodes.len() <= shown.len());
    assert forall|i: int| 0 <= i < nodes.len() implies #[trigger] nodes[i] == all[i + off] by {
        assert(nodes[i] == shown[i]);
    }
    let ids = nodes.map_values(|p: (u64, nat)| p.0);
    assert forall|i: int, j: int| 0 <= i < ids.len() && 0 <= j < ids.len() && i != j implies ids[i] != ids[j] by {
        assert(ids[i] == nodes[i].0 && ids[j] == nodes[j].0);
        assert(nodes[i] == all[i + off] && nodes[j] == all[j + off]);
        let x = st.order[i + off];
        let y = st.order[j + off];
        assert(x < n && y < n);
        assert(x != y);
        if g.elements[x as int] == g.elements[y as int] {
            assert(g.elements.no_duplicates());
        }
    }
    assert forall|i: int| 0 <= i < nodes.len() implies #[trigger] nodes[i].1 <= depth_bound(walk) by {
        assert(nodes[i] == all[i + off]);
        assert(st.depths[i + off] <= k);
    }
    assert forall|i: int, j: int| 0 <= i < j < nodes.len() implies nodes[i].1 <= nodes[j].1 by {
        assert(nodes[i] == all[i + off] && nodes[j] == all[j + off]);
    }
    if !walk.include_start {
        assert forall|i: int| 0 <= i < nodes.len() implies #[trigger] nodes[i].1 > 0 by {
            assert(nodes[i] == all[i + s0]);
            let x = st.order[i + s0];
            if st.depths[i + s0] == 0 {
                assert(locals.contains(x));
                let first = add_all(Seq::<u32>::empty(), locals);
                assert(first.contains(x));
                let t = choose|t: int| 0 <= t < first.len() && first[t] == x;
                assert(st.order.subrange(0, s0)[t] == st.order[t]);
                assert(st.order[t] == x);
            }
        }
    }
}


/// Whether local node `x` lies `d` hops from some seed along `adj`: some
/// path of `d` steps, each to a neighbour of the node before, runs from a
/// seed to `x`.
pub open spec fn reaches(adj: Seq<Seq<u32>>, seeds: Seq<u32>, x: u32, d: nat) -> bool {
    exists|path: Seq<u32>| #[trigger] hop_path(adj, seeds, path, x, d)
}

/// Whether `path` is a walk of `d` steps along `adj` from a seed to `x`.
pub open spec fn hop_path(adj: Seq<Seq<u32>>, seeds: Seq<u32>, path: Seq<u32>, x: u32, d: nat) -> bool {
    &&& path.len() == d + 1
    &&& seeds.contains(path[0])
    &&& path[d as int] == x
    &&& forall|i: int| 0 <= i < d ==> #[trigger] adj[path[i] as int].contains(path[i + 1])
}

/// Every node `d <= k` hops from the seeds is discovered within `k` levels,
/// at a level no greater than `d`.
proof fn lemma_bfs_complete(adj: Seq<Seq<u32>>, seeds: Seq<u32>, k: nat, x: u32, d: nat, path: Seq<u32>)
    requires
        d <= k,
        hop_path(adj, seeds, path, x, d),
    ensures
        exists|j: int|
            0 <= j < bfs_state(adj, seeds, k).order.len() && bfs_state(adj, seeds, k).order[j] == x
                && bfs_state(adj, seeds, k).depths[j] <= d,
    decreases d,
{
    lemma_bfs_levels(adj, seeds, k);
    let st = bfs_state(adj, seeds, k);
    if d == 0 {
        assert(st.order.contains(x));
        let j = choose|j: int| 0 <= j < st.order.len() && st.order[j] == x;
        assert(st.depths[j] == 0 <==> seeds.contains(st.order[j]));
    } else {
        let dm: nat = (d - 1) as nat;
        let prefix = path.take(d as int);
        let p = path[dm as int];
        assert(adj[path[dm as int] as int].contains(path[dm as int + 1]));
        assert forall|i: int| 0 <= i < dm implies #[trigger] adj[prefix[i] as int].contains(prefix[i + 1]) by {
            assert(adj[path[i] as int].contains(path[i + 1]));
        }
        lemma_bfs_complete(adj, seeds, k, p, dm, prefix);
        let jp = choose|j: int| 0 <= j < st.order.len() && st.order[j] == p && st.depths[j] <= dm;
        assert(adj[st.order[jp] as int].contains(x));
        let j = choose|j: int| 0 <= j < st.order.len() && #[trigger] st.order[j] == x && st.depths[j] <= st.depths[jp] + 1;
        assert(st.order[j] == x && st.depths[j] <= d);
    }
}

/// Every discovered node lies as many hops from the seeds as its level.
proof fn lemma_bfs_sound(adj: Seq<Seq<u32>>, seeds: Seq<u32>, k: nat, i: int) -> (path: Seq<u32>)
    requires
        0 <= i < bfs_state(adj, seeds, k).order.len(),
    ensures
        hop_path(adj, seeds, path, bfs_state(adj, seeds, k).order[i], bfs_state(adj, seeds, k).depths[i]),
    decreases bfs_state(adj, seeds, k).depths[i],
{
    lemma_bfs_levels(adj, seeds, k);
    let st = bfs_state(adj, seeds, k);
    if st.depths[i] == 0 {
        assert(seeds.contains(st.order[i]));
        let path = seq![st.order[i]];
        assert(path[0] == st.order[i]);
        path
    } else {
        let p = choose|p: int|
            0 <= p < st.order.len() && st.depths[p] + 1 == st.depths[i] && #[trigger] adj[st.order[p] as int].contains(
                st.order[i],
            );
        let prev = lemma_bfs_sound(adj, seeds, k, p);
        let path = prev.push(st.order[i]);
        let d = st.depths[i];
        assert forall|t: int| 0 <= t < d implies #[trigger] adj[path[t] as int].contains(path[t + 1]) by {
            if t < d - 1 {
                assert(adj[prev[t] as int].contains(prev[t + 1]));
            } else {
                assert(path[t] == st.order[p]);
            }
        }
        path
    }
}

/// A walk reaches as deep as it is asked to: while the limit is not
/// reached, every node at most `max_depth` hops from the seeds along the
/// walk's direction is emitted (a seed only when seeds are included), at a
/// depth no greater than its hop count. With
/// [`lemma_walk_depths_are_hops`], each emitted depth is the node's shortest
/// hop distance.
pub proof fn lemma_walk_reaches_max_depth(g: GraphView, locals: Seq<u32>, walk: Walk, x: u32, d: nat)
    requires
        graph_wf(g),
        forall|i: int| 0 <= i < locals.len() ==> #[trigger] locals[i] < g.elements.len(),
        walk.max_depth <= u32::MAX,
        x < g.elements.len(),
    ensures
        d <= walk.max_depth && reaches(adjacency(g, walk.direction), locals, x, d) && (walk.include_start
            || !locals.contains(x)) && walk_nodes(g, locals, walk).len() < walk.limit ==> exists|i: int|
            0 <= i < walk_nodes(g, locals, walk).len() && walk_nodes(g, locals, walk)[i].0 == g.elements[x as int]
                && walk_nodes(g, locals, walk)[i].1 <= d,
{
    let a = adjacency(g, walk.direction);
    let k = depth_bound(walk);
    let n = g.elements.len();
    assert(k == walk.max_depth);
    lemma_adjacency_below(g, walk.direction);
    lemma_bfs_levels(a, locals, k);
    lemma_bfs_order_below(a, locals, k, n);
    lemma_bfs_first_level(a, locals, k);
    lemma_add_all_members(Seq::empty(), locals);
    let st = bfs_state(a, locals, k);
    let all = Seq::new(st.order.len(), |i: int| (g.elements[st.order[i] as int], st.depths[i]));
    let s0 = add_all(Seq::<u32>::empty(), locals).len() as int;
    let off = if walk.include_start {
        0
    } else {
        s0
    };
    let shown = if walk.include_start {
        all
    } else {
        all.skip(s0)
    };
    let nodes = walk_nodes(g, locals, walk);
    assert forall|i: int| 0 <= i < nodes.len() implies #[trigger] nodes[i] == all[i + off] by {
        assert(nodes[i] == shown[i]);
    }
    if d <= walk.max_depth && reaches(a, locals, x, d) && (walk.include_start || !locals.contains(x)) && nodes.len()
        < walk.limit {
        let path = choose|path: Seq<u32>| #[trigger] hop_path(a, locals, path, x, d);
        lemma_bfs_complete(a, locals, k, x, d, path);
        let j = choose|j: int| 0 <= j < st.order.len() && st.order[j] == x && st.depths[j] <= d;
        if !walk.include_start && j < s0 {
            let first = add_all(Seq::<u32>::empty(), locals);
            assert(st.order.subrange(0, s0)[j] == st.order[j]);
            assert(first.contains(x));
        }
        assert(nodes.len() == shown.len());
        assert(nodes[j - off] == all[j]);
    }
}

/// Every node a walk emits lies exactly as many hops from the seeds, along
/// the walk's direction, as its depth says.
pub proof fn lemma_walk_depths_are_hops(g: GraphView, locals: Seq<u32>, walk: Walk, i: int)
    requires
        graph_wf(g),
        forall|j: int| 0 <= j < locals.len() ==> #[trigger] locals[j] < g.elements.len(),
        0 <= i < walk_nodes(g, locals, walk).len(),
    ensures
        exists|y: u32|
            y < g.elements.len() && walk_nodes(g, locals, walk)[i].0 == g.elements[y as int] && #[trigger] reaches(
                adjacency(g, walk.direction),
                locals,
                y,
                walk_nodes(g, locals, walk)[i].1,
            ),
{
    let a = adjacency(g, walk.direction);
    let k = depth_bound(walk);
    let n = g.elements.len();
    lemma_adjacency_below(g, walk.direction);
    lemma_bfs_order_below(a, locals, k, n);
    let st = bfs_state(a, locals, k);
    let all = Seq::new(st.order.len(), |i: int| (g.elements[st.order[i] as int], st.depths[i]));
    let s0 = add_all(Seq::<u32>::empty(), locals).len() as int;
    lemma_bfs_first_level(a, locals, k);
    let off = if walk.include_start {
        0
    } else {
        s0
    };
    let shown = if walk.include_start {
        all
    } else {
        all.skip(s0)
    };
    let nodes = walk_nodes(g, locals, walk);
    assert(nodes[i] == shown[i]);
    assert(nodes[i] == all[i + off]);
    let path = lemma_bfs_sound(a, locals, k, i + off);
    let y = st.order[i + off];
    assert(hop_path(a, locals, path, y, st.depths[i + off]));
    assert(y < n);
    assert(nodes[i].0 == g.elements[y as int] && reaches(a, locals, y, nodes[i].1));
}

/// The neighbour row of the `t`-th node of a frontier that starts at `lo`.
pub open spec fn frontier_row(adj: Seq<Seq<u32>>, order: Seq<u32>, lo: int, t: int) -> Seq<u32> {
    adj[order[lo + t] as int]
}

/// `add_all` holds exactly the entries of its two inputs, and adds no repeat.
proof fn lemma_add_all_members(order: Seq<u32>, row: Seq<u32>)
    ensures
        forall|x: u32| #[trigger] add_all(order, row).contains(x) <==> (order.contains(x) || row.contains(x)),
        order.no_duplicates() ==> add_all(order, row).no_duplicates(),
    decreases row.len(),
{
    if row.len() > 0 {
        let init = row.drop_last();
        lemma_add_all_members(order, init);
        let o = add_all(order, init);
        let last = row.last();
        assert forall|x: u32| row.contains(x) <==> (init.contains(x) || x == last) by {
            if row.contains(x) {
                let t = choose|t: int| 0 <= t < row.len() && row[t] == x;
                if t < row.len() - 1 {
                    assert(init[t] == x);
                }
            }
            if init.contains(x) {
                let t = choose|t: int| 0 <= t < init.len() && init[t] == x;
                assert(row[t] == x);
            }
            if x == last {
                assert(row[row.len() - 1] == x);
            }
        }
        if !o.contains(last) {
            let f = o.push(last);
            assert forall|x: u32| f.contains(x) <==> (o.contains(x) || x == last) by {
                if f.contains(x) {
                    let t = choose|t: int| 0 <= t < f.len() && f[t] == x;
                    if t < o.len() {
                        assert(o[t] == x);
                    }
                }
                if o.contains(x) {
                    let t = choose|t: int| 0 <= t < o.len() && o[t] == x;
                    assert(f[t] == x);
                }
                if x == last {
                    assert(f[o.len() as int] == x);
                }
            }
        }
    }
}

/// `expand` holds exactly its input and the neighbours of the expanded
/// frontier nodes, and adds no repeat.
proof fn lemma_expand_members(adj: Seq<Seq<u32>>, order: Seq<u32>, lo: int, k: nat)
    ensures
        forall|x: u32|
            #[trigger] expand(adj, order, lo, k).contains(x) <==> (order.contains(x) || exists|t: int|
                0 <= t < k && #[trigger] frontier_row(adj, order, lo, t).contains(x)),
        order.no_duplicates() ==> expand(adj, order, lo, k).no_duplicates(),
    decreases k,
{
    if k > 0 {
        lemma_expand_members(adj, order, lo, (k - 1) as nat);
        let e = expand(adj, order, lo, (k - 1) as nat);
        let row = frontier_row(adj, order, lo, k - 1);
        lemma_add_all_members(e, row);
        assert forall|x: u32|
            #[trigger] expand(adj, order, lo, k).contains(x) <==> (order.contains(x) || exists|t: int|
                0 <= t < k && #[trigger] frontier_row(adj, order, lo, t).contains(x)) by {
            if exists|t: int| 0 <= t < k && #[trigger] frontier_row(adj, order, lo, t).contains(x) {
                let t = choose|t: int| 0 <= t < k && #[trigger] frontier_row(adj, order, lo, t).contains(x);
                if t < k - 1 {
                    assert(e.contains(x));
                }
            }
        }
    }
}

/// Breadth-first levels: after expanding `k` levels from `seeds`, the
/// discovered nodes hold no repeat; levels never decrease along the discovery
/// order and stay within `k`; level 0 is exactly the seeds, and every seed is
/// discovered; every node at a level `d > 0` is a neighbour of a node at level
/// `d - 1`; and every neighbour of a node at a level `d < k` is discovered at a
/// level no greater than `d + 1`. Together these make each node's level its
/// shortest hop distance from the seeds.
pub proof fn lemma_bfs_levels(adj: Seq<Seq<u32>>, seeds: Seq<u32>, k: nat)
    ensures
        ({
            let st = bfs_state(adj, seeds, k);
            &&& st.order.no_duplicates()
            &&& st.depths.len() == st.order.len()
            &&& forall|i: int| 0 <= i < st.order.len() ==> #[trigger] st.depths[i] <= k
            &&& forall|i: int, j: int| 0 <= i < j < st.order.len() ==> st.depths[i] <= st.depths[j]
            &&& forall|i: int|
                0 <= i < st.order.len() ==> (#[trigger] st.depths[i] == 0 <==> seeds.contains(st.order[i]))
            &&& forall|x: u32| #[trigger] seeds.contains(x) ==> st.order.contains(x)
            &&& forall|i: int|
                0 <= i < st.order.len() && #[trigger] st.depths[i] > 0 ==> exists|p: int|
                    0 <= p < st.order.len() && st.depths[p] + 1 == st.depths[i] && #[trigger] adj[st.order[p] as int].contains(
                        st.order[i],
                    )
            &&& forall|i: int, w: u32|
                0 <= i < st.order.len() && st.depths[i] < k && #[trigger] adj[st.order[i] as int].contains(w)
                    ==> exists|j: int| 0 <= j < st.order.len() && #[trigger] st.order[j] == w && st.depths[j] <= st.depths[i] + 1
        }),
    decreases k,
{
    lemma_bfs_state_shape(adj, seeds, k);
    let st = bfs_state(adj, seeds, k);
    if k == 0 {
        lemma_add_all_members(Seq::empty(), seeds);
        assert(Seq::<u32>::empty().no_duplicates());
        assert forall|i: int| 0 <= i < st.order.len() implies seeds.contains(#[trigger] st.order[i]) by {
            assert(st.order.contains(st.order[i]));
        }
        assert(st.order.no_duplicates());
    } else {
        lemma_bfs_levels(adj, seeds, (k - 1) as nat);
        lemma_bfs_state_shape(adj, seeds, (k - 1) as nat);
        lemma_bfs_split(adj, seeds, (k - 1) as nat);
        let old = bfs_state(adj, seeds, (k - 1) as nat);
        let len0 = old.order.len();
        let cnt = (len0 - old.lo) as nat;
        lemma_expand_members(adj, old.order, old.lo as int, cnt);
        lemma_expand_extends(adj, old.order, old.lo as int, cnt);
        assert(st.order == expand(adj, old.order, old.lo as int, cnt));
        assert forall|i: int| 0 <= i < len0 implies #[trigger] st.order[i] == old.order[i] && st.depths[i] == old.depths[i] by {
            assert(st.order.subrange(0, len0 as int)[i] == st.order[i]);
        }
        assert forall|i: int| len0 <= i < st.order.len() implies #[trigger] st.depths[i] == k && !old.order.contains(st.order[i]) by {
            if old.order.contains(st.order[i]) {
                let t = choose|t: int| 0 <= t < len0 && old.order[t] == st.order[i];
                assert(st.order[t] == st.order[i]);
            }
        }
        assert forall|i: int, j: int| 0 <= i < j < st.order.len() implies st.depths[i] <= st.depths[j] by {
            if j < len0 {
                assert(st.depths[i] == old.depths[i]);
                assert(st.depths[j] == old.depths[j]);
            } else if i < len0 {
                assert(st.depths[i] == old.depths[i]);
            }
        }
        assert forall|i: int| 0 <= i < st.order.len() implies #[trigger] st.depths[i] <= k by {
            if i < len0 {
                assert(st.depths[i] == old.depths[i]);
            }
        }
        assert forall|i: int|
            0 <= i < st.order.len() implies (#[trigger] st.depths[i] == 0 <==> seeds.contains(st.order[i])) by {
            if i < len0 {
                assert(st.depths[i] == old.depths[i]);
                assert(old.depths[i] == 0 <==> seeds.contains(old.order[i]));
            } else {
                if seeds.contains(st.order[i]) {
                    assert(old.order.contains(st.order[i]));
                }
            }
        }
        assert forall|x: u32| #[trigger] seeds.contains(x) implies st.order.contains(x) by {
            assert(old.order.contains(x));
        }
        assert forall|i: int|
            0 <= i < st.order.len() && #[trigger] st.depths[i] > 0 implies exists|p: int|
                0 <= p < st.order.len() && st.depths[p] + 1 == st.depths[i] && #[trigger] adj[st.order[p] as int].contains(
                    st.order[i],
                ) by {
            if i < len0 {
                assert(old.depths[i] > 0);
                let p = choose|p: int|
                    0 <= p < len0 && old.depths[p] + 1 == old.depths[i] && #[trigger] adj[old.order[p] as int].contains(
                        old.order[i],
                    );
                assert(st.order[p] == old.order[p] && st.depths[p] == old.depths[p]);
            } else {
                let x = st.order[i];
                assert(st.order.contains(x));
                assert(!old.order.contains(x));
                let t = choose|t: int| 0 <= t < cnt && #[trigger] frontier_row(adj, old.order, old.lo as int, t).contains(x);
                let p = old.lo + t;
                assert(old.depths[p] == k - 1);
                assert(st.order[p] == old.order[p] && st.depths[p] == old.depths[p]);
            }
        }
        assert forall|i: int, w: u32|
            0 <= i < st.order.len() && st.depths[i] < k && #[trigger] adj[st.order[i] as int].contains(w) implies exists|j: int|
                0 <= j < st.order.len() && #[trigger] st.order[j] == w && st.depths[j] <= st.depths[i] + 1 by {
            assert(i < len0);
            assert(st.order[i] == old.order[i] && st.depths[i] == old.depths[i]);
            if old.depths[i] < k - 1 {
                let j = choose|j: int| 0 <= j < len0 && #[trigger] old.order[j] == w && old.depths[j] <= old.depths[i] + 1;
                assert(st.order[j] == old.order[j] && st.depths[j] == old.depths[j]);
            } else {
                assert(i >= old.lo);
                let t = i - old.lo;
                assert(frontier_row(adj, old.order, old.lo as int, t).contains(w));
                assert(st.order.contains(w));
                let j = choose|j: int| 0 <= j < st.order.len() && st.order[j] == w;
                assert(st.depths[j] <= k);
            }
        }
    }
}

/// The last level of a breadth-first discovery sits at its end: nodes before
/// it are at lower levels and nodes in it are at level `k`.
proof fn lemma_bfs_split(adj: Seq<Seq<u32>>, seeds: Seq<u32>, k: nat)
    ensures
        forall|i: int|
            0 <= i < bfs_state(adj, seeds, k).lo ==> #[trigger] bfs_state(adj, seeds, k).depths[i] < k || k == 0,
        forall|i: int|
            bfs_state(adj, seeds, k).lo <= i < bfs_state(adj, seeds, k).order.len() ==> #[trigger] bfs_state(
                adj,
                seeds,
                k,
            ).depths[i] == k,
    decreases k,
{
    lemma_bfs_state_shape(adj, seeds, k);
    if k > 0 {
        lemma_bfs_split(adj, seeds, (k - 1) as nat);
        lemma_bfs_levels(adj, seeds, (k - 1) as nat);
        lemma_bfs_state_shape(adj, seeds, (k - 1) as nat);
        let old = bfs_state(adj, seeds, (k - 1) as nat);
        let st = bfs_state(adj, seeds, k);
        assert forall|i: int| 0 <= i < st.lo implies #[trigger] st.depths[i] < k || k == 0 by {
            assert(st.depths[i] == old.depths[i]);
        }
    }
}

} // verus!
