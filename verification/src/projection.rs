//! Materialized graph and hypergraph projection views.
//!
//! A projection gives the elements and relations it selects dense local ids
//! in first-appearance order. The graph projection keeps CSR-shaped outgoing
//! rows (each node's edges in ascending edge id) and CSC-shaped incoming rows
//! (each node's edges ordered by source node, then edge id, as a transpose of
//! the outgoing rows yields them).
use crate::catalog::{GraphProjectionDefinition, HypergraphProjectionDefinition};
use crate::error::DbError;
use crate::id::{ElementId, IncidenceId, RelationId, RoleId};
use crate::state::{
    ascending, lemma_sorted_listing, sorted_listing, sorted_members, DatabaseState, IncidenceRecord,
    PropertySubject,
};
use std::collections::{BTreeMap, BTreeSet};
use vstd::prelude::*;

verus! {

/// Dense projection-local element identifier.
#[derive(Clone, Copy, Debug, PartialEq, Eq, Structural, Hash, PartialOrd, Ord)]
pub struct ProjectionElementId(u32);

impl ProjectionElementId {
    /// The raw local index.
    pub closed spec fn raw(self) -> u32 {
        self.0
    }

    /// Creates a local element id.
    pub fn new(value: u32) -> (id: Self)
        ensures
            id.raw() == value,
    {
        ProjectionElementId(value)
    }

    /// Returns the raw local index.
    pub fn get(self) -> (value: u32)
        ensures
            value == self.raw(),
    {
        self.0
    }
}

/// Dense projection-local relation identifier.
#[derive(Clone, Copy, Debug, PartialEq, Eq, Structural, Hash, PartialOrd, Ord)]
pub struct ProjectionRelationId(u32);

impl ProjectionRelationId {
    /// The raw local index.
    pub closed spec fn raw(self) -> u32 {
        self.0
    }

    /// Creates a local relation id.
    pub fn new(value: u32) -> (id: Self)
        ensures
            id.raw() == value,
    {
        ProjectionRelationId(value)
    }

    /// Returns the raw local index.
    pub fn get(self) -> (value: u32)
        ensures
            value == self.raw(),
    {
        self.0
    }
}

/// Dense projection-local incidence identifier.
#[derive(Clone, Copy, Debug, PartialEq, Eq, Structural, Hash, PartialOrd, Ord)]
pub struct ProjectionIncidenceId(u32);

impl ProjectionIncidenceId {
    /// The raw local index.
    pub closed spec fn raw(self) -> u32 {
        self.0
    }

    /// Creates a local incidence id.
    pub fn new(value: u32) -> (id: Self)
        ensures
            id.raw() == value,
    {
        ProjectionIncidenceId(value)
    }

    /// Returns the raw local index.
    pub fn get(self) -> (value: u32)
        ensures
            value == self.raw(),
    {
        self.0
    }
}

/// Appends `x` to row `i` of a row table.
fn push_row(rows: &mut Vec<Vec<u32>>, i: usize, x: u32)
    requires
        i < old(rows)@.len(),
    ensures
        final(rows)@.len() == old(rows)@.len(),
        final(rows)@[i as int]@ == old(rows)@[i as int]@.push(x),
        forall|k: int| 0 <= k < old(rows)@.len() && k != i ==> final(rows)@[k] == old(rows)@[k],
{
    rows[i].push(x);
}

/// A table of `n` empty rows.
fn empty_rows(n: usize) -> (rows: Vec<Vec<u32>>)
    ensures
        rows@.len() == n,
        forall|k: int| 0 <= k < n ==> (#[trigger] rows@[k])@ == Seq::<u32>::empty(),
{
    let mut rows: Vec<Vec<u32>> = Vec::new();
    let mut i: usize = 0;
    while i < n
        invariant
            i <= n,
            rows@.len() == i,
            forall|k: int| 0 <= k < i ==> (#[trigger] rows@[k])@ == Seq::<u32>::empty(),
        decreases n - i,
    {
        rows.push(Vec::new());
        i = i + 1;
    }
    rows
}

/// The content of a row table.
pub open spec fn rows_view(rows: Seq<Vec<u32>>) -> Seq<Seq<u32>> {
    rows.map_values(|r: Vec<u32>| r@)
}

/// The edges among the first `k` whose source is `u`, ascending.
pub open spec fn out_upto(endpoints: Seq<(u32, u32)>, k: nat, u: int) -> Seq<u32>
    decreases k,
{
    if k == 0 {
        Seq::empty()
    } else {
        let prev = out_upto(endpoints, (k - 1) as nat, u);
        if endpoints[k - 1].0 == u {
            prev.push((k - 1) as u32)
        } else {
            prev
        }
    }
}

/// The outgoing row of node `u`: its edges in ascending edge id.
pub open spec fn out_row(endpoints: Seq<(u32, u32)>, u: int) -> Seq<u32> {
    out_upto(endpoints, endpoints.len(), u)
}

/// The edges of `row` whose target is `v`, in row order.
pub open spec fn by_target(endpoints: Seq<(u32, u32)>, row: Seq<u32>, v: int) -> Seq<u32>
    decreases row.len(),
{
    if row.len() == 0 {
        Seq::empty()
    } else {
        let prev = by_target(endpoints, row.drop_last(), v);
        if endpoints[row.last() as int].1 == v {
            prev.push(row.last())
        } else {
            prev
        }
    }
}

/// The edges into `v` from the first `w` source nodes, ordered by source
/// node, then edge id.
pub open spec fn in_upto(endpoints: Seq<(u32, u32)>, w: nat, v: int) -> Seq<u32>
    decreases w,
{
    if w == 0 {
        Seq::empty()
    } else {
        in_upto(endpoints, (w - 1) as nat, v) + by_target(endpoints, out_row(endpoints, w - 1), v)
    }
}

/// The incoming row of node `v` among `n` nodes.
pub open spec fn in_row(endpoints: Seq<(u32, u32)>, n: nat, v: int) -> Seq<u32> {
    in_upto(endpoints, n, v)
}

/// The target node of each edge of a row.
pub open spec fn targets_of(endpoints: Seq<(u32, u32)>, row: Seq<u32>) -> Seq<u32> {
    row.map_values(|e: u32| endpoints[e as int].1)
}

/// The source node of each edge of a row.
pub open spec fn sources_of(endpoints: Seq<(u32, u32)>, row: Seq<u32>) -> Seq<u32> {
    row.map_values(|e: u32| endpoints[e as int].0)
}

/// Every endpoint names one of `n` nodes.
pub open spec fn endpoints_in(endpoints: Seq<(u32, u32)>, n: nat) -> bool {
    forall|e: int| 0 <= e < endpoints.len() ==> (#[trigger] endpoints[e]).0 < n && endpoints[e].1 < n
}

/// Every edge of an outgoing row is a valid edge index.
pub proof fn lemma_out_upto_bounded(endpoints: Seq<(u32, u32)>, k: nat, u: int)
    requires
        k <= endpoints.len(),
        k <= u32::MAX + 1,
    ensures
        forall|j: int| 0 <= j < out_upto(endpoints, k, u).len() ==> (#[trigger] out_upto(endpoints, k, u)[j]) < k,
    decreases k,
{
    if k > 0 {
        lemma_out_upto_bounded(endpoints, (k - 1) as nat, u);
        let prev = out_upto(endpoints, (k - 1) as nat, u);
        assert forall|j: int| 0 <= j < out_upto(endpoints, k, u).len() implies (#[trigger] out_upto(endpoints, k, u)[j]) < k by {
            if j < prev.len() {
                assert(out_upto(endpoints, k, u)[j] == prev[j]);
            }
        }
    }
}

/// Filtering a row by target keeps only its edges.
pub proof fn lemma_by_target_bounded(endpoints: Seq<(u32, u32)>, row: Seq<u32>, v: int, m: nat)
    requires
        forall|x: int| 0 <= x < row.len() ==> (#[trigger] row[x]) < m,
    ensures
        forall|j: int| 0 <= j < by_target(endpoints, row, v).len() ==> (#[trigger] by_target(endpoints, row, v)[j]) < m,
    decreases row.len(),
{
    if row.len() > 0 {
        let prev = by_target(endpoints, row.drop_last(), v);
        lemma_by_target_bounded(endpoints, row.drop_last(), v, m);
        assert forall|j: int| 0 <= j < by_target(endpoints, row, v).len() implies (#[trigger] by_target(endpoints, row, v)[j]) < m by {
            if j < prev.len() {
                assert(by_target(endpoints, row, v)[j] == prev[j]);
            } else {
                assert(row[row.len() - 1] < m);
            }
        }
    }
}

/// Every edge of an incoming row is a valid edge index.
pub proof fn lemma_in_upto_bounded(endpoints: Seq<(u32, u32)>, w: nat, v: int)
    requires
        endpoints.len() <= u32::MAX + 1,
    ensures
        forall|j: int| 0 <= j < in_upto(endpoints, w, v).len() ==> (#[trigger] in_upto(endpoints, w, v)[j]) < endpoints.len(),
    decreases w,
{
    if w > 0 {
        lemma_in_upto_bounded(endpoints, (w - 1) as nat, v);
        let row = out_row(endpoints, w - 1);
        lemma_out_upto_bounded(endpoints, endpoints.len(), w - 1);
        lemma_by_target_bounded(endpoints, row, v, endpoints.len());
        let a = in_upto(endpoints, (w - 1) as nat, v);
        let b = by_target(endpoints, row, v);
        assert forall|j: int| 0 <= j < in_upto(endpoints, w, v).len() implies (#[trigger] in_upto(endpoints, w, v)[j]) < endpoints.len() by {
            if j < a.len() {
                assert(in_upto(endpoints, w, v)[j] == a[j]);
            } else {
                assert(in_upto(endpoints, w, v)[j] == b[j - a.len()]);
            }
        }
    }
}

/// An outgoing row up to `k` holds exactly the edges below `k` that start at `u`.
proof fn lemma_out_upto_members(endpoints: Seq<(u32, u32)>, k: nat, u: int)
    requires
        k <= endpoints.len(),
        k <= u32::MAX + 1,
    ensures
        forall|j: int|
            0 <= j < out_upto(endpoints, k, u).len() ==> endpoints[(#[trigger] out_upto(endpoints, k, u)[j]) as int].0
                == u,
        forall|e: int|
            0 <= e < k && (#[trigger] endpoints[e]).0 == u ==> out_upto(endpoints, k, u).contains(e as u32),
    decreases k,
{
    if k > 0 {
        lemma_out_upto_members(endpoints, (k - 1) as nat, u);
        let prev = out_upto(endpoints, (k - 1) as nat, u);
        let row = out_upto(endpoints, k, u);
        assert forall|j: int| 0 <= j < row.len() implies endpoints[(#[trigger] row[j]) as int].0 == u by {
            if j < prev.len() {
                assert(row[j] == prev[j]);
            }
        }
        assert forall|e: int| 0 <= e < k && (#[trigger] endpoints[e]).0 == u implies row.contains(e as u32) by {
            if e < k - 1 {
                let t = choose|t: int| 0 <= t < prev.len() && prev[t] == e as u32;
                assert(row[t] == e as u32);
            } else {
                assert(row[prev.len() as int] == e as u32);
            }
        }
    }
}

/// Filtering a row by target keeps exactly its edges that end at `v`.
proof fn lemma_by_target_members(endpoints: Seq<(u32, u32)>, row: Seq<u32>, v: int)
    ensures
        forall|j: int|
            0 <= j < by_target(endpoints, row, v).len() ==> endpoints[(#[trigger] by_target(
                endpoints,
                row,
                v,
            )[j]) as int].1 == v,
        forall|x: u32| row.contains(x) && endpoints[x as int].1 == v ==> #[trigger] by_target(endpoints, row, v).contains(x),
    decreases row.len(),
{
    if row.len() > 0 {
        let init = row.drop_last();
        lemma_by_target_members(endpoints, init, v);
        let prev = by_target(endpoints, init, v);
        let f = by_target(endpoints, row, v);
        assert forall|j: int| 0 <= j < f.len() implies endpoints[(#[trigger] f[j]) as int].1 == v by {
            if j < prev.len() {
                assert(f[j] == prev[j]);
            }
        }
        assert forall|x: u32| row.contains(x) && endpoints[x as int].1 == v implies #[trigger] f.contains(x) by {
            let t = choose|t: int| 0 <= t < row.len() && row[t] == x;
            if t < row.len() - 1 {
                assert(init[t] == x);
                assert(init.contains(x));
                assert(prev.contains(x));
                let q = choose|q: int| 0 <= q < prev.len() && prev[q] == x;
                if endpoints[row.last() as int].1 == v {
                    assert(f == prev.push(row.last()));
                    assert(f[q] == prev[q]);
                } else {
                    assert(f == prev);
                }
                assert(f[q] == x);
            } else {
                assert(row.last() == x);
                assert(f == prev.push(row.last()));
                assert(f[prev.len() as int] == x);
            }
        }
    }
}

/// An incoming row over the first `w` sources holds exactly the edges that
/// start below `w` and end at `v`.
proof fn lemma_in_upto_members(endpoints: Seq<(u32, u32)>, w: nat, v: int)
    requires
        endpoints.len() <= u32::MAX + 1,
    ensures
        forall|j: int|
            0 <= j < in_upto(endpoints, w, v).len() ==> endpoints[(#[trigger] in_upto(endpoints, w, v)[j]) as int].1
                == v,
        forall|e: int|
            0 <= e < endpoints.len() && (#[trigger] endpoints[e]).0 < w && endpoints[e].1 == v ==> in_upto(
                endpoints,
                w,
                v,
            ).contains(e as u32),
    decreases w,
{
    if w > 0 {
        lemma_in_upto_members(endpoints, (w - 1) as nat, v);
        let row = out_row(endpoints, w - 1);
        lemma_out_upto_members(endpoints, endpoints.len(), w - 1);
        lemma_by_target_members(endpoints, row, v);
        let a = in_upto(endpoints, (w - 1) as nat, v);
        let b = by_target(endpoints, row, v);
        let all = in_upto(endpoints, w, v);
        assert(all == a + b);
        assert forall|j: int| 0 <= j < all.len() implies endpoints[(#[trigger] all[j]) as int].1 == v by {
            if j < a.len() {
                assert(all[j] == a[j]);
            } else {
                assert(all[j] == b[j - a.len()]);
            }
        }
        assert forall|e: int|
            0 <= e < endpoints.len() && (#[trigger] endpoints[e]).0 < w && endpoints[e].1 == v implies all.contains(
            e as u32,
        ) by {
            if endpoints[e].0 < w - 1 {
                let t = choose|t: int| 0 <= t < a.len() && a[t] == e as u32;
                assert(all[t] == e as u32);
            } else {
                assert(row.contains(e as u32));
                assert(b.contains(e as u32));
                let t = choose|t: int| 0 <= t < b.len() && b[t] == e as u32;
                assert(all[a.len() + t] == e as u32);
            }
        }
    }
}

/// Adjacency consistency of a graph projection: every edge appears in the
/// outgoing row of its source and in the incoming row of its target; every
/// entry of a node's outgoing row starts at that node and every entry of its
/// incoming row ends there; and each neighbour list pairs one-for-one with
/// its edge list, naming the other endpoint of the same edge.
pub proof fn lemma_graph_adjacency(g: GraphView)
    requires
        graph_wf(g),
    ensures
        forall|e: int|
            0 <= e < g.endpoints.len() ==> g.out_edges[(#[trigger] g.endpoints[e]).0 as int].contains(e as u32)
                && g.in_edges[g.endpoints[e].1 as int].contains(e as u32),
        forall|u: int|
            0 <= u < g.elements.len() ==> (#[trigger] g.successors[u]).len() == g.out_edges[u].len()
                && g.predecessors[u].len() == g.in_edges[u].len(),
        forall|u: int, j: int|
            0 <= u < g.elements.len() && 0 <= j < g.out_edges[u].len() ==> g.endpoints[(#[trigger] g.out_edges[u][j]) as int].0
                == u && g.successors[u][j] == g.endpoints[g.out_edges[u][j] as int].1,
        forall|v: int, j: int|
            0 <= v < g.elements.len() && 0 <= j < g.in_edges[v].len() ==> g.endpoints[(#[trigger] g.in_edges[v][j]) as int].1
                == v && g.predecessors[v][j] == g.endpoints[g.in_edges[v][j] as int].0,
{
    let ep = g.endpoints;
    let n = g.elements.len();
    assert forall|u: int| 0 <= u < n implies out_row(ep, u) == #[trigger] g.out_edges[u] && in_row(ep, n, u)
        == g.in_edges[u] by {}
    assert forall|e: int| 0 <= e < ep.len() implies g.out_edges[(#[trigger] ep[e]).0 as int].contains(e as u32)
        && g.in_edges[ep[e].1 as int].contains(e as u32) by {
        lemma_out_upto_members(ep, ep.len(), ep[e].0 as int);
        lemma_in_upto_members(ep, n, ep[e].1 as int);
    }
    assert forall|u: int, j: int| 0 <= u < n && 0 <= j < g.out_edges[u].len() implies g.endpoints[(
    #[trigger] g.out_edges[u][j]) as int].0 == u && g.successors[u][j] == g.endpoints[g.out_edges[u][j] as int].1 by {
        lemma_out_upto_members(ep, ep.len(), u);
    }
    assert forall|v: int, j: int| 0 <= v < n && 0 <= j < g.in_edges[v].len() implies g.endpoints[(
    #[trigger] g.in_edges[v][j]) as int].1 == v && g.predecessors[v][j] == g.endpoints[g.in_edges[v][j] as int].0 by {
        lemma_in_upto_members(ep, n, v);
    }
}

/// Groups the edges into CSR outgoing rows, their targets, CSC incoming rows
/// and their sources.
fn build_csr(n: usize, endpoints: &Vec<(u32, u32)>) -> (r: (
    Vec<Vec<u32>>,
    Vec<Vec<u32>>,
    Vec<Vec<u32>>,
    Vec<Vec<u32>>,
))
    requires
        endpoints_in(endpoints@, n as nat),
        endpoints@.len() <= u32::MAX + 1,
    ensures
        r.0@.len() == n,
        r.1@.len() == n,
        r.2@.len() == n,
        r.3@.len() == n,
        forall|u: int| 0 <= u < n ==> (#[trigger] r.0@[u])@ == out_row(endpoints@, u),
        forall|u: int| 0 <= u < n ==> (#[trigger] r.1@[u])@ == targets_of(endpoints@, out_row(endpoints@, u)),
        forall|v: int| 0 <= v < n ==> (#[trigger] r.2@[v])@ == in_row(endpoints@, n as nat, v),
        forall|v: int| 0 <= v < n ==> (#[trigger] r.3@[v])@ == sources_of(endpoints@, in_row(endpoints@, n as nat, v)),
{
    let m = endpoints.len();
    let mut out = empty_rows(n);
    let mut e: usize = 0;
    while e < m
        invariant
            e <= m,
            m == endpoints@.len(),
            m <= u32::MAX + 1,
            endpoints_in(endpoints@, n as nat),
            out@.len() == n,
            forall|u: int| 0 <= u < n ==> (#[trigger] out@[u])@ == out_upto(endpoints@, e as nat, u),
        decreases m - e,
    {
        let src = endpoints[e].0;
        proof {
            assert(endpoints@[e as int].0 < n);
        }
        push_row(&mut out, src as usize, e as u32);
        proof {
            assert forall|u: int| 0 <= u < n implies (#[trigger] out@[u])@ == out_upto(endpoints@, (e + 1) as nat, u) by {
                assert(out_upto(endpoints@, (e + 1) as nat, u) == if endpoints@[e as int].0 == u {
                    out_upto(endpoints@, e as nat, u).push(e as u32)
                } else {
                    out_upto(endpoints@, e as nat, u)
                });
            }
        }
        e = e + 1;
    }
    let mut succ: Vec<Vec<u32>> = Vec::new();
    let mut u: usize = 0;
    while u < n
        invariant
            u <= n,
            m == endpoints@.len(),
            m <= u32::MAX + 1,
            endpoints_in(endpoints@, n as nat),
            out@.len() == n,
            forall|w: int| 0 <= w < n ==> (#[trigger] out@[w])@ == out_row(endpoints@, w),
            succ@.len() == u,
            forall|w: int| 0 <= w < u ==> (#[trigger] succ@[w])@ == targets_of(endpoints@, out_row(endpoints@, w)),
        decreases n - u,
    {
        let row = &out[u];
        proof {
            lemma_out_upto_bounded(endpoints@, m as nat, u as int);
        }
        let mut t: Vec<u32> = Vec::new();
        let mut j: usize = 0;
        while j < row.len()
            invariant
                j <= row@.len(),
                row@ == out_row(endpoints@, u as int),
                m == endpoints@.len(),
                forall|x: int| 0 <= x < row@.len() ==> (#[trigger] row@[x]) < m,
                t@ == targets_of(endpoints@, row@.take(j as int)),
            decreases row@.len() - j,
        {
            let edge = row[j];
            t.push(endpoints[edge as usize].1);
            proof {
                assert(t@ =~= targets_of(endpoints@, row@.take(j + 1)));
            }
            j = j + 1;
        }
        proof {
            assert(row@.take(j as int) =~= row@);
        }
        succ.push(t);
        u = u + 1;
    }
    let mut inc = empty_rows(n);
    let mut u: usize = 0;
    while u < n
        invariant
            u <= n,
            m == endpoints@.len(),
            m <= u32::MAX + 1,
            endpoints_in(endpoints@, n as nat),
            out@.len() == n,
            forall|w: int| 0 <= w < n ==> (#[trigger] out@[w])@ == out_row(endpoints@, w),
            inc@.len() == n,
            forall|v: int| 0 <= v < n ==> (#[trigger] inc@[v])@ == in_upto(endpoints@, u as nat, v),
        decreases n - u,
    {
        let row = &out[u];
        proof {
            lemma_out_upto_bounded(endpoints@, m as nat, u as int);
        }
        let mut j: usize = 0;
        while j < row.len()
            invariant
                j <= row@.len(),
                u < n,
                row@ == out_row(endpoints@, u as int),
                m == endpoints@.len(),
                endpoints_in(endpoints@, n as nat),
                forall|x: int| 0 <= x < row@.len() ==> (#[trigger] row@[x]) < m,
                inc@.len() == n,
                forall|v: int| 0 <= v < n ==> (#[trigger] inc@[v])@ == in_upto(endpoints@, u as nat, v) + by_target(
                    endpoints@,
                    row@.take(j as int),
                    v,
                ),
            decreases row@.len() - j,
        {
            let edge = row[j];
            let tgt = endpoints[edge as usize].1;
            proof {
                assert(endpoints@[edge as int].1 < n);
            }
            push_row(&mut inc, tgt as usize, edge);
            proof {
                assert forall|v: int| 0 <= v < n implies (#[trigger] inc@[v])@ == in_upto(endpoints@, u as nat, v)
                    + by_target(endpoints@, row@.take(j + 1), v) by {
                    assert(row@.take(j + 1).drop_last() =~= row@.take(j as int));
                    assert(row@.take(j + 1).last() == edge);
                }
            }
            j = j + 1;
        }
        proof {
            assert(row@.take(j as int) =~= row@);
            assert forall|v: int| 0 <= v < n implies (#[trigger] inc@[v])@ == in_upto(endpoints@, (u + 1) as nat, v) by {
                assert(in_upto(endpoints@, (u + 1) as nat, v) == in_upto(endpoints@, u as nat, v) + by_target(
                    endpoints@,
                    out_row(endpoints@, u as int),
                    v,
                ));
            }
        }
        u = u + 1;
    }
    proof {
        assert forall|w: int, x: int| 0 <= w < n && 0 <= x < inc@[w]@.len() implies #[trigger] inc@[w]@[x] < m by {
            lemma_in_upto_bounded(endpoints@, n as nat, w);
        }
    }
    let mut pred: Vec<Vec<u32>> = Vec::new();
    let mut v: usize = 0;
    while v < n
        invariant
            v <= n,
            m == endpoints@.len(),
            m <= u32::MAX + 1,
            inc@.len() == n,
            forall|w: int| 0 <= w < n ==> (#[trigger] inc@[w])@ == in_upto(endpoints@, n as nat, w),
            forall|w: int, x: int| 0 <= w < n && 0 <= x < inc@[w]@.len() ==> #[trigger] inc@[w]@[x] < m,
            pred@.len() == v,
            forall|w: int| 0 <= w < v ==> (#[trigger] pred@[w])@ == sources_of(endpoints@, in_row(endpoints@, n as nat, w)),
        decreases n - v,
    {
        let row = &inc[v];
        let mut s: Vec<u32> = Vec::new();
        let mut j: usize = 0;
        while j < row.len()
            invariant
                j <= row@.len(),
                v < n,
                row@ == in_upto(endpoints@, n as nat, v as int),
                m == endpoints@.len(),
                forall|x: int| 0 <= x < row@.len() ==> (#[trigger] row@[x]) < m,
                s@ == sources_of(endpoints@, row@.take(j as int)),
            decreases row@.len() - j,
        {
            let edge = row[j];
            s.push(endpoints[edge as usize].0);
            proof {
                assert(s@ =~= sources_of(endpoints@, row@.take(j + 1)));
            }
            j = j + 1;
        }
        proof {
            assert(row@.take(j as int) =~= row@);
        }
        pred.push(s);
        v = v + 1;
    }
    (out, succ, inc, pred)
}


/// Whether a relation of type `relation_type` passes a relation-type filter:
/// an empty filter selects every relation, typed or not; otherwise only the
/// listed types are selected.
pub open spec fn selected(relation_type: Option<u64>, filter: Set<u64>) -> bool {
    match relation_type {
        None => filter.is_empty(),
        Some(t) => filter.is_empty() || filter.contains(t),
    }
}

/// Whether a relation passes the filter (executable form).
fn relation_selected(relation_type: Option<u64>, filter: &BTreeSet<u64>) -> (b: bool)
    ensures
        b == selected(relation_type, filter@),
{
    match relation_type {
        None => filter.is_empty(),
        Some(t) => filter.is_empty() || filter.contains(&t),
    }
}

/// The endpoint slots found by scanning a relation's incidences in order, or
/// the first duplicate endpoint met.
pub open spec fn endpoint_scan(incs: Seq<IncidenceRecord>, source_role: u64, target_role: u64) -> Result<
    (Option<u64>, Option<u64>),
    &'static str,
>
    decreases incs.len(),
{
    if incs.len() == 0 {
        Ok((None, None))
    } else {
        match endpoint_scan(incs.drop_last(), source_role, target_role) {
            Err(reason) => Err(reason),
            Ok((s, t)) => {
                let inc = incs.last();
                if inc.role.0 == source_role && s is Some {
                    Err("selected graph relation has duplicate source endpoint")
                } else if inc.role.0 == target_role && t is Some {
                    Err("selected graph relation has duplicate target endpoint")
                } else {
                    Ok(
                        (
                            if inc.role.0 == source_role {
                                Some(inc.element.0)
                            } else {
                                s
                            },
                            if inc.role.0 == target_role {
                                Some(inc.element.0)
                            } else {
                                t
                            },
                        ),
                    )
                }
            },
        }
    }
}

/// The `(source, target)` elements of a binary relation, or why it has none.
pub open spec fn graph_endpoints_of(incs: Seq<IncidenceRecord>, source_role: u64, target_role: u64) -> Result<
    (u64, u64),
    &'static str,
> {
    match endpoint_scan(incs, source_role, target_role) {
        Err(reason) => Err(reason),
        Ok((Some(s), Some(t))) => Ok((s, t)),
        Ok(_) => Err("selected graph relation lacks source or target endpoint"),
    }
}

/// Once the scan of a prefix fails, every longer prefix fails the same way.
proof fn lemma_scan_error_sticks(incs: Seq<IncidenceRecord>, i: int, j: int, source_role: u64, target_role: u64)
    requires
        0 <= i <= j <= incs.len(),
        endpoint_scan(incs.take(i), source_role, target_role) is Err,
    ensures
        endpoint_scan(incs.take(j), source_role, target_role) == endpoint_scan(incs.take(i), source_role, target_role),
    decreases j - i,
{
    if j > i {
        lemma_scan_error_sticks(incs, i, j - 1, source_role, target_role);
        assert(incs.take(j).drop_last() =~= incs.take(j - 1));
    }
}

/// Scans the incidences of `relation` for its unique source and target
/// elements.
fn graph_endpoints(state: &DatabaseState, relation: RelationId, source_role: RoleId, target_role: RoleId) -> (r: Result<
    (ElementId, ElementId),
    DbError,
>)
    requires
        state.wf(),
    ensures
        match graph_endpoints_of(state.incidence_order(relation.0), source_role.0, target_role.0) {
            Ok((s, t)) => r == Ok::<(ElementId, ElementId), DbError>((ElementId(s), ElementId(t))),
            Err(reason) => r == Err::<(ElementId, ElementId), DbError>(DbError::InvalidProjection { reason }),
        },
{
    let incs = state.relation_incidences(relation);
    let ghost all = incs@;
    let mut source: Option<ElementId> = None;
    let mut target: Option<ElementId> = None;
    let mut i: usize = 0;
    proof {
        assert(all.take(0) =~= Seq::<IncidenceRecord>::empty());
    }
    while i < incs.len()
        invariant
            i <= all.len(),
            all == incs@,
            all == state.incidence_order(relation.0),
            endpoint_scan(all.take(i as int), source_role.0, target_role.0) == Ok::<
                (Option<u64>, Option<u64>),
                &'static str,
            >(
                (
                    match source {
                        Some(e) => Some(e.0),
                        None => None,
                    },
                    match target {
                        Some(e) => Some(e.0),
                        None => None,
                    },
                ),
            ),
        decreases all.len() - i,
    {
        let inc = incs[i];
        proof {
            assert(all.take(i + 1).drop_last() =~= all.take(i as int));
            assert(all.take(i + 1).last() == inc);
        }
        if inc.role == source_role {
            if source.is_some() {
                proof {
                    assert(endpoint_scan(all.take(i + 1), source_role.0, target_role.0) == Err::<
                        (Option<u64>, Option<u64>),
                        &'static str,
                    >("selected graph relation has duplicate source endpoint"));
                    lemma_scan_error_sticks(all, i + 1, all.len() as int, source_role.0, target_role.0);
                    assert(all.take(all.len() as int) =~= all);
                    assert(graph_endpoints_of(all, source_role.0, target_role.0) == Err::<(u64, u64), &'static str>(
                        "selected graph relation has duplicate source endpoint",
                    ));
                }
                let e = DbError::invalid_projection("selected graph relation has duplicate source endpoint");
                proof {
                    assert(e == DbError::InvalidProjection { reason: "selected graph relation has duplicate source endpoint" });
                    assert(graph_endpoints_of(state.incidence_order(relation.0), source_role.0, target_role.0) == Err::<(u64, u64), &'static str>(
                        "selected graph relation has duplicate source endpoint",
                    ));
                }
                return Err(e);
            }
            source = Some(inc.element);
        }
        if inc.role == target_role {
            if target.is_some() {
                proof {
                    assert(endpoint_scan(all.take(i + 1), source_role.0, target_role.0) == Err::<
                        (Option<u64>, Option<u64>),
                        &'static str,
                    >("selected graph relation has duplicate target endpoint"));
                    lemma_scan_error_sticks(all, i + 1, all.len() as int, source_role.0, target_role.0);
                    assert(all.take(all.len() as int) =~= all);
                    assert(graph_endpoints_of(all, source_role.0, target_role.0) == Err::<(u64, u64), &'static str>(
                        "selected graph relation has duplicate target endpoint",
                    ));
                }
                let e = DbError::invalid_projection("selected graph relation has duplicate target endpoint");
                proof {
                    assert(e == DbError::InvalidProjection { reason: "selected graph relation has duplicate target endpoint" });
                    assert(graph_endpoints_of(state.incidence_order(relation.0), source_role.0, target_role.0) == Err::<(u64, u64), &'static str>(
                        "selected graph relation has duplicate target endpoint",
                    ));
                }
                return Err(e);
            }
            target = Some(inc.element);
        }
        i = i + 1;
    }
    proof {
        assert(all.take(i as int) =~= all);
    }
    match (source, target) {
        (Some(s), Some(t)) => Ok((s, t)),
        _ => Err(DbError::invalid_projection("selected graph relation lacks source or target endpoint")),
    }
}

/// The raw ids of a sequence of elements.
pub open spec fn element_ids(s: Seq<ElementId>) -> Seq<u64> {
    s.map_values(|e: ElementId| e.0)
}

/// The raw ids of a sequence of relations.
pub open spec fn relation_ids(s: Seq<RelationId>) -> Seq<u64> {
    s.map_values(|r: RelationId| r.0)
}

/// `index` maps each member of `ids` to its position, and nothing else.
pub open spec fn indexed(index: Map<u64, u32>, ids: Seq<u64>) -> bool {
    &&& ids.no_duplicates()
    &&& ids.len() <= u32::MAX + 1
    &&& forall|k: u64| #[trigger] index.contains_key(k) <==> ids.contains(k)
    &&& forall|i: int| 0 <= i < ids.len() ==> index[#[trigger] ids[i]] == i
}

/// Interning `e` into the first-appearance list `ids`: its existing position,
/// or a fresh position at the end, or `None` when no local id is left.
pub open spec fn intern_spec(ids: Seq<u64>, e: u64) -> Option<(Seq<u64>, u32)> {
    if ids.contains(e) {
        Some((ids, ids.index_of(e) as u32))
    } else if ids.len() > u32::MAX {
        None
    } else {
        Some((ids.push(e), ids.len() as u32))
    }
}

/// The position of a member of a duplicate-free sequence is its index.
proof fn lemma_index_of(ids: Seq<u64>, i: int)
    requires
        ids.no_duplicates(),
        0 <= i < ids.len(),
    ensures
        ids.index_of(ids[i]) == i,
{
    let j = ids.index_of(ids[i]);
    assert(ids.contains(ids[i]));
}

/// Interns one canonical element into projection-local storage.
fn intern_element(index: &mut BTreeMap<u64, u32>, elements: &mut Vec<ElementId>, canonical: ElementId) -> (r:
    Result<u32, DbError>)
    requires
        indexed(old(index)@, element_ids(old(elements)@)),
    ensures
        match intern_spec(element_ids(old(elements)@), canonical.0) {
            None => r == Err::<u32, DbError>(DbError::IdOverflow),
            Some((ids, local)) => r == Ok::<u32, DbError>(local) && element_ids(final(elements)@) == ids
                && indexed(final(index)@, ids),
        },
{
    let ghost ids = element_ids(elements@);
    match index.get(&canonical.0) {
        Some(local) => {
            proof {
                assert(ids.contains(canonical.0));
                let i = choose|i: int| 0 <= i < ids.len() && ids[i] == canonical.0;
                lemma_index_of(ids, i);
            }
            Ok(*local)
        },
        None => {
            if elements.len() as u64 > 0xFFFF_FFFFu64 {
                return Err(DbError::IdOverflow);
            }
            let local = elements.len() as u32;
            elements.push(canonical);
            index.insert(canonical.0, local);
            proof {
                let ids2 = element_ids(elements@);
                assert(ids2 =~= ids.push(canonical.0));
                assert(!ids.contains(canonical.0));
                assert forall|k: u64| #[trigger] index@.contains_key(k) <==> ids2.contains(k) by {
                    if ids2.contains(k) && k != canonical.0 {
                        let t = choose|t: int| 0 <= t < ids2.len() && ids2[t] == k;
                        assert(ids[t] == k);
                    }
                    if ids.contains(k) {
                        let t = choose|t: int| 0 <= t < ids.len() && ids[t] == k;
                        assert(ids2[t] == k);
                    }
                    if k == canonical.0 {
                        assert(ids2[ids.len() as int] == k);
                    }
                }
                assert forall|i: int| 0 <= i < ids2.len() implies index@[#[trigger] ids2[i]] == i by {
                    if i < ids.len() {
                        assert(ids2[i] == ids[i]);
                        assert(ids.contains(ids[i]));
                    }
                }
            }
            Ok(local)
        },
    }
}

/// The projection built so far: first-appearance element and relation lists
/// and the local endpoints of each edge.
pub struct GraphAcc {
    /// Canonical element ids by local id.
    pub elements: Seq<u64>,
    /// Canonical relation ids by local id.
    pub relations: Seq<u64>,
    /// Local `(source, target)` of each edge.
    pub endpoints: Seq<(u32, u32)>,
}

/// Adds one selected relation to a graph projection under construction.
pub open spec fn graph_step(acc: GraphAcc, relation: u64, incs: Seq<IncidenceRecord>, source_role: u64, target_role: u64) -> Result<
    GraphAcc,
    DbError,
> {
    match graph_endpoints_of(incs, source_role, target_role) {
        Err(reason) => Err(DbError::InvalidProjection { reason }),
        Ok((s, t)) => match intern_spec(acc.elements, s) {
            None => Err(DbError::IdOverflow),
            Some((e1, ls)) => match intern_spec(e1, t) {
                None => Err(DbError::IdOverflow),
                Some((e2, lt)) => if acc.relations.len() > u32::MAX {
                    Err(DbError::IdOverflow)
                } else {
                    Ok(
                        GraphAcc {
                            elements: e2,
                            relations: acc.relations.push(relation),
                            endpoints: acc.endpoints.push((ls, lt)),
                        },
                    )
                },
            },
        },
    }
}

/// The parts of a graph projection definition its construction reads.
pub struct GraphDefView {
    /// Selected relation types.
    pub relation_types: Set<u64>,
    /// Source role.
    pub source_role: u64,
    /// Target role.
    pub target_role: u64,
}

/// The parts of `d` its construction reads.
pub open spec fn graph_def_view(d: GraphProjectionDefinition) -> GraphDefView {
    GraphDefView { relation_types: d.relation_types@, source_role: d.source_role.0, target_role: d.target_role.0 }
}

/// The graph projection of the first `k` relations of `state` (in ascending
/// relation id) under `definition`, or the first error met.
pub open spec fn graph_fold(state: DatabaseState, definition: GraphDefView, k: nat) -> Result<
    GraphAcc,
    DbError,
>
    decreases k,
{
    if k == 0 {
        Ok(GraphAcc { elements: Seq::empty(), relations: Seq::empty(), endpoints: Seq::empty() })
    } else {
        match graph_fold(state, definition, (k - 1) as nat) {
            Err(e) => Err(e),
            Ok(acc) => {
                let relation = state.relation_order()[k - 1];
                if selected(state.relations_v()[relation].relation_type, definition.relation_types) {
                    graph_step(
                        acc,
                        relation,
                        state.incidence_order(relation),
                        definition.source_role,
                        definition.target_role,
                    )
                } else {
                    Ok(acc)
                }
            },
        }
    }
}

/// Once the fold fails, it fails the same way on every longer prefix.
proof fn lemma_graph_fold_error_sticks(state: DatabaseState, definition: GraphDefView, i: nat, j: nat)
    requires
        i <= j,
        graph_fold(state, definition, i) is Err,
    ensures
        graph_fold(state, definition, j) == graph_fold(state, definition, i),
    decreases j - i,
{
    if j > i {
        lemma_graph_fold_error_sticks(state, definition, i, (j - 1) as nat);
    }
}

/// The content of a graph projection.
pub struct GraphView {
    /// Canonical element ids by local id.
    pub elements: Seq<u64>,
    /// Canonical relation ids by local id.
    pub relations: Seq<u64>,
    /// Local `(source, target)` of each edge.
    pub endpoints: Seq<(u32, u32)>,
    /// Outgoing edges by source node.
    pub out_edges: Seq<Seq<u32>>,
    /// Outgoing neighbours by source node, one per edge.
    pub successors: Seq<Seq<u32>>,
    /// Incoming edges by target node.
    pub in_edges: Seq<Seq<u32>>,
    /// Incoming neighbours by target node, one per edge.
    pub predecessors: Seq<Seq<u32>>,
}

/// The finished projection of a construction state: the adjacency rows are
/// functions of the endpoints.
pub open spec fn graph_view_of(acc: GraphAcc) -> GraphView {
    let n = acc.elements.len();
    let ep = acc.endpoints;
    GraphView {
        elements: acc.elements,
        relations: acc.relations,
        endpoints: ep,
        out_edges: Seq::new(n, |u: int| out_row(ep, u)),
        successors: Seq::new(n, |u: int| targets_of(ep, out_row(ep, u))),
        in_edges: Seq::new(n, |v: int| in_row(ep, n, v)),
        predecessors: Seq::new(n, |v: int| sources_of(ep, in_row(ep, n, v))),
    }
}

/// The graph projection of `state` under `definition`, or the first error met.
pub open spec fn graph_projection_of(state: DatabaseState, definition: GraphDefView) -> Result<
    GraphView,
    DbError,
> {
    match graph_fold(state, definition, state.relation_order().len()) {
        Err(e) => Err(e),
        Ok(acc) => Ok(graph_view_of(acc)),
    }
}

/// The relations among the first `k` of `state` (in ascending relation id)
/// whose type `definition` selects, in that order.
pub open spec fn selected_relations(state: DatabaseState, definition: GraphDefView, k: nat) -> Seq<u64>
    decreases k,
{
    if k == 0 {
        Seq::empty()
    } else {
        let prev = selected_relations(state, definition, (k - 1) as nat);
        let relation = state.relation_order()[k - 1];
        if selected(state.relations_v()[relation].relation_type, definition.relation_types) {
            prev.push(relation)
        } else {
            prev
        }
    }
}

/// What a graph projection under construction holds: the selected relations
/// in order, one edge each whose local endpoints name the source and target
/// elements its incidences give, and only elements that end some edge.
pub open spec fn graph_acc_contents(state: DatabaseState, definition: GraphDefView, k: nat, acc: GraphAcc) -> bool {
    &&& acc.relations == selected_relations(state, definition, k)
    &&& acc.endpoints.len() == acc.relations.len()
    &&& acc.elements.len() <= u32::MAX + 1
    &&& forall|e: int|
        0 <= e < acc.endpoints.len() ==> (#[trigger] acc.endpoints[e]).0 < acc.elements.len() && acc.endpoints[e].1
            < acc.elements.len() && graph_endpoints_of(
            state.incidence_order(acc.relations[e]),
            definition.source_role,
            definition.target_role,
        ) == Ok::<(u64, u64), &'static str>(
            (acc.elements[acc.endpoints[e].0 as int], acc.elements[acc.endpoints[e].1 as int]),
        )
    &&& forall|x: int| 0 <= x < acc.elements.len() ==> #[trigger] ends_an_edge(acc.endpoints, x)
}

/// Whether local node `x` is the source or the target of some edge.
pub open spec fn ends_an_edge(endpoints: Seq<(u32, u32)>, x: int) -> bool {
    exists|e: int| 0 <= e < endpoints.len() && (endpoints[e].0 == x || endpoints[e].1 == x)
}

/// Interning keeps every earlier entry and places the interned id at the
/// returned local id.
proof fn lemma_intern_spec(ids: Seq<u64>, e: u64)
    requires
        ids.len() <= u32::MAX + 1,
    ensures
        intern_spec(ids, e) matches Some((ids2, local)) ==> ids2.len() <= u32::MAX + 1 && local < ids2.len()
            && ids2[local as int] == e && ids.len() <= ids2.len() && ids2.subrange(0, ids.len() as int) == ids
            && (ids2.len() == ids.len() || (ids2.len() == ids.len() + 1 && local == ids.len())),
{
    if ids.contains(e) {
        assert(ids.subrange(0, ids.len() as int) =~= ids);
    } else if ids.len() <= u32::MAX {
        assert(ids.push(e).subrange(0, ids.len() as int) =~= ids);
    }
}

/// One step of a graph projection's construction keeps its contents.
#[verifier::rlimit(40)]
proof fn lemma_graph_step_contents(state: DatabaseState, definition: GraphDefView, k: nat, acc: GraphAcc)
    requires
        k > 0,
        graph_fold(state, definition, (k - 1) as nat) == Ok::<GraphAcc, DbError>(acc),
        graph_acc_contents(state, definition, (k - 1) as nat, acc),
    ensures
        graph_fold(state, definition, k) matches Ok(next) ==> graph_acc_contents(state, definition, k, next),
{
    let relation = state.relation_order()[k - 1];
    if selected(state.relations_v()[relation].relation_type, definition.relation_types) {
        let incs = state.incidence_order(relation);
        if let Ok((src, tgt)) = graph_endpoints_of(incs, definition.source_role, definition.target_role) {
            lemma_intern_spec(acc.elements, src);
            if let Some((e1, ls)) = intern_spec(acc.elements, src) {
                lemma_intern_spec(e1, tgt);
                if let Some((e2, lt)) = intern_spec(e1, tgt) {
                    if acc.relations.len() <= u32::MAX {
                        let next = GraphAcc {
                            elements: e2,
                            relations: acc.relations.push(relation),
                            endpoints: acc.endpoints.push((ls, lt)),
                        };
                        assert(graph_fold(state, definition, k) == Ok::<GraphAcc, DbError>(next));
                        assert(e2[ls as int] == src) by {
                            assert(e2.subrange(0, e1.len() as int)[ls as int] == e2[ls as int]);
                        }
                        assert forall|x: int| 0 <= x < acc.elements.len() implies #[trigger] e2[x] == acc.elements[x] by {
                            assert(e2.subrange(0, e1.len() as int)[x] == e2[x]);
                            assert(e1.subrange(0, acc.elements.len() as int)[x] == e1[x]);
                        }
                        assert(next.relations == selected_relations(state, definition, k));
                        assert(next.endpoints.len() == next.relations.len());
                        assert(next.elements.len() <= u32::MAX + 1);
                        assert forall|e: int| 0 <= e < next.endpoints.len() implies (#[trigger] next.endpoints[e]).0
                            < next.elements.len() && next.endpoints[e].1 < next.elements.len() && graph_endpoints_of(
                            state.incidence_order(next.relations[e]),
                            definition.source_role,
                            definition.target_role,
                        ) == Ok::<(u64, u64), &'static str>(
                            (next.elements[next.endpoints[e].0 as int], next.elements[next.endpoints[e].1 as int]),
                        ) by {
                            if e < acc.endpoints.len() {
                                assert(next.endpoints[e] == acc.endpoints[e]);
                                assert(next.relations[e] == acc.relations[e]);
                                let p = acc.endpoints[e];
                                assert(p.0 < acc.elements.len() && p.1 < acc.elements.len());
                                assert(e2[p.0 as int] == acc.elements[p.0 as int]);
                                assert(e2[p.1 as int] == acc.elements[p.1 as int]);
                            }
                        }
                        assert forall|x: int| 0 <= x < next.elements.len() implies #[trigger] ends_an_edge(
                            next.endpoints,
                            x,
                        ) by {
                            if x < acc.elements.len() {
                                assert(ends_an_edge(acc.endpoints, x));
                                let e = choose|e: int|
                                    0 <= e < acc.endpoints.len() && (acc.endpoints[e].0 == x || acc.endpoints[e].1 == x);
                                assert(next.endpoints[e] == acc.endpoints[e]);
                            } else {
                                let last = acc.endpoints.len() as int;
                                assert(next.endpoints[last] == (ls, lt));
                                if x < e1.len() {
                                    assert(ls as int == x);
                                } else {
                                    assert(lt as int == x);
                                }
                            }
                        }
                    }
                }
            }
        }
    } else {
        assert(graph_fold(state, definition, k) == Ok::<GraphAcc, DbError>(acc));
        assert(selected_relations(state, definition, k) == selected_relations(state, definition, (k - 1) as nat));
    }
}

/// The contents of a graph projection under construction after the first
/// `k` relations.
proof fn lemma_graph_fold_contents(state: DatabaseState, definition: GraphDefView, k: nat)
    ensures
        graph_fold(state, definition, k) matches Ok(acc) ==> graph_acc_contents(state, definition, k, acc),
    decreases k,
{
    if k == 0 {
        assert(selected_relations(state, definition, 0) =~= Seq::<u64>::empty());
    } else {
        lemma_graph_fold_contents(state, definition, (k - 1) as nat);
        if let Ok(acc) = graph_fold(state, definition, (k - 1) as nat) {
            lemma_graph_step_contents(state, definition, k, acc);
        }
    }
}

/// What a graph projection holds: one edge per relation of the state whose
/// type the definition selects, in ascending relation id; each edge's
/// endpoints are the source and target elements its incidences give; and
/// every node ends some edge.
pub proof fn lemma_graph_projection_contents(state: DatabaseState, definition: GraphDefView)
    ensures
        graph_projection_of(state, definition) matches Ok(g) ==> {
            &&& g.relations == selected_relations(state, definition, state.relation_order().len())
            &&& g.endpoints.len() == g.relations.len()
            &&& forall|e: int|
                0 <= e < g.endpoints.len() ==> (#[trigger] g.endpoints[e]).0 < g.elements.len() && g.endpoints[e].1
                    < g.elements.len() && graph_endpoints_of(
                    state.incidence_order(g.relations[e]),
                    definition.source_role,
                    definition.target_role,
                ) == Ok::<(u64, u64), &'static str>(
                    (g.elements[g.endpoints[e].0 as int], g.elements[g.endpoints[e].1 as int]),
                )
            &&& forall|x: int| 0 <= x < g.elements.len() ==> #[trigger] ends_an_edge(g.endpoints, x)
        },
{
    let k = state.relation_order().len();
    lemma_graph_fold_contents(state, definition, k);
    if let Ok(acc) = graph_fold(state, definition, k) {
        let g = graph_view_of(acc);
        assert(g.elements == acc.elements && g.relations == acc.relations && g.endpoints == acc.endpoints);
    }
}

/// Membership in the selected relations among the first `k`.
proof fn lemma_selected_members(state: DatabaseState, definition: GraphDefView, k: nat, r: u64)
    requires
        k <= state.relation_order().len(),
    ensures
        selected_relations(state, definition, k).contains(r) <==> exists|i: int|
            0 <= i < k && state.relation_order()[i] == r && selected(
                state.relations_v()[r].relation_type,
                definition.relation_types,
            ),
    decreases k,
{
    if k > 0 {
        let km = (k - 1) as nat;
        lemma_selected_members(state, definition, km, r);
        let prev = selected_relations(state, definition, km);
        let last = state.relation_order()[km as int];
        if selected_relations(state, definition, k).contains(r) {
            if !prev.contains(r) {
                assert(selected(state.relations_v()[last].relation_type, definition.relation_types));
                let t = choose|t: int| 0 <= t < prev.push(last).len() && prev.push(last)[t] == r;
                assert(t == prev.len());
                assert(state.relation_order()[km as int] == r);
            }
        }
        if exists|i: int|
            0 <= i < k && state.relation_order()[i] == r && selected(
                state.relations_v()[r].relation_type,
                definition.relation_types,
            ) {
            let i = choose|i: int|
                0 <= i < k && state.relation_order()[i] == r && selected(
                    state.relations_v()[r].relation_type,
                    definition.relation_types,
                );
            if i == km {
                assert(prev.push(last)[prev.len() as int] == r);
            } else {
                let t = choose|t: int| 0 <= t < prev.len() && prev[t] == r;
                if selected(state.relations_v()[last].relation_type, definition.relation_types) {
                    assert(prev.push(last)[t] == r);
                }
            }
        }
    }
}

/// The relation-type filter of a graph projection: a visible relation is
/// projected exactly when the definition lists no relation types, or the
/// relation has a type and the definition lists it.
pub proof fn lemma_graph_projection_type_filter(state: DatabaseState, definition: GraphDefView, r: u64)
    ensures
        graph_projection_of(state, definition) matches Ok(g) ==> (g.relations.contains(r) <==> (
        state.relation_order().contains(r) && match state.relations_v()[r].relation_type {
            None => definition.relation_types.is_empty(),
            Some(t) => definition.relation_types.is_empty() || definition.relation_types.contains(t),
        })),
{
    lemma_graph_projection_contents(state, definition);
    lemma_selected_members(state, definition, state.relation_order().len(), r);
}

/// The structural facts every graph projection keeps: its rows are the
/// CSR/CSC grouping of its endpoints, which name its nodes, and its id lists
/// hold no repeats and fit the local id range.
pub open spec fn graph_wf(g: GraphView) -> bool {
    &&& g == graph_view_of(GraphAcc { elements: g.elements, relations: g.relations, endpoints: g.endpoints })
    &&& g.endpoints.len() == g.relations.len()
    &&& endpoints_in(g.endpoints, g.elements.len())
    &&& g.elements.no_duplicates()
    &&& g.relations.no_duplicates()
    &&& g.elements.len() <= u32::MAX + 1
    &&& g.relations.len() <= u32::MAX + 1
}

/// Every entry of a well-formed graph's rows names a node or an edge.
pub proof fn lemma_graph_rows_in_range(g: GraphView)
    requires
        graph_wf(g),
    ensures
        forall|u: int, j: int|
            0 <= u < g.elements.len() && 0 <= j < g.successors[u].len() ==> #[trigger] g.successors[u][j]
                < g.elements.len(),
        forall|u: int, j: int|
            0 <= u < g.elements.len() && 0 <= j < g.predecessors[u].len() ==> #[trigger] g.predecessors[u][j]
                < g.elements.len(),
        forall|u: int, j: int|
            0 <= u < g.elements.len() && 0 <= j < g.out_edges[u].len() ==> #[trigger] g.out_edges[u][j]
                < g.relations.len(),
{
    let ep = g.endpoints;
    let n = g.elements.len();
    assert forall|u: int, j: int| 0 <= u < n && 0 <= j < g.successors[u].len() implies #[trigger] g.successors[u][j] < n by {
        lemma_out_upto_bounded(ep, ep.len(), u);
        let e = out_row(ep, u)[j];
        assert(g.successors[u][j] == ep[e as int].1);
    }
    assert forall|u: int, j: int| 0 <= u < n && 0 <= j < g.predecessors[u].len() implies #[trigger] g.predecessors[u][j] < n by {
        lemma_in_upto_bounded(ep, n, u);
        let e = in_row(ep, n, u)[j];
        assert(g.predecessors[u][j] == ep[e as int].0);
    }
    assert forall|u: int, j: int| 0 <= u < n && 0 <= j < g.out_edges[u].len() implies #[trigger] g.out_edges[u][j] < g.relations.len() by {
        lemma_out_upto_bounded(ep, ep.len(), u);
    }
}

/// Materialized binary graph projection.
#[derive(Debug)]
pub struct GraphProjection {
    /// Projection definition used to build this view.
    definition: GraphProjectionDefinition,
    /// Local-to-canonical elements.
    elements: Vec<ElementId>,
    /// Canonical-to-local elements.
    element_index: BTreeMap<u64, u32>,
    /// Local-to-canonical relations.
    relations: Vec<RelationId>,
    /// Canonical-to-local relations.
    relation_index: BTreeMap<u64, u32>,
    /// Source and target local ids by local relation.
    endpoints: Vec<(u32, u32)>,
    /// CSR outgoing edge ids by source local element.
    out_edges: Vec<Vec<u32>>,
    /// CSR outgoing neighbour ids by source local element.
    successors: Vec<Vec<u32>>,
    /// CSC incoming edge ids by target local element.
    in_edges: Vec<Vec<u32>>,
    /// CSC incoming neighbour ids by target local element.
    predecessors: Vec<Vec<u32>>,
}

impl View for GraphProjection {
    type V = GraphView;

    closed spec fn view(&self) -> GraphView {
        GraphView {
            elements: element_ids(self.elements@),
            relations: relation_ids(self.relations@),
            endpoints: self.endpoints@,
            out_edges: rows_view(self.out_edges@),
            successors: rows_view(self.successors@),
            in_edges: rows_view(self.in_edges@),
            predecessors: rows_view(self.predecessors@),
        }
    }
}

impl GraphProjection {
    /// Internal consistency: the rows are the CSR/CSC grouping of the
    /// endpoints and both id maps invert their lists.
    #[verifier::type_invariant]
    closed spec fn inv(self) -> bool {
        &&& self@ == graph_view_of(
            GraphAcc { elements: self@.elements, relations: self@.relations, endpoints: self@.endpoints },
        )
        &&& self@.endpoints.len() == self@.relations.len()
        &&& endpoints_in(self@.endpoints, self@.elements.len())
        &&& indexed(self.element_index@, self@.elements)
        &&& indexed(self.relation_index@, self@.relations)
    }

    /// The definition the projection was built from.
    pub closed spec fn definition_v(&self) -> GraphProjectionDefinition {
        self.definition
    }

    /// Builds a graph projection from canonical state: every selected
    /// relation, in ascending relation id, becomes one edge from its unique
    /// source-role element to its unique target-role element.
    pub fn from_state(state: &DatabaseState, definition: GraphProjectionDefinition) -> (r: Result<
        GraphProjection,
        DbError,
    >)
        requires
            state.wf(),
        ensures
            match graph_projection_of(*state, graph_def_view(definition)) {
                Err(e) => r == Err::<GraphProjection, DbError>(e),
                Ok(view) => r matches Ok(p) && p@ == view && p.definition_v() == definition,
            },
    {
        let listing = state.relation_listing();
        let mut elements: Vec<ElementId> = Vec::new();
        let mut element_index: BTreeMap<u64, u32> = BTreeMap::new();
        let mut relations: Vec<RelationId> = Vec::new();
        let mut relation_index: BTreeMap<u64, u32> = BTreeMap::new();
        let mut endpoints: Vec<(u32, u32)> = Vec::new();
        let mut i: usize = 0;
        proof {
            assert(element_ids(elements@) =~= Seq::<u64>::empty());
            assert(relation_ids(relations@) =~= Seq::<u64>::empty());
            assert(element_index@ =~= Map::<u64, u32>::empty());
            assert(relation_index@ =~= Map::<u64, u32>::empty());
        }
        while i < listing.len()
            invariant
                state.wf(),
                i <= listing@.len(),
                listing@.len() == state.relation_order().len(),
                forall|t: int|
                    0 <= t < listing@.len() ==> (#[trigger] listing@[t]).0.0 == state.relation_order()[t]
                        && state.relations_v()[listing@[t].0.0].relation_type == match listing@[t].1 {
                        Some(x) => Some(x.0),
                        None => None,
                    },
                graph_fold(*state, graph_def_view(definition), i as nat) == Ok::<GraphAcc, DbError>(
                    GraphAcc {
                        elements: element_ids(elements@),
                        relations: relation_ids(relations@),
                        endpoints: endpoints@,
                    },
                ),
                indexed(element_index@, element_ids(elements@)),
                indexed(relation_index@, relation_ids(relations@)),
                endpoints@.len() == relations@.len(),
                endpoints_in(endpoints@, elements@.len() as nat),
                forall|k: u64| #[trigger] relation_ids(relations@).contains(k) ==> exists|t: int|
                    0 <= t < i && state.relation_order()[t] == k,
                forall|a: int, b: int| 0 <= a < b < state.relation_order().len() ==> state.relation_order()[a]
                    < state.relation_order()[b],
            decreases listing@.len() - i,
        {
            let (relation, relation_type) = listing[i];
            let raw_type = match relation_type {
                Some(t) => Some(t.get()),
                None => None,
            };
            let ghost acc = GraphAcc {
                elements: element_ids(elements@),
                relations: relation_ids(relations@),
                endpoints: endpoints@,
            };
            let ghost rel = state.relation_order()[i as int];
            proof {
                assert(graph_fold(*state, graph_def_view(definition), (i + 1) as nat) == if selected(
                    state.relations_v()[rel].relation_type,
                    definition.relation_types@,
                ) {
                    graph_step(acc, rel, state.incidence_order(rel), definition.source_role.0, definition.target_role.0)
                } else {
                    Ok(acc)
                });
            }
            if relation_selected(raw_type, &definition.relation_types) {
                let (source, target) = match graph_endpoints(
                    state,
                    relation,
                    definition.source_role,
                    definition.target_role,
                ) {
                    Ok(pair) => pair,
                    Err(e) => {
                        proof {
                            lemma_graph_fold_error_sticks(*state, graph_def_view(definition), (i + 1) as nat, listing@.len() as nat);
                        }
                        return Err(e);
                    },
                };
                let ls = match intern_element(&mut element_index, &mut elements, source) {
                    Ok(l) => l,
                    Err(e) => {
                        proof {
                            lemma_graph_fold_error_sticks(*state, graph_def_view(definition), (i + 1) as nat, listing@.len() as nat);
                        }
                        return Err(e);
                    },
                };
                let lt = match intern_element(&mut element_index, &mut elements, target) {
                    Ok(l) => l,
                    Err(e) => {
                        proof {
                            lemma_graph_fold_error_sticks(*state, graph_def_view(definition), (i + 1) as nat, listing@.len() as nat);
                        }
                        return Err(e);
                    },
                };
                if relations.len() as u64 > 0xFFFF_FFFFu64 {
                    proof {
                        lemma_graph_fold_error_sticks(*state, graph_def_view(definition), (i + 1) as nat, listing@.len() as nat);
                    }
                    return Err(DbError::IdOverflow);
                }
                let local = relations.len() as u32;
                let ghost rids = relation_ids(relations@);
                let ghost ep0 = endpoints@;
                proof {
                    assert(!rids.contains(relation.0)) by {
                        if rids.contains(relation.0) {
                            let t = choose|t: int| 0 <= t < i && state.relation_order()[t] == relation.0;
                            assert(state.relation_order()[t] < state.relation_order()[i as int]);
                        }
                    }
                }
                relations.push(relation);
                relation_index.insert(relation.0, local);
                endpoints.push((ls, lt));
                proof {
                    let rids2 = relation_ids(relations@);
                    assert(rids2 =~= rids.push(relation.0));
                    assert forall|k: u64| #[trigger] relation_index@.contains_key(k) <==> rids2.contains(k) by {
                        if rids2.contains(k) && k != relation.0 {
                            let t = choose|t: int| 0 <= t < rids2.len() && rids2[t] == k;
                            assert(rids[t] == k);
                        }
                        if rids.contains(k) {
                            let t = choose|t: int| 0 <= t < rids.len() && rids[t] == k;
                            assert(rids2[t] == k);
                        }
                        if k == relation.0 {
                            assert(rids2[rids.len() as int] == k);
                        }
                    }
                    assert forall|x: int| 0 <= x < rids2.len() implies relation_index@[#[trigger] rids2[x]] == x by {
                        if x < rids.len() {
                            assert(rids2[x] == rids[x]);
                            assert(rids.contains(rids[x]));
                        }
                    }
                    assert forall|k: u64| #[trigger] rids2.contains(k) implies exists|t: int|
                        0 <= t < i + 1 && state.relation_order()[t] == k by {
                        if k == relation.0 {
                            assert(state.relation_order()[i as int] == k);
                        } else {
                            let x = choose|x: int| 0 <= x < rids2.len() && rids2[x] == k;
                            assert(rids[x] == k);
                            assert(rids.contains(k));
                        }
                    }
                    assert forall|e: int| 0 <= e < endpoints@.len() implies (#[trigger] endpoints@[e]).0 < elements@.len()
                        && endpoints@[e].1 < elements@.len() by {
                        if e < endpoints@.len() - 1 {
                            assert(endpoints@[e] == ep0[e]);
                        }
                    }
                }
            }
            i = i + 1;
        }
        let (out_edges, successors, in_edges, predecessors) = build_csr(elements.len(), &endpoints);
        proof {
            let acc = GraphAcc {
                elements: element_ids(elements@),
                relations: relation_ids(relations@),
                endpoints: endpoints@,
            };
            assert(rows_view(out_edges@) =~= graph_view_of(acc).out_edges);
            assert(rows_view(successors@) =~= graph_view_of(acc).successors);
            assert(rows_view(in_edges@) =~= graph_view_of(acc).in_edges);
            assert(rows_view(predecessors@) =~= graph_view_of(acc).predecessors);
            assert(listing@.len() == i);
        }
        let p = GraphProjection {
            definition,
            elements,
            element_index,
            relations,
            relation_index,
            endpoints,
            out_edges,
            successors,
            in_edges,
            predecessors,
        };
        Ok(p)
    }
}


impl GraphProjection {
    /// States the structural facts the projection keeps.
    pub fn check_structure(&self)
        ensures
            graph_wf(self@),
    {
        proof {
            use_type_invariant(self);
        }
    }

    /// Returns the definition used for this projection.
    pub fn definition(&self) -> (d: &GraphProjectionDefinition)
        ensures
            *d == self.definition_v(),
    {
        &self.definition
    }

    /// Number of projected elements.
    pub fn element_count(&self) -> (n: usize)
        ensures
            n == self@.elements.len(),
    {
        self.elements.len()
    }

    /// Number of projected relations (edges).
    pub fn relation_count(&self) -> (n: usize)
        ensures
            n == self@.relations.len(),
    {
        self.relations.len()
    }

    /// Whether a local element id names a projected element.
    pub fn contains_element(&self, element: ProjectionElementId) -> (b: bool)
        ensures
            b == (element.raw() < self@.elements.len()),
    {
        (element.get() as usize) < self.elements.len()
    }

    /// Whether a local relation id names a projected edge.
    pub fn contains_relation(&self, relation: ProjectionRelationId) -> (b: bool)
        ensures
            b == (relation.raw() < self@.relations.len()),
    {
        (relation.get() as usize) < self.relations.len()
    }

    /// The canonical element of a local element.
    pub fn canonical_element_id(&self, element: ProjectionElementId) -> (id: ElementId)
        requires
            element.raw() < self@.elements.len(),
        ensures
            id.0 == self@.elements[element.raw() as int],
    {
        self.elements[element.get() as usize]
    }

    /// The local id of a canonical element, if it is projected.
    pub fn local_element_id(&self, canonical: ElementId) -> (local: Option<ProjectionElementId>)
        ensures
            match local {
                Some(l) => l.raw() < self@.elements.len() && self@.elements[l.raw() as int] == canonical.0,
                None => !self@.elements.contains(canonical.0),
            },
    {
        proof {
            use_type_invariant(self);
        }
        match self.element_index.get(&canonical.0) {
            Some(l) => {
                proof {
                    let i = choose|i: int| 0 <= i < self@.elements.len() && self@.elements[i] == canonical.0;
                }
                Some(ProjectionElementId::new(*l))
            },
            None => None,
        }
    }

    /// The canonical relation of a local edge.
    pub fn canonical_relation_id(&self, relation: ProjectionRelationId) -> (id: RelationId)
        requires
            relation.raw() < self@.relations.len(),
        ensures
            id.0 == self@.relations[relation.raw() as int],
    {
        self.relations[relation.get() as usize]
    }

    /// The local id of a canonical relation, if it is projected.
    pub fn local_relation_id(&self, canonical: RelationId) -> (local: Option<ProjectionRelationId>)
        ensures
            match local {
                Some(l) => l.raw() < self@.relations.len() && self@.relations[l.raw() as int] == canonical.0,
                None => !self@.relations.contains(canonical.0),
            },
    {
        proof {
            use_type_invariant(self);
        }
        match self.relation_index.get(&canonical.0) {
            Some(l) => {
                proof {
                    let i = choose|i: int| 0 <= i < self@.relations.len() && self@.relations[i] == canonical.0;
                }
                Some(ProjectionRelationId::new(*l))
            },
            None => None,
        }
    }

    /// The source element of an edge.
    pub fn source(&self, edge: ProjectionRelationId) -> (node: ProjectionElementId)
        requires
            edge.raw() < self@.relations.len(),
        ensures
            node.raw() == self@.endpoints[edge.raw() as int].0,
            node.raw() < self@.elements.len(),
    {
        proof {
            use_type_invariant(self);
        }
        ProjectionElementId::new(self.endpoints[edge.get() as usize].0)
    }

    /// The target element of an edge.
    pub fn target(&self, edge: ProjectionRelationId) -> (node: ProjectionElementId)
        requires
            edge.raw() < self@.relations.len(),
        ensures
            node.raw() == self@.endpoints[edge.raw() as int].1,
            node.raw() < self@.elements.len(),
    {
        proof {
            use_type_invariant(self);
        }
        ProjectionElementId::new(self.endpoints[edge.get() as usize].1)
    }

    /// The outgoing edges of a node, in ascending edge id.
    pub fn outgoing_edges(&self, node: ProjectionElementId) -> (edges: Vec<ProjectionRelationId>)
        requires
            node.raw() < self@.elements.len(),
        ensures
            edges@.map_values(|e: ProjectionRelationId| e.raw()) == out_row(self@.endpoints, node.raw() as int),
    {
        proof {
            use_type_invariant(self);
            assert(rows_view(self.out_edges@).len() == self.out_edges@.len());
            assert(rows_view(self.out_edges@)[node.raw() as int] == self.out_edges@[node.raw() as int]@);
        }
        relation_row(&self.out_edges[node.get() as usize])
    }

    /// The incoming edges of a node, ordered by source node, then edge id.
    pub fn incoming_edges(&self, node: ProjectionElementId) -> (edges: Vec<ProjectionRelationId>)
        requires
            node.raw() < self@.elements.len(),
        ensures
            edges@.map_values(|e: ProjectionRelationId| e.raw()) == in_row(
                self@.endpoints,
                self@.elements.len(),
                node.raw() as int,
            ),
    {
        proof {
            use_type_invariant(self);
            assert(rows_view(self.in_edges@).len() == self.in_edges@.len());
            assert(rows_view(self.in_edges@)[node.raw() as int] == self.in_edges@[node.raw() as int]@);
        }
        relation_row(&self.in_edges[node.get() as usize])
    }

    /// The target of each outgoing edge of a node, in edge order.
    pub fn element_successors(&self, node: ProjectionElementId) -> (nodes: Vec<ProjectionElementId>)
        requires
            node.raw() < self@.elements.len(),
        ensures
            nodes@.map_values(|e: ProjectionElementId| e.raw()) == targets_of(
                self@.endpoints,
                out_row(self@.endpoints, node.raw() as int),
            ),
    {
        proof {
            use_type_invariant(self);
            assert(rows_view(self.successors@).len() == self.successors@.len());
            assert(rows_view(self.successors@)[node.raw() as int] == self.successors@[node.raw() as int]@);
        }
        element_row(&self.successors[node.get() as usize])
    }

    /// The source of each incoming edge of a node, in edge order.
    pub fn element_predecessors(&self, node: ProjectionElementId) -> (nodes: Vec<ProjectionElementId>)
        requires
            node.raw() < self@.elements.len(),
        ensures
            nodes@.map_values(|e: ProjectionElementId| e.raw()) == sources_of(
                self@.endpoints,
                in_row(self@.endpoints, self@.elements.len(), node.raw() as int),
            ),
    {
        proof {
            use_type_invariant(self);
            assert(rows_view(self.predecessors@).len() == self.predecessors@.len());
            assert(rows_view(self.predecessors@)[node.raw() as int] == self.predecessors@[node.raw() as int]@);
        }
        element_row(&self.predecessors[node.get() as usize])
    }

    /// The number of outgoing edges of a node.
    pub fn out_degree(&self, node: ProjectionElementId) -> (n: usize)
        requires
            node.raw() < self@.elements.len(),
        ensures
            n == out_row(self@.endpoints, node.raw() as int).len(),
    {
        proof {
            use_type_invariant(self);
            assert(rows_view(self.out_edges@).len() == self.out_edges@.len());
            assert(rows_view(self.out_edges@)[node.raw() as int] == self.out_edges@[node.raw() as int]@);
        }
        self.out_edges[node.get() as usize].len()
    }

    /// The number of incoming edges of a node.
    pub fn in_degree(&self, node: ProjectionElementId) -> (n: usize)
        requires
            node.raw() < self@.elements.len(),
        ensures
            n == in_row(self@.endpoints, self@.elements.len(), node.raw() as int).len(),
    {
        proof {
            use_type_invariant(self);
            assert(rows_view(self.in_edges@).len() == self.in_edges@.len());
            assert(rows_view(self.in_edges@)[node.raw() as int] == self.in_edges@[node.raw() as int]@);
        }
        self.in_edges[node.get() as usize].len()
    }

    /// The canonical subjects this projection materializes: its elements in
    /// ascending id, then its relations in ascending id.
    pub fn subjects(&self) -> (subjects: Vec<PropertySubject>)
        ensures
            subjects@ == sorted_listing(self@.elements.to_set()).map_values(
                |k: u64| PropertySubject::Element(ElementId(k)),
            ) + sorted_listing(self@.relations.to_set()).map_values(
                |k: u64| PropertySubject::Relation(RelationId(k)),
            ),
    {
        let mut element_set: BTreeSet<u64> = BTreeSet::new();
        let mut i: usize = 0;
        while i < self.elements.len()
            invariant
                i <= self.elements@.len(),
                element_set@ == element_ids(self.elements@).take(i as int).to_set(),
            decreases self.elements@.len() - i,
        {
            element_set.insert(self.elements[i].0);
            proof {
                assert(element_ids(self.elements@).take(i + 1) =~= element_ids(self.elements@).take(i as int).push(
                    self.elements@[i as int].0,
                ));
                lemma_to_set_push(element_ids(self.elements@).take(i as int), self.elements@[i as int].0);
            }
            i = i + 1;
        }
        let mut relation_set: BTreeSet<u64> = BTreeSet::new();
        let mut j: usize = 0;
        while j < self.relations.len()
            invariant
                j <= self.relations@.len(),
                relation_set@ == relation_ids(self.relations@).take(j as int).to_set(),
            decreases self.relations@.len() - j,
        {
            relation_set.insert(self.relations[j].0);
            proof {
                assert(relation_ids(self.relations@).take(j + 1) =~= relation_ids(self.relations@).take(j as int).push(
                    self.relations@[j as int].0,
                ));
                lemma_to_set_push(relation_ids(self.relations@).take(j as int), self.relations@[j as int].0);
            }
            j = j + 1;
        }
        proof {
            assert(element_ids(self.elements@).take(i as int) =~= element_ids(self.elements@));
            assert(relation_ids(self.relations@).take(j as int) =~= relation_ids(self.relations@));
        }
        let element_members = sorted_members(&element_set);
        let relation_members = sorted_members(&relation_set);
        let mut out: Vec<PropertySubject> = Vec::new();
        let mut k: usize = 0;
        while k < element_members.len()
            invariant
                k <= element_members@.len(),
                out@ == element_members@.take(k as int).map_values(|x: u64| PropertySubject::Element(ElementId(x))),
            decreases element_members@.len() - k,
        {
            out.push(PropertySubject::Element(ElementId::new(element_members[k])));
            proof {
                assert(out@ =~= element_members@.take(k + 1).map_values(
                    |x: u64| PropertySubject::Element(ElementId(x)),
                ));
            }
            k = k + 1;
        }
        let ghost first = out@;
        let mut t: usize = 0;
        while t < relation_members.len()
            invariant
                t <= relation_members@.len(),
                out@ == first + relation_members@.take(t as int).map_values(
                    |x: u64| PropertySubject::Relation(RelationId(x)),
                ),
            decreases relation_members@.len() - t,
        {
            out.push(PropertySubject::Relation(RelationId::new(relation_members[t])));
            proof {
                assert(out@ =~= first + relation_members@.take(t + 1).map_values(
                    |x: u64| PropertySubject::Relation(RelationId(x)),
                ));
            }
            t = t + 1;
        }
        proof {
            assert(ascending(element_members@));
            assert(ascending(relation_members@));
            lemma_sorted_listing(element_members@);
            lemma_sorted_listing(relation_members@);
            assert(element_members@.take(k as int) =~= element_members@);
            assert(relation_members@.take(t as int) =~= relation_members@);
        }
        out
    }
}

/// Appending to a sequence adds one member to its set.
proof fn lemma_to_set_push(s: Seq<u64>, x: u64)
    ensures
        s.push(x).to_set() == s.to_set().insert(x),
{
    let p = s.push(x);
    assert forall|y: u64| p.to_set().contains(y) <==> s.to_set().insert(x).contains(y) by {
        if p.contains(y) {
            let t = choose|t: int| 0 <= t < p.len() && p[t] == y;
            if t < s.len() {
                assert(s[t] == y);
            }
        }
        if s.contains(y) {
            let t = choose|t: int| 0 <= t < s.len() && s[t] == y;
            assert(p[t] == y);
        }
        if y == x {
            assert(p[s.len() as int] == y);
        }
    }
    assert(p.to_set() =~= s.to_set().insert(x));
}

/// Copies a row of raw edge ids into typed edge ids.
fn relation_row(row: &Vec<u32>) -> (edges: Vec<ProjectionRelationId>)
    ensures
        edges@.map_values(|e: ProjectionRelationId| e.raw()) == row@,
{
    let mut out: Vec<ProjectionRelationId> = Vec::new();
    let mut i: usize = 0;
    while i < row.len()
        invariant
            i <= row@.len(),
            out@.len() == i,
            forall|j: int| 0 <= j < i ==> (#[trigger] out@[j]).raw() == row@[j],
        decreases row@.len() - i,
    {
        out.push(ProjectionRelationId::new(row[i]));
        i = i + 1;
    }
    proof {
        assert(out@.map_values(|e: ProjectionRelationId| e.raw()) =~= row@);
    }
    out
}

/// Copies a row of raw element ids into typed element ids.
fn element_row(row: &Vec<u32>) -> (nodes: Vec<ProjectionElementId>)
    ensures
        nodes@.map_values(|e: ProjectionElementId| e.raw()) == row@,
{
    let mut out: Vec<ProjectionElementId> = Vec::new();
    let mut i: usize = 0;
    while i < row.len()
        invariant
            i <= row@.len(),
            out@.len() == i,
            forall|j: int| 0 <= j < i ==> (#[trigger] out@[j]).raw() == row@[j],
        decreases row@.len() - i,
    {
        out.push(ProjectionElementId::new(row[i]));
        i = i + 1;
    }
    proof {
        assert(out@.map_values(|e: ProjectionElementId| e.raw()) =~= row@);
    }
    out
}


/// The raw ids of a sequence of incidences.
pub open spec fn incidence_ids(s: Seq<IncidenceRecord>) -> Seq<u64> {
    s.map_values(|r: IncidenceRecord| r.id.0)
}

/// Interning an incidence by its id: its existing position, a fresh position
/// at the end, or `None` when no local id is left.
pub open spec fn intern_incidence_spec(incs: Seq<IncidenceRecord>, rec: IncidenceRecord) -> Option<
    (Seq<IncidenceRecord>, u32),
> {
    let ids = incidence_ids(incs);
    if ids.contains(rec.id.0) {
        Some((incs, ids.index_of(rec.id.0) as u32))
    } else if incs.len() > u32::MAX {
        None
    } else {
        Some((incs.push(rec), incs.len() as u32))
    }
}

/// The participants gathered so far while scanning one hyperedge.
pub struct HyperScan {
    /// Canonical element ids by local id.
    pub elements: Seq<u64>,
    /// Incidence records by local id.
    pub incidences: Seq<IncidenceRecord>,
    /// Local incidences of the hyperedge, in scan order.
    pub relation_ids: Seq<u32>,
    /// Local incidences on the source side.
    pub source_ids: Seq<u32>,
    /// Local incidences on the target side.
    pub target_ids: Seq<u32>,
    /// Local elements on the source side, one per source incidence.
    pub sources: Seq<u32>,
    /// Local elements on the target side, one per target incidence.
    pub targets: Seq<u32>,
}

/// Scans one more incidence of a hyperedge.
pub open spec fn hyper_scan_step(sc: HyperScan, inc: IncidenceRecord, source_roles: Set<u64>, target_roles: Set<u64>) -> Result<
    HyperScan,
    DbError,
> {
    match intern_incidence_spec(sc.incidences, inc) {
        None => Err(DbError::IdOverflow),
        Some((incs2, local)) => match intern_spec(sc.elements, inc.element.0) {
            None => Err(DbError::IdOverflow),
            Some((elements2, vertex)) => Ok(
                HyperScan {
                    elements: elements2,
                    incidences: incs2,
                    relation_ids: sc.relation_ids.push(local),
                    source_ids: if source_roles.contains(inc.role.0) {
                        sc.source_ids.push(local)
                    } else {
                        sc.source_ids
                    },
                    target_ids: if target_roles.contains(inc.role.0) {
                        sc.target_ids.push(local)
                    } else {
                        sc.target_ids
                    },
                    sources: if source_roles.contains(inc.role.0) {
                        sc.sources.push(vertex)
                    } else {
                        sc.sources
                    },
                    targets: if target_roles.contains(inc.role.0) {
                        sc.targets.push(vertex)
                    } else {
                        sc.targets
                    },
                },
            ),
        },
    }
}

/// Scans a hyperedge's incidences in order, or the first error met.
pub open spec fn hyper_scan(start: HyperScan, incs: Seq<IncidenceRecord>, source_roles: Set<u64>, target_roles: Set<u64>) -> Result<
    HyperScan,
    DbError,
>
    decreases incs.len(),
{
    if incs.len() == 0 {
        Ok(start)
    } else {
        match hyper_scan(start, incs.drop_last(), source_roles, target_roles) {
            Err(e) => Err(e),
            Ok(sc) => hyper_scan_step(sc, incs.last(), source_roles, target_roles),
        }
    }
}

/// Once a hyperedge scan fails, every longer prefix fails the same way.
proof fn lemma_hyper_scan_error_sticks(
    start: HyperScan,
    incs: Seq<IncidenceRecord>,
    i: int,
    j: int,
    source_roles: Set<u64>,
    target_roles: Set<u64>,
)
    requires
        0 <= i <= j <= incs.len(),
        hyper_scan(start, incs.take(i), source_roles, target_roles) is Err,
    ensures
        hyper_scan(start, incs.take(j), source_roles, target_roles) == hyper_scan(
            start,
            incs.take(i),
            source_roles,
            target_roles,
        ),
    decreases j - i,
{
    if j > i {
        lemma_hyper_scan_error_sticks(start, incs, i, j - 1, source_roles, target_roles);
        assert(incs.take(j).drop_last() =~= incs.take(j - 1));
    }
}

/// The hypergraph projection built so far.
pub struct HyperAcc {
    /// Canonical element ids by local id.
    pub elements: Seq<u64>,
    /// Canonical relation ids by local id.
    pub relations: Seq<u64>,
    /// Incidence records by local id.
    pub incidences: Seq<IncidenceRecord>,
    /// Local incidences by hyperedge.
    pub relation_incidences: Seq<Seq<u32>>,
    /// Source-side local incidences by hyperedge.
    pub source_incidences: Seq<Seq<u32>>,
    /// Target-side local incidences by hyperedge.
    pub target_incidences: Seq<Seq<u32>>,
    /// Source-side local elements by hyperedge.
    pub source_vertices: Seq<Seq<u32>>,
    /// Target-side local elements by hyperedge.
    pub target_vertices: Seq<Seq<u32>>,
}

/// The scan state a hyperedge starts from.
pub open spec fn scan_start(acc: HyperAcc) -> HyperScan {
    HyperScan {
        elements: acc.elements,
        incidences: acc.incidences,
        relation_ids: Seq::empty(),
        source_ids: Seq::empty(),
        target_ids: Seq::empty(),
        sources: Seq::empty(),
        targets: Seq::empty(),
    }
}

/// Adds one selected relation as a hyperedge.
pub open spec fn hyper_step(acc: HyperAcc, relation: u64, incs: Seq<IncidenceRecord>, source_roles: Set<u64>, target_roles: Set<u64>) -> Result<
    HyperAcc,
    DbError,
> {
    if acc.relations.len() > u32::MAX {
        Err(DbError::IdOverflow)
    } else {
        match hyper_scan(scan_start(acc), incs, source_roles, target_roles) {
            Err(e) => Err(e),
            Ok(sc) => if sc.sources.len() == 0 || sc.targets.len() == 0 {
                Err(DbError::InvalidProjection { reason: "selected hyperedge lacks source or target participants" })
            } else {
                Ok(
                    HyperAcc {
                        elements: sc.elements,
                        relations: acc.relations.push(relation),
                        incidences: sc.incidences,
                        relation_incidences: acc.relation_incidences.push(sc.relation_ids),
                        source_incidences: acc.source_incidences.push(sc.source_ids),
                        target_incidences: acc.target_incidences.push(sc.target_ids),
                        source_vertices: acc.source_vertices.push(sc.sources),
                        target_vertices: acc.target_vertices.push(sc.targets),
                    },
                )
            },
        }
    }
}

/// The empty hypergraph under construction.
pub open spec fn hyper_empty() -> HyperAcc {
    HyperAcc {
        elements: Seq::empty(),
        relations: Seq::empty(),
        incidences: Seq::empty(),
        relation_incidences: Seq::empty(),
        source_incidences: Seq::empty(),
        target_incidences: Seq::empty(),
        source_vertices: Seq::empty(),
        target_vertices: Seq::empty(),
    }
}

/// The parts of a hypergraph projection definition its construction reads.
pub struct HyperDefView {
    /// Selected relation types.
    pub relation_types: Set<u64>,
    /// Source-side roles.
    pub source_roles: Set<u64>,
    /// Target-side roles.
    pub target_roles: Set<u64>,
}

/// The parts of `d` its construction reads.
pub open spec fn hyper_def_view(d: HypergraphProjectionDefinition) -> HyperDefView {
    HyperDefView { relation_types: d.relation_types@, source_roles: d.source_roles@, target_roles: d.target_roles@ }
}

/// The hypergraph projection of the first `k` relations of `state` (in
/// ascending relation id) under `definition`, or the first error met.
pub open spec fn hyper_fold(state: DatabaseState, definition: HyperDefView, k: nat) -> Result<
    HyperAcc,
    DbError,
>
    decreases k,
{
    if k == 0 {
        Ok(hyper_empty())
    } else {
        match hyper_fold(state, definition, (k - 1) as nat) {
            Err(e) => Err(e),
            Ok(acc) => {
                let relation = state.relation_order()[k - 1];
                if selected(state.relations_v()[relation].relation_type, definition.relation_types) {
                    hyper_step(
                        acc,
                        relation,
                        state.incidence_order(relation),
                        definition.source_roles,
                        definition.target_roles,
                    )
                } else {
                    Ok(acc)
                }
            },
        }
    }
}

/// Once the fold fails, it fails the same way on every longer prefix.
proof fn lemma_hyper_fold_error_sticks(state: DatabaseState, definition: HyperDefView, i: nat, j: nat)
    requires
        i <= j,
        hyper_fold(state, definition, i) is Err,
    ensures
        hyper_fold(state, definition, j) == hyper_fold(state, definition, i),
    decreases j - i,
{
    if j > i {
        lemma_hyper_fold_error_sticks(state, definition, i, (j - 1) as nat);
    }
}

/// The relations a hypergraph fold over the first `k` relations holds are
/// the ones its type filter selects, in order.
proof fn lemma_hyper_fold_relations(state: DatabaseState, definition: HyperDefView, k: nat)
    ensures
        hyper_fold(state, definition, k) matches Ok(acc) ==> acc.relations == selected_relations(
            state,
            GraphDefView { relation_types: definition.relation_types, source_role: 0, target_role: 0 },
            k,
        ),
    decreases k,
{
    if k > 0 {
        lemma_hyper_fold_relations(state, definition, (k - 1) as nat);
    }
}

/// The relation-type filter of a hypergraph projection: a visible relation
/// is projected exactly when the definition lists no relation types, or the
/// relation has a type and the definition lists it.
pub proof fn lemma_hyper_projection_type_filter(state: DatabaseState, definition: HyperDefView, r: u64)
    ensures
        hypergraph_projection_of(state, definition) matches Ok(h) ==> (h.relations.contains(r) <==> (
        state.relation_order().contains(r) && match state.relations_v()[r].relation_type {
            None => definition.relation_types.is_empty(),
            Some(t) => definition.relation_types.is_empty() || definition.relation_types.contains(t),
        })),
{
    let gd = GraphDefView { relation_types: definition.relation_types, source_role: 0, target_role: 0 };
    lemma_hyper_fold_relations(state, definition, state.relation_order().len());
    lemma_selected_members(state, gd, state.relation_order().len(), r);
}

/// The hypergraph construction outcome for `state` under `definition`.
pub open spec fn hyper_build_of(state: DatabaseState, definition: HyperDefView) -> Result<
    HyperAcc,
    DbError,
> {
    if definition.source_roles.is_empty() || definition.target_roles.is_empty() {
        Err(
            DbError::InvalidProjection {
                reason: "hypergraph projection requires non-empty source and target roles",
            },
        )
    } else {
        hyper_fold(state, definition, state.relation_order().len())
    }
}

/// Every entry of every row is below `bound`.
pub open spec fn rows_below(rows: Seq<Seq<u32>>, bound: nat) -> bool {
    forall|h: int, x: int| 0 <= h < rows.len() && 0 <= x < rows[h].len() ==> #[trigger] rows[h][x] < bound
}

/// Structural facts of a hypergraph under construction that its finishing
/// pass relies on.
pub open spec fn hyper_acc_wf(acc: HyperAcc) -> bool {
    &&& acc.relation_incidences.len() == acc.relations.len()
    &&& acc.source_incidences.len() == acc.relations.len()
    &&& acc.target_incidences.len() == acc.relations.len()
    &&& acc.source_vertices.len() == acc.relations.len()
    &&& acc.target_vertices.len() == acc.relations.len()
    &&& rows_below(acc.relation_incidences, acc.incidences.len())
    &&& rows_below(acc.source_incidences, acc.incidences.len())
    &&& rows_below(acc.target_incidences, acc.incidences.len())
    &&& rows_below(acc.source_vertices, acc.elements.len())
    &&& rows_below(acc.target_vertices, acc.elements.len())
    &&& forall|i: int| 0 <= i < acc.incidences.len() ==> acc.elements.contains(#[trigger] acc.incidences[i].element.0)
    &&& forall|i: int| 0 <= i < acc.incidences.len() ==> acc.relations.contains(#[trigger] acc.incidences[i].relation.0)
}

/// Interns one incidence into projection-local storage.
fn intern_incidence(index: &mut BTreeMap<u64, u32>, incidences: &mut Vec<IncidenceRecord>, rec: IncidenceRecord) -> (r:
    Result<u32, DbError>)
    requires
        indexed(old(index)@, incidence_ids(old(incidences)@)),
    ensures
        match intern_incidence_spec(old(incidences)@, rec) {
            None => r == Err::<u32, DbError>(DbError::IdOverflow),
            Some((incs, local)) => r == Ok::<u32, DbError>(local) && final(incidences)@ == incs && indexed(
                final(index)@,
                incidence_ids(incs),
            ),
        },
{
    let ghost ids = incidence_ids(incidences@);
    match index.get(&rec.id.0) {
        Some(local) => {
            proof {
                assert(ids.contains(rec.id.0));
                let i = choose|i: int| 0 <= i < ids.len() && ids[i] == rec.id.0;
                lemma_index_of(ids, i);
            }
            Ok(*local)
        },
        None => {
            if incidences.len() as u64 > 0xFFFF_FFFFu64 {
                return Err(DbError::IdOverflow);
            }
            let local = incidences.len() as u32;
            incidences.push(rec);
            index.insert(rec.id.0, local);
            proof {
                let ids2 = incidence_ids(incidences@);
                assert(ids2 =~= ids.push(rec.id.0));
                assert(!ids.contains(rec.id.0));
                assert forall|k: u64| #[trigger] index@.contains_key(k) <==> ids2.contains(k) by {
                    if ids2.contains(k) && k != rec.id.0 {
                        let t = choose|t: int| 0 <= t < ids2.len() && ids2[t] == k;
                        assert(ids[t] == k);
                    }
                    if ids.contains(k) {
                        let t = choose|t: int| 0 <= t < ids.len() && ids[t] == k;
                        assert(ids2[t] == k);
                    }
                    if k == rec.id.0 {
                        assert(ids2[ids.len() as int] == k);
                    }
                }
                assert forall|i: int| 0 <= i < ids2.len() implies index@[#[trigger] ids2[i]] == i by {
                    if i < ids.len() {
                        assert(ids2[i] == ids[i]);
                        assert(ids.contains(ids[i]));
                    }
                }
            }
            Ok(local)
        },
    }
}

/// Executable state of a hypergraph projection under construction.
struct HyperBuilder {
    elements: Vec<ElementId>,
    element_index: BTreeMap<u64, u32>,
    relations: Vec<RelationId>,
    relation_index: BTreeMap<u64, u32>,
    incidences: Vec<IncidenceRecord>,
    incidence_index: BTreeMap<u64, u32>,
    relation_incidences: Vec<Vec<u32>>,
    source_incidences: Vec<Vec<u32>>,
    target_incidences: Vec<Vec<u32>>,
    source_vertices: Vec<Vec<u32>>,
    target_vertices: Vec<Vec<u32>>,
}

impl HyperBuilder {
    /// The construction state this builder holds.
    spec fn acc(&self) -> HyperAcc {
        HyperAcc {
            elements: element_ids(self.elements@),
            relations: relation_ids(self.relations@),
            incidences: self.incidences@,
            relation_incidences: rows_view(self.relation_incidences@),
            source_incidences: rows_view(self.source_incidences@),
            target_incidences: rows_view(self.target_incidences@),
            source_vertices: rows_view(self.source_vertices@),
            target_vertices: rows_view(self.target_vertices@),
        }
    }

    /// The index maps invert their lists and the structure is consistent.
    spec fn wf(&self) -> bool {
        &&& indexed(self.element_index@, element_ids(self.elements@))
        &&& indexed(self.relation_index@, relation_ids(self.relations@))
        &&& indexed(self.incidence_index@, incidence_ids(self.incidences@))
        &&& hyper_acc_wf(self.acc())
    }

    /// An empty builder.
    fn new() -> (b: Self)
        ensures
            b.wf(),
            b.acc() == hyper_empty(),
    {
        let b = HyperBuilder {
            elements: Vec::new(),
            element_index: BTreeMap::new(),
            relations: Vec::new(),
            relation_index: BTreeMap::new(),
            incidences: Vec::new(),
            incidence_index: BTreeMap::new(),
            relation_incidences: Vec::new(),
            source_incidences: Vec::new(),
            target_incidences: Vec::new(),
            source_vertices: Vec::new(),
            target_vertices: Vec::new(),
        };
        proof {
            assert(element_ids(b.elements@) =~= Seq::<u64>::empty());
            assert(relation_ids(b.relations@) =~= Seq::<u64>::empty());
            assert(incidence_ids(b.incidences@) =~= Seq::<u64>::empty());
            assert(b.element_index@ =~= Map::<u64, u32>::empty());
            assert(b.relation_index@ =~= Map::<u64, u32>::empty());
            assert(b.incidence_index@ =~= Map::<u64, u32>::empty());
            assert(rows_view(b.relation_incidences@) =~= Seq::<Seq<u32>>::empty());
            assert(rows_view(b.source_incidences@) =~= Seq::<Seq<u32>>::empty());
            assert(rows_view(b.target_incidences@) =~= Seq::<Seq<u32>>::empty());
            assert(rows_view(b.source_vertices@) =~= Seq::<Seq<u32>>::empty());
            assert(rows_view(b.target_vertices@) =~= Seq::<Seq<u32>>::empty());
            assert(b.acc() =~= hyper_empty());
        }
        b
    }
}


/// Appending a fresh id at the end of an indexed list keeps it indexed.
proof fn lemma_indexed_push(index: Map<u64, u32>, ids: Seq<u64>, k: u64)
    requires
        indexed(index, ids),
        !ids.contains(k),
        ids.len() <= u32::MAX,
    ensures
        indexed(index.insert(k, ids.len() as u32), ids.push(k)),
{
    let m = index.insert(k, ids.len() as u32);
    let ids2 = ids.push(k);
    assert forall|x: u64| #[trigger] m.contains_key(x) <==> ids2.contains(x) by {
        if ids2.contains(x) && x != k {
            let t = choose|t: int| 0 <= t < ids2.len() && ids2[t] == x;
            assert(ids[t] == x);
        }
        if ids.contains(x) {
            let t = choose|t: int| 0 <= t < ids.len() && ids[t] == x;
            assert(ids2[t] == x);
        }
        if x == k {
            assert(ids2[ids.len() as int] == x);
        }
    }
    assert forall|i: int| 0 <= i < ids2.len() implies m[#[trigger] ids2[i]] == i by {
        if i < ids.len() {
            assert(ids2[i] == ids[i]);
            assert(ids.contains(ids[i]));
        }
    }
    assert(ids2.no_duplicates());
}

impl HyperBuilder {
    /// Adds one selected relation as a hyperedge: its incidences in ascending
    /// id, each interned with its element, split into source and target sides
    /// by role.
    fn push_relation(
        &mut self,
        state: &DatabaseState,
        relation: RelationId,
        source_roles: &BTreeSet<u64>,
        target_roles: &BTreeSet<u64>,
    ) -> (r: Result<(), DbError>)
        requires
            old(self).wf(),
            state.wf(),
            !old(self).acc().relations.contains(relation.0),
        ensures
            match hyper_step(
                old(self).acc(),
                relation.0,
                state.incidence_order(relation.0),
                source_roles@,
                target_roles@,
            ) {
                Err(e) => r == Err::<(), DbError>(e),
                Ok(acc) => r is Ok && final(self).wf() && final(self).acc() == acc,
            },
    {
        let ghost acc0 = self.acc();
        let ghost start = scan_start(acc0);
        if self.relations.len() as u64 > 0xFFFF_FFFFu64 {
            return Err(DbError::IdOverflow);
        }
        let hyperedge = self.relations.len() as u32;
        proof {
            lemma_indexed_push(self.relation_index@, relation_ids(self.relations@), relation.0);
        }
        self.relations.push(relation);
        self.relation_index.insert(relation.0, hyperedge);
        proof {
            assert(relation_ids(self.relations@) =~= acc0.relations.push(relation.0));
        }
        let incs = state.relation_incidences(relation);
        let ghost all = incs@;
        let ghost rels = relation_ids(self.relations@);
        let mut row_ids: Vec<u32> = Vec::new();
        let mut source_ids: Vec<u32> = Vec::new();
        let mut target_ids: Vec<u32> = Vec::new();
        let mut sources: Vec<u32> = Vec::new();
        let mut targets: Vec<u32> = Vec::new();
        let mut i: usize = 0;
        proof {
            assert(all.take(0) =~= Seq::<IncidenceRecord>::empty());
            assert(row_ids@ =~= Seq::<u32>::empty());
            assert forall|t: int| 0 <= t < self.incidences@.len() implies rels.contains(
                #[trigger] self.incidences@[t].relation.0,
            ) by {
                assert(acc0.relations.contains(self.incidences@[t].relation.0));
                let x = choose|x: int| 0 <= x < acc0.relations.len() && acc0.relations[x] == self.incidences@[t].relation.0;
                assert(rels[x] == acc0.relations[x]);
            }
        }
        while i < incs.len()
            invariant
                i <= all.len(),
                all == incs@,
                all == state.incidence_order(relation.0),
                forall|rec: IncidenceRecord| #[trigger] all.contains(rec) ==> rec.relation == relation,
                start == scan_start(acc0),
                acc0 == old(self).acc(),
                acc0.relations.len() <= u32::MAX,
                hyper_acc_wf(acc0),
                rels == acc0.relations.push(relation.0),
                relation_ids(self.relations@) == rels,
                indexed(self.element_index@, element_ids(self.elements@)),
                indexed(self.relation_index@, rels),
                indexed(self.incidence_index@, incidence_ids(self.incidences@)),
                rows_view(self.relation_incidences@) == acc0.relation_incidences,
                rows_view(self.source_incidences@) == acc0.source_incidences,
                rows_view(self.target_incidences@) == acc0.target_incidences,
                rows_view(self.source_vertices@) == acc0.source_vertices,
                rows_view(self.target_vertices@) == acc0.target_vertices,
                acc0.elements.len() <= self.elements@.len(),
                acc0.incidences.len() <= self.incidences@.len(),
                forall|t: int| 0 <= t < self.incidences@.len() ==> element_ids(self.elements@).contains(
                    #[trigger] self.incidences@[t].element.0,
                ),
                forall|t: int| 0 <= t < self.incidences@.len() ==> rels.contains(
                    #[trigger] self.incidences@[t].relation.0,
                ),
                forall|t: int| 0 <= t < row_ids@.len() ==> #[trigger] row_ids@[t] < self.incidences@.len(),
                forall|t: int| 0 <= t < source_ids@.len() ==> #[trigger] source_ids@[t] < self.incidences@.len(),
                forall|t: int| 0 <= t < target_ids@.len() ==> #[trigger] target_ids@[t] < self.incidences@.len(),
                forall|t: int| 0 <= t < sources@.len() ==> #[trigger] sources@[t] < self.elements@.len(),
                forall|t: int| 0 <= t < targets@.len() ==> #[trigger] targets@[t] < self.elements@.len(),
                hyper_scan(start, all.take(i as int), source_roles@, target_roles@) == Ok::<HyperScan, DbError>(
                    HyperScan {
                        elements: element_ids(self.elements@),
                        incidences: self.incidences@,
                        relation_ids: row_ids@,
                        source_ids: source_ids@,
                        target_ids: target_ids@,
                        sources: sources@,
                        targets: targets@,
                    },
                ),
            decreases all.len() - i,
        {
            let inc = incs[i];
            proof {
                assert(all.take(i + 1).drop_last() =~= all.take(i as int));
                assert(all.take(i + 1).last() == inc);
                assert(all.contains(inc));
            }
            let ghost n_incs = self.incidences@.len();
            let ghost n_elems = self.elements@.len();
            let ghost incs_before = self.incidences@;
            let ghost elems_before = element_ids(self.elements@);
            proof {
                assert forall|t: int| 0 <= t < incs_before.len() implies elems_before.contains(
                    #[trigger] incs_before[t].element.0,
                ) by {
                    assert(element_ids(self.elements@).contains(self.incidences@[t].element.0));
                }
            }
            let local = match intern_incidence(&mut self.incidence_index, &mut self.incidences, inc) {
                Ok(l) => l,
                Err(e) => {
                    proof {
                        assert(hyper_scan(start, all.take(i + 1), source_roles@, target_roles@) == Err::<HyperScan, DbError>(e));
                        lemma_hyper_scan_error_sticks(start, all, i + 1, all.len() as int, source_roles@, target_roles@);
                        assert(all.take(all.len() as int) =~= all);
                        assert(hyper_scan(start, all, source_roles@, target_roles@) == Err::<HyperScan, DbError>(e));
                        assert(acc0.relations.len() <= u32::MAX);
                    }
                    return Err(e);
                },
            };
            let vertex = match intern_element(&mut self.element_index, &mut self.elements, inc.element) {
                Ok(v) => v,
                Err(e) => {
                    proof {
                        assert(hyper_scan(start, all.take(i + 1), source_roles@, target_roles@) == Err::<HyperScan, DbError>(e));
                        lemma_hyper_scan_error_sticks(start, all, i + 1, all.len() as int, source_roles@, target_roles@);
                        assert(all.take(all.len() as int) =~= all);
                        assert(hyper_scan(start, all, source_roles@, target_roles@) == Err::<HyperScan, DbError>(e));
                        assert(acc0.relations.len() <= u32::MAX);
                    }
                    return Err(e);
                },
            };
            proof {
                let ids = incidence_ids(incs_before);
                if ids.contains(inc.id.0) {
                    let x = choose|x: int| 0 <= x < ids.len() && ids[x] == inc.id.0;
                    lemma_index_of(ids, x);
                }
                if elems_before.contains(inc.element.0) {
                    let x = choose|x: int| 0 <= x < elems_before.len() && elems_before[x] == inc.element.0;
                    lemma_index_of(elems_before, x);
                    assert(vertex < self.elements@.len());
                } else {
                    assert(element_ids(self.elements@)[elems_before.len() as int] == inc.element.0);
                }
                assert(element_ids(self.elements@).contains(inc.element.0));
                assert forall|t: int| 0 <= t < self.incidences@.len() implies element_ids(self.elements@).contains(
                    #[trigger] self.incidences@[t].element.0,
                ) by {
                    if t < incs_before.len() {
                        assert(self.incidences@[t] == incs_before[t]);
                        let w = self.incidences@[t].element.0;
                        assert(elems_before.contains(incs_before[t].element.0));
                        let x = choose|x: int| 0 <= x < elems_before.len() && elems_before[x] == w;
                        assert(element_ids(self.elements@)[x] == w);
                    }
                }
                assert forall|t: int| 0 <= t < self.incidences@.len() implies rels.contains(
                    #[trigger] self.incidences@[t].relation.0,
                ) by {
                    if t < incs_before.len() {
                        assert(self.incidences@[t] == incs_before[t]);
                    } else {
                        assert(self.incidences@[t] == inc);
                        assert(rels[rels.len() - 1] == relation.0);
                    }
                }
            }
            row_ids.push(local);
            if source_roles.contains(&inc.role.0) {
                source_ids.push(local);
                sources.push(vertex);
            }
            if target_roles.contains(&inc.role.0) {
                target_ids.push(local);
                targets.push(vertex);
            }
            i = i + 1;
        }
        proof {
            assert(all.take(i as int) =~= all);
        }
        if sources.len() == 0 || targets.len() == 0 {
            return Err(DbError::invalid_projection("selected hyperedge lacks source or target participants"));
        }
        self.relation_incidences.push(row_ids);
        self.source_incidences.push(source_ids);
        self.target_incidences.push(target_ids);
        self.source_vertices.push(sources);
        self.target_vertices.push(targets);
        proof {
            let acc = self.acc();
            assert(acc.relation_incidences =~= acc0.relation_incidences.push(row_ids@));
            assert(acc.source_incidences =~= acc0.source_incidences.push(source_ids@));
            assert(acc.target_incidences =~= acc0.target_incidences.push(target_ids@));
            assert(acc.source_vertices =~= acc0.source_vertices.push(sources@));
            assert(acc.target_vertices =~= acc0.target_vertices.push(targets@));
            assert(rows_below(acc.relation_incidences, acc.incidences.len()));
            assert(rows_below(acc.source_incidences, acc.incidences.len()));
            assert(rows_below(acc.target_incidences, acc.incidences.len()));
            assert(rows_below(acc.source_vertices, acc.elements.len()));
            assert(rows_below(acc.target_vertices, acc.elements.len()));
        }
        Ok(())
    }
}


/// The local incidences among the first `k` whose element is local element
/// `v`, ascending.
pub open spec fn element_incidences_upto(elements: Seq<u64>, incs: Seq<IncidenceRecord>, k: nat, v: int) -> Seq<u32>
    decreases k,
{
    if k == 0 {
        Seq::empty()
    } else {
        let prev = element_incidences_upto(elements, incs, (k - 1) as nat, v);
        if elements.index_of(incs[k - 1].element.0) == v {
            prev.push((k - 1) as u32)
        } else {
            prev
        }
    }
}

/// The hyperedges among the first `k` whose row holds `v`, ascending.
pub open spec fn member_upto(rows: Seq<Seq<u32>>, k: nat, v: int) -> Seq<u32>
    decreases k,
{
    if k == 0 {
        Seq::empty()
    } else {
        let prev = member_upto(rows, (k - 1) as nat, v);
        if rows[k - 1].contains(v as u32) {
            prev.push((k - 1) as u32)
        } else {
            prev
        }
    }
}

/// The vertices on the `to` side of a hyperedge that has `v` on its `from`
/// side.
pub open spec fn neighbour_set(from: Seq<Seq<u32>>, to: Seq<Seq<u32>>, v: int) -> Set<u64> {
    Set::new(
        |t: u64|
            exists|h: int, x: int|
                0 <= h < from.len() && #[trigger] from[h].contains(v as u32) && 0 <= x < to[h].len() && #[trigger] to[h][x]
                    == t,
    )
}

/// The content of a hypergraph projection.
pub struct HyperView {
    /// Canonical element ids by local id.
    pub elements: Seq<u64>,
    /// Canonical relation ids by local id.
    pub relations: Seq<u64>,
    /// Incidence records by local id.
    pub incidences: Seq<IncidenceRecord>,
    /// Local incidences by hyperedge.
    pub relation_incidences: Seq<Seq<u32>>,
    /// Local incidences by element.
    pub element_incidences: Seq<Seq<u32>>,
    /// Source-side local incidences by hyperedge.
    pub source_incidences: Seq<Seq<u32>>,
    /// Target-side local incidences by hyperedge.
    pub target_incidences: Seq<Seq<u32>>,
    /// Source-side local elements by hyperedge.
    pub source_vertices: Seq<Seq<u32>>,
    /// Target-side local elements by hyperedge.
    pub target_vertices: Seq<Seq<u32>>,
    /// Hyperedges each element is a source of, ascending.
    pub outgoing: Seq<Seq<u32>>,
    /// Hyperedges each element is a target of, ascending.
    pub incoming: Seq<Seq<u32>>,
    /// Distinct directed successors of each element, ascending.
    pub successors: Seq<Seq<u32>>,
    /// Distinct directed predecessors of each element, ascending.
    pub predecessors: Seq<Seq<u32>>,
}

/// The finished hypergraph of a construction state.
pub open spec fn hyper_view_of(acc: HyperAcc) -> HyperView {
    let n = acc.elements.len();
    let h = acc.relations.len();
    HyperView {
        elements: acc.elements,
        relations: acc.relations,
        incidences: acc.incidences,
        relation_incidences: acc.relation_incidences,
        element_incidences: Seq::new(
            n,
            |v: int| element_incidences_upto(acc.elements, acc.incidences, acc.incidences.len(), v),
        ),
        source_incidences: acc.source_incidences,
        target_incidences: acc.target_incidences,
        source_vertices: acc.source_vertices,
        target_vertices: acc.target_vertices,
        outgoing: Seq::new(n, |v: int| member_upto(acc.source_vertices, h, v)),
        incoming: Seq::new(n, |v: int| member_upto(acc.target_vertices, h, v)),
        successors: Seq::new(
            n,
            |v: int| sorted_listing(neighbour_set(acc.source_vertices, acc.target_vertices, v)).map_values(|x: u64| x as u32),
        ),
        predecessors: Seq::new(
            n,
            |v: int| sorted_listing(neighbour_set(acc.target_vertices, acc.source_vertices, v)).map_values(|x: u64| x as u32),
        ),
    }
}

/// An element-major incidence row up to `k` holds exactly the incidences
/// below `k` whose element sits at local id `v`.
proof fn lemma_element_incidences_members(elements: Seq<u64>, incs: Seq<IncidenceRecord>, k: nat, v: int)
    requires
        k <= incs.len(),
        k <= u32::MAX + 1,
    ensures
        forall|j: int|
            0 <= j < element_incidences_upto(elements, incs, k, v).len() ==> (#[trigger] element_incidences_upto(
                elements,
                incs,
                k,
                v,
            )[j]) < k && elements.index_of(incs[element_incidences_upto(elements, incs, k, v)[j] as int].element.0) == v,
        forall|i: int|
            0 <= i < k && elements.index_of((#[trigger] incs[i]).element.0) == v ==> element_incidences_upto(
                elements,
                incs,
                k,
                v,
            ).contains(i as u32),
    decreases k,
{
    if k > 0 {
        lemma_element_incidences_members(elements, incs, (k - 1) as nat, v);
        let prev = element_incidences_upto(elements, incs, (k - 1) as nat, v);
        let row = element_incidences_upto(elements, incs, k, v);
        assert forall|j: int| 0 <= j < row.len() implies (#[trigger] row[j]) < k && elements.index_of(
            incs[row[j] as int].element.0,
        ) == v by {
            if j < prev.len() {
                assert(row[j] == prev[j]);
            }
        }
        assert forall|i: int| 0 <= i < k && elements.index_of((#[trigger] incs[i]).element.0) == v implies row.contains(
            i as u32,
        ) by {
            if i < k - 1 {
                let t = choose|t: int| 0 <= t < prev.len() && prev[t] == i as u32;
                assert(row[t] == i as u32);
            } else {
                assert(row[prev.len() as int] == i as u32);
            }
        }
    }
}

/// A membership row up to `k` holds exactly the rows below `k` that hold `v`.
proof fn lemma_member_upto_members(rows: Seq<Seq<u32>>, k: nat, v: int)
    requires
        k <= rows.len(),
        k <= u32::MAX + 1,
    ensures
        forall|h: int| 0 <= h < k ==> (member_upto(rows, k, v).contains(h as u32) <==> #[trigger] rows[h].contains(v as u32)),
        forall|j: int| 0 <= j < member_upto(rows, k, v).len() ==> #[trigger] member_upto(rows, k, v)[j] < k,
    decreases k,
{
    if k > 0 {
        lemma_member_upto_members(rows, (k - 1) as nat, v);
        let prev = member_upto(rows, (k - 1) as nat, v);
        let row = member_upto(rows, k, v);
        assert forall|j: int| 0 <= j < row.len() implies #[trigger] row[j] < k by {
            if j < prev.len() {
                assert(row[j] == prev[j]);
            }
        }
        assert forall|h: int| 0 <= h < k implies (row.contains(h as u32) <==> #[trigger] rows[h].contains(v as u32)) by {
            if h < k - 1 {
                if prev.contains(h as u32) {
                    let t = choose|t: int| 0 <= t < prev.len() && prev[t] == h as u32;
                    assert(row[t] == h as u32);
                }
                if row.contains(h as u32) {
                    let t = choose|t: int| 0 <= t < row.len() && row[t] == h as u32;
                    if t < prev.len() {
                        assert(row[t] == prev[t]);
                    } else {
                        assert(row[t] == (k - 1) as u32);
                    }
                }
            } else {
                if rows[h].contains(v as u32) {
                    assert(row[prev.len() as int] == h as u32);
                } else if row.contains(h as u32) {
                    let t = choose|t: int| 0 <= t < row.len() && row[t] == h as u32;
                    assert(row == prev);
                    assert(prev[t] < k - 1);
                }
            }
        }
    }
}

/// The structural facts every hypergraph projection keeps: its derived rows
/// are those of its relation-major rows, every row entry names one of its
/// incidences or nodes, every incidence names one of its nodes and
/// hyperedges, and its id lists fit the local id range.
pub open spec fn hyper_wf(v: HyperView) -> bool {
    &&& v == hyper_view_of(hyper_acc_of(v))
    &&& hyper_acc_wf(hyper_acc_of(v))
    &&& v.elements.no_duplicates()
    &&& v.elements.len() <= u32::MAX + 1
    &&& v.relations.len() <= u32::MAX + 1
    &&& v.incidences.len() <= u32::MAX + 1
}

/// Incidence duality of a hypergraph projection: every incidence is listed
/// under its own element, every incidence listed under an element belongs to
/// it, and an element's outgoing (incoming) hyperedges are exactly those
/// whose source (target) side holds it.
pub proof fn lemma_hyper_incidence_duality(v: HyperView)
    requires
        hyper_wf(v),
    ensures
        forall|i: int|
            0 <= i < v.incidences.len() ==> v.element_incidences[v.elements.index_of(
                (#[trigger] v.incidences[i]).element.0,
            )].contains(i as u32),
        forall|u: int, j: int|
            0 <= u < v.elements.len() && 0 <= j < v.element_incidences[u].len() ==> (#[trigger] v.element_incidences[u][j])
                < v.incidences.len() && v.elements.index_of(v.incidences[v.element_incidences[u][j] as int].element.0)
                == u,
        forall|u: int, h: int|
            0 <= u < v.elements.len() && 0 <= h < v.relations.len() ==> (v.outgoing[u].contains(h as u32)
                <==> #[trigger] v.source_vertices[h].contains(u as u32)),
        forall|u: int, h: int|
            0 <= u < v.elements.len() && 0 <= h < v.relations.len() ==> (v.incoming[u].contains(h as u32)
                <==> #[trigger] v.target_vertices[h].contains(u as u32)),
{
    let acc = hyper_acc_of(v);
    let n = v.elements.len();
    let m = v.incidences.len();
    assert forall|i: int| 0 <= i < m implies v.element_incidences[v.elements.index_of(
        (#[trigger] v.incidences[i]).element.0,
    )].contains(i as u32) by {
        let e = v.incidences[i].element.0;
        assert(v.elements.contains(e));
        let u = v.elements.index_of(e);
        lemma_element_incidences_members(v.elements, v.incidences, m, u);
        assert(v.element_incidences[u] == element_incidences_upto(v.elements, v.incidences, m, u));
    }
    assert forall|u: int, j: int| 0 <= u < n && 0 <= j < v.element_incidences[u].len() implies (
    #[trigger] v.element_incidences[u][j]) < m && v.elements.index_of(v.incidences[v.element_incidences[u][j] as int].element.0)
        == u by {
        lemma_element_incidences_members(v.elements, v.incidences, m, u);
        assert(v.element_incidences[u] == element_incidences_upto(v.elements, v.incidences, m, u));
    }
    assert forall|u: int, h: int| 0 <= u < n && 0 <= h < v.relations.len() implies (v.outgoing[u].contains(h as u32)
        <==> #[trigger] v.source_vertices[h].contains(u as u32)) by {
        lemma_member_upto_members(v.source_vertices, v.relations.len(), u);
        assert(v.outgoing[u] == member_upto(v.source_vertices, v.relations.len(), u));
    }
    assert forall|u: int, h: int| 0 <= u < n && 0 <= h < v.relations.len() implies (v.incoming[u].contains(h as u32)
        <==> #[trigger] v.target_vertices[h].contains(u as u32)) by {
        lemma_member_upto_members(v.target_vertices, v.relations.len(), u);
        assert(v.incoming[u] == member_upto(v.target_vertices, v.relations.len(), u));
    }
}

/// The hypergraph projection of `state` under `definition`, or the first
/// error met.
pub open spec fn hypergraph_projection_of(state: DatabaseState, definition: HyperDefView) -> Result<
    HyperView,
    DbError,
> {
    match hyper_build_of(state, definition) {
        Err(e) => Err(e),
        Ok(acc) => Ok(hyper_view_of(acc)),
    }
}

/// Groups the incidences by the local id of their element.
fn build_element_incidences(
    n: usize,
    elements: &Vec<ElementId>,
    element_index: &BTreeMap<u64, u32>,
    incidences: &Vec<IncidenceRecord>,
) -> (rows: Vec<Vec<u32>>)
    requires
        n == elements@.len(),
        indexed(element_index@, element_ids(elements@)),
        incidences@.len() <= u32::MAX + 1,
        forall|i: int| 0 <= i < incidences@.len() ==> element_ids(elements@).contains(#[trigger] incidences@[i].element.0),
    ensures
        rows@.len() == n,
        forall|v: int| 0 <= v < n ==> (#[trigger] rows@[v])@ == element_incidences_upto(
            element_ids(elements@),
            incidences@,
            incidences@.len(),
            v,
        ),
{
    let ghost ids = element_ids(elements@);
    let mut rows = empty_rows(n);
    let mut i: usize = 0;
    while i < incidences.len()
        invariant
            i <= incidences@.len(),
            incidences@.len() <= u32::MAX + 1,
            n == ids.len(),
            ids == element_ids(elements@),
            indexed(element_index@, ids),
            forall|t: int| 0 <= t < incidences@.len() ==> ids.contains(#[trigger] incidences@[t].element.0),
            rows@.len() == n,
            forall|v: int| 0 <= v < n ==> (#[trigger] rows@[v])@ == element_incidences_upto(ids, incidences@, i as nat, v),
        decreases incidences@.len() - i,
    {
        let e = incidences[i].element.0;
        proof {
            assert(ids.contains(incidences@[i as int].element.0));
        }
        match element_index.get(&e) {
            Some(local) => {
                proof {
                    let x = choose|x: int| 0 <= x < ids.len() && ids[x] == e;
                    lemma_index_of(ids, x);
                }
                push_row(&mut rows, *local as usize, i as u32);
                proof {
                    assert forall|v: int| 0 <= v < n implies (#[trigger] rows@[v])@ == element_incidences_upto(
                        ids,
                        incidences@,
                        (i + 1) as nat,
                        v,
                    ) by {
                        assert(element_incidences_upto(ids, incidences@, (i + 1) as nat, v) == if ids.index_of(
                            incidences@[i as int].element.0,
                        ) == v {
                            element_incidences_upto(ids, incidences@, i as nat, v).push(i as u32)
                        } else {
                            element_incidences_upto(ids, incidences@, i as nat, v)
                        });
                    }
                }
            },
            None => {
                proof {
                    assert(false);
                }
            },
        }
        i = i + 1;
    }
    rows
}

/// Every hyperedge listed by `member_upto` is below `k`.
proof fn lemma_member_upto_below(rows: Seq<Seq<u32>>, k: nat, v: int)
    requires
        k <= u32::MAX + 1,
    ensures
        forall|j: int| 0 <= j < member_upto(rows, k, v).len() ==> (#[trigger] member_upto(rows, k, v)[j]) < k,
    decreases k,
{
    if k > 0 {
        lemma_member_upto_below(rows, (k - 1) as nat, v);
        let prev = member_upto(rows, (k - 1) as nat, v);
        assert forall|j: int| 0 <= j < member_upto(rows, k, v).len() implies (#[trigger] member_upto(rows, k, v)[j]) < k by {
            if j < prev.len() {
                assert(member_upto(rows, k, v)[j] == prev[j]);
            }
        }
    }
}

/// `member_upto` lists exactly the hyperedges whose row holds `v`.
proof fn lemma_member_upto_contains(rows: Seq<Seq<u32>>, k: nat, v: int, h: int)
    requires
        k <= rows.len(),
        k <= u32::MAX + 1,
    ensures
        member_upto(rows, k, v).contains(h as u32) && 0 <= h <= u32::MAX <==> 0 <= h < k && rows[h].contains(v as u32),
    decreases k,
{
    if k > 0 {
        lemma_member_upto_contains(rows, (k - 1) as nat, v, h);
        lemma_member_upto_below(rows, (k - 1) as nat, v);
        let prev = member_upto(rows, (k - 1) as nat, v);
        let cur = member_upto(rows, k, v);
        if rows[k - 1].contains(v as u32) {
            assert(cur == prev.push((k - 1) as u32));
            if cur.contains(h as u32) && 0 <= h <= u32::MAX {
                let j = choose|j: int| 0 <= j < cur.len() && cur[j] == h as u32;
                if j < prev.len() {
                    assert(prev[j] == h as u32);
                    assert(prev.contains(h as u32));
                }
            }
            if 0 <= h < k && rows[h].contains(v as u32) {
                if h < k - 1 {
                    assert(prev.contains(h as u32));
                    let j = choose|j: int| 0 <= j < prev.len() && prev[j] == h as u32;
                    assert(cur[j] == h as u32);
                } else {
                    assert(cur[prev.len() as int] == h as u32);
                }
            }
        } else {
            assert(cur == prev);
        }
    }
}

/// For each of `n` nodes, the hyperedges whose row holds it, ascending and
/// once each.
fn build_membership(n: usize, rows: &Vec<Vec<u32>>) -> (out: Vec<Vec<u32>>)
    requires
        rows_below(rows_view(rows@), n as nat),
        rows@.len() <= u32::MAX + 1,
        n <= u32::MAX + 1,
    ensures
        out@.len() == n,
        forall|v: int| 0 <= v < n ==> (#[trigger] out@[v])@ == member_upto(rows_view(rows@), rows@.len() as nat, v),
{
    let ghost r = rows_view(rows@);
    let mut out = empty_rows(n);
    let mut h: usize = 0;
    while h < rows.len()
        invariant
            h <= rows@.len(),
            rows@.len() <= u32::MAX + 1,
            n <= u32::MAX + 1,
            r == rows_view(rows@),
            rows_below(r, n as nat),
            out@.len() == n,
            forall|v: int| 0 <= v < n ==> (#[trigger] out@[v])@ == member_upto(r, h as nat, v),
        decreases rows@.len() - h,
    {
        let row = &rows[h];
        proof {
            assert(r[h as int] == row@);
        }
        let mut j: usize = 0;
        while j < row.len()
            invariant
                j <= row@.len(),
                h < rows@.len(),
                rows@.len() <= u32::MAX + 1,
                n <= u32::MAX + 1,
                r == rows_view(rows@),
                r[h as int] == row@,
                rows_below(r, n as nat),
                out@.len() == n,
                forall|v: int| 0 <= v < n ==> (#[trigger] out@[v])@ == member_upto(r, h as nat, v) + if row@.take(
                    j as int,
                ).contains(v as u32) {
                    seq![h as u32]
                } else {
                    Seq::<u32>::empty()
                },
            decreases row@.len() - j,
        {
            let x = row[j];
            proof {
                assert(r[h as int][j as int] < n);
                lemma_member_upto_below(r, h as nat, x as int);
            }
            let fresh = out[x as usize].len() == 0 || out[x as usize][out[x as usize].len() - 1] != h as u32;
            proof {
                let base = member_upto(r, h as nat, x as int);
                if row@.take(j as int).contains(x) {
                    assert(out@[x as int]@ == base + seq![h as u32]);
                    assert(out@[x as int]@.last() == h as u32);
                } else {
                    assert(out@[x as int]@ == base + Seq::<u32>::empty());
                    assert(out@[x as int]@ =~= base);
                    if base.len() > 0 {
                        assert(base[base.len() - 1] < h);
                    }
                }
            }
            if fresh {
                push_row(&mut out, x as usize, h as u32);
            }
            proof {
                assert(row@.take(j + 1) =~= row@.take(j as int).push(x));
                assert forall|v: int| 0 <= v < n implies (#[trigger] out@[v])@ == member_upto(r, h as nat, v) + if row@.take(
                    j + 1,
                ).contains(v as u32) {
                    seq![h as u32]
                } else {
                    Seq::<u32>::empty()
                } by {
                    let t1 = row@.take(j + 1);
                    let t0 = row@.take(j as int);
                    if t0.contains(v as u32) {
                        let q = choose|q: int| 0 <= q < t0.len() && t0[q] == v as u32;
                        assert(t1[q] == v as u32);
                    }
                    if t1.contains(v as u32) && v != x {
                        let q = choose|q: int| 0 <= q < t1.len() && t1[q] == v as u32;
                        assert(v as u32 == v);
                        assert(q < t0.len());
                        assert(t0[q] == v as u32);
                    }
                    if v == x {
                        assert(t1[j as int] == x);
                    }
                    if v == x && !t0.contains(v as u32) {
                        assert(out@[v]@ =~= member_upto(r, h as nat, v) + seq![h as u32]);
                    }
                }
            }
            j = j + 1;
        }
        proof {
            assert(row@.take(j as int) =~= row@);
            assert forall|v: int| 0 <= v < n implies (#[trigger] out@[v])@ == member_upto(r, (h + 1) as nat, v) by {
                if row@.contains(v as u32) {
                    assert(member_upto(r, (h + 1) as nat, v) =~= member_upto(r, h as nat, v) + seq![h as u32]);
                } else {
                    assert(member_upto(r, (h + 1) as nat, v) =~= member_upto(r, h as nat, v) + Seq::<u32>::empty());
                }
            }
        }
        h = h + 1;
    }
    out
}


/// The `to`-side vertices of the first `a` hyperedges listed in `row`.
pub open spec fn gathered(to: Seq<Seq<u32>>, row: Seq<u32>, a: int) -> Set<u64> {
    Set::new(
        |t: u64|
            exists|b: int, x: int|
                0 <= b < a && 0 <= x < to[row[b] as int].len() && #[trigger] to[row[b] as int][x] == t,
    )
}

/// The first `x` entries of a row, as a set.
pub open spec fn prefix_set(row: Seq<u32>, x: int) -> Set<u64> {
    Set::new(|t: u64| exists|y: int| 0 <= y < x && #[trigger] row[y] == t)
}

/// For each of `n` nodes, its distinct neighbours across the hyperedges it
/// belongs to on the `from` side, ascending.
fn build_neighbours(n: usize, member: &Vec<Vec<u32>>, from: &Vec<Vec<u32>>, to: &Vec<Vec<u32>>) -> (out: Vec<
    Vec<u32>,
>)
    requires
        member@.len() == n,
        from@.len() == to@.len(),
        from@.len() <= u32::MAX + 1,
        forall|v: int| 0 <= v < n ==> (#[trigger] member@[v])@ == member_upto(rows_view(from@), from@.len() as nat, v),
    ensures
        out@.len() == n,
        forall|v: int| 0 <= v < n ==> (#[trigger] out@[v])@ == sorted_listing(
            neighbour_set(rows_view(from@), rows_view(to@), v),
        ).map_values(|x: u64| x as u32),
{
    let ghost f = rows_view(from@);
    let ghost tv = rows_view(to@);
    let mut out: Vec<Vec<u32>> = Vec::new();
    let mut v: usize = 0;
    while v < n
        invariant
            v <= n,
            member@.len() == n,
            from@.len() == to@.len(),
            from@.len() <= u32::MAX + 1,
            f == rows_view(from@),
            tv == rows_view(to@),
            forall|w: int| 0 <= w < n ==> (#[trigger] member@[w])@ == member_upto(f, from@.len() as nat, w),
            out@.len() == v,
            forall|w: int| 0 <= w < v ==> (#[trigger] out@[w])@ == sorted_listing(neighbour_set(f, tv, w)).map_values(
                |x: u64| x as u32,
            ),
        decreases n - v,
    {
        let row = &member[v];
        proof {
            lemma_member_upto_below(f, from@.len() as nat, v as int);
        }
        let mut set: BTreeSet<u64> = BTreeSet::new();
        let mut a: usize = 0;
        proof {
            assert(set@ =~= gathered(tv, row@, 0));
        }
        while a < row.len()
            invariant
                a <= row@.len(),
                from@.len() == to@.len(),
                tv == rows_view(to@),
                forall|j: int| 0 <= j < row@.len() ==> (#[trigger] row@[j]) < from@.len(),
                set@ == gathered(tv, row@, a as int),
            decreases row@.len() - a,
        {
            let h = row[a];
            let tr = &to[h as usize];
            proof {
                assert(tv[h as int] == tr@);
            }
            let mut x: usize = 0;
            proof {
                assert(set@ =~= gathered(tv, row@, a as int).union(prefix_set(tr@, 0)));
            }
            while x < tr.len()
                invariant
                    x <= tr@.len(),
                    a < row@.len(),
                    h == row@[a as int],
                    tv[h as int] == tr@,
                    set@ == gathered(tv, row@, a as int).union(prefix_set(tr@, x as int)),
                decreases tr@.len() - x,
            {
                set.insert(tr[x] as u64);
                proof {
                    assert forall|t: u64| #[trigger] prefix_set(tr@, x + 1).contains(t) <==> prefix_set(
                        tr@,
                        x as int,
                    ).insert(tr@[x as int] as u64).contains(t) by {
                        if prefix_set(tr@, x + 1).contains(t) {
                            let y = choose|y: int| 0 <= y < x + 1 && #[trigger] tr@[y] == t;
                            if y < x {
                                assert(prefix_set(tr@, x as int).contains(t));
                            }
                        }
                        if prefix_set(tr@, x as int).contains(t) {
                            let y = choose|y: int| 0 <= y < x && #[trigger] tr@[y] == t;
                            assert(tr@[y] == t);
                        }
                        if t == tr@[x as int] as u64 {
                            assert(tr@[x as int] == t);
                        }
                    }
                    assert(set@ =~= gathered(tv, row@, a as int).union(prefix_set(tr@, x + 1)));
                }
                x = x + 1;
            }
            proof {
                assert forall|t: u64| #[trigger] gathered(tv, row@, a + 1).contains(t) <==> gathered(
                    tv,
                    row@,
                    a as int,
                ).union(prefix_set(tr@, x as int)).contains(t) by {
                    if gathered(tv, row@, a + 1).contains(t) {
                        let (b, y) = choose|b: int, y: int|
                            0 <= b < a + 1 && 0 <= y < tv[row@[b] as int].len() && #[trigger] tv[row@[b] as int][y] == t;
                        if b < a {
                            assert(gathered(tv, row@, a as int).contains(t));
                        } else {
                            assert(tr@[y] == t);
                            assert(prefix_set(tr@, x as int).contains(t));
                        }
                    }
                    if gathered(tv, row@, a as int).contains(t) {
                        let (b, y) = choose|b: int, y: int|
                            0 <= b < a && 0 <= y < tv[row@[b] as int].len() && #[trigger] tv[row@[b] as int][y] == t;
                        assert(tv[row@[b] as int][y] == t);
                    }
                    if prefix_set(tr@, x as int).contains(t) {
                        let y = choose|y: int| 0 <= y < x && #[trigger] tr@[y] == t;
                        assert(tv[row@[a as int] as int][y] == t);
                    }
                }
                assert(set@ =~= gathered(tv, row@, a + 1));
            }
            a = a + 1;
        }
        proof {
            assert forall|t: u64| #[trigger] set@.contains(t) <==> neighbour_set(f, tv, v as int).contains(t) by {
                if set@.contains(t) {
                    let (b, y) = choose|b: int, y: int|
                        0 <= b < a && 0 <= y < tv[row@[b] as int].len() && #[trigger] tv[row@[b] as int][y] == t;
                    let h = row@[b] as int;
                    assert(row@.contains(row@[b]));
                    lemma_member_upto_contains(f, from@.len() as nat, v as int, h);
                    assert(f[h].contains(v as u32));
                    assert(tv[h][y] == t);
                }
                if neighbour_set(f, tv, v as int).contains(t) {
                    let (h, y) = choose|h: int, y: int|
                        0 <= h < f.len() && #[trigger] f[h].contains(v as u32) && 0 <= y < tv[h].len() && #[trigger] tv[h][y]
                            == t;
                    lemma_member_upto_contains(f, from@.len() as nat, v as int, h);
                    let b = choose|b: int| 0 <= b < row@.len() && row@[b] == h as u32;
                    assert(tv[row@[b] as int][y] == t);
                }
            }
            assert(set@ =~= neighbour_set(f, tv, v as int));
        }
        let members = sorted_members(&set);
        let mut r: Vec<u32> = Vec::new();
        let mut k: usize = 0;
        while k < members.len()
            invariant
                k <= members@.len(),
                members@.to_set() == set@,
                forall|t: u64| #[trigger] set@.contains(t) ==> t <= u32::MAX,
                r@ == members@.take(k as int).map_values(|x: u64| x as u32),
            decreases members@.len() - k,
        {
            proof {
                assert(members@.to_set().contains(members@[k as int]));
            }
            r.push(members[k] as u32);
            proof {
                assert(r@ =~= members@.take(k + 1).map_values(|x: u64| x as u32));
            }
            k = k + 1;
        }
        proof {
            assert(members@.take(k as int) =~= members@);
            assert(ascending(members@));
            lemma_sorted_listing(members@);
        }
        out.push(r);
        v = v + 1;
    }
    out
}


/// Materialized directed hypergraph projection.
#[derive(Debug)]
pub struct HypergraphProjection {
    /// Projection definition used to build this view.
    definition: HypergraphProjectionDefinition,
    /// Local-to-canonical elements.
    elements: Vec<ElementId>,
    /// Canonical-to-local elements.
    element_index: BTreeMap<u64, u32>,
    /// Local-to-canonical relations.
    relations: Vec<RelationId>,
    /// Canonical-to-local relations.
    relation_index: BTreeMap<u64, u32>,
    /// Local incidence records.
    incidences: Vec<IncidenceRecord>,
    /// Canonical-to-local incidences.
    incidence_index: BTreeMap<u64, u32>,
    /// Relation-major incidence ids.
    relation_incidences: Vec<Vec<u32>>,
    /// Element-major incidence ids.
    element_incidences: Vec<Vec<u32>>,
    /// Source-side incidence ids by relation.
    source_incidences: Vec<Vec<u32>>,
    /// Target-side incidence ids by relation.
    target_incidences: Vec<Vec<u32>>,
    /// Source-side element ids by relation.
    source_vertices: Vec<Vec<u32>>,
    /// Target-side element ids by relation.
    target_vertices: Vec<Vec<u32>>,
    /// Outgoing hyperedges by source-side element.
    outgoing_hyperedges: Vec<Vec<u32>>,
    /// Incoming hyperedges by target-side element.
    incoming_hyperedges: Vec<Vec<u32>>,
    /// Directed successor elements by source-side element.
    successors: Vec<Vec<u32>>,
    /// Directed predecessor elements by target-side element.
    predecessors: Vec<Vec<u32>>,
}

impl View for HypergraphProjection {
    type V = HyperView;

    closed spec fn view(&self) -> HyperView {
        HyperView {
            elements: element_ids(self.elements@),
            relations: relation_ids(self.relations@),
            incidences: self.incidences@,
            relation_incidences: rows_view(self.relation_incidences@),
            element_incidences: rows_view(self.element_incidences@),
            source_incidences: rows_view(self.source_incidences@),
            target_incidences: rows_view(self.target_incidences@),
            source_vertices: rows_view(self.source_vertices@),
            target_vertices: rows_view(self.target_vertices@),
            outgoing: rows_view(self.outgoing_hyperedges@),
            incoming: rows_view(self.incoming_hyperedges@),
            successors: rows_view(self.successors@),
            predecessors: rows_view(self.predecessors@),
        }
    }
}

/// The construction state a hypergraph view was finished from.
pub open spec fn hyper_acc_of(view: HyperView) -> HyperAcc {
    HyperAcc {
        elements: view.elements,
        relations: view.relations,
        incidences: view.incidences,
        relation_incidences: view.relation_incidences,
        source_incidences: view.source_incidences,
        target_incidences: view.target_incidences,
        source_vertices: view.source_vertices,
        target_vertices: view.target_vertices,
    }
}

impl HypergraphProjection {
    /// Internal consistency: the derived arrays are those of the relation-
    /// major arrays and the id maps invert their lists.
    #[verifier::type_invariant]
    closed spec fn inv(self) -> bool {
        &&& self@ == hyper_view_of(hyper_acc_of(self@))
        &&& hyper_acc_wf(hyper_acc_of(self@))
        &&& indexed(self.element_index@, self@.elements)
        &&& indexed(self.relation_index@, self@.relations)
        &&& indexed(self.incidence_index@, incidence_ids(self@.incidences))
    }

    /// The definition the projection was built from.
    pub closed spec fn definition_v(&self) -> HypergraphProjectionDefinition {
        self.definition
    }

    /// Builds a hypergraph projection from canonical state: every selected
    /// relation, in ascending relation id, becomes one hyperedge whose
    /// incidences split into a source side and a target side by role.
    pub fn from_state(state: &DatabaseState, definition: HypergraphProjectionDefinition) -> (r: Result<
        HypergraphProjection,
        DbError,
    >)
        requires
            state.wf(),
        ensures
            match hypergraph_projection_of(*state, hyper_def_view(definition)) {
                Err(e) => r == Err::<HypergraphProjection, DbError>(e),
                Ok(view) => r matches Ok(p) && p@ == view && p.definition_v() == definition,
            },
    {
        if definition.source_roles.is_empty() || definition.target_roles.is_empty() {
            return Err(
                DbError::invalid_projection("hypergraph projection requires non-empty source and target roles"),
            );
        }
        let listing = state.relation_listing();
        let mut b = HyperBuilder::new();
        let mut i: usize = 0;
        while i < listing.len()
            invariant
                state.wf(),
                i <= listing@.len(),
                listing@.len() == state.relation_order().len(),
                forall|t: int|
                    0 <= t < listing@.len() ==> (#[trigger] listing@[t]).0.0 == state.relation_order()[t]
                        && state.relations_v()[listing@[t].0.0].relation_type == match listing@[t].1 {
                        Some(x) => Some(x.0),
                        None => None,
                    },
                hyper_fold(*state, hyper_def_view(definition), i as nat) == Ok::<HyperAcc, DbError>(b.acc()),
                !definition.source_roles@.is_empty(),
                !definition.target_roles@.is_empty(),
                b.wf(),
                forall|k: u64| #[trigger] b.acc().relations.contains(k) ==> exists|t: int|
                    0 <= t < i && state.relation_order()[t] == k,
                forall|a: int, c: int| 0 <= a < c < state.relation_order().len() ==> state.relation_order()[a]
                    < state.relation_order()[c],
            decreases listing@.len() - i,
        {
            let (relation, relation_type) = listing[i];
            let raw_type = match relation_type {
                Some(t) => Some(t.get()),
                None => None,
            };
            let ghost acc = b.acc();
            let ghost rel = state.relation_order()[i as int];
            proof {
                assert(hyper_fold(*state, hyper_def_view(definition), (i + 1) as nat) == if selected(
                    state.relations_v()[rel].relation_type,
                    definition.relation_types@,
                ) {
                    hyper_step(acc, rel, state.incidence_order(rel), definition.source_roles@, definition.target_roles@)
                } else {
                    Ok(acc)
                });
            }
            if relation_selected(raw_type, &definition.relation_types) {
                proof {
                    if acc.relations.contains(relation.0) {
                        let t = choose|t: int| 0 <= t < i && state.relation_order()[t] == relation.0;
                        assert(state.relation_order()[t] < state.relation_order()[i as int]);
                    }
                }
                match b.push_relation(state, relation, &definition.source_roles, &definition.target_roles) {
                    Ok(()) => {},
                    Err(e) => {
                        proof {
                            lemma_hyper_fold_error_sticks(*state, hyper_def_view(definition), (i + 1) as nat, listing@.len() as nat);
                        }
                        return Err(e);
                    },
                }
                proof {
                    assert forall|k: u64| #[trigger] b.acc().relations.contains(k) implies exists|t: int|
                        0 <= t < i + 1 && state.relation_order()[t] == k by {
                        assert(b.acc().relations == acc.relations.push(relation.0));
                        if k == relation.0 {
                            assert(state.relation_order()[i as int] == k);
                        } else {
                            let x = choose|x: int| 0 <= x < b.acc().relations.len() && b.acc().relations[x] == k;
                            assert(acc.relations[x] == k);
                            assert(acc.relations.contains(k));
                        }
                    }
                }
            }
            i = i + 1;
        }
        let n = b.elements.len();
        let element_incidences = build_element_incidences(n, &b.elements, &b.element_index, &b.incidences);
        let outgoing_hyperedges = build_membership(n, &b.source_vertices);
        let incoming_hyperedges = build_membership(n, &b.target_vertices);
        let successors = build_neighbours(n, &outgoing_hyperedges, &b.source_vertices, &b.target_vertices);
        let predecessors = build_neighbours(n, &incoming_hyperedges, &b.target_vertices, &b.source_vertices);
        proof {
            let acc = b.acc();
            let v = hyper_view_of(acc);
            assert(rows_view(element_incidences@) =~= v.element_incidences);
            assert(rows_view(outgoing_hyperedges@) =~= v.outgoing);
            assert(rows_view(incoming_hyperedges@) =~= v.incoming);
            assert(rows_view(successors@) =~= v.successors);
            assert(rows_view(predecessors@) =~= v.predecessors);
            assert(listing@.len() == i);
        }
        let p = HypergraphProjection {
            definition,
            elements: b.elements,
            element_index: b.element_index,
            relations: b.relations,
            relation_index: b.relation_index,
            incidences: b.incidences,
            incidence_index: b.incidence_index,
            relation_incidences: b.relation_incidences,
            element_incidences,
            source_incidences: b.source_incidences,
            target_incidences: b.target_incidences,
            source_vertices: b.source_vertices,
            target_vertices: b.target_vertices,
            outgoing_hyperedges,
            incoming_hyperedges,
            successors,
            predecessors,
        };
        Ok(p)
    }
}


/// Copies a row of raw incidence ids into typed incidence ids.
fn incidence_row(row: &Vec<u32>) -> (incs: Vec<ProjectionIncidenceId>)
    ensures
        incs@.map_values(|e: ProjectionIncidenceId| e.raw()) == row@,
{
    let mut out: Vec<ProjectionIncidenceId> = Vec::new();
    let mut i: usize = 0;
    while i < row.len()
        invariant
            i <= row@.len(),
            out@.len() == i,
            forall|j: int| 0 <= j < i ==> (#[trigger] out@[j]).raw() == row@[j],
        decreases row@.len() - i,
    {
        out.push(ProjectionIncidenceId::new(row[i]));
        i = i + 1;
    }
    proof {
        assert(out@.map_values(|e: ProjectionIncidenceId| e.raw()) =~= row@);
    }
    out
}

impl HypergraphProjection {
    /// States the structural facts the projection keeps.
    pub fn check_structure(&self)
        ensures
            hyper_wf(self@),
    {
        proof {
            use_type_invariant(self);
            assert(incidence_ids(self@.incidences).len() == self@.incidences.len());
        }
    }

    /// Returns the definition used for this projection.
    pub fn definition(&self) -> (d: &HypergraphProjectionDefinition)
        ensures
            *d == self.definition_v(),
    {
        &self.definition
    }

    /// Number of projected elements.
    pub fn element_count(&self) -> (n: usize)
        ensures
            n == self@.elements.len(),
    {
        self.elements.len()
    }

    /// Number of projected hyperedges.
    pub fn relation_count(&self) -> (n: usize)
        ensures
            n == self@.relations.len(),
    {
        self.relations.len()
    }

    /// Number of projected incidences.
    pub fn incidence_count(&self) -> (n: usize)
        ensures
            n == self@.incidences.len(),
    {
        self.incidences.len()
    }

    /// Whether a local element id names a projected element.
    pub fn contains_element(&self, element: ProjectionElementId) -> (b: bool)
        ensures
            b == (element.raw() < self@.elements.len()),
    {
        (element.get() as usize) < self.elements.len()
    }

    /// Whether a local relation id names a projected hyperedge.
    pub fn contains_relation(&self, relation: ProjectionRelationId) -> (b: bool)
        ensures
            b == (relation.raw() < self@.relations.len()),
    {
        (relation.get() as usize) < self.relations.len()
    }

    /// Whether a local incidence id names a projected incidence.
    pub fn contains_incidence(&self, incidence: ProjectionIncidenceId) -> (b: bool)
        ensures
            b == (incidence.raw() < self@.incidences.len()),
    {
        (incidence.get() as usize) < self.incidences.len()
    }

    /// The canonical element of a local element.
    pub fn canonical_element_id(&self, element: ProjectionElementId) -> (id: ElementId)
        requires
            element.raw() < self@.elements.len(),
        ensures
            id.0 == self@.elements[element.raw() as int],
    {
        self.elements[element.get() as usize]
    }

    /// The local id of a canonical element, if it is projected.
    pub fn local_element_id(&self, canonical: ElementId) -> (local: Option<ProjectionElementId>)
        ensures
            match local {
                Some(l) => l.raw() < self@.elements.len() && self@.elements[l.raw() as int] == canonical.0,
                None => !self@.elements.contains(canonical.0),
            },
    {
        proof {
            use_type_invariant(self);
        }
        match self.element_index.get(&canonical.0) {
            Some(l) => {
                proof {
                    let i = choose|i: int| 0 <= i < self@.elements.len() && self@.elements[i] == canonical.0;
                }
                Some(ProjectionElementId::new(*l))
            },
            None => None,
        }
    }

    /// The canonical relation of a local hyperedge.
    pub fn canonical_relation_id(&self, relation: ProjectionRelationId) -> (id: RelationId)
        requires
            relation.raw() < self@.relations.len(),
        ensures
            id.0 == self@.relations[relation.raw() as int],
    {
        self.relations[relation.get() as usize]
    }

    /// The local id of a canonical relation, if it is projected.
    pub fn local_relation_id(&self, canonical: RelationId) -> (local: Option<ProjectionRelationId>)
        ensures
            match local {
                Some(l) => l.raw() < self@.relations.len() && self@.relations[l.raw() as int] == canonical.0,
                None => !self@.relations.contains(canonical.0),
            },
    {
        proof {
            use_type_invariant(self);
        }
        match self.relation_index.get(&canonical.0) {
            Some(l) => {
                proof {
                    let i = choose|i: int| 0 <= i < self@.relations.len() && self@.relations[i] == canonical.0;
                }
                Some(ProjectionRelationId::new(*l))
            },
            None => None,
        }
    }

    /// The canonical incidence of a local incidence.
    pub fn canonical_incidence_id(&self, incidence: ProjectionIncidenceId) -> (id: IncidenceId)
        requires
            incidence.raw() < self@.incidences.len(),
        ensures
            id == self@.incidences[incidence.raw() as int].id,
    {
        self.incidences[incidence.get() as usize].id
    }

    /// The local id of a canonical incidence, if it is projected.
    pub fn local_incidence_id(&self, canonical: IncidenceId) -> (local: Option<ProjectionIncidenceId>)
        ensures
            match local {
                Some(l) => l.raw() < self@.incidences.len() && self@.incidences[l.raw() as int].id == canonical,
                None => !incidence_ids(self@.incidences).contains(canonical.0),
            },
    {
        proof {
            use_type_invariant(self);
        }
        match self.incidence_index.get(&canonical.0) {
            Some(l) => {
                proof {
                    let ids = incidence_ids(self@.incidences);
                    let i = choose|i: int| 0 <= i < ids.len() && ids[i] == canonical.0;
                    assert(ids[i] == self@.incidences[i].id.0);
                }
                Some(ProjectionIncidenceId::new(*l))
            },
            None => None,
        }
    }

    /// The local element an incidence attaches.
    pub fn incidence_element(&self, incidence: ProjectionIncidenceId) -> (element: ProjectionElementId)
        requires
            incidence.raw() < self@.incidences.len(),
        ensures
            element.raw() == self@.elements.index_of(self@.incidences[incidence.raw() as int].element.0),
            element.raw() < self@.elements.len(),
    {
        proof {
            use_type_invariant(self);
        }
        let e = self.incidences[incidence.get() as usize].element.0;
        proof {
            let ids = self@.elements;
            assert(ids.contains(self@.incidences[incidence.raw() as int].element.0));
            let x = choose|x: int| 0 <= x < ids.len() && ids[x] == e;
            lemma_index_of(ids, x);
        }
        match self.element_index.get(&e) {
            Some(l) => ProjectionElementId::new(*l),
            None => {
                proof {
                    assert(false);
                }
                ProjectionElementId::new(0)
            },
        }
    }

    /// The local hyperedge an incidence belongs to.
    pub fn incidence_relation(&self, incidence: ProjectionIncidenceId) -> (relation: ProjectionRelationId)
        requires
            incidence.raw() < self@.incidences.len(),
        ensures
            relation.raw() == self@.relations.index_of(self@.incidences[incidence.raw() as int].relation.0),
            relation.raw() < self@.relations.len(),
    {
        proof {
            use_type_invariant(self);
        }
        let k = self.incidences[incidence.get() as usize].relation.0;
        proof {
            let ids = self@.relations;
            assert(ids.contains(self@.incidences[incidence.raw() as int].relation.0));
            let x = choose|x: int| 0 <= x < ids.len() && ids[x] == k;
            lemma_index_of(ids, x);
        }
        match self.relation_index.get(&k) {
            Some(l) => ProjectionRelationId::new(*l),
            None => {
                proof {
                    assert(false);
                }
                ProjectionRelationId::new(0)
            },
        }
    }

    /// The role an incidence plays.
    pub fn incidence_role(&self, incidence: ProjectionIncidenceId) -> (role: RoleId)
        requires
            incidence.raw() < self@.incidences.len(),
        ensures
            role == self@.incidences[incidence.raw() as int].role,
    {
        self.incidences[incidence.get() as usize].role
    }

    /// Number of incidences of a hyperedge.
    pub fn relation_incidence_count(&self, relation: ProjectionRelationId) -> (n: usize)
        requires
            relation.raw() < self@.relations.len(),
        ensures
            n == self@.relation_incidences[relation.raw() as int].len(),
    {
        proof {
            use_type_invariant(self);
            assert(rows_view(self.relation_incidences@)[relation.raw() as int] == self.relation_incidences@[relation.raw() as int]@);
        }
        self.relation_incidences[relation.get() as usize].len()
    }

    /// Number of incidences of an element.
    pub fn element_incidence_count(&self, element: ProjectionElementId) -> (n: usize)
        requires
            element.raw() < self@.elements.len(),
        ensures
            n == self@.element_incidences[element.raw() as int].len(),
    {
        proof {
            use_type_invariant(self);
            assert(rows_view(self.element_incidences@).len() == self.element_incidences@.len());
            assert(rows_view(self.element_incidences@)[element.raw() as int] == self.element_incidences@[element.raw() as int]@);
        }
        self.element_incidences[element.get() as usize].len()
    }

    /// The incidences of a hyperedge, in scan order.
    pub fn relation_incidences(&self, relation: ProjectionRelationId) -> (r: Vec<ProjectionIncidenceId>)
        requires
            relation.raw() < self@.relations.len(),
        ensures
            r@.map_values(|x: ProjectionIncidenceId| x.raw()) == self@.relation_incidences[relation.raw() as int],
    {
        proof {
            use_type_invariant(self);
            assert(rows_view(self.relation_incidences@).len() == self.relation_incidences@.len());
            assert(rows_view(self.relation_incidences@)[relation.raw() as int] == self.relation_incidences@[relation.raw() as int]@);
        }
        incidence_row(&self.relation_incidences[relation.get() as usize])
    }

    /// The incidences of an element, ascending.
    pub fn element_incidences(&self, element: ProjectionElementId) -> (r: Vec<ProjectionIncidenceId>)
        requires
            element.raw() < self@.elements.len(),
        ensures
            r@.map_values(|x: ProjectionIncidenceId| x.raw()) == self@.element_incidences[element.raw() as int],
    {
        proof {
            use_type_invariant(self);
            assert(rows_view(self.element_incidences@).len() == self.element_incidences@.len());
            assert(rows_view(self.element_incidences@)[element.raw() as int] == self.element_incidences@[element.raw() as int]@);
        }
        incidence_row(&self.element_incidences[element.get() as usize])
    }

    /// The source-side incidences of a hyperedge.
    pub fn source_incidences(&self, relation: ProjectionRelationId) -> (r: Vec<ProjectionIncidenceId>)
        requires
            relation.raw() < self@.relations.len(),
        ensures
            r@.map_values(|x: ProjectionIncidenceId| x.raw()) == self@.source_incidences[relation.raw() as int],
    {
        proof {
            use_type_invariant(self);
            assert(rows_view(self.source_incidences@).len() == self.source_incidences@.len());
            assert(rows_view(self.source_incidences@)[relation.raw() as int] == self.source_incidences@[relation.raw() as int]@);
        }
        incidence_row(&self.source_incidences[relation.get() as usize])
    }

    /// The target-side incidences of a hyperedge.
    pub fn target_incidences(&self, relation: ProjectionRelationId) -> (r: Vec<ProjectionIncidenceId>)
        requires
            relation.raw() < self@.relations.len(),
        ensures
            r@.map_values(|x: ProjectionIncidenceId| x.raw()) == self@.target_incidences[relation.raw() as int],
    {
        proof {
            use_type_invariant(self);
            assert(rows_view(self.target_incidences@).len() == self.target_incidences@.len());
            assert(rows_view(self.target_incidences@)[relation.raw() as int] == self.target_incidences@[relation.raw() as int]@);
        }
        incidence_row(&self.target_incidences[relation.get() as usize])
    }

    /// The source-side elements of a hyperedge, one per source incidence.
    pub fn source_participants(&self, relation: ProjectionRelationId) -> (r: Vec<ProjectionElementId>)
        requires
            relation.raw() < self@.relations.len(),
        ensures
            r@.map_values(|x: ProjectionElementId| x.raw()) == self@.source_vertices[relation.raw() as int],
    {
        proof {
            use_type_invariant(self);
            assert(rows_view(self.source_vertices@).len() == self.source_vertices@.len());
            assert(rows_view(self.source_vertices@)[relation.raw() as int] == self.source_vertices@[relation.raw() as int]@);
        }
        element_row(&self.source_vertices[relation.get() as usize])
    }

    /// The target-side elements of a hyperedge, one per target incidence.
    pub fn target_participants(&self, relation: ProjectionRelationId) -> (r: Vec<ProjectionElementId>)
        requires
            relation.raw() < self@.relations.len(),
        ensures
            r@.map_values(|x: ProjectionElementId| x.raw()) == self@.target_vertices[relation.raw() as int],
    {
        proof {
            use_type_invariant(self);
            assert(rows_view(self.target_vertices@).len() == self.target_vertices@.len());
            assert(rows_view(self.target_vertices@)[relation.raw() as int] == self.target_vertices@[relation.raw() as int]@);
        }
        element_row(&self.target_vertices[relation.get() as usize])
    }

    /// The hyperedges an element is a source of, ascending.
    pub fn outgoing_hyperedges(&self, element: ProjectionElementId) -> (r: Vec<ProjectionRelationId>)
        requires
            element.raw() < self@.elements.len(),
        ensures
            r@.map_values(|x: ProjectionRelationId| x.raw()) == self@.outgoing[element.raw() as int],
    {
        proof {
            use_type_invariant(self);
            assert(rows_view(self.outgoing_hyperedges@).len() == self.outgoing_hyperedges@.len());
            assert(rows_view(self.outgoing_hyperedges@)[element.raw() as int] == self.outgoing_hyperedges@[element.raw() as int]@);
        }
        relation_row(&self.outgoing_hyperedges[element.get() as usize])
    }

    /// The hyperedges an element is a target of, ascending.
    pub fn incoming_hyperedges(&self, element: ProjectionElementId) -> (r: Vec<ProjectionRelationId>)
        requires
            element.raw() < self@.elements.len(),
        ensures
            r@.map_values(|x: ProjectionRelationId| x.raw()) == self@.incoming[element.raw() as int],
    {
        proof {
            use_type_invariant(self);
            assert(rows_view(self.incoming_hyperedges@).len() == self.incoming_hyperedges@.len());
            assert(rows_view(self.incoming_hyperedges@)[element.raw() as int] == self.incoming_hyperedges@[element.raw() as int]@);
        }
        relation_row(&self.incoming_hyperedges[element.get() as usize])
    }

    /// The distinct directed successors of an element, ascending.
    pub fn element_successors(&self, element: ProjectionElementId) -> (r: Vec<ProjectionElementId>)
        requires
            element.raw() < self@.elements.len(),
        ensures
            r@.map_values(|x: ProjectionElementId| x.raw()) == self@.successors[element.raw() as int],
    {
        proof {
            use_type_invariant(self);
            assert(rows_view(self.successors@).len() == self.successors@.len());
            assert(rows_view(self.successors@)[element.raw() as int] == self.successors@[element.raw() as int]@);
        }
        element_row(&self.successors[element.get() as usize])
    }

    /// The distinct directed predecessors of an element, ascending.
    pub fn element_predecessors(&self, element: ProjectionElementId) -> (r: Vec<ProjectionElementId>)
        requires
            element.raw() < self@.elements.len(),
        ensures
            r@.map_values(|x: ProjectionElementId| x.raw()) == self@.predecessors[element.raw() as int],
    {
        proof {
            use_type_invariant(self);
            assert(rows_view(self.predecessors@).len() == self.predecessors@.len());
            assert(rows_view(self.predecessors@)[element.raw() as int] == self.predecessors@[element.raw() as int]@);
        }
        element_row(&self.predecessors[element.get() as usize])
    }

    /// The element of each incidence of a hyperedge, in scan order.
    fn participant_list(&self, relation: ProjectionRelationId) -> (r: Vec<ProjectionElementId>)
        requires
            relation.raw() < self@.relations.len(),
        ensures
            r@.map_values(|x: ProjectionElementId| x.raw()) == self@.relation_incidences[relation.raw() as int].map_values(
                |i: u32| self@.elements.index_of(self@.incidences[i as int].element.0) as u32,
            ),
    {
        proof {
            use_type_invariant(self);
            assert(rows_view(self.relation_incidences@)[relation.raw() as int] == self.relation_incidences@[relation.raw() as int]@);
        }
        let row = &self.relation_incidences[relation.get() as usize];
        let ghost target = row@.map_values(|i: u32| self@.elements.index_of(self@.incidences[i as int].element.0) as u32);
        proof {
            assert forall|x: int| 0 <= x < row@.len() implies (#[trigger] row@[x]) < self@.incidences.len() by {
                assert(rows_below(rows_view(self.relation_incidences@), self@.incidences.len()));
                assert(rows_view(self.relation_incidences@)[relation.raw() as int][x] == row@[x]);
            }
        }
        let mut out: Vec<ProjectionElementId> = Vec::new();
        let mut j: usize = 0;
        while j < row.len()
            invariant
                j <= row@.len(),
                forall|x: int| 0 <= x < row@.len() ==> (#[trigger] row@[x]) < self@.incidences.len(),
                target == row@.map_values(|i: u32| self@.elements.index_of(self@.incidences[i as int].element.0) as u32),
                out@.len() == j,
                forall|x: int| 0 <= x < j ==> (#[trigger] out@[x]).raw() == target[x],
            decreases row@.len() - j,
        {
            let e = self.incidence_element(ProjectionIncidenceId::new(row[j]));
            out.push(e);
            j = j + 1;
        }
        proof {
            assert(out@.map_values(|x: ProjectionElementId| x.raw()) =~= target);
        }
        out
    }

    /// The hyperedge of each incidence of an element, ascending by incidence.
    fn incident_list(&self, element: ProjectionElementId) -> (r: Vec<ProjectionRelationId>)
        requires
            element.raw() < self@.elements.len(),
        ensures
            r@.map_values(|x: ProjectionRelationId| x.raw()) == self@.element_incidences[element.raw() as int].map_values(
                |i: u32| self@.relations.index_of(self@.incidences[i as int].relation.0) as u32,
            ),
    {
        proof {
            use_type_invariant(self);
            assert(rows_view(self.element_incidences@).len() == self.element_incidences@.len());
            assert(rows_view(self.element_incidences@)[element.raw() as int] == self.element_incidences@[element.raw() as int]@);
        }
        let row = &self.element_incidences[element.get() as usize];
        let ghost target = row@.map_values(|i: u32| self@.relations.index_of(self@.incidences[i as int].relation.0) as u32);
        proof {
            assert forall|x: int| 0 <= x < row@.len() implies (#[trigger] row@[x]) < self@.incidences.len() by {
                lemma_element_incidences_below(self@.elements, self@.incidences, self@.incidences.len(), element.raw() as int);
            }
        }
        let mut out: Vec<ProjectionRelationId> = Vec::new();
        let mut j: usize = 0;
        while j < row.len()
            invariant
                j <= row@.len(),
                forall|x: int| 0 <= x < row@.len() ==> (#[trigger] row@[x]) < self@.incidences.len(),
                target == row@.map_values(|i: u32| self@.relations.index_of(self@.incidences[i as int].relation.0) as u32),
                out@.len() == j,
                forall|x: int| 0 <= x < j ==> (#[trigger] out@[x]).raw() == target[x],
            decreases row@.len() - j,
        {
            let h = self.incidence_relation(ProjectionIncidenceId::new(row[j]));
            out.push(h);
            j = j + 1;
        }
        proof {
            assert(out@.map_values(|x: ProjectionRelationId| x.raw()) =~= target);
        }
        out
    }

    /// The element of each incidence of a hyperedge, in scan order.
    pub fn hyperedge_participants(&self, relation: ProjectionRelationId) -> (r: HyperedgeParticipants)
        requires
            relation.raw() < self@.relations.len(),
        ensures
            r@.map_values(|x: ProjectionElementId| x.raw()) == self@.relation_incidences[relation.raw() as int].map_values(
                |i: u32| self@.elements.index_of(self@.incidences[i as int].element.0) as u32,
            ),
    {
        let items = self.participant_list(relation);
        proof {
            assert(items@.skip(0) =~= items@);
        }
        HyperedgeParticipants { items, position: 0 }
    }

    /// The hyperedge of each incidence of an element, ascending by incidence.
    pub fn incident_hyperedges(&self, element: ProjectionElementId) -> (r: IncidentHyperedgesIter)
        requires
            element.raw() < self@.elements.len(),
        ensures
            r@.map_values(|x: ProjectionRelationId| x.raw()) == self@.element_incidences[element.raw() as int].map_values(
                |i: u32| self@.relations.index_of(self@.incidences[i as int].relation.0) as u32,
            ),
    {
        let items = self.incident_list(element);
        proof {
            assert(items@.skip(0) =~= items@);
        }
        IncidentHyperedgesIter { items, position: 0 }
    }

    /// The canonical subjects this projection materializes: its elements,
    /// then its relations, then its incidences, each in ascending id.
    pub fn subjects(&self) -> (subjects: Vec<PropertySubject>)
        ensures
            subjects@ == sorted_listing(self@.elements.to_set()).map_values(
                |k: u64| PropertySubject::Element(ElementId(k)),
            ) + sorted_listing(self@.relations.to_set()).map_values(
                |k: u64| PropertySubject::Relation(RelationId(k)),
            ) + sorted_listing(incidence_ids(self@.incidences).to_set()).map_values(
                |k: u64| PropertySubject::Incidence(IncidenceId(k)),
            ),
    {
        let element_members = sorted_members(&id_set(&element_raw(&self.elements)));
        let relation_members = sorted_members(&id_set(&relation_raw(&self.relations)));
        let incidence_members = sorted_members(&id_set(&incidence_raw(&self.incidences)));
        let mut out: Vec<PropertySubject> = Vec::new();
        let mut k: usize = 0;
        while k < element_members.len()
            invariant
                k <= element_members@.len(),
                out@ == element_members@.take(k as int).map_values(|x: u64| PropertySubject::Element(ElementId(x))),
            decreases element_members@.len() - k,
        {
            out.push(PropertySubject::Element(ElementId::new(element_members[k])));
            proof {
                assert(out@ =~= element_members@.take(k + 1).map_values(
                    |x: u64| PropertySubject::Element(ElementId(x)),
                ));
            }
            k = k + 1;
        }
        let ghost first = out@;
        let mut t: usize = 0;
        while t < relation_members.len()
            invariant
                t <= relation_members@.len(),
                out@ == first + relation_members@.take(t as int).map_values(
                    |x: u64| PropertySubject::Relation(RelationId(x)),
                ),
            decreases relation_members@.len() - t,
        {
            out.push(PropertySubject::Relation(RelationId::new(relation_members[t])));
            proof {
                assert(out@ =~= first + relation_members@.take(t + 1).map_values(
                    |x: u64| PropertySubject::Relation(RelationId(x)),
                ));
            }
            t = t + 1;
        }
        let ghost second = out@;
        let mut u: usize = 0;
        while u < incidence_members.len()
            invariant
                u <= incidence_members@.len(),
                out@ == second + incidence_members@.take(u as int).map_values(
                    |x: u64| PropertySubject::Incidence(IncidenceId(x)),
                ),
            decreases incidence_members@.len() - u,
        {
            out.push(PropertySubject::Incidence(IncidenceId::new(incidence_members[u])));
            proof {
                assert(out@ =~= second + incidence_members@.take(u + 1).map_values(
                    |x: u64| PropertySubject::Incidence(IncidenceId(x)),
                ));
            }
            u = u + 1;
        }
        proof {
            lemma_sorted_listing(element_members@);
            lemma_sorted_listing(relation_members@);
            lemma_sorted_listing(incidence_members@);
            assert(element_members@.take(k as int) =~= element_members@);
            assert(relation_members@.take(t as int) =~= relation_members@);
            assert(incidence_members@.take(u as int) =~= incidence_members@);
        }
        out
    }
}

/// Every incidence listed for an element is a valid local incidence.
proof fn lemma_element_incidences_below(elements: Seq<u64>, incs: Seq<IncidenceRecord>, k: nat, v: int)
    requires
        k <= incs.len(),
        k <= u32::MAX + 1,
    ensures
        forall|j: int| 0 <= j < element_incidences_upto(elements, incs, k, v).len() ==> (#[trigger] element_incidences_upto(elements, incs, k, v)[j]) < k,
    decreases k,
{
    if k > 0 {
        lemma_element_incidences_below(elements, incs, (k - 1) as nat, v);
        let prev = element_incidences_upto(elements, incs, (k - 1) as nat, v);
        assert forall|j: int| 0 <= j < element_incidences_upto(elements, incs, k, v).len() implies (#[trigger] element_incidences_upto(elements, incs, k, v)[j]) < k by {
            if j < prev.len() {
                assert(element_incidences_upto(elements, incs, k, v)[j] == prev[j]);
            }
        }
    }
}

/// The raw ids of a list of elements.
fn element_raw(elements: &Vec<ElementId>) -> (ids: Vec<u64>)
    ensures
        ids@ == element_ids(elements@),
{
    let mut out: Vec<u64> = Vec::new();
    let mut i: usize = 0;
    while i < elements.len()
        invariant
            i <= elements@.len(),
            out@ == element_ids(elements@).take(i as int),
        decreases elements@.len() - i,
    {
        out.push(elements[i].0);
        proof {
            assert(out@ =~= element_ids(elements@).take(i + 1));
        }
        i = i + 1;
    }
    proof {
        assert(element_ids(elements@).take(i as int) =~= element_ids(elements@));
    }
    out
}

/// The raw ids of a list of relations.
fn relation_raw(relations: &Vec<RelationId>) -> (ids: Vec<u64>)
    ensures
        ids@ == relation_ids(relations@),
{
    let mut out: Vec<u64> = Vec::new();
    let mut i: usize = 0;
    while i < relations.len()
        invariant
            i <= relations@.len(),
            out@ == relation_ids(relations@).take(i as int),
        decreases relations@.len() - i,
    {
        out.push(relations[i].0);
        proof {
            assert(out@ =~= relation_ids(relations@).take(i + 1));
        }
        i = i + 1;
    }
    proof {
        assert(relation_ids(relations@).take(i as int) =~= relation_ids(relations@));
    }
    out
}

/// The raw ids of a list of incidences.
fn incidence_raw(incidences: &Vec<IncidenceRecord>) -> (ids: Vec<u64>)
    ensures
        ids@ == incidence_ids(incidences@),
{
    let mut out: Vec<u64> = Vec::new();
    let mut i: usize = 0;
    while i < incidences.len()
        invariant
            i <= incidences@.len(),
            out@ == incidence_ids(incidences@).take(i as int),
        decreases incidences@.len() - i,
    {
        out.push(incidences[i].id.0);
        proof {
            assert(out@ =~= incidence_ids(incidences@).take(i + 1));
        }
        i = i + 1;
    }
    proof {
        assert(incidence_ids(incidences@).take(i as int) =~= incidence_ids(incidences@));
    }
    out
}

/// The set of a list of raw ids.
fn id_set(ids: &Vec<u64>) -> (set: BTreeSet<u64>)
    ensures
        set@ == ids@.to_set(),
{
    let mut set: BTreeSet<u64> = BTreeSet::new();
    let mut i: usize = 0;
    while i < ids.len()
        invariant
            i <= ids@.len(),
            set@ == ids@.take(i as int).to_set(),
        decreases ids@.len() - i,
    {
        set.insert(ids[i]);
        proof {
            assert(ids@.take(i + 1) =~= ids@.take(i as int).push(ids@[i as int]));
            lemma_to_set_push(ids@.take(i as int), ids@[i as int]);
        }
        i = i + 1;
    }
    proof {
        assert(ids@.take(i as int) =~= ids@);
    }
    set
}


/// The participant elements of one hyperedge, yielded in scan order.
#[derive(Debug)]
pub struct HyperedgeParticipants {
    /// Participants in scan order.
    items: Vec<ProjectionElementId>,
    /// Number already yielded.
    position: usize,
}

impl View for HyperedgeParticipants {
    type V = Seq<ProjectionElementId>;

    closed spec fn view(&self) -> Seq<ProjectionElementId> {
        self.items@.skip(self.position as int)
    }
}

impl HyperedgeParticipants {
    #[verifier::type_invariant]
    spec fn within(self) -> bool {
        self.position <= self.items.len()
    }

    /// Yields the next participant, if any remain.
    pub fn next(&mut self) -> (r: Option<ProjectionElementId>)
        ensures
            old(self)@.len() == 0 ==> r is None && final(self)@ == old(self)@,
            old(self)@.len() > 0 ==> r == Some(old(self)@[0]) && final(self)@ == old(self)@.drop_first(),
    {
        proof {
            use_type_invariant(&*self);
        }
        if self.position < self.items.len() {
            let item = self.items[self.position];
            proof {
                assert(self.items@.skip(self.position as int)[0] == self.items@[self.position as int]);
                assert(self.items@.skip(self.position as int).drop_first() =~= self.items@.skip(self.position + 1));
            }
            self.position = self.position + 1;
            Some(item)
        } else {
            None
        }
    }
}

/// The hyperedges an element belongs to, yielded by its incidences in
/// ascending order.
#[derive(Debug)]
pub struct IncidentHyperedgesIter {
    /// Hyperedges in incidence order.
    items: Vec<ProjectionRelationId>,
    /// Number already yielded.
    position: usize,
}

impl View for IncidentHyperedgesIter {
    type V = Seq<ProjectionRelationId>;

    closed spec fn view(&self) -> Seq<ProjectionRelationId> {
        self.items@.skip(self.position as int)
    }
}

impl IncidentHyperedgesIter {
    #[verifier::type_invariant]
    spec fn within(self) -> bool {
        self.position <= self.items.len()
    }

    /// Yields the next hyperedge, if any remain.
    pub fn next(&mut self) -> (r: Option<ProjectionRelationId>)
        ensures
            old(self)@.len() == 0 ==> r is None && final(self)@ == old(self)@,
            old(self)@.len() > 0 ==> r == Some(old(self)@[0]) && final(self)@ == old(self)@.drop_first(),
    {
        proof {
            use_type_invariant(&*self);
        }
        if self.position < self.items.len() {
            let item = self.items[self.position];
            proof {
                assert(self.items@.skip(self.position as int)[0] == self.items@[self.position as int]);
                assert(self.items@.skip(self.position as int).drop_first() =~= self.items@.skip(self.position + 1));
            }
            self.position = self.position + 1;
            Some(item)
        } else {
            None
        }
    }
}

} // verus!
