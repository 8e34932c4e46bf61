//! Flat graph projections used by the centrality metrics: degrees, adjacency lists and
//! compressed sparse rows.

use vstd::prelude::*;

verus! {

/// Targets of the edges leaving `v`, in edge order.
pub open spec fn out_list(edges: Seq<(usize, usize)>, v: int) -> Seq<usize>
    decreases edges.len(),
{
    if edges.len() == 0 {
        Seq::empty()
    } else if edges.last().0 == v {
        out_list(edges.drop_last(), v).push(edges.last().1)
    } else {
        out_list(edges.drop_last(), v)
    }
}

/// Number of edges entering `v`.
pub open spec fn in_count(edges: Seq<(usize, usize)>, v: int) -> nat
    decreases edges.len(),
{
    if edges.len() == 0 {
        0
    } else {
        in_count(edges.drop_last(), v) + (if edges.last().1 == v { 1nat } else { 0nat })
    }
}

/// Number of edges whose source is below `v`.
pub open spec fn count_below(edges: Seq<(usize, usize)>, v: int) -> nat
    decreases edges.len(),
{
    if edges.len() == 0 {
        0
    } else {
        count_below(edges.drop_last(), v) + (if (edges.last().0 as int) < v { 1nat } else { 0nat })
    }
}

pub proof fn lemma_count_below_step(edges: Seq<(usize, usize)>, v: int)
    ensures
        count_below(edges, v + 1) == count_below(edges, v) + out_list(edges, v).len(),
    decreases edges.len(),
{
    if edges.len() > 0 {
        lemma_count_below_step(edges.drop_last(), v);
    }
}

pub proof fn lemma_count_below_all(edges: Seq<(usize, usize)>, n: int)
    requires
        forall|i: int| 0 <= i < edges.len() ==> (#[trigger] edges[i]).0 < n,
    ensures
        count_below(edges, n) == edges.len(),
    decreases edges.len(),
{
    if edges.len() > 0 {
        lemma_count_below_all(edges.drop_last(), n);
        assert(edges.last() == edges[edges.len() - 1]);
    }
}

pub proof fn lemma_count_below_mono(edges: Seq<(usize, usize)>, a: int, b: int)
    requires
        a <= b,
    ensures
        count_below(edges, a) <= count_below(edges, b),
        count_below(edges, b) <= edges.len(),
    decreases edges.len(),
{
    if edges.len() > 0 {
        lemma_count_below_mono(edges.drop_last(), a, b);
    }
}

/// Dense index over a filtered edge projection (`0..V` contiguous flat ids).
pub struct FlatGraphIndex {
    /// Number of nodes in the parent view
    pub node_count: usize,
    /// Filtered edges as `(source_flat, target_flat)` pairs
    pub flat_edges: Vec<(usize, usize)>,
    /// Flat id → node participates in at least one filtered edge
    pub participates: Vec<bool>,
}

/// Compressed sparse row outgoing adjacency for flat graph projections.
pub struct CsrOutAdj {
    /// Row offsets (`offsets[i]..offsets[i+1]` indexes into [`Self::targets`]).
    pub offsets: Vec<u32>,
    /// Flattened neighbor targets.
    pub targets: Vec<u32>,
}

/// Targets narrowed to `u32`.
pub open spec fn as_u32s(s: Seq<usize>) -> Seq<u32> {
    s.map_values(|x: usize| x as u32)
}

impl FlatGraphIndex {
    /// Every edge endpoint is a node of the index.
    pub open spec fn edges_in_range(&self) -> bool {
        forall|i: int| 0 <= i < self.flat_edges@.len() ==> (#[trigger] self.flat_edges@[i]).0 < self.node_count
            && self.flat_edges@[i].1 < self.node_count
    }

    /// Per-node in/out degree on the filtered projection.
    pub fn filtered_degrees(&self) -> (r: (Vec<usize>, Vec<usize>))
        requires
            self.edges_in_range(),
        ensures
            r.0@.len() == self.node_count,
            r.1@.len() == self.node_count,
            forall|v: int| 0 <= v < self.node_count ==> #[trigger] r.0@[v] == in_count(self.flat_edges@, v),
            forall|v: int| 0 <= v < self.node_count ==> #[trigger] r.1@[v] == out_list(self.flat_edges@, v).len(),
    {
        let n = self.node_count;
        let mut in_degree: Vec<usize> = vec![0usize; n];
        let mut out_degree: Vec<usize> = vec![0usize; n];
        let ghost e = self.flat_edges@;
        let m = self.flat_edges.len();
        let mut i: usize = 0;
        while i < m
            invariant
                self.edges_in_range(),
                e == self.flat_edges@,
                m == e.len(),
                n == self.node_count,
                i <= e.len(),
                in_degree@.len() == n,
                out_degree@.len() == n,
                forall|v: int| 0 <= v < n ==> #[trigger] in_degree@[v] == in_count(e.take(i as int), v),
                forall|v: int| 0 <= v < n ==> #[trigger] out_degree@[v] == out_list(e.take(i as int), v).len(),
                forall|v: int| 0 <= v < n ==> #[trigger] in_degree@[v] <= i,
                forall|v: int| 0 <= v < n ==> #[trigger] out_degree@[v] <= i,
            decreases e.len() - i,
        {
            let (src, dst) = self.flat_edges[i];
            proof {
                assert(e.take(i as int + 1).drop_last() =~= e.take(i as int));
                assert(e.take(i as int + 1).last() == e[i as int]);
            }
            out_degree.set(src, out_degree[src] + 1);
            in_degree.set(dst, in_degree[dst] + 1);
            i = i + 1;
        }
        proof {
            assert(e.take(i as int) =~= e);
        }
        (in_degree, out_degree)
    }

    /// Build outgoing adjacency lists from the flat edge list.
    pub fn build_out_adj(&self) -> (adj: Vec<Vec<usize>>)
        requires
            self.edges_in_range(),
        ensures
            adj@.len() == self.node_count,
            forall|v: int| 0 <= v < self.node_count ==> (#[trigger] adj@[v])@ == out_list(self.flat_edges@, v),
    {
        let n = self.node_count;
        let ghost e = self.flat_edges@;
        let mut adj: Vec<Vec<usize>> = Vec::new();
        let mut k: usize = 0;
        while k < n
            invariant
                k <= n,
                adj@.len() == k,
                forall|v: int| 0 <= v < k ==> (#[trigger] adj@[v])@ == Seq::<usize>::empty(),
            decreases n - k,
        {
            adj.push(Vec::new());
            k = k + 1;
        }
        let mut i: usize = 0;
        while i < self.flat_edges.len()
            invariant
                self.edges_in_range(),
                e == self.flat_edges@,
                n == self.node_count,
                i <= e.len(),
                adj@.len() == n,
                forall|v: int| 0 <= v < n ==> (#[trigger] adj@[v])@ == out_list(e.take(i as int), v),
            decreases e.len() - i,
        {
            let (src, dst) = self.flat_edges[i];
            proof {
                assert(e.take(i as int + 1).drop_last() =~= e.take(i as int));
                assert(e.take(i as int + 1).last() == e[i as int]);
            }
            adj[src].push(dst);
            i = i + 1;
        }
        proof {
            assert(e.take(i as int) =~= e);
        }
        adj
    }

    /// Build a compact CSR outgoing adjacency (two contiguous buffers).
    pub fn build_out_csr(&self) -> (r: CsrOutAdj)
        requires
            self.edges_in_range(),
            self.node_count < usize::MAX,
            self.flat_edges@.len() <= u32::MAX,
        ensures
            r.csr_of(self),
    {
        let n = self.node_count;
        let ghost e = self.flat_edges@;
        let m = self.flat_edges.len();
        let mut degree: Vec<u32> = vec![0u32; n];
        let mut i: usize = 0;
        while i < m
            invariant
                self.edges_in_range(),
                e == self.flat_edges@,
                m == e.len(),
                m <= u32::MAX,
                n == self.node_count,
                i <= m,
                degree@.len() == n,
                forall|v: int| 0 <= v < n ==> #[trigger] degree@[v] == out_list(e.take(i as int), v).len(),
                forall|v: int| 0 <= v < n ==> #[trigger] degree@[v] <= i,
            decreases m - i,
        {
            let (src, _) = self.flat_edges[i];
            proof {
                assert(e.take(i as int + 1).drop_last() =~= e.take(i as int));
                assert(e.take(i as int + 1).last() == e[i as int]);
            }
            degree.set(src, degree[src] + 1);
            i = i + 1;
        }
        proof {
            assert(e.take(i as int) =~= e);
        }
        let mut offsets: Vec<u32> = vec![0u32; n + 1];
        proof {
            lemma_count_below_zero(e);
        }
        let mut v: usize = 0;
        while v < n
            invariant
                e == self.flat_edges@,
                m == e.len(),
                m <= u32::MAX,
                n == self.node_count,
                v <= n,
                degree@.len() == n,
                forall|u: int| 0 <= u < n ==> #[trigger] degree@[u] == out_list(e, u).len(),
                offsets@.len() == n + 1,
                forall|u: int| 0 <= u <= v ==> #[trigger] offsets@[u] == count_below(e, u),
            decreases n - v,
        {
            proof {
                lemma_count_below_step(e, v as int);
                lemma_count_below_mono(e, v as int + 1, v as int + 1);
            }
            let next = offsets[v] + degree[v];
            offsets.set(v + 1, next);
            v = v + 1;
        }
        let mut targets: Vec<u32> = vec![0u32; m];
        let mut cursor: Vec<u32> = Vec::new();
        let mut c: usize = 0;
        while c < n + 1
            invariant
                n == self.node_count,
                n < usize::MAX,
                offsets@.len() == n + 1,
                c <= n + 1,
                cursor@ == offsets@.take(c as int),
            decreases n + 1 - c,
        {
            cursor.push(offsets[c]);
            c = c + 1;
            proof {
                assert(cursor@ =~= offsets@.take(c as int));
            }
        }
        proof {
            assert(cursor@ =~= offsets@);
            assert(e.take(0) =~= Seq::<(usize, usize)>::empty());
        }
        let mut i: usize = 0;
        while i < m
            invariant
                self.edges_in_range(),
                e == self.flat_edges@,
                m == e.len(),
                m <= u32::MAX,
                n == self.node_count,
                i <= m,
                offsets@.len() == n + 1,
                forall|u: int| 0 <= u <= n ==> #[trigger] offsets@[u] == count_below(e, u),
                cursor@.len() == n + 1,
                targets@.len() == m,
                forall|u: int| 0 <= u < n ==> #[trigger] cursor@[u] == count_below(e, u) + out_list(e.take(i as int), u).len(),
                forall|u: int, k: int| 0 <= u < n && 0 <= k < out_list(e.take(i as int), u).len() ==>
                    targets@[count_below(e, u) + k] == #[trigger] out_list(e.take(i as int), u)[k] as u32,
            decreases m - i,
        {
            let (src, dst) = self.flat_edges[i];
            let ghost pre = e.take(i as int);
            proof {
                assert(e.take(i as int + 1).drop_last() =~= pre);
                assert(e.take(i as int + 1).last() == e[i as int]);
                lemma_out_list_prefix_bound(e, i as int + 1, src as int);
                lemma_count_below_step(e, src as int);
                lemma_count_below_mono(e, src as int + 1, n as int);
            }
            let pos = cursor[src] as usize;
            let ghost old_targets = targets@;
            targets.set(pos, dst as u32);
            cursor.set(src, cursor[src] + 1);
            proof {
                let post = e.take(i as int + 1);
                assert(out_list(post, src as int) == out_list(pre, src as int).push(dst));
                assert forall|u: int, k: int| 0 <= u < n && 0 <= k < out_list(post, u).len() implies
                    targets@[count_below(e, u) + k] == #[trigger] out_list(post, u)[k] as u32 by {
                    if u == src as int {
                        if k < out_list(pre, u).len() {
                            assert(out_list(post, u)[k] == out_list(pre, u)[k]);
                            assert(targets@[count_below(e, u) + k] == old_targets[count_below(e, u) + k]);
                        } else {
                            assert(count_below(e, u) + k == pos);
                        }
                    } else {
                        assert(out_list(post, u) == out_list(pre, u));
                        lemma_out_list_prefix_bound(e, i as int, u);
                        lemma_count_below_step(e, u);
                        assert(pos == count_below(e, src as int) + out_list(pre, src as int).len());
                        if u < src as int {
                            lemma_count_below_mono(e, u + 1, src as int);
                            assert(count_below(e, u) + k < count_below(e, u + 1));
                        } else {
                            lemma_count_below_mono(e, src as int + 1, u);
                            assert(pos < count_below(e, src as int + 1));
                        }
                        assert(count_below(e, u) + k != pos);
                        lemma_count_below_mono(e, u + 1, u + 1);
                        assert(count_below(e, u) + k < m);
                        assert(targets@[count_below(e, u) + k] == old_targets[count_below(e, u) + k]);
                    }
                }
            }
            i = i + 1;
        }
        proof {
            assert(e.take(i as int) =~= e);
        }
        CsrOutAdj { offsets, targets }
    }
}

proof fn lemma_count_below_zero(e: Seq<(usize, usize)>)
    ensures
        count_below(e, 0) == 0,
    decreases e.len(),
{
    if e.len() > 0 {
        lemma_count_below_zero(e.drop_last());
    }
}

/// Edges up to position `i` leave `v` at most as often as all edges do.
proof fn lemma_out_list_prefix_bound(e: Seq<(usize, usize)>, i: int, v: int)
    requires
        0 <= i <= e.len(),
    ensures
        out_list(e.take(i), v).len() <= out_list(e, v).len(),
    decreases e.len() - i,
{
    if i < e.len() {
        lemma_out_list_prefix_bound(e, i + 1, v);
        assert(e.take(i + 1).drop_last() =~= e.take(i));
    } else {
        assert(e.take(i) =~= e);
    }
}

impl CsrOutAdj {
    /// `self` holds the outgoing edges of `index` in compressed rows: row `v` starts at
    /// the number of edges leaving nodes below `v` and lists the targets of the edges
    /// leaving `v`, in edge order.
    pub open spec fn csr_of(&self, index: &FlatGraphIndex) -> bool {
        let n = index.node_count as int;
        let e = index.flat_edges@;
        &&& self.offsets@.len() == n + 1
        &&& self.targets@.len() == e.len()
        &&& forall|u: int| 0 <= u <= n ==> #[trigger] self.offsets@[u] == count_below(e, u)
        &&& forall|u: int, k: int| 0 <= u < n && 0 <= k < out_list(e, u).len() ==>
            self.targets@[count_below(e, u) + k] == #[trigger] out_list(e, u)[k] as u32
    }

    /// Rows are well formed: offsets never decrease and stay within the targets.
    pub open spec fn rows_ok(&self) -> bool {
        &&& self.offsets@.len() >= 1
        &&& forall|u: int, w: int| 0 <= u <= w < self.offsets@.len() ==> #[trigger] self.offsets@[u] <= #[trigger] self.offsets@[w]
        &&& self.offsets@[self.offsets@.len() - 1] <= self.targets@.len()
    }

    /// Outgoing neighbors of `node` as dense indices.
    pub fn neighbors(&self, node: usize) -> (r: &[u32])
        requires
            node + 1 < self.offsets@.len(),
            self.offsets@[node as int] <= self.offsets@[node + 1],
            self.offsets@[node + 1] as int <= self.targets@.len(),
        ensures
            r@ == self.targets@.subrange(self.offsets@[node as int] as int, self.offsets@[node + 1] as int),
    {
        let _rows = self.offsets.len();
        let start = self.offsets[node] as usize;
        let end = self.offsets[node + 1] as usize;
        vstd::slice::slice_subrange(self.targets.as_slice(), start, end)
    }
}

/// The compressed rows built for an index are well formed, and row `v` lists exactly the
/// adjacency list of `v`.
pub proof fn lemma_csr_rows_are_adjacency(index: &FlatGraphIndex, csr: &CsrOutAdj, v: int)
    requires
        csr.csr_of(index),
        index.edges_in_range(),
        0 <= v < index.node_count,
    ensures
        csr.rows_ok(),
        csr.targets@.subrange(csr.offsets@[v] as int, csr.offsets@[v + 1] as int) == as_u32s(out_list(index.flat_edges@, v)),
{
    let e = index.flat_edges@;
    let n = index.node_count as int;
    assert forall|u: int, w: int| 0 <= u <= w < csr.offsets@.len() implies #[trigger] csr.offsets@[u] <= #[trigger] csr.offsets@[w] by {
        lemma_count_below_mono(e, u, w);
    }
    lemma_count_below_all(e, n);
    lemma_count_below_step(e, v);
    let row = csr.targets@.subrange(csr.offsets@[v] as int, csr.offsets@[v + 1] as int);
    lemma_count_below_mono(e, v + 1, v + 1);
    assert(row =~= as_u32s(out_list(e, v))) by {
        assert forall|k: int| 0 <= k < row.len() implies row[k] == as_u32s(out_list(e, v))[k] by {
            assert(csr.targets@[count_below(e, v) + k] == out_list(e, v)[k] as u32);
        }
    }
}

/// Degree centrality over a flat projection.
pub struct DegreeCentrality;

impl DegreeCentrality {
    /// Filtered `(in, out)` degree of every node of the projection.
    pub fn compute(index: &FlatGraphIndex) -> (r: Vec<(usize, usize)>)
        requires
            index.edges_in_range(),
        ensures
            r@.len() == index.node_count,
            forall|v: int| 0 <= v < index.node_count ==> #[trigger] r@[v] == (in_count(index.flat_edges@, v) as usize, out_list(index.flat_edges@, v).len() as usize),
    {
        let (ins, outs) = index.filtered_degrees();
        let n = index.node_count;
        let mut r: Vec<(usize, usize)> = Vec::new();
        let mut v: usize = 0;
        while v < n
            invariant
                n == index.node_count,
                ins@.len() == n,
                outs@.len() == n,
                forall|u: int| 0 <= u < n ==> #[trigger] ins@[u] == in_count(index.flat_edges@, u),
                forall|u: int| 0 <= u < n ==> #[trigger] outs@[u] == out_list(index.flat_edges@, u).len(),
                v <= n,
                r@.len() == v,
                forall|u: int| 0 <= u < v ==> #[trigger] r@[u] == (in_count(index.flat_edges@, u) as usize, out_list(index.flat_edges@, u).len() as usize),
            decreases n - v,
        {
            r.push((ins[v], outs[v]));
            v = v + 1;
        }
        r
    }
}

/// Brandes betweenness restricted to an edge-type filter (scores are computed by the
/// application layer).
pub struct BetweennessCentrality;

/// Normalized out-harmonic centrality (scores are computed by the application layer).
pub struct HarmonicCentrality;

} // verus!
