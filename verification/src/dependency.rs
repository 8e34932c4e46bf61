//! Dependency analysis on plain index graphs: circular dependencies (strongly connected
//! components that contain a call) and the depth-limited impact radius of a symbol.

use vstd::prelude::*;
use crate::blast_radius::{at_distance, impact_bfs};
use crate::callgraph::{calls_rel, in_some_comp, is_scc_partition, lists, strongly_connected, total_len};
use crate::paths::reach;

verus! {

/// Default depth of impact traversals.
pub const DEFAULT_TRAVERSAL_DEPTH: usize = 10;

/// How far a dependency traversal goes.
#[derive(Clone, Copy)]
pub struct TraversalConfig {
    /// Largest number of steps followed from the start.
    pub max_depth: usize,
}

impl TraversalConfig {
    /// The default traversal: [`DEFAULT_TRAVERSAL_DEPTH`] steps.
    pub fn default_config() -> (r: TraversalConfig)
        ensures
            r.max_depth == DEFAULT_TRAVERSAL_DEPTH,
    {
        TraversalConfig { max_depth: DEFAULT_TRAVERSAL_DEPTH }
    }

    /// A traversal without a depth limit.
    pub fn unlimited() -> (r: TraversalConfig)
        ensures
            r.max_depth == usize::MAX,
    {
        TraversalConfig { max_depth: usize::MAX }
    }
}

/// Every node counts as a dependent.
pub open spec fn all_nodes(n: nat) -> Seq<bool> {
    Seq::new(n, |i: int| true)
}

/// `v` is at exactly `k` predecessor steps from `source`, over every edge.
pub open spec fn dependent_at(preds: Seq<Vec<u32>>, source: int, k: nat, v: int) -> bool {
    at_distance(preds, all_nodes(preds.len()), source, k, v)
}

/// `v` is at some least distance from `source` between 1 and both bounds.
pub open spec fn dependent_within(preds: Seq<Vec<u32>>, source: int, bound: int, limit: int, v: int) -> bool {
    exists|k: nat| 1 <= k <= bound && k <= limit && #[trigger] dependent_at(preds, source, k, v)
}

/// Transitive dependents of a node.
pub struct ImpactResult {
    /// The starting node.
    pub source: u32,
    /// Every other node that reaches the source within the depth limit, in increasing order.
    pub affected_nodes: Vec<u32>,
    /// The largest least distance among the affected nodes, 0 when there are none.
    pub max_depth: usize,
}

/// A circular dependency: a strongly connected component of two or more nodes.
pub struct CircularDependency {
    /// The nodes of the component.
    pub nodes: Vec<u32>,
}

/// Dependency analysis over index graphs.
pub struct DependencyAnalyzer;

impl DependencyAnalyzer {
    /// Impact radius of `source`: the nodes that reach it through at most
    /// `config.max_depth` edges (its predecessors `preds`), each once, and the deepest
    /// least distance among them.
    pub fn calculate_impact_radius_with_view(preds: &Vec<Vec<u32>>, source: u32, config: TraversalConfig) -> (r:
        ImpactResult)
        requires
            (source as int) < preds@.len(),
            preds@.len() <= u32::MAX,
        ensures
            r.source == source,
            forall|i: int, j: int| 0 <= i < j < r.affected_nodes@.len() ==> r.affected_nodes@[i] < r.affected_nodes@[j],
            forall|i: int| 0 <= i < r.affected_nodes@.len() ==> dependent_within(
                preds@,
                source as int,
                r.max_depth as int,
                config.max_depth as int,
                #[trigger] r.affected_nodes@[i] as int,
            ),
            forall|v: int, k: nat| 1 <= k <= config.max_depth && #[trigger] dependent_at(preds@, source as int, k, v)
                ==> r.affected_nodes@.contains(v as u32),
            r.max_depth <= config.max_depth,
            r.max_depth == 0 || exists|i: int| 0 <= i < r.affected_nodes@.len() && dependent_at(
                preds@,
                source as int,
                r.max_depth as nat,
                r.affected_nodes@[i] as int,
            ),
    {
        let n = preds.len();
        let mut everyone: Vec<bool> = Vec::new();
        let mut t: usize = 0;
        while t < n
            invariant
                t <= n,
                n == preds@.len(),
                everyone@ =~= Seq::new(t as nat, |i: int| true),
            decreases n - t,
        {
            everyone.push(true);
            t = t + 1;
        }
        assert(everyone@ =~= all_nodes(preds@.len()));
        let pairs = impact_bfs(preds, &everyone, source, config.max_depth);
        let mut affected: Vec<u32> = Vec::new();
        let mut deepest: usize = 0;
        let mut i: usize = 0;
        while i < pairs.len()
            invariant
                i <= pairs@.len(),
                affected@.len() == i,
                everyone@ == all_nodes(preds@.len()),
                forall|j: int| 0 <= j < i ==> affected@[j] == (#[trigger] pairs@[j]).0,
                forall|j: int| 0 <= j < i ==> (#[trigger] pairs@[j]).1 <= deepest,
                deepest <= config.max_depth,
                deepest == 0 || exists|j: int| 0 <= j < i && (#[trigger] pairs@[j]).1 == deepest,
                forall|a: int, b: int| 0 <= a < b < pairs@.len() ==> pairs@[a].0 < pairs@[b].0,
                forall|j: int| 0 <= j < pairs@.len() ==> 1 <= (#[trigger] pairs@[j]).1 <= config.max_depth
                    && at_distance(preds@, everyone@, source as int, pairs@[j].1 as nat, pairs@[j].0 as int),
            decreases pairs@.len() - i,
        {
            affected.push(pairs[i].0);
            if pairs[i].1 > deepest {
                deepest = pairs[i].1;
            }
            i = i + 1;
        }
        assert forall|a: int, b: int| 0 <= a < b < affected@.len() implies affected@[a] < affected@[b] by {
            assert(affected@[a] == pairs@[a].0);
            assert(affected@[b] == pairs@[b].0);
        }
        assert forall|v: int, k: nat| 1 <= k <= config.max_depth && #[trigger] dependent_at(preds@, source as int, k, v)
            implies affected@.contains(v as u32) by {
            let j = choose|j: int| 0 <= j < pairs@.len() && pairs@[j].0 as int == v && pairs@[j].1 == k;
            assert(affected@[j] == pairs@[j].0);
        }
        if deepest != 0 {
            let ghost j = choose|j: int| 0 <= j < i && (#[trigger] pairs@[j]).1 == deepest;
            assert(affected@[j] == pairs@[j].0);
            assert(dependent_at(preds@, source as int, deepest as nat, affected@[j] as int));
        }
        let ghost aff = affected@;
        let r = ImpactResult { source, affected_nodes: affected, max_depth: deepest };
        assert(r.affected_nodes@ == aff);
        assert forall|j: int| 0 <= j < r.affected_nodes@.len() implies dependent_within(
            preds@,
            source as int,
            r.max_depth as int,
            config.max_depth as int,
            #[trigger] r.affected_nodes@[j] as int,
        ) by {
            assert(r.affected_nodes@[j] == pairs@[j].0);
            assert(dependent_at(preds@, source as int, pairs@[j].1 as nat, r.affected_nodes@[j] as int));
        }
        r
    }

    /// Impact radius of `source` with the default traversal depth.
    pub fn calculate_impact_radius(preds: &Vec<Vec<u32>>, source: u32) -> (r: ImpactResult)
        requires
            (source as int) < preds@.len(),
            preds@.len() <= u32::MAX,
        ensures
            r.source == source,
            forall|i: int, j: int| 0 <= i < j < r.affected_nodes@.len() ==> r.affected_nodes@[i] < r.affected_nodes@[j],
            forall|i: int| 0 <= i < r.affected_nodes@.len() ==> dependent_within(
                preds@,
                source as int,
                r.max_depth as int,
                DEFAULT_TRAVERSAL_DEPTH as int,
                #[trigger] r.affected_nodes@[i] as int,
            ),
            forall|v: int, k: nat| 1 <= k <= DEFAULT_TRAVERSAL_DEPTH && #[trigger] dependent_at(preds@, source as int, k, v)
                ==> r.affected_nodes@.contains(v as u32),
            r.max_depth <= DEFAULT_TRAVERSAL_DEPTH,
            r.max_depth == 0 || exists|i: int| 0 <= i < r.affected_nodes@.len() && dependent_at(
                preds@,
                source as int,
                r.max_depth as nat,
                r.affected_nodes@[i] as int,
            ),
    {
        Self::calculate_impact_radius_with_view(preds, source, TraversalConfig::default_config())
    }

    /// Direct predecessors of `target`, as listed.
    pub fn find_callers(preds: &Vec<Vec<u32>>, target: u32) -> (r: Vec<u32>)
        requires
            (target as int) < preds@.len(),
        ensures
            r@ == preds@[target as int]@,
    {
        preds[target as usize].clone()
    }
}


/// `a` and `b` reach each other along the edges `succ`.
pub open spec fn mutual(succ: Seq<Vec<u32>>, a: int, b: int) -> bool {
    reach(calls_rel(lists(succ)), a, b) && reach(calls_rel(lists(succ)), b, a)
}

/// Some member of `comp` has a call edge to a member of `comp`.
pub open spec fn comp_has_call(calls: Seq<Vec<u32>>, comp: Seq<u32>) -> bool {
    exists|i: int, j: int|
        0 <= i < comp.len() && 0 <= j < calls[comp[i] as int]@.len() && comp.contains(
            #[trigger] calls[comp[i] as int]@[j],
        )
}

/// The component of `v` holds a call edge: two nodes that both reach and are reached from
/// `v`, the first calling the second.
pub open spec fn cycle_has_call(succ: Seq<Vec<u32>>, calls: Seq<Vec<u32>>, v: int) -> bool {
    exists|x: int, y: int|
        0 <= x < succ.len() && 0 <= y < succ.len() && mutual(succ, v, x) && mutual(succ, v, y)
            && #[trigger] calls[x]@.contains(y as u32)
}

/// `x` occurs in `s`.
fn slice_has(s: &[u32], x: u32) -> (r: bool)
    ensures
        r == s@.contains(x),
{
    let mut i: usize = 0;
    while i < s.len()
        invariant
            i <= s@.len(),
            forall|j: int| 0 <= j < i ==> s@[j] != x,
        decreases s@.len() - i,
    {
        if s[i] == x {
            assert(s@[i as int] == x);
            return true;
        }
        i = i + 1;
    }
    false
}

/// Some member of `comp` calls a member of `comp`.
fn has_internal_call(comp: &Vec<u32>, calls: &Vec<Vec<u32>>) -> (r: bool)
    requires
        forall|k: int| 0 <= k < comp@.len() ==> (#[trigger] comp@[k] as int) < calls@.len(),
    ensures
        r == comp_has_call(calls@, comp@),
{
    let mut i: usize = 0;
    while i < comp.len()
        invariant
            i <= comp@.len(),
            forall|k: int| 0 <= k < comp@.len() ==> (#[trigger] comp@[k] as int) < calls@.len(),
            forall|a: int, j: int|
                0 <= a < i && 0 <= j < calls@[comp@[a] as int]@.len() ==> !comp@.contains(
                    #[trigger] calls@[comp@[a] as int]@[j],
                ),
        decreases comp@.len() - i,
    {
        let out = &calls[comp[i] as usize];
        let mut j: usize = 0;
        while j < out.len()
            invariant
                i < comp@.len(),
                j <= out@.len(),
                out@ == calls@[comp@[i as int] as int]@,
                forall|q: int| 0 <= q < j ==> !comp@.contains(#[trigger] out@[q]),
            decreases out@.len() - j,
        {
            if slice_has(comp.as_slice(), out[j]) {
                assert(calls@[comp@[i as int] as int]@[j as int] == out@[j as int]);
                return true;
            }
            j = j + 1;
        }
        i = i + 1;
    }
    false
}

impl DependencyAnalyzer {
    /// Circular dependencies: the strongly connected components of the graph `succ` (all
    /// edges) with two or more nodes in which some node calls another along `calls`.
    /// Each such component is listed once; the order of the components and of the nodes
    /// inside one is that of petgraph's component search.
    pub fn find_circular_dependencies_with_lookup(succ: &Vec<Vec<u32>>, calls: &Vec<Vec<u32>>) -> (r: Vec<
        CircularDependency,
    >)
        requires
            succ@.len() < u32::MAX,
            total_len(lists(succ@)) < u32::MAX,
            calls@.len() == succ@.len(),
            forall|u: int, k: int| 0 <= u < succ@.len() && 0 <= k < succ@[u]@.len() ==> (#[trigger] succ@[u]@[k] as int)
                < succ@.len(),
        ensures
            forall|c: int| 0 <= c < r@.len() ==> (#[trigger] r@[c]).nodes@.len() >= 2 && comp_has_call(
                calls@,
                r@[c].nodes@,
            ),
            forall|c: int, k1: int, k2: int|
                0 <= c < r@.len() && 0 <= k1 < r@[c].nodes@.len() && 0 <= k2 < r@[c].nodes@.len() ==> mutual(
                    succ@,
                    #[trigger] r@[c].nodes@[k1] as int,
                    #[trigger] r@[c].nodes@[k2] as int,
                ),
            forall|c: int, k: int, v: int|
                0 <= c < r@.len() && 0 <= k < r@[c].nodes@.len() && 0 <= v < succ@.len() && #[trigger] mutual(
                    succ@,
                    r@[c].nodes@[k] as int,
                    v,
                ) ==> r@[c].nodes@.contains(v as u32),
            forall|c1: int, k1: int, c2: int, k2: int|
                0 <= c1 < r@.len() && 0 <= k1 < r@[c1].nodes@.len() && 0 <= c2 < r@.len() && 0 <= k2
                    < r@[c2].nodes@.len() && #[trigger] r@[c1].nodes@[k1] == #[trigger] r@[c2].nodes@[k2] ==> c1 == c2
                    && k1 == k2,
            forall|v: int, w: int|
                0 <= v < succ@.len() && 0 <= w < succ@.len() && v != w && #[trigger] mutual(succ@, v, w)
                    && cycle_has_call(succ@, calls@, v) ==> exists|c: int| 0 <= c < r@.len() && r@[c].nodes@.contains(
                    v as u32,
                ),
    {
        let comps = strongly_connected(succ);
        let ghost cs = lists(comps@);
        let ghost g = lists(succ@);
        let mut out: Vec<CircularDependency> = Vec::new();
        let ghost mut idx: Seq<int> = Seq::empty();
        let mut i: usize = 0;
        while i < comps.len()
            invariant
                i <= comps@.len(),
                cs == lists(comps@),
                g == lists(succ@),
                calls@.len() == succ@.len(),
                is_scc_partition(g, cs),
                out@.len() == idx.len(),
                forall|c: int| 0 <= c < idx.len() ==> 0 <= #[trigger] idx[c] < i,
                forall|c1: int, c2: int| 0 <= c1 < c2 < idx.len() ==> idx[c1] < idx[c2],
                forall|c: int| 0 <= c < idx.len() ==> (#[trigger] out@[c]).nodes@ == cs[idx[c]],
                forall|c: int| 0 <= c < out@.len() ==> (#[trigger] out@[c]).nodes@.len() >= 2 && comp_has_call(
                    calls@,
                    out@[c].nodes@,
                ),
                forall|q: int| 0 <= q < i && cs[q].len() >= 2 && #[trigger] comp_has_call(calls@, cs[q]) ==> exists|c: int|
                    0 <= c < idx.len() && idx[c] == q,
            decreases comps@.len() - i,
        {
            let comp = &comps[i];
            assert(comp@ == cs[i as int]);
            assert forall|k: int| 0 <= k < comp@.len() implies (#[trigger] comp@[k] as int) < calls@.len() by {
                assert(cs[i as int][k] == comp@[k]);
            }
            let ghost idx0 = idx;
            let keep = comp.len() >= 2 && has_internal_call(comp, calls);
            if keep {
                out.push(CircularDependency { nodes: comp.clone() });
                proof {
                    idx = idx.push(i as int);
                }
                assert(out@[out@.len() - 1].nodes@ == cs[i as int]);
            }
            proof {
                assert forall|q: int| 0 <= q < i + 1 && cs[q].len() >= 2 && #[trigger] comp_has_call(calls@, cs[q]) implies exists|c: int|
                    0 <= c < idx.len() && idx[c] == q by {
                    if q == i as int {
                        assert(keep);
                        assert(idx[idx.len() - 1] == q);
                    } else {
                        let c = choose|c: int| 0 <= c < idx0.len() && idx0[c] == q;
                        assert(idx[c] == q);
                    }
                }
            }
            i = i + 1;
        }
        proof {
            assert forall|c: int, k1: int, k2: int|
                0 <= c < out@.len() && 0 <= k1 < out@[c].nodes@.len() && 0 <= k2 < out@[c].nodes@.len() implies mutual(
                succ@,
                #[trigger] out@[c].nodes@[k1] as int,
                #[trigger] out@[c].nodes@[k2] as int,
            ) by {
                let q = idx[c];
                assert(out@[c].nodes@ == cs[q]);
                assert(reach(calls_rel(g), cs[q][k1] as int, cs[q][k2] as int));
                assert(reach(calls_rel(g), cs[q][k2] as int, cs[q][k1] as int));
            }
            assert forall|c: int, k: int, v: int|
                0 <= c < out@.len() && 0 <= k < out@[c].nodes@.len() && 0 <= v < succ@.len() && #[trigger] mutual(
                    succ@,
                    out@[c].nodes@[k] as int,
                    v,
                ) implies out@[c].nodes@.contains(v as u32) by {
                let q = idx[c];
                assert(out@[c].nodes@ == cs[q]);
                assert(in_some_comp(cs, v));
                let (c2, k2) = choose|c2: int, k2: int| 0 <= c2 < cs.len() && 0 <= k2 < cs[c2].len() && #[trigger] cs[c2][k2] as int == v;
                assert(cs[c2][k2] as int == v);
                assert(c2 == q);
                assert(cs[q][k2] == v as u32);
            }
            assert forall|c1: int, k1: int, c2: int, k2: int|
                0 <= c1 < out@.len() && 0 <= k1 < out@[c1].nodes@.len() && 0 <= c2 < out@.len() && 0 <= k2
                    < out@[c2].nodes@.len() && #[trigger] out@[c1].nodes@[k1] == #[trigger] out@[c2].nodes@[k2] implies c1
                == c2 && k1 == k2 by {
                let q1 = idx[c1];
                let q2 = idx[c2];
                assert(out@[c1].nodes@ == cs[q1]);
                assert(out@[c2].nodes@ == cs[q2]);
                assert(cs[q1][k1] == cs[q2][k2]);
                if c1 < c2 {
                    assert(q1 < q2);
                } else if c2 < c1 {
                    assert(q2 < q1);
                }
            }
            assert forall|v: int, w: int|
                0 <= v < succ@.len() && 0 <= w < succ@.len() && v != w && #[trigger] mutual(succ@, v, w)
                    && cycle_has_call(succ@, calls@, v) implies exists|c: int| 0 <= c < out@.len()
                && out@[c].nodes@.contains(v as u32) by {
                assert(in_some_comp(cs, v));
                let (q, kv) = choose|q: int, kv: int| 0 <= q < cs.len() && 0 <= kv < cs[q].len() && #[trigger] cs[q][kv] as int == v;
                assert(in_some_comp(cs, w));
                let (qw, kw) = choose|qw: int, kw: int| 0 <= qw < cs.len() && 0 <= kw < cs[qw].len() && #[trigger] cs[qw][kw] as int == w;
                assert(cs[q][kv] as int == v);
                assert(cs[qw][kw] as int == w);
                assert(qw == q);
                assert(cs[q].len() >= 2) by {
                    assert(kv != kw);
                }
                let (x, y) = choose|x: int, y: int|
                    0 <= x < succ@.len() && 0 <= y < succ@.len() && mutual(succ@, v, x) && mutual(succ@, v, y)
                        && #[trigger] calls@[x]@.contains(y as u32);
                assert(in_some_comp(cs, x));
                let (qx, kx) = choose|qx: int, kx: int| 0 <= qx < cs.len() && 0 <= kx < cs[qx].len() && #[trigger] cs[qx][kx] as int == x;
                assert(cs[qx][kx] as int == x);
                assert(qx == q);
                assert(in_some_comp(cs, y));
                let (qy, ky) = choose|qy: int, ky: int| 0 <= qy < cs.len() && 0 <= ky < cs[qy].len() && #[trigger] cs[qy][ky] as int == y;
                assert(cs[qy][ky] as int == y);
                assert(qy == q);
                let j = choose|j: int| 0 <= j < calls@[x]@.len() && calls@[x]@[j] == y as u32;
                assert(cs[q].contains(calls@[cs[q][kx] as int]@[j]));
                assert(comp_has_call(calls@, cs[q]));
                let c = choose|c: int| 0 <= c < idx.len() && idx[c] == q;
                assert(out@[c].nodes@ == cs[q]);
                assert(out@[c].nodes@[kv] == v as u32);
            }
        }
        out
    }
}


/// Raising the depth limit of an impact traversal never loses a dependent.
pub proof fn lemma_impact_radius_monotone(preds: Seq<Vec<u32>>, source: int, d1: nat, d2: nat, v: int)
    requires
        d1 <= d2,
        exists|k: nat| 1 <= k <= d1 && #[trigger] dependent_at(preds, source, k, v),
    ensures
        exists|k: nat| 1 <= k <= d2 && #[trigger] dependent_at(preds, source, k, v),
{
    let k = choose|k: nat| 1 <= k <= d1 && #[trigger] dependent_at(preds, source, k, v);
    assert(dependent_at(preds, source, k, v));
}

} // verus!
