//! Condensation of the call graph into strongly connected components, the DAG between them,
//! and reachability rows over that DAG (computed ahead for condensed graphs, on demand for
//! flat ones).

use vstd::prelude::*;
use crate::bits::{BitRow, bitset_insert, bitset_members, bitset_new, bitset_union_with};
use crate::blast_engine_snapshot::{RowError, RowSource, ancestors, caller_step, callers_of, dag_step, incoming_from_dag_edges,
    lemma_callers_of_contains, lemma_row_is_reaching_set};
use crate::callgraph::{calls_rel, in_some_comp, is_scc_partition, lists, reverse_topological, strongly_connected, total_len};
use crate::paths::{is_walk, lemma_nodup_bounded_len, lemma_rank_decreases_along_walk, on_cycle, lemma_push_contains, lemma_reach_refl, lemma_reach_step, lemma_reach_trans, lemma_walk_prefix, reach};

verus! {

/// Call graph condensed into strongly connected components.
pub struct SccCondensation {
    /// Component index of each node.
    pub node_scc: Vec<usize>,
    /// Member nodes of each component.
    pub members: Vec<Vec<u32>>,
    /// Member whose name stands for each component, when one has a known name.
    pub representative: Vec<Option<u32>>,
    /// Edges between distinct components, each once.
    pub dag_edges: Vec<(usize, usize)>,
    /// Caller lists of the condensed DAG, by component.
    pub incoming: Vec<Vec<usize>>,
    /// Reachability rows over the condensed DAG.
    pub rows: RowSource,
}

/// The first member known to be a function (`info[v]` is `Some(true)`).
pub open spec fn first_function(members: Seq<u32>, info: Seq<Option<bool>>) -> Option<u32>
    decreases members.len(),
{
    if members.len() == 0 {
        None
    } else if info[members[0] as int] == Some(true) {
        Some(members[0])
    } else {
        first_function(members.drop_first(), info)
    }
}

/// The member whose name stands for a component: the first function among the members,
/// else the first member when its node is known, else none.
pub open spec fn representative_of(members: Seq<u32>, info: Seq<Option<bool>>) -> Option<u32> {
    match first_function(members, info) {
        Some(m) => Some(m),
        None => if members.len() > 0 && info[members[0] as int] is Some {
            Some(members[0])
        } else {
            None
        },
    }
}

/// Some call goes from a node of component `a` to a node of component `b`, and `a != b`.
pub open spec fn crosses(succ: Seq<Seq<u32>>, scc: Seq<usize>, a: usize, b: usize) -> bool {
    a != b && exists|u: int, k: int| 0 <= u < succ.len() && 0 <= k < succ[u].len() && scc[u] == a && #[trigger] succ[u][k] == succ[u][k]
        && scc[succ[u][k] as int] == b
}

/// Each node `v < n` has a component listed in `cs` that holds it.
pub open spec fn scc_of_each(n: int, node_scc: Seq<usize>, cs: Seq<Seq<u32>>) -> bool {
    forall|v: int| 0 <= v < n ==> (#[trigger] node_scc[v] as int) < cs.len() && cs[node_scc[v] as int].contains(v as u32)
}

/// No node is listed twice, in one component or across two.
pub open spec fn members_unique(ms: Seq<Vec<u32>>) -> bool {
    forall|c1: int, k1: int, c2: int, k2: int|
        0 <= c1 < ms.len() && 0 <= k1 < ms[c1]@.len() && 0 <= c2 < ms.len() && 0 <= k2 < ms[c2]@.len()
            && #[trigger] ms[c1]@[k1] == #[trigger] ms[c2]@[k2] ==> c1 == c2 && k1 == k2
}

/// The rows agree with the caller lists: walked on demand over the same lists, or computed
/// ahead as the set of components reaching each component.
pub open spec fn rows_agree(rows: RowSource, incoming: Seq<Vec<usize>>, m: int) -> bool {
    match rows {
        RowSource::OnDemand { scc_count, incoming: inc } => scc_count == m && inc@.len() == m
            && forall|t: int| 0 <= t < m ==> (#[trigger] inc@[t])@ == incoming[t]@,
        RowSource::Eager { scc_count, rows } => scc_count == m && rows@.len() == m
            && forall|t: int| 0 <= t < m ==> bitset_members(#[trigger] rows@[t]) == ancestors(incoming, m, t),
        RowSource::Sparse { .. } => false,
    }
}

/// Caller lists with the same contents give the same reaching sets.
proof fn lemma_ancestors_same_lists(inc1: Seq<Vec<usize>>, inc2: Seq<Vec<usize>>, n: int, s: int)
    requires
        inc1.len() == inc2.len(),
        forall|t: int| 0 <= t < inc1.len() ==> (#[trigger] inc1[t])@ == inc2[t]@,
    ensures
        ancestors(inc1, n, s) == ancestors(inc2, n, s),
{
    assert(caller_step(inc1, n) =~= caller_step(inc2, n)) by {
        assert forall|a: int, b: int| #[trigger] (caller_step(inc1, n))(a, b) == (caller_step(inc2, n))(a, b) by {
            if 0 <= a < inc1.len() {
                assert(inc1[a]@ == inc2[a]@);
            }
        }
    }
    assert(ancestors(inc1, n, s) =~= ancestors(inc2, n, s));
}

/// The components reaching `s` are `s` and those reaching one of its callers.
proof fn lemma_ancestors_unfold(incoming: Seq<Vec<usize>>, n: int, s: int, v: usize)
    requires
        0 <= s < incoming.len(),
        n <= usize::MAX,
    ensures
        ancestors(incoming, n, s).contains(v) <==> (v as int == s || exists|i: int| 0 <= i < incoming[s]@.len()
            && (incoming[s]@[i] as int) < n && #[trigger] ancestors(incoming, n, incoming[s]@[i] as int).contains(v)),
{
    let rel = caller_step(incoming, n);
    if ancestors(incoming, n, s).contains(v) && v as int != s {
        let w = choose|w: Seq<int>| #[trigger] is_walk(rel, w) && w[0] == s && w.last() == v as int;
        assert(w.len() >= 2);
        let i0: int = 0;
        assert(rel(w[i0], w[i0 + 1]));
        let p = w[1];
        assert(0 <= p < n);
        assert(incoming[s]@.contains(p as usize));
        let i = choose|i: int| 0 <= i < incoming[s]@.len() && incoming[s]@[i] == p as usize;
        assert(incoming[s]@[i] as int == p);
        crate::paths::lemma_walk_suffix(rel, w, 1);
        let w2 = w.subrange(1, w.len() as int);
        assert(w2[0] == p && w2.last() == v as int);
        assert(reach(rel, p, v as int));
        assert(ancestors(incoming, n, incoming[s]@[i] as int).contains(v));
    }
    if v as int == s {
        lemma_reach_refl(rel, s);
    }
    if exists|i: int| 0 <= i < incoming[s]@.len() && (incoming[s]@[i] as int) < n && #[trigger] ancestors(incoming, n, incoming[s]@[i] as int).contains(v) {
        let i = choose|i: int| 0 <= i < incoming[s]@.len() && (incoming[s]@[i] as int) < n && #[trigger] ancestors(incoming, n, incoming[s]@[i] as int).contains(v);
        let p = incoming[s]@[i] as int;
        assert(incoming[s]@.contains(p as usize));
        assert(rel(s, p));
        lemma_reach_refl(rel, s);
        lemma_reach_step(rel, s, s, p);
        lemma_reach_trans(rel, s, p, v as int);
    }
}

/// Rows computed ahead: each component's row is itself and the rows of its callers, filled
/// in topological order, so that every caller's row is ready first.
fn eager_rows(incoming: &Vec<Vec<usize>>, order: &Vec<usize>, m: usize) -> (rows: Vec<BitRow>)
    requires
        incoming@.len() == m,
        order@.len() == m,
        m < usize::MAX,
        order@.no_duplicates(),
        forall|v: usize| (v as int) < m ==> order@.contains(v),
        forall|i: int| 0 <= i < m ==> (#[trigger] order@[i] as int) < m,
        forall|t: int, j: int| 0 <= t < m && 0 <= j < incoming@[t]@.len() ==> (#[trigger] incoming@[t]@[j] as int) < m
            && forall|i1: int, i2: int| 0 <= i1 < m && 0 <= i2 < m && order@[i1] == incoming@[t]@[j] && order@[i2] as int == t ==> i1 < i2,
    ensures
        rows@.len() == m,
        forall|t: int| 0 <= t < m ==> bitset_members(#[trigger] rows@[t]) == ancestors(incoming@, m as int, t),
{
    let mut rows: Vec<BitRow> = Vec::new();
    let mut k: usize = 0;
    while k < m
        invariant
            k <= m,
            rows@.len() == k,
        decreases m - k,
    {
        rows.push(bitset_new());
        k = k + 1;
    }
    let mut i: usize = 0;
    while i < m
        invariant
            i <= m,
            m < usize::MAX,
            rows@.len() == m,
            incoming@.len() == m,
            order@.len() == m,
            order@.no_duplicates(),
            forall|i3: int| 0 <= i3 < m ==> (#[trigger] order@[i3] as int) < m,
            forall|v: usize| (v as int) < m ==> order@.contains(v),
            forall|t: int, j: int| 0 <= t < m && 0 <= j < incoming@[t]@.len() ==> (#[trigger] incoming@[t]@[j] as int) < m
                && forall|i1: int, i2: int| 0 <= i1 < m && 0 <= i2 < m && order@[i1] == incoming@[t]@[j] && order@[i2] as int == t ==> i1 < i2,
            forall|j: int| 0 <= j < i ==> bitset_members(#[trigger] rows@[order@[j] as int]) == ancestors(incoming@, m as int, order@[j] as int),
        decreases m - i,
    {
        let s = order[i];
        let mut row = bitset_new();
        bitset_insert(&mut row, s);
        let preds = &incoming[s];
        let mut j: usize = 0;
        while j < preds.len()
            invariant
                i < m,
                s == order@[i as int],
                (s as int) < m,
                m < usize::MAX,
                rows@.len() == m,
                incoming@.len() == m,
                order@.len() == m,
                preds@ == incoming@[s as int]@,
                j <= preds@.len(),
                forall|v: usize| (v as int) < m ==> order@.contains(v),
                forall|t: int, j2: int| 0 <= t < m && 0 <= j2 < incoming@[t]@.len() ==> (#[trigger] incoming@[t]@[j2] as int) < m
                    && forall|i1: int, i2: int| 0 <= i1 < m && 0 <= i2 < m && order@[i1] == incoming@[t]@[j2] && order@[i2] as int == t ==> i1 < i2,
                forall|j3: int| 0 <= j3 < i ==> bitset_members(#[trigger] rows@[order@[j3] as int]) == ancestors(incoming@, m as int, order@[j3] as int),
                forall|v: usize| #[trigger] bitset_members(row).contains(v) <==> (v == s || exists|i4: int| 0 <= i4 < j
                    && #[trigger] ancestors(incoming@, m as int, preds@[i4] as int).contains(v)),
            decreases preds.len() - j,
        {
            let p = preds[j];
            proof {
                assert((p as int) < m);
                assert(order@.contains(p));
                let i1 = choose|i1: int| 0 <= i1 < order@.len() && order@[i1] == p;
                assert(i1 < i);
                assert(bitset_members(rows@[order@[i1] as int]) == ancestors(incoming@, m as int, order@[i1] as int));
            }
            let ghost before = bitset_members(row);
            bitset_union_with(&mut row, &rows[p]);
            proof {
                assert forall|v: usize| #[trigger] bitset_members(row).contains(v) <==> (v == s || exists|i4: int| 0 <= i4 < j + 1
                    && #[trigger] ancestors(incoming@, m as int, preds@[i4] as int).contains(v)) by {
                    if exists|i4: int| 0 <= i4 < j + 1 && #[trigger] ancestors(incoming@, m as int, preds@[i4] as int).contains(v) {
                        let i4 = choose|i4: int| 0 <= i4 < j + 1 && #[trigger] ancestors(incoming@, m as int, preds@[i4] as int).contains(v);
                        if i4 < j {
                            assert(before.contains(v));
                        }
                    }
                }
            }
            j = j + 1;
        }
        proof {
            assert(bitset_members(row) =~= ancestors(incoming@, m as int, s as int)) by {
                assert forall|v: usize| bitset_members(row).contains(v) <==> ancestors(incoming@, m as int, s as int).contains(v) by {
                    lemma_ancestors_unfold(incoming@, m as int, s as int, v);
                    if exists|i5: int| 0 <= i5 < incoming@[s as int]@.len() && (incoming@[s as int]@[i5] as int) < m
                        && #[trigger] ancestors(incoming@, m as int, incoming@[s as int]@[i5] as int).contains(v) {
                        let i5 = choose|i5: int| 0 <= i5 < incoming@[s as int]@.len() && (incoming@[s as int]@[i5] as int) < m
                            && #[trigger] ancestors(incoming@, m as int, incoming@[s as int]@[i5] as int).contains(v);
                        assert(ancestors(incoming@, m as int, preds@[i5] as int).contains(v));
                    }
                }
            }
        }
        let ghost rows_before = rows@;
        rows.set(s, row);
        proof {
            assert forall|j3: int| 0 <= j3 < i + 1 implies bitset_members(#[trigger] rows@[order@[j3] as int]) == ancestors(incoming@, m as int, order@[j3] as int) by {
                if j3 < i {
                    assert(order@[j3] != order@[i as int]);
                    assert(rows@[order@[j3] as int] == rows_before[order@[j3] as int]);
                }
            }
        }
        i = i + 1;
    }
    proof {
        assert forall|t: int| 0 <= t < m implies bitset_members(#[trigger] rows@[t]) == ancestors(incoming@, m as int, t) by {
            assert(order@.contains(t as usize));
            let j = choose|j: int| 0 <= j < order@.len() && order@[j] == t as usize;
        }
    }
    rows
}

/// Topological order of the graph on `0..n` with edges `edges` (petgraph `algo::toposort` on
/// a `DiGraph` with node `i` added `i`-th and the edges added in order): on success every
/// node once, the source of each edge listed before its target; an error only for a graph
/// with a cycle, as the function's documentation states.
#[verifier::external_body]
fn topological_sort(n: usize, edges: &Vec<(usize, usize)>) -> (r: Option<Vec<usize>>)
    requires
        n < u32::MAX,
        edges@.len() < u32::MAX,
        forall|k: int| 0 <= k < edges@.len() ==> (#[trigger] edges@[k]).0 < n && edges@[k].1 < n,
    ensures
        r matches Some(order) ==> order@.len() == n && order@.no_duplicates()
            && (forall|v: usize| (v as int) < n ==> order@.contains(v))
            && (forall|i: int| 0 <= i < n ==> (#[trigger] order@[i] as int) < n)
            && (forall|k: int, i: int, j: int| #![trigger edges@[k], order@[i], order@[j]] 0 <= k < edges@.len() && 0 <= i < n && 0 <= j < n
                && order@[i] == edges@[k].0 && order@[j] == edges@[k].1 ==> i < j),
        r is None ==> exists|v: int| #[trigger] on_cycle(dag_step(edges@, n as int), v),
{
    let mut g = petgraph::graph::DiGraph::<(), ()>::new();
    let nodes: Vec<petgraph::graph::NodeIndex> = (0..n).map(|_| g.add_node(())).collect();
    for &(a, b) in edges.iter() {
        g.add_edge(nodes[a], nodes[b], ());
    }
    match petgraph::algo::toposort(&g, None) {
        Ok(order) => Some(order.into_iter().map(|x| x.index()).collect()),
        Err(_) => None,
    }
}

/// A crossing call among the first `u` lists, and the first `k` entries of list `u`.
pub open spec fn crosses_before(succ: Seq<Seq<u32>>, scc: Seq<usize>, a: usize, b: usize, u: int, k: int) -> bool {
    a != b && exists|x: int, j: int| 0 <= x < succ.len() && 0 <= j < succ[x].len() && (x < u || (x == u && j < k))
        && scc[x] == a && #[trigger] succ[x][j] == succ[x][j] && scc[succ[x][j] as int] == b
}

/// `node_scc` assigns each node one of `m` components, nodes share a component exactly when
/// they reach each other, and `dag_edges` holds exactly the crossing calls.
pub open spec fn condensation_of(succ: Seq<Seq<u32>>, node_scc: Seq<usize>, m: int, dag_edges: Seq<(usize, usize)>) -> bool {
    &&& succ.len() <= u32::MAX
    &&& m <= usize::MAX
    &&& forall|x: int, k: int| 0 <= x < succ.len() && 0 <= k < succ[x].len() ==> (#[trigger] succ[x][k] as int) < succ.len()
    &&& node_scc.len() == succ.len()
    &&& forall|v: int| 0 <= v < succ.len() ==> (#[trigger] node_scc[v] as int) < m
    &&& forall|u: int, v: int| 0 <= u < succ.len() && 0 <= v < succ.len() ==> (#[trigger] node_scc[u] == #[trigger] node_scc[v]
        <==> reach(calls_rel(succ), u, v) && reach(calls_rel(succ), v, u))
    &&& forall|a: usize, b: usize| #[trigger] dag_edges.contains((a, b)) <==> crosses(succ, node_scc, a, b)
}

proof fn lemma_walk_lifts(succ: Seq<Seq<u32>>, node_scc: Seq<usize>, m: int, dag_edges: Seq<(usize, usize)>, w: Seq<int>)
    requires
        condensation_of(succ, node_scc, m, dag_edges),
        is_walk(calls_rel(succ), w),
        0 <= w[0] < succ.len(),
    ensures
        0 <= w.last() < succ.len(),
        reach(dag_step(dag_edges, m), node_scc[w[0]] as int, node_scc[w.last()] as int),
    decreases w.len(),
{
    let dag = dag_step(dag_edges, m);
    if w.len() == 1 {
        lemma_reach_refl(dag, node_scc[w[0]] as int);
    } else {
        lemma_walk_prefix(calls_rel(succ), w, w.len() - 1);
        let w2 = w.take(w.len() - 1);
        lemma_walk_lifts(succ, node_scc, m, dag_edges, w2);
        let i = w.len() - 2;
        assert((calls_rel(succ))(w[i], w[i + 1]));
        let a = node_scc[w[i]];
        let b = node_scc[w[i + 1]];
        assert(w2.last() == w[i]);
        if a != b {
            let k = choose|k: int| 0 <= k < succ[w[i]].len() && succ[w[i]][k] == w[i + 1] as u32;
            assert(succ[w[i]][k] == succ[w[i]][k]);
            assert(succ[w[i]][k] as int == w[i + 1]);
            assert(crosses(succ, node_scc, a, b));
            assert(dag_edges.contains((a, b)));
            let j = choose|j: int| 0 <= j < dag_edges.len() && dag_edges[j] == (a, b);
            assert(dag(a as int, b as int));
            lemma_reach_step(dag, node_scc[w[0]] as int, a as int, b as int);
        }
    }
}

proof fn lemma_dag_walk_lowers(succ: Seq<Seq<u32>>, node_scc: Seq<usize>, m: int, dag_edges: Seq<(usize, usize)>, u: int, w: Seq<int>, y: int)
    requires
        condensation_of(succ, node_scc, m, dag_edges),
        0 <= u < succ.len(),
        is_walk(dag_step(dag_edges, m), w),
        w[0] == node_scc[u] as int,
        0 <= y < succ.len(),
        node_scc[y] as int == w.last(),
    ensures
        reach(calls_rel(succ), u, y),
    decreases w.len(),
{
    let calls = calls_rel(succ);
    if w.len() == 1 {
        assert(node_scc[u] == node_scc[y]);
    } else {
        let i = w.len() - 2;
        assert((dag_step(dag_edges, m))(w[i], w[i + 1]));
        let j = choose|j: int| 0 <= j < dag_edges.len() && #[trigger] dag_edges[j] == (w[i] as usize, w[i + 1] as usize);
        let a = w[i] as usize;
        let b = w[i + 1] as usize;
        assert(dag_edges.contains((a, b)));
        assert(crosses(succ, node_scc, a, b));
        let (x, k) = choose|x: int, k: int| 0 <= x < succ.len() && 0 <= k < succ[x].len() && node_scc[x] == a
            && #[trigger] succ[x][k] == succ[x][k] && node_scc[succ[x][k] as int] == b;
        let v = succ[x][k] as int;
        lemma_walk_prefix(dag_step(dag_edges, m), w, w.len() - 1);
        let w2 = w.take(w.len() - 1);
        assert(w2.last() == w[i]);
        lemma_dag_walk_lowers(succ, node_scc, m, dag_edges, u, w2, x);
        assert(0 <= v < succ.len());
        assert(succ[x].contains(v as u32));
        assert(calls(x, v));
        lemma_reach_step(calls, u, x, v);
        assert(node_scc[v] == node_scc[y]);
        lemma_reach_trans(calls, u, v, y);
    }
}

/// A node reaches another along calls exactly when its component reaches the other's
/// component along the condensed DAG.
pub proof fn lemma_condensed_reach(succ: Seq<Seq<u32>>, node_scc: Seq<usize>, m: int, dag_edges: Seq<(usize, usize)>, u: int, x: int)
    requires
        condensation_of(succ, node_scc, m, dag_edges),
        0 <= u < succ.len(),
        0 <= x < succ.len(),
    ensures
        reach(dag_step(dag_edges, m), node_scc[u] as int, node_scc[x] as int) <==> reach(calls_rel(succ), u, x),
{
    if reach(calls_rel(succ), u, x) {
        let w = choose|w: Seq<int>| #[trigger] is_walk(calls_rel(succ), w) && w[0] == u && w.last() == x;
        lemma_walk_lifts(succ, node_scc, m, dag_edges, w);
    }
    if reach(dag_step(dag_edges, m), node_scc[u] as int, node_scc[x] as int) {
        let w = choose|w: Seq<int>| #[trigger] is_walk(dag_step(dag_edges, m), w) && w[0] == node_scc[u] as int && w.last() == node_scc[x] as int;
        lemma_dag_walk_lowers(succ, node_scc, m, dag_edges, u, w, x);
    }
}

fn contains_pair(v: &Vec<(usize, usize)>, p: (usize, usize)) -> (r: bool)
    ensures
        r == v@.contains(p),
{
    let mut i: usize = 0;
    while i < v.len()
        invariant
            i <= v@.len(),
            forall|j: int| 0 <= j < i ==> v@[j] != p,
        decreases v.len() - i,
    {
        if v[i].0 == p.0 && v[i].1 == p.1 {
            return true;
        }
        i = i + 1;
    }
    false
}

fn representative(members: &Vec<u32>, info: &Vec<Option<bool>>) -> (r: Option<u32>)
    requires
        forall|k: int| 0 <= k < members@.len() ==> (#[trigger] members@[k] as int) < info@.len(),
    ensures
        r == representative_of(members@, info@),
{
    let mut i: usize = 0;
    proof {
        assert(members@.skip(0) =~= members@);
    }
    while i < members.len()
        invariant
            i <= members@.len(),
            forall|k: int| 0 <= k < members@.len() ==> (#[trigger] members@[k] as int) < info@.len(),
            first_function(members@, info@) == first_function(members@.skip(i as int), info@),
        decreases members.len() - i,
    {
        proof {
            assert(members@.skip(i as int)[0] == members@[i as int]);
            assert(members@.skip(i as int).drop_first() =~= members@.skip(i as int + 1));
        }
        let m = members[i];
        if info[m as usize] == Some(true) {
            return Some(m);
        }
        i = i + 1;
    }
    proof {
        assert(members@.skip(i as int).len() == 0);
    }
    if members.len() > 0 && info[members[0] as usize].is_some() {
        Some(members[0])
    } else {
        None
    }
}

/// Condense the call graph whose outgoing call lists are `succ` (node `i` is index `i`):
/// its strongly connected components, the component of each node, a representative member
/// of each component (`info[v]` tells whether node `v` is known and is a function), the
/// edges between distinct components, their caller lists, and reachability rows over them:
/// computed ahead when the components are fewer than nine tenths of the nodes, walked on
/// demand otherwise.
pub fn build_from_view_lookup(succ: &Vec<Vec<u32>>, info: &Vec<Option<bool>>) -> (r: SccCondensation)
    requires
        succ@.len() < u32::MAX,
        succ@.len() <= usize::MAX - 64,
        total_len(lists(succ@)) < u32::MAX,
        forall|u: int, k: int| 0 <= u < succ@.len() && 0 <= k < succ@[u]@.len() ==> (#[trigger] succ@[u]@[k] as int) < succ@.len(),
        info@.len() == succ@.len(),
    ensures
        is_scc_partition(lists(succ@), lists(r.members@)),
        r.node_scc@.len() == succ@.len(),
        forall|v: int| 0 <= v < succ@.len() ==> {
            let c = #[trigger] r.node_scc@[v] as int;
            0 <= c < r.members@.len() && r.members@[c]@.contains(v as u32)
        },
        forall|u: int, v: int| 0 <= u < succ@.len() && 0 <= v < succ@.len() ==> (#[trigger] r.node_scc@[u] == #[trigger] r.node_scc@[v]
            <==> reach(calls_rel(lists(succ@)), u, v) && reach(calls_rel(lists(succ@)), v, u)),
        r.representative@.len() == r.members@.len(),
        forall|c: int| 0 <= c < r.members@.len() ==> #[trigger] r.representative@[c] == representative_of(r.members@[c]@, info@),
        r.dag_edges@.no_duplicates(),
        forall|a: usize, b: usize| #[trigger] r.dag_edges@.contains((a, b)) <==> crosses(lists(succ@), r.node_scc@, a, b),
        condensation_of(lists(succ@), r.node_scc@, r.members@.len() as int, r.dag_edges@),
        r.members@.len() <= succ@.len(),
        r.wf(),
        r.built_from(lists(succ@)),
        r.incoming@.len() == r.members@.len(),
        forall|s: int| 0 <= s < r.members@.len() ==> (#[trigger] r.incoming@[s])@ == callers_of(r.dag_edges@, r.members@.len() as int, s),
        (r.rows is OnDemand) <==> 10 * r.members@.len() >= 9 * (if succ@.len() == 0 { 1 } else { succ@.len() as int }),
{
    let n = succ.len();
    let ghost s = lists(succ@);
    let comps = strongly_connected(succ);
    let ghost cs = lists(comps@);
    let m = comps.len();
    proof {
        let firsts = Seq::new(m as nat, |c: int| cs[c][0] as int);
        assert forall|c: int| 0 <= c < m implies 0 <= #[trigger] firsts[c] < n by {
            assert(comps@[c]@.len() > 0);
            assert(cs[c].len() > 0);
        }
        assert forall|i: int, j: int| 0 <= i < j < firsts.len() implies firsts[i] != firsts[j] by {
            assert(comps@[i]@.len() > 0 && comps@[j]@.len() > 0);
            if cs[i][0] == cs[j][0] {
                assert(i == j);
            }
        }
        lemma_nodup_bounded_len(firsts, n as int);
    }
    let mut node_scc: Vec<usize> = vec![0usize; n];
    let mut c: usize = 0;
    while c < m
        invariant
            c <= m,
            m == comps@.len(),
            cs == lists(comps@),
            s == lists(succ@),
            n == succ@.len(),
            is_scc_partition(s, cs),
            node_scc@.len() == n,
            forall|c2: int, k2: int| 0 <= c2 < c && 0 <= k2 < cs[c2].len() ==> #[trigger] node_scc@[cs[c2][k2] as int] == c2,
        decreases m - c,
    {
        let comp = &comps[c];
        let mut k: usize = 0;
        while k < comp.len()
            invariant
                c < m,
                m == comps@.len(),
                cs == lists(comps@),
                comp@ == cs[c as int],
                k <= comp@.len(),
                n == succ@.len(),
                is_scc_partition(s, cs),
                s == lists(succ@),
                node_scc@.len() == n,
                forall|c2: int, k2: int| 0 <= c2 < c && 0 <= k2 < cs[c2].len() ==> #[trigger] node_scc@[cs[c2][k2] as int] == c2,
                forall|k2: int| 0 <= k2 < k ==> #[trigger] node_scc@[cs[c as int][k2] as int] == c,
            decreases comp.len() - k,
        {
            let x = comp[k] as usize;
            proof {
                assert(cs[c as int][k as int] == comp@[k as int]);
            }
            let ghost before = node_scc@;
            node_scc.set(x, c);
            proof {
                assert forall|c2: int, k2: int| 0 <= c2 < c && 0 <= k2 < cs[c2].len() implies #[trigger] node_scc@[cs[c2][k2] as int] == c2 by {
                    if cs[c2][k2] as int == x as int {
                        assert(cs[c2][k2] == cs[c as int][k as int]);
                    }
                    assert(before[cs[c2][k2] as int] == c2);
                }
                assert forall|k2: int| 0 <= k2 < k + 1 implies #[trigger] node_scc@[cs[c as int][k2] as int] == c by {
                    if k2 < k {
                        assert(before[cs[c as int][k2] as int] == c);
                    }
                }
            }
            k = k + 1;
        }
        c = c + 1;
    }
    proof {
        assert forall|v: int| 0 <= v < n implies {
            let c = #[trigger] node_scc@[v] as int;
            0 <= c < cs.len() && cs[c].contains(v as u32)
        } by {
            assert(in_some_comp(cs, v));
            let (c2, k2) = choose|c2: int, k2: int| 0 <= c2 < cs.len() && 0 <= k2 < cs[c2].len() && #[trigger] cs[c2][k2] as int == v;
            assert(node_scc@[cs[c2][k2] as int] == c2);
            assert(cs[c2][k2] == v as u32);
        }
        assert forall|u: int, v: int| 0 <= u < n && 0 <= v < n implies (#[trigger] node_scc@[u] == #[trigger] node_scc@[v]
            <==> reach(calls_rel(s), u, v) && reach(calls_rel(s), v, u)) by {
            let cu = node_scc@[u] as int;
            let cv = node_scc@[v] as int;
            let ku = choose|k: int| 0 <= k < cs[cu].len() && cs[cu][k] == u as u32;
            let kv = choose|k: int| 0 <= k < cs[cv].len() && cs[cv][k] == v as u32;
            assert(cs[cu][ku] as int == u);
            assert(cs[cv][kv] as int == v);
            if cu == cv {
                assert(reach(calls_rel(s), cs[cu][ku] as int, cs[cu][kv] as int));
                assert(reach(calls_rel(s), cs[cu][kv] as int, cs[cu][ku] as int));
            }
            if reach(calls_rel(s), u, v) && reach(calls_rel(s), v, u) {
                assert(reach(calls_rel(s), cs[cu][ku] as int, cs[cv][kv] as int));
            }
        }
    }
    proof {
        assert(scc_of_each(n as int, node_scc@, cs));
    }
    let mut reps: Vec<Option<u32>> = Vec::new();
    let mut c: usize = 0;
    while c < m
        invariant
            c <= m,
            m == comps@.len(),
            cs == lists(comps@),
            is_scc_partition(s, cs),
            n == succ@.len(),
            s == lists(succ@),
            info@.len() == n,
            reps@.len() == c,
            forall|c2: int| 0 <= c2 < c ==> #[trigger] reps@[c2] == representative_of(cs[c2], info@),
            scc_of_each(n as int, node_scc@, cs),
            reverse_topological(s, cs),
        decreases m - c,
    {
        proof {
            assert(comps@[c as int]@ == cs[c as int]);
            assert forall|k: int| 0 <= k < comps@[c as int]@.len() implies (#[trigger] comps@[c as int]@[k] as int) < info@.len() by {
                assert(cs[c as int][k] == comps@[c as int]@[k]);
            }
        }
        let rep = representative(&comps[c], info);
        reps.push(rep);
        c = c + 1;
    }
    let mut dag_edges: Vec<(usize, usize)> = Vec::new();
    let mut u: usize = 0;
    proof {
        assert(s.take(0) =~= Seq::<Seq<u32>>::empty());
    }
    while u < n
        invariant
            u <= n,
            n == succ@.len(),
            s == lists(succ@),
            node_scc@.len() == n,
            forall|v: int| 0 <= v < n ==> (#[trigger] node_scc@[v] as int) < m,
            forall|x: int, j: int| 0 <= x < succ@.len() && 0 <= j < succ@[x]@.len() ==> (#[trigger] succ@[x]@[j] as int) < succ@.len(),
            dag_edges@.no_duplicates(),
            dag_edges@.len() <= total_len(s.take(u as int)),
            total_len(s) < u32::MAX,
            forall|a: usize, b: usize| #[trigger] dag_edges@.contains((a, b)) <==> crosses_before(s, node_scc@, a, b, u as int, 0),
            cs == lists(comps@),
            m == comps@.len(),
            scc_of_each(n as int, node_scc@, cs),
            reverse_topological(s, cs),
        decreases n - u,
    {
        let outs = &succ[u];
        let mut k: usize = 0;
        while k < outs.len()
            invariant
                u < n,
                n == succ@.len(),
                s == lists(succ@),
                outs@ == s[u as int],
                k <= outs@.len(),
                node_scc@.len() == n,
                forall|v: int| 0 <= v < n ==> (#[trigger] node_scc@[v] as int) < m,
                forall|x: int, j: int| 0 <= x < succ@.len() && 0 <= j < succ@[x]@.len() ==> (#[trigger] succ@[x]@[j] as int) < succ@.len(),
                dag_edges@.no_duplicates(),
                dag_edges@.len() <= total_len(s.take(u as int)) + k,
                forall|a: usize, b: usize| #[trigger] dag_edges@.contains((a, b)) <==> crosses_before(s, node_scc@, a, b, u as int, k as int),
                cs == lists(comps@),
                m == comps@.len(),
                scc_of_each(n as int, node_scc@, cs),
                reverse_topological(s, cs),
            decreases outs.len() - k,
        {
            let v = outs[k] as usize;
            proof {
                assert(succ@[u as int]@[k as int] == outs@[k as int]);
            }
            let a = node_scc[u];
            let b = node_scc[v];
            let ghost old_edges = dag_edges@;
            if a != b && !contains_pair(&dag_edges, (a, b)) {
                dag_edges.push((a, b));
                proof {
                    assert forall|i: int, j: int| 0 <= i < j < dag_edges@.len() implies dag_edges@[i] != dag_edges@[j] by {
                        if j == dag_edges@.len() - 1 {
                            assert(old_edges[i] == dag_edges@[i]);
                            assert(old_edges.contains(old_edges[i]));
                        } else {
                            assert(old_edges[i] == dag_edges@[i] && old_edges[j] == dag_edges@[j]);
                        }
                    }
                }
            }
            proof {
                assert forall|a2: usize, b2: usize| #[trigger] dag_edges@.contains((a2, b2)) <==> crosses_before(s, node_scc@, a2, b2, u as int, k as int + 1) by {
                    lemma_push_contains(old_edges, (a, b), (a2, b2));
                    if crosses_before(s, node_scc@, a2, b2, u as int, k as int + 1) {
                        let (x, j) = choose|x: int, j: int| 0 <= x < s.len() && 0 <= j < s[x].len() && (x < u || (x == u && j < k + 1))
                            && node_scc@[x] == a2 && #[trigger] s[x][j] == s[x][j] && node_scc@[s[x][j] as int] == b2;
                        if !(x == u && j == k) {
                            assert(crosses_before(s, node_scc@, a2, b2, u as int, k as int));
                        }
                    }
                    if crosses_before(s, node_scc@, a2, b2, u as int, k as int) {
                        let (x, j) = choose|x: int, j: int| 0 <= x < s.len() && 0 <= j < s[x].len() && (x < u || (x == u && j < k))
                            && node_scc@[x] == a2 && #[trigger] s[x][j] == s[x][j] && node_scc@[s[x][j] as int] == b2;
                        assert(s[x][j] == s[x][j]);
                    }
                    if a2 == a && b2 == b && a != b {
                        assert(s[u as int][k as int] == s[u as int][k as int]);
                    }
                }
            }
            k = k + 1;
        }
        proof {
            assert(s.take(u as int + 1).drop_last() =~= s.take(u as int));
            assert(s.take(u as int + 1).last() == s[u as int]);
            assert forall|a2: usize, b2: usize| #[trigger] dag_edges@.contains((a2, b2)) <==> crosses_before(s, node_scc@, a2, b2, u as int + 1, 0) by {
                if crosses_before(s, node_scc@, a2, b2, u as int + 1, 0) {
                    let (x, j) = choose|x: int, j: int| 0 <= x < s.len() && 0 <= j < s[x].len() && (x < u + 1 || (x == u + 1 && j < 0))
                        && node_scc@[x] == a2 && #[trigger] s[x][j] == s[x][j] && node_scc@[s[x][j] as int] == b2;
                    assert(crosses_before(s, node_scc@, a2, b2, u as int, k as int));
                }
                if crosses_before(s, node_scc@, a2, b2, u as int, k as int) {
                    let (x, j) = choose|x: int, j: int| 0 <= x < s.len() && 0 <= j < s[x].len() && (x < u || (x == u && j < k))
                        && node_scc@[x] == a2 && #[trigger] s[x][j] == s[x][j] && node_scc@[s[x][j] as int] == b2;
                    assert(s[x][j] == s[x][j]);
                }
            }
        }
        u = u + 1;
    }
    proof {
        assert forall|a2: usize, b2: usize| #[trigger] dag_edges@.contains((a2, b2)) <==> crosses(s, node_scc@, a2, b2) by {
            if crosses(s, node_scc@, a2, b2) {
                let (x, j) = choose|x: int, j: int| 0 <= x < s.len() && 0 <= j < s[x].len() && node_scc@[x] == a2
                    && #[trigger] s[x][j] == s[x][j] && node_scc@[s[x][j] as int] == b2;
                assert(s[x][j] == s[x][j]);
            }
            if crosses_before(s, node_scc@, a2, b2, u as int, 0) {
                let (x, j) = choose|x: int, j: int| 0 <= x < s.len() && 0 <= j < s[x].len() && (x < u || (x == u && j < 0))
                    && node_scc@[x] == a2 && #[trigger] s[x][j] == s[x][j] && node_scc@[s[x][j] as int] == b2;
                assert(s[x][j] == s[x][j]);
            }
        }
    }
    proof {
        assert(s.take(n as int) =~= s);
        assert forall|e: int| 0 <= e < dag_edges@.len() implies (#[trigger] dag_edges@[e]).1 < dag_edges@[e].0 < m by {
            let p = dag_edges@[e].0;
            let t = dag_edges@[e].1;
            assert(dag_edges@.contains((p, t)));
            assert(crosses(s, node_scc@, p, t));
            let (x, k) = choose|x: int, k: int| 0 <= x < s.len() && 0 <= k < s[x].len() && node_scc@[x] == p
                && #[trigger] s[x][k] == s[x][k] && node_scc@[s[x][k] as int] == t;
            let y = s[x][k] as int;
            assert(0 <= y < n);
            assert(cs[p as int].contains(x as u32));
            assert(cs[t as int].contains(y as u32));
            let k1 = choose|k1: int| 0 <= k1 < cs[p as int].len() && cs[p as int][k1] == x as u32;
            let k2 = choose|k2: int| 0 <= k2 < cs[t as int].len() && cs[t as int][k2] == y as u32;
            assert(s[x][k] == y as u32);
            assert(s[x].contains(y as u32));
            assert((calls_rel(s))(cs[p as int][k1] as int, cs[t as int][k2] as int));
        }
    }
    let incoming = incoming_from_dag_edges(dag_edges.as_slice(), m);
    let n1: usize = if n == 0 { 1 } else { n };
    let rows = if 10 * (m as u64) >= 9 * (n1 as u64) {
        RowSource::from_dag_on_demand(incoming_from_dag_edges(dag_edges.as_slice(), m), m)
    } else {
        match topological_sort(m, &dag_edges) {
            Some(order) => {
                proof {
                    assert forall|t: int, j: int| 0 <= t < m && 0 <= j < incoming@[t]@.len() implies (#[trigger] incoming@[t]@[j] as int) < m
                        && forall|i1: int, i2: int| 0 <= i1 < m && 0 <= i2 < m && order@[i1] == incoming@[t]@[j] && order@[i2] as int == t ==> i1 < i2 by {
                        let p = incoming@[t]@[j];
                        assert(callers_of(dag_edges@, m as int, t).contains(p));
                        lemma_callers_of_contains(dag_edges@, m as int, t as usize, p);
                        let e = choose|e: int| 0 <= e < dag_edges@.len() && #[trigger] dag_edges@[e] == (p, t as usize);
                        assert forall|i1: int, i2: int| 0 <= i1 < m && 0 <= i2 < m && order@[i1] == p && order@[i2] as int == t implies i1 < i2 by {
                            assert(order@[i1] == dag_edges@[e].0 && order@[i2] == dag_edges@[e].1);
                        }
                    }
                }
                RowSource::Eager { scc_count: m, rows: eager_rows(&incoming, &order, m) }
            },
            None => {
                proof {
                    let rel = dag_step(dag_edges@, m as int);
                    let v = choose|v: int| #[trigger] on_cycle(rel, v);
                    let w = choose|w: Seq<int>| #[trigger] is_walk(rel, w) && w.len() >= 2 && w[0] == v && w.last() == v;
                    let rank = |x: int| x;
                    assert forall|i: int| 0 <= i < w.len() - 1 implies rank(#[trigger] w[i]) > rank(w[i + 1]) by {
                        assert(rel(w[i], w[i + 1]));
                        let e = choose|e: int| 0 <= e < dag_edges@.len() && #[trigger] dag_edges@[e] == (w[i] as usize, w[i + 1] as usize);
                    }
                    lemma_rank_decreases_along_walk(rel, rank, w, w.len() - 1);
                }
                RowSource::from_dag_on_demand(incoming_from_dag_edges(dag_edges.as_slice(), m), m)
            },
        }
    };
    proof {
        assert forall|c1: int, k1: int, c2: int, k2: int|
            0 <= c1 < comps@.len() && 0 <= k1 < comps@[c1]@.len() && 0 <= c2 < comps@.len() && 0 <= k2 < comps@[c2]@.len()
                && #[trigger] comps@[c1]@[k1] == #[trigger] comps@[c2]@[k2] implies c1 == c2 && k1 == k2 by {
            assert(cs[c1][k1] == comps@[c1]@[k1] && cs[c2][k2] == comps@[c2]@[k2]);
        }
    }
    SccCondensation { node_scc, members: comps, representative: reps, dag_edges, incoming, rows }
}


/// Why a blast radius could not be computed.
#[derive(Debug, Clone, Copy, PartialEq, Eq, Structural)]
pub enum ImpactError {
    /// The node is not in the condensed graph.
    NodeNotFound { node: u32 },
    /// The reachability row could not be read.
    Row(RowError),
}

/// Blast radius of one node: the callers upstream of it.
#[derive(Debug, Clone)]
pub struct ImpactZone {
    /// Component of the node.
    pub scc_id: usize,
    /// Number of members of that component.
    pub scc_size: usize,
    /// Members of the components with a DAG edge into the node's component, by caller list.
    pub direct_callers: Vec<u32>,
    /// Members of every component that reaches the node's component, the node excluded.
    pub impact: Vec<u32>,
}

/// The members of the components listed in `sccs`, list by list.
pub open spec fn flat_members(members: Seq<Vec<u32>>, sccs: Seq<usize>) -> Seq<u32>
    decreases sccs.len(),
{
    if sccs.len() == 0 {
        Seq::empty()
    } else {
        let rest = flat_members(members, sccs.drop_last());
        let c = sccs.last() as int;
        if c < members.len() {
            rest + members[c]@
        } else {
            rest
        }
    }
}

impl SccCondensation {
    /// Shape that the blast-radius query reads: components of nodes are listed, rows are
    /// walked on demand over as many components as there are.
    pub open spec fn wf(&self) -> bool {
        &&& forall|v: int| 0 <= v < self.node_scc@.len() ==> (#[trigger] self.node_scc@[v] as int) < self.members@.len()
        &&& self.members@.len() <= usize::MAX - 64
        &&& members_unique(self.members@)
        &&& self.incoming@.len() == self.members@.len()
        &&& rows_agree(self.rows, self.incoming@, self.members@.len() as int)
    }


    /// `v` is a member of a component that reaches component `s`, and is not `node`.
    pub open spec fn in_impact(&self, s: int, node: u32, v: u32) -> bool {
        v != node && exists|c: usize| #[trigger] ancestors(self.incoming@, self.members@.len() as int, s).contains(c)
            && (c as int) < self.members@.len() && self.members@[c as int]@.contains(v)
    }

    /// Blast radius of `node`: its component, that component's size, the members of the
    /// components calling into it, and the members of all components that reach it (the
    /// node itself excluded).
    pub fn impact_zone(&self, node: u32) -> (r: Result<ImpactZone, ImpactError>)
        requires
            self.wf(),
        ensures
            (node as int) >= self.node_scc@.len() ==> r == Err::<ImpactZone, ImpactError>(ImpactError::NodeNotFound { node }),
            (node as int) < self.node_scc@.len() ==> (r matches Ok(z) && {
                let s = self.node_scc@[node as int] as int;
                &&& z.scc_id as int == s
                &&& z.scc_size == self.members@[s]@.len()
                &&& z.direct_callers@ == flat_members(self.members@, self.incoming@[s]@)
                &&& z.impact@.no_duplicates()
                &&& forall|v: u32| #[trigger] z.impact@.contains(v) <==> self.in_impact(s, node, v)
            }),
    {
        if node as usize >= self.node_scc.len() {
            return Err(ImpactError::NodeNotFound { node });
        }
        let s = self.node_scc[node as usize];
        let row = match self.rows.row(s) {
            Ok(b) => b,
            Err(e) => {
                return Err(ImpactError::Row(e));
            },
        };
        let ghost anc = ancestors(self.incoming@, self.members@.len() as int, s as int);
        proof {
            match &self.rows {
                RowSource::OnDemand { scc_count, incoming: inc } => {
                    lemma_ancestors_same_lists(inc@, self.incoming@, self.members@.len() as int, s as int);
                },
                _ => {},
            }
        }
        let reached = row.members();
        let mut impact: Vec<u32> = Vec::new();
        let mut i: usize = 0;
        while i < reached.len()
            invariant
                self.wf(),
                i <= reached@.len(),
                forall|c: usize| reached@.contains(c) <==> anc.contains(c),
                forall|a: int, b: int| 0 <= a < b < reached@.len() ==> reached@[a] < reached@[b],
                impact@.no_duplicates(),
                forall|v: u32| #[trigger] impact@.contains(v) <==> (v != node && exists|j: int| 0 <= j < i && (reached@[j] as int) < self.members@.len()
                    && #[trigger] self.members@[reached@[j] as int]@.contains(v)),
            decreases reached.len() - i,
        {
            let c = reached[i];
            if c < self.members.len() {
                let ms = &self.members[c];
                let mut k: usize = 0;
                while k < ms.len()
                    invariant
                        i < reached@.len(),
                        c == reached@[i as int],
                        (c as int) < self.members@.len(),
                        ms@ == self.members@[c as int]@,
                        k <= ms@.len(),
                        self.wf(),
                        forall|a: int, b: int| 0 <= a < b < reached@.len() ==> reached@[a] < reached@[b],
                        impact@.no_duplicates(),
                        forall|v: u32| #[trigger] impact@.contains(v) <==> (v != node && ((exists|j: int| 0 <= j < i && (reached@[j] as int) < self.members@.len()
                            && #[trigger] self.members@[reached@[j] as int]@.contains(v)) || ms@.take(k as int).contains(v))),
                    decreases ms.len() - k,
                {
                    let v = ms[k];
                    let ghost old_impact = impact@;
                    proof {
                        if old_impact.contains(v) {
                            if exists|j: int| 0 <= j < i && (reached@[j] as int) < self.members@.len()
                                && #[trigger] self.members@[reached@[j] as int]@.contains(v) {
                                let j = choose|j: int| 0 <= j < i && (reached@[j] as int) < self.members@.len()
                                    && #[trigger] self.members@[reached@[j] as int]@.contains(v);
                                let k2 = choose|k2: int| 0 <= k2 < self.members@[reached@[j] as int]@.len() && self.members@[reached@[j] as int]@[k2] == v;
                                assert(self.members@[reached@[j] as int]@[k2] == self.members@[c as int]@[k as int]);
                                assert(reached@[j] < reached@[i as int]);
                            } else {
                                let k2 = choose|k2: int| 0 <= k2 < ms@.take(k as int).len() && ms@.take(k as int)[k2] == v;
                                assert(self.members@[c as int]@[k2] == self.members@[c as int]@[k as int]);
                            }
                        }
                    }
                    if v != node {
                        impact.push(v);
                        proof {
                            assert forall|a: int, b: int| 0 <= a < b < impact@.len() implies impact@[a] != impact@[b] by {
                                if b == impact@.len() - 1 {
                                    assert(old_impact.contains(old_impact[a]));
                                } else {
                                    assert(old_impact[a] == impact@[a] && old_impact[b] == impact@[b]);
                                }
                            }
                        }
                    }
                    proof {
                        assert forall|x: u32| #[trigger] impact@.contains(x) <==> (x != node && ((exists|j: int| 0 <= j < i && (reached@[j] as int) < self.members@.len()
                            && #[trigger] self.members@[reached@[j] as int]@.contains(x)) || ms@.take(k as int + 1).contains(x))) by {
                            if v != node {
                                lemma_push_contains(old_impact, v, x);
                            }
                            lemma_push_contains(ms@.take(k as int), v, x);
                            assert(ms@.take(k as int + 1) =~= ms@.take(k as int).push(v));
                        }
                    }
                    k = k + 1;
                }
                proof {
                    assert(ms@.take(k as int) =~= ms@);
                }
            }
            proof {
                assert forall|v: u32| #[trigger] impact@.contains(v) <==> (v != node && exists|j: int| 0 <= j < i + 1 && (reached@[j] as int) < self.members@.len()
                    && #[trigger] self.members@[reached@[j] as int]@.contains(v)) by {
                    if v != node && exists|j: int| 0 <= j < i + 1 && (reached@[j] as int) < self.members@.len() && #[trigger] self.members@[reached@[j] as int]@.contains(v) {
                        let j = choose|j: int| 0 <= j < i + 1 && (reached@[j] as int) < self.members@.len() && #[trigger] self.members@[reached@[j] as int]@.contains(v);
                        if j == i {
                            assert(self.members@[c as int]@.contains(v));
                        }
                    }
                }
            }
            i = i + 1;
        }
        proof {
            assert forall|v: u32| #[trigger] impact@.contains(v) <==> self.in_impact(s as int, node, v) by {
                if impact@.contains(v) {
                    let j = choose|j: int| 0 <= j < reached@.len() && (reached@[j] as int) < self.members@.len() && #[trigger] self.members@[reached@[j] as int]@.contains(v);
                    assert(reached@.contains(reached@[j]));
                    assert(anc.contains(reached@[j]));
                }
                if self.in_impact(s as int, node, v) {
                    let c = choose|c: usize| #[trigger] anc.contains(c) && (c as int) < self.members@.len() && self.members@[c as int]@.contains(v);
                    assert(reached@.contains(c));
                    let j = choose|j: int| 0 <= j < reached@.len() && reached@[j] == c;
                    assert(self.members@[reached@[j] as int]@.contains(v));
                }
            }
        }
        let callers = &self.incoming[s];
        let mut direct: Vec<u32> = Vec::new();
        let mut q: usize = 0;
        while q < callers.len()
            invariant
                q <= callers@.len(),
                callers@ == self.incoming@[s as int]@,
                direct@ == flat_members(self.members@, callers@.take(q as int)),
            decreases callers.len() - q,
        {
            proof {
                assert(callers@.take(q as int + 1).drop_last() =~= callers@.take(q as int));
                assert(callers@.take(q as int + 1).last() == callers@[q as int]);
            }
            let c = callers[q];
            if c < self.members.len() {
                let ms = &self.members[c];
                let mut k: usize = 0;
                let ghost base = direct@;
                while k < ms.len()
                    invariant
                        k <= ms@.len(),
                        direct@ == base + ms@.take(k as int),
                    decreases ms.len() - k,
                {
                    direct.push(ms[k]);
                    proof {
                        assert(ms@.take(k as int + 1) =~= ms@.take(k as int).push(ms@[k as int]));
                        assert(base + ms@.take(k as int + 1) =~= (base + ms@.take(k as int)).push(ms@[k as int]));
                    }
                    k = k + 1;
                }
                proof {
                    assert(ms@.take(k as int) =~= ms@);
                }
            }
            q = q + 1;
        }
        proof {
            assert(callers@.take(q as int) =~= callers@);
        }
        Ok(ImpactZone { scc_id: s, scc_size: self.members[s].len(), direct_callers: direct, impact })
    }
}


impl SccCondensation {
    /// The condensation that `build_from_view_lookup` computes from the call lists `succ`.
    pub open spec fn built_from(&self, succ: Seq<Seq<u32>>) -> bool {
        &&& self.wf()
        &&& is_scc_partition(succ, lists(self.members@))
        &&& self.node_scc@.len() == succ.len()
        &&& forall|v: int| 0 <= v < succ.len() ==> self.members@[#[trigger] self.node_scc@[v] as int]@.contains(v as u32)
        &&& condensation_of(succ, self.node_scc@, self.members@.len() as int, self.dag_edges@)
        &&& forall|s: int| 0 <= s < self.members@.len() ==> (#[trigger] self.incoming@[s])@ == callers_of(self.dag_edges@, self.members@.len() as int, s)
    }
}

/// The blast radius of a node is everything upstream of it: another node is in its impact
/// zone exactly when it reaches the node along calls.
pub proof fn lemma_impact_is_upstream(c: SccCondensation, succ: Seq<Seq<u32>>, node: u32, v: u32)
    requires
        c.built_from(succ),
        (node as int) < succ.len(),
        (v as int) < succ.len(),
    ensures
        c.in_impact(c.node_scc@[node as int] as int, node, v) <==> (v != node && reach(calls_rel(succ), v as int, node as int)),
{
    let m = c.members@.len() as int;
    let inc = c.incoming@;
    let s = c.node_scc@[node as int] as int;
    let cs = lists(c.members@);
    let cv = c.node_scc@[v as int];
    assert(c.members@[cv as int]@.contains(v as u32));
    assert(0 <= s < m);
    lemma_condensed_reach(succ, c.node_scc@, m, c.dag_edges@, v as int, node as int);
    lemma_row_is_reaching_set(c.dag_edges@, inc, m, s, cv);
    if c.in_impact(s, node, v) {
        let c0 = choose|c0: usize| #[trigger] ancestors(inc, m, s).contains(c0) && (c0 as int) < m && c.members@[c0 as int]@.contains(v);
        let k0 = choose|k: int| 0 <= k < c.members@[c0 as int]@.len() && c.members@[c0 as int]@[k] == v;
        let k1 = choose|k: int| 0 <= k < c.members@[cv as int]@.len() && c.members@[cv as int]@[k] == v as u32;
        assert(cs[c0 as int][k0] == cs[cv as int][k1]);
        assert(c0 == cv);
    }
    if v != node && reach(calls_rel(succ), v as int, node as int) {
        assert(ancestors(inc, m, s).contains(cv));
    }
}
} // verus!
