//! Label-propagation community detection over undirected neighbor lists.

use vstd::prelude::*;
use std::collections::{HashMap, HashSet};
use crate::closure::{connected, is_chain, lemma_connected_refl, lemma_connected_step, lemma_connected_sym, lemma_connected_trans, linked};

verus! {

broadcast use vstd::std_specs::hash::group_hash_axioms;

/// Tie-breaking strategy when neighbor label vote counts are equal.
#[derive(Debug, Clone, Copy, PartialEq, Eq, Structural)]
pub enum TieBreakStrategy {
    /// Lowest label id wins.
    LabelId,
    /// Highest neighbor importance score wins.
    Importance,
}

/// Hubs get the extra community id `node_count`, when there is at least one hub.
pub fn assign_infrastructure_hubs(labels: &mut Vec<usize>, is_hub: &[bool], node_count: usize) -> (r: Option<usize>)
    requires
        forall|u: int| 0 <= u < is_hub@.len() && is_hub@[u] ==> u < old(labels)@.len(),
    ensures
        (exists|u: int| 0 <= u < is_hub@.len() && is_hub@[u]) ==> r == Some(node_count),
        !(exists|u: int| 0 <= u < is_hub@.len() && is_hub@[u]) ==> r is None,
        final(labels)@.len() == old(labels)@.len(),
        forall|u: int| 0 <= u < old(labels)@.len() ==> #[trigger] final(labels)@[u] == (if u < is_hub@.len() && is_hub@[u] && r is Some {
            node_count
        } else {
            old(labels)@[u]
        }),
{
    let mut any = false;
    let mut k: usize = 0;
    while k < is_hub.len()
        invariant
            k <= is_hub@.len(),
            any == exists|u: int| 0 <= u < k && is_hub@[u],
        decreases is_hub.len() - k,
    {
        if is_hub[k] {
            any = true;
        }
        k = k + 1;
    }
    if !any {
        return None;
    }
    let ghost orig = labels@;
    let mut u: usize = 0;
    while u < is_hub.len()
        invariant
            u <= is_hub@.len(),
            forall|w: int| 0 <= w < is_hub@.len() && is_hub@[w] ==> w < orig.len(),
            labels@.len() == orig.len(),
            forall|w: int| 0 <= w < orig.len() ==> #[trigger] labels@[w] == (if w < u && w < is_hub@.len() && is_hub@[w] { node_count } else { orig[w] }),
        decreases is_hub.len() - u,
    {
        if is_hub[u] {
            labels.set(u, node_count);
        }
        u = u + 1;
    }
    Some(node_count)
}

/// Link `u` and `v` both ways (a self-link is skipped).
pub fn push_undirected_neighbor_set(neighbors: &mut Vec<HashSet<usize>>, u: usize, v: usize)
    requires
        u < old(neighbors)@.len(),
        v < old(neighbors)@.len(),
    ensures
        final(neighbors)@.len() == old(neighbors)@.len(),
        forall|w: int| 0 <= w < old(neighbors)@.len() ==> (#[trigger] final(neighbors)@[w])@ == (if u == v {
            old(neighbors)@[w]@
        } else if w == u {
            old(neighbors)@[w]@.insert(v)
        } else if w == v {
            old(neighbors)@[w]@.insert(u)
        } else {
            old(neighbors)@[w]@
        }),
{
    if u == v {
        return;
    }
    neighbors[u].insert(v);
    neighbors[v].insert(u);
}

/// Votes for label `l` among the non-hub entries of `nbrs`.
pub open spec fn votes(nbrs: Seq<usize>, is_hub: Seq<bool>, labels: Seq<usize>, l: usize) -> nat
    decreases nbrs.len(),
{
    if nbrs.len() == 0 {
        0
    } else {
        let v = nbrs.last() as int;
        votes(nbrs.drop_last(), is_hub, labels, l) + (if !is_hub[v] && labels[v] == l { 1nat } else { 0nat })
    }
}

/// `l` has the most votes, and is the smallest label with that many.
pub open spec fn is_best(nbrs: Seq<usize>, is_hub: Seq<bool>, labels: Seq<usize>, l: usize) -> bool {
    &&& votes(nbrs, is_hub, labels, l) > 0
    &&& forall|l2: usize| #[trigger] votes(nbrs, is_hub, labels, l2) <= votes(nbrs, is_hub, labels, l)
    &&& forall|l2: usize| #[trigger] votes(nbrs, is_hub, labels, l2) == votes(nbrs, is_hub, labels, l) ==> l <= l2
}

/// The label a node takes: the winning neighbor label, or its own when no non-hub
/// neighbor votes.
pub open spec fn best_label(nbrs: Seq<usize>, is_hub: Seq<bool>, labels: Seq<usize>, cur: usize) -> usize {
    if exists|l: usize| is_best(nbrs, is_hub, labels, l) {
        choose|l: usize| is_best(nbrs, is_hub, labels, l)
    } else {
        cur
    }
}

/// Labels after updating the first `k` nodes in order, each from the labels as they
/// stand when its turn comes (hubs keep theirs).
pub open spec fn sweep(nbrs: Seq<Vec<usize>>, is_hub: Seq<bool>, labels: Seq<usize>, k: int) -> Seq<usize>
    decreases k,
{
    if k <= 0 {
        labels
    } else {
        let l = sweep(nbrs, is_hub, labels, k - 1);
        if is_hub[k - 1] {
            l
        } else {
            l.update(k - 1, best_label(nbrs[k - 1]@, is_hub, l, l[k - 1]))
        }
    }
}

/// Labels after at most `iters` full sweeps, stopping at the first sweep that changes
/// nothing.
pub open spec fn propagate(nbrs: Seq<Vec<usize>>, is_hub: Seq<bool>, labels: Seq<usize>, iters: nat) -> Seq<usize>
    decreases iters,
{
    if iters == 0 {
        labels
    } else {
        let s = sweep(nbrs, is_hub, labels, labels.len() as int);
        if s == labels {
            labels
        } else {
            propagate(nbrs, is_hub, s, (iters - 1) as nat)
        }
    }
}

/// The initial labelling: every node its own community.
pub open spec fn identity_labels(n: nat) -> Seq<usize> {
    Seq::new(n, |i: int| i as usize)
}

/// Neighbor lists over `n` nodes, with a hub mark per node.
pub open spec fn lp_input_ok(nbrs: Seq<Vec<usize>>, is_hub: Seq<bool>, n: int) -> bool {
    &&& nbrs.len() == n
    &&& is_hub.len() == n
    &&& forall|u: int, k: int| 0 <= u < n && 0 <= k < nbrs[u]@.len() ==> (#[trigger] nbrs[u]@[k] as int) < n
}

proof fn lemma_best_unique(nbrs: Seq<usize>, is_hub: Seq<bool>, labels: Seq<usize>, a: usize, b: usize)
    requires
        is_best(nbrs, is_hub, labels, a),
        is_best(nbrs, is_hub, labels, b),
    ensures
        a == b,
{
    assert(votes(nbrs, is_hub, labels, a) <= votes(nbrs, is_hub, labels, b));
    assert(votes(nbrs, is_hub, labels, b) <= votes(nbrs, is_hub, labels, a));
}

proof fn lemma_votes_zero_unless_seen(nbrs: Seq<usize>, is_hub: Seq<bool>, labels: Seq<usize>, l: usize)
    requires
        forall|k: int| 0 <= k < nbrs.len() && !is_hub[nbrs[k] as int] ==> #[trigger] labels[nbrs[k] as int] != l,
    ensures
        votes(nbrs, is_hub, labels, l) == 0,
    decreases nbrs.len(),
{
    if nbrs.len() > 0 {
        assert forall|k: int| 0 <= k < nbrs.drop_last().len() && !is_hub[nbrs.drop_last()[k] as int] implies #[trigger] labels[nbrs.drop_last()[k] as int] != l by {
            assert(nbrs.drop_last()[k] == nbrs[k]);
        }
        lemma_votes_zero_unless_seen(nbrs.drop_last(), is_hub, labels, l);
        let k = nbrs.len() - 1;
        assert(nbrs.last() == nbrs[k]);
    }
}

proof fn lemma_votes_bound(nbrs: Seq<usize>, is_hub: Seq<bool>, labels: Seq<usize>, l: usize)
    ensures
        votes(nbrs, is_hub, labels, l) <= nbrs.len(),
    decreases nbrs.len(),
{
    if nbrs.len() > 0 {
        lemma_votes_bound(nbrs.drop_last(), is_hub, labels, l);
    }
}

/// The label node `u` takes, from the vote over its non-hub neighbors; `weights` is a
/// zeroed scratch array with one slot per label, returned zeroed.
fn choose_label(
    nbrs: &Vec<usize>,
    is_hub: &Vec<bool>,
    labels: &Vec<usize>,
    cur: usize,
    weights: &mut Vec<usize>,
) -> (r: usize)
    requires
        is_hub@.len() == labels@.len(),
        old(weights)@.len() == labels@.len(),
        forall|l: int| 0 <= l < old(weights)@.len() ==> #[trigger] old(weights)@[l] == 0,
        forall|k: int| 0 <= k < nbrs@.len() ==> (#[trigger] nbrs@[k] as int) < labels@.len(),
        forall|v: int| 0 <= v < labels@.len() ==> (#[trigger] labels@[v] as int) < labels@.len(),
    ensures
        r == best_label(nbrs@, is_hub@, labels@, cur),
        final(weights)@.len() == old(weights)@.len(),
        forall|l: int| 0 <= l < final(weights)@.len() ==> #[trigger] final(weights)@[l] == 0,
{
    let ghost nb = nbrs@;
    let ghost hub = is_hub@;
    let ghost lab = labels@;
    let n = labels.len();
    let mut seen: Vec<usize> = Vec::new();
    let mut j: usize = 0;
    while j < nbrs.len()
        invariant
            nb == nbrs@,
            hub == is_hub@,
            lab == labels@,
            n == lab.len(),
            hub.len() == n,
            weights@.len() == n,
            forall|k: int| 0 <= k < nb.len() ==> (#[trigger] nb[k] as int) < n,
            forall|v: int| 0 <= v < n ==> (#[trigger] lab[v] as int) < n,
            j <= nb.len(),
            forall|l: int| 0 <= l < n ==> #[trigger] weights@[l] == votes(nb.take(j as int), hub, lab, l as usize),
            forall|l: int| 0 <= l < n ==> (#[trigger] weights@[l] > 0 <==> seen@.contains(l as usize)),
            forall|k: int| 0 <= k < seen@.len() ==> (#[trigger] seen@[k] as int) < n,
            seen@.no_duplicates(),
            forall|l: usize| (l as int) >= n ==> #[trigger] votes(nb.take(j as int), hub, lab, l) == 0,
            forall|l: int| 0 <= l < n ==> #[trigger] weights@[l] <= j,
        decreases nbrs.len() - j,
    {
        let v = nbrs[j];
        proof {
            assert(nb.take(j as int + 1).drop_last() =~= nb.take(j as int));
            assert(nb.take(j as int + 1).last() == v);
        }
        if !is_hub[v] {
            let label = labels[v];
            if weights[label] == 0 {
                let ghost before = seen@;
                seen.push(label);
                proof {
                    assert(!before.contains(label));
                    crate::paths::lemma_push_nodup(before, label);
                    assert forall|l: int| 0 <= l < n implies (#[trigger] weights@[l] > 0 || l == label as int) == seen@.contains(l as usize) by {
                        crate::paths::lemma_push_contains(before, label, l as usize);
                    }
                }
            }
            weights.set(label, weights[label] + 1);
        }
        proof {
            assert((lab[v as int] as int) < n);
            assert forall|l: usize| (l as int) >= n implies #[trigger] votes(nb.take(j as int + 1), hub, lab, l) == 0 by {
                assert(votes(nb.take(j as int), hub, lab, l) == 0);
            }
        }
        j = j + 1;
    }
    proof {
        assert(nb.take(j as int) =~= nb);
    }
    let mut best_label_v: usize = cur;
    let mut max_count: usize = 0;
    let mut k: usize = 0;
    while k < seen.len()
        invariant
            nb == nbrs@,
            hub == is_hub@,
            lab == labels@,
            n == lab.len(),
            weights@.len() == n,
            forall|l: int| 0 <= l < n ==> #[trigger] weights@[l] == votes(nb, hub, lab, l as usize),
            forall|l: int| 0 <= l < n ==> (#[trigger] weights@[l] > 0 <==> seen@.contains(l as usize)),
            forall|q: int| 0 <= q < seen@.len() ==> (#[trigger] seen@[q] as int) < n,
            seen@.no_duplicates(),
            forall|l: usize| (l as int) >= n ==> #[trigger] votes(nb, hub, lab, l) == 0,
            k <= seen@.len(),
            k == 0 ==> max_count == 0 && best_label_v == cur,
            k > 0 ==> max_count > 0 && max_count == votes(nb, hub, lab, best_label_v) && exists|q: int| 0 <= q < k && seen@[q] == best_label_v,
            forall|q: int| 0 <= q < k ==> votes(nb, hub, lab, #[trigger] seen@[q]) <= max_count,
            forall|q: int| 0 <= q < k && votes(nb, hub, lab, #[trigger] seen@[q]) == max_count ==> best_label_v <= seen@[q],
        decreases seen.len() - k,
    {
        let label = seen[k];
        let count = weights[label];
        proof {
            assert(seen@.contains(label));
        }
        if count > max_count || (count == max_count && label < best_label_v) {
            max_count = count;
            best_label_v = label;
        }
        k = k + 1;
    }
    proof {
        if seen@.len() > 0 {
            assert(seen@.contains(seen@[0]));
            assert forall|l2: usize| #[trigger] votes(nb, hub, lab, l2) <= votes(nb, hub, lab, best_label_v) by {
                if (l2 as int) < n && votes(nb, hub, lab, l2) > 0 {
                    assert(weights@[l2 as int] > 0);
                    assert(seen@.contains(l2));
                    let q = choose|q: int| 0 <= q < seen@.len() && seen@[q] == l2;
                    assert(votes(nb, hub, lab, seen@[q]) <= max_count);
                }
            }
            assert forall|l2: usize| #[trigger] votes(nb, hub, lab, l2) == votes(nb, hub, lab, best_label_v) implies best_label_v <= l2 by {
                if (l2 as int) < n {
                    assert(weights@[l2 as int] > 0);
                    assert(seen@.contains(l2));
                    let q = choose|q: int| 0 <= q < seen@.len() && seen@[q] == l2;
                    assert(votes(nb, hub, lab, seen@[q]) == max_count);
                }
            }
            assert(is_best(nb, hub, lab, best_label_v));
            let c = choose|l: usize| is_best(nb, hub, lab, l);
            lemma_best_unique(nb, hub, lab, c, best_label_v);
        } else {
            assert forall|l: usize| !is_best(nb, hub, lab, l) by {
                if (l as int) < n {
                    if weights@[l as int] > 0 {
                        assert(seen@.contains(l));
                    }
                }
            }
        }
    }
    let mut q: usize = 0;
    while q < seen.len()
        invariant
            n == lab.len(),
            weights@.len() == n,
            forall|x: int| 0 <= x < seen@.len() ==> (#[trigger] seen@[x] as int) < n,
            forall|l: int| 0 <= l < n && #[trigger] weights@[l] > 0 ==> exists|x: int| q <= x < seen@.len() && seen@[x] as int == l,
            q <= seen@.len(),
        decreases seen.len() - q,
    {
        let ghost before = weights@;
        weights.set(seen[q], 0);
        proof {
            assert forall|l: int| 0 <= l < n && #[trigger] weights@[l] > 0 implies exists|x: int| q + 1 <= x < seen@.len() && seen@[x] as int == l by {
                assert(before[l] > 0);
                let x = choose|x: int| q <= x < seen@.len() && seen@[x] as int == l;
                assert(x != q as int);
            }
        }
        q = q + 1;
    }
    best_label_v
}

proof fn lemma_best_label_bound(nbrs: Seq<usize>, is_hub: Seq<bool>, labels: Seq<usize>, cur: usize, n: int)
    requires
        (cur as int) < n,
        forall|k: int| 0 <= k < nbrs.len() ==> (#[trigger] nbrs[k] as int) < labels.len(),
        forall|v: int| 0 <= v < labels.len() ==> (#[trigger] labels[v] as int) < n,
    ensures
        (best_label(nbrs, is_hub, labels, cur) as int) < n,
{
    if exists|l: usize| is_best(nbrs, is_hub, labels, l) {
        let l = choose|l: usize| is_best(nbrs, is_hub, labels, l);
        if (l as int) >= n {
            assert forall|k: int| 0 <= k < nbrs.len() && !is_hub[nbrs[k] as int] implies #[trigger] labels[nbrs[k] as int] != l by {
                assert((labels[nbrs[k] as int] as int) < n);
            }
            lemma_votes_zero_unless_seen(nbrs, is_hub, labels, l);
        }
    }
}

/// Label propagation with lowest-label tie-breaking: every node starts in its own
/// community; up to `max_iterations` sweeps move each non-hub node, in order, to the
/// label most common among its non-hub neighbors, stopping early when a sweep changes
/// nothing.
pub fn propagate_labels(neighbors: &Vec<Vec<usize>>, is_hub: &Vec<bool>, max_iterations: usize) -> (r: Vec<usize>)
    requires
        lp_input_ok(neighbors@, is_hub@, neighbors@.len() as int),
    ensures
        r@ == propagate(neighbors@, is_hub@, identity_labels(neighbors@.len()), max_iterations as nat),
        forall|v: int| 0 <= v < r@.len() ==> (#[trigger] r@[v] as int) < r@.len(),
{
    let n = neighbors.len();
    let ghost nb = neighbors@;
    let ghost hub = is_hub@;
    let mut labels: Vec<usize> = Vec::new();
    let mut i: usize = 0;
    while i < n
        invariant
            i <= n,
            labels@ == identity_labels(i as nat),
        decreases n - i,
    {
        labels.push(i);
        i = i + 1;
        proof {
            assert(labels@ =~= identity_labels(i as nat));
        }
    }
    let mut weights: Vec<usize> = vec![0usize; n];
    let ghost target = propagate(nb, hub, identity_labels(n as nat), max_iterations as nat);
    let mut it: usize = 0;
    while it < max_iterations
        invariant
            nb == neighbors@,
            hub == is_hub@,
            n == nb.len(),
            lp_input_ok(nb, hub, n as int),
            labels@.len() == n,
            forall|v: int| 0 <= v < n ==> (#[trigger] labels@[v] as int) < n,
            weights@.len() == n,
            forall|l: int| 0 <= l < n ==> #[trigger] weights@[l] == 0,
            it <= max_iterations,
            target == propagate(nb, hub, identity_labels(n as nat), max_iterations as nat),
            target == propagate(nb, hub, labels@, (max_iterations - it) as nat),
        decreases max_iterations - it,
    {
        let ghost start = labels@;
        let mut changed = false;
        let mut u: usize = 0;
        while u < n
            invariant
                nb == neighbors@,
                hub == is_hub@,
                n == nb.len(),
                lp_input_ok(nb, hub, n as int),
                start.len() == n,
                labels@.len() == n,
                forall|v: int| 0 <= v < n ==> (#[trigger] labels@[v] as int) < n,
                weights@.len() == n,
                forall|l: int| 0 <= l < n ==> #[trigger] weights@[l] == 0,
                u <= n,
                labels@ == sweep(nb, hub, start, u as int),
                changed <==> exists|w: int| 0 <= w < u && labels@[w] != start[w],
                forall|w: int| u <= w < n ==> #[trigger] labels@[w] == start[w],
            decreases n - u,
        {
            if !is_hub[u] {
                proof {
                    assert forall|k: int| 0 <= k < nb[u as int]@.len() implies (#[trigger] nb[u as int]@[k] as int) < labels@.len() by {}
                    lemma_best_label_bound(nb[u as int]@, hub, labels@, labels@[u as int], n as int);
                }
                let b = choose_label(&neighbors[u], is_hub, &labels, labels[u], &mut weights);
                if labels[u] != b {
                    labels.set(u, b);
                    changed = true;
                }
                proof {
                    assert(labels@ =~= sweep(nb, hub, start, u as int).update(u as int, b));
                }
            }
            u = u + 1;
        }
        proof {
            assert(start.len() == n);
            if !changed {
                assert(labels@ =~= start);
                assert(sweep(nb, hub, start, start.len() as int) == start);
                assert(propagate(nb, hub, start, (max_iterations - it) as nat) == start);
            } else {
                assert(labels@ != start);
                assert(propagate(nb, hub, start, (max_iterations - it) as nat) == propagate(nb, hub, labels@, (max_iterations - it - 1) as nat));
            }
        }
        if !changed {
            return labels;
        }
        it = it + 1;
    }
    labels
}


/// `y` is among the neighbours recorded for `x`.
pub open spec fn adj_has(adj: Map<u128, Vec<u128>>, x: u128, y: u128) -> bool {
    adj.contains_key(x) && adj[x]@.contains(y)
}

/// `c` is the connected component of its first node: every node connected to it, once each.
pub open spec fn is_component(links: Seq<(u128, u128)>, c: Seq<u128>) -> bool {
    &&& c.len() > 0
    &&& forall|k: int| 0 <= k < c.len() ==> connected(links, c[0], #[trigger] c[k])
    &&& forall|y: u128| #[trigger] connected(links, c[0], y) ==> c.contains(y)
    &&& forall|a: int, b: int| 0 <= a < b < c.len() ==> c[a] != c[b]
}

/// `x` lies in one of the first `i` components.
pub open spec fn placed_before(cs: Seq<Seq<u128>>, i: int, x: u128) -> bool {
    exists|j: int| 0 <= j < i && #[trigger] cs[j].contains(x)
}

/// Component `i` starts at `ids[q]`, and every node listed before it lies in an earlier
/// component.
pub open spec fn starts_at(ids: Seq<u128>, cs: Seq<Seq<u128>>, i: int, q: int) -> bool {
    &&& 0 <= q < ids.len()
    &&& ids[q] == cs[i][0]
    &&& forall|k: int| 0 <= k < q ==> placed_before(cs, i, #[trigger] ids[k])
}

/// `cs` are the connected components of the undirected graph over `ids` and `links`, each
/// started at the first listed node not in an earlier one.
pub open spec fn components_of(ids: Seq<u128>, links: Seq<(u128, u128)>, cs: Seq<Seq<u128>>) -> bool {
    &&& forall|i: int| 0 <= i < cs.len() ==> is_component(links, #[trigger] cs[i])
    &&& forall|i: int, j: int| 0 <= i < j < cs.len() ==> !connected(links, #[trigger] cs[i][0], #[trigger] cs[j][0])
    &&& forall|k: int| 0 <= k < ids.len() ==> placed_before(cs, cs.len() as int, #[trigger] ids[k])
    &&& forall|i: int| 0 <= i < cs.len() ==> #[trigger] has_start(ids, cs, i)
}

/// Component `i` starts at some listed node, with every node listed before it placed earlier.
pub open spec fn has_start(ids: Seq<u128>, cs: Seq<Seq<u128>>, i: int) -> bool {
    exists|q: int| #[trigger] starts_at(ids, cs, i, q)
}

/// Views of a list of components.
pub open spec fn comps_view(v: Seq<Vec<u128>>) -> Seq<Seq<u128>> {
    v.map_values(|c: Vec<u128>| c@)
}

/// Every node that the ids or the links mention.
pub open spec fn mentioned(ids: Seq<u128>, links: Seq<(u128, u128)>) -> Set<u128> {
    (ids + links.map_values(|e: (u128, u128)| e.0) + links.map_values(|e: (u128, u128)| e.1)).to_set()
}

proof fn lemma_mentioned(ids: Seq<u128>, links: Seq<(u128, u128)>)
    ensures
        mentioned(ids, links).finite(),
        forall|k: int| 0 <= k < ids.len() ==> mentioned(ids, links).contains(#[trigger] ids[k]),
        forall|x: u128, y: u128| #[trigger] linked(links, x, y) ==> mentioned(ids, links).contains(y),
{
    let all = ids + links.map_values(|e: (u128, u128)| e.0) + links.map_values(|e: (u128, u128)| e.1);
    vstd::seq_lib::seq_to_set_is_finite(all);
    assert forall|k: int| 0 <= k < ids.len() implies mentioned(ids, links).contains(#[trigger] ids[k]) by {
        assert(all[k] == ids[k]);
    }
    assert forall|x: u128, y: u128| #[trigger] linked(links, x, y) implies mentioned(ids, links).contains(y) by {
        let k = choose|k: int| 0 <= k < links.len() && (links[k] == (x, y) || links[k] == (y, x));
        if links[k] == (x, y) {
            assert(all[ids.len() + links.len() + k] == y);
        } else {
            assert(all[ids.len() + k] == y);
        }
    }
}

fn add_neighbor(adj: &mut HashMap<u128, Vec<u128>>, x: u128, y: u128)
    ensures
        forall|a: u128, b: u128| #[trigger] adj_has(final(adj)@, a, b) <==> adj_has(old(adj)@, a, b) || (a == x && b == y),
{
    let mut v = match adj.remove(&x) {
        Some(v) => v,
        None => Vec::new(),
    };
    let ghost v0 = v@;
    v.push(y);
    adj.insert(x, v);
    assert forall|a: u128, b: u128| #[trigger] adj_has(final(adj)@, a, b) <==> adj_has(old(adj)@, a, b) || (a == x && b == y) by {
        if a == x {
            assert(v@ == v0.push(y));
            if adj_has(final(adj)@, a, b) {
                let w = choose|w: int| 0 <= w < v@.len() && v@[w] == b;
                if w < v0.len() {
                    assert(v0[w] == b);
                }
            }
            if adj_has(old(adj)@, a, b) {
                let w = choose|w: int| 0 <= w < v0.len() && v0[w] == b;
                assert(v@[w] == b);
            }
            if b == y {
                assert(v@[v0.len() as int] == y);
            }
        }
    }
}

fn build_adjacency(edges: &[(u128, u128)]) -> (adj: HashMap<u128, Vec<u128>>)
    ensures
        forall|x: u128, y: u128| #[trigger] adj_has(adj@, x, y) <==> linked(edges@, x, y),
{
    let mut adj: HashMap<u128, Vec<u128>> = HashMap::new();
    let mut i: usize = 0;
    let n = edges.len();
    while i < n
        invariant
            i <= n,
            n == edges@.len(),
            forall|x: u128, y: u128| #[trigger] adj_has(adj@, x, y) <==> linked(edges@.take(i as int), x, y),
        decreases n - i,
    {
        let (from, to) = edges[i];
        add_neighbor(&mut adj, from, to);
        add_neighbor(&mut adj, to, from);
        proof {
            let old_l = edges@.take(i as int);
            let new_l = edges@.take(i as int + 1);
            assert forall|x: u128, y: u128| #[trigger] linked(new_l, x, y) <==> linked(old_l, x, y) || (x == from && y == to) || (x == to && y == from) by {
                if linked(new_l, x, y) {
                    let k = choose|k: int| 0 <= k < new_l.len() && (new_l[k] == (x, y) || new_l[k] == (y, x));
                    if k < old_l.len() {
                        assert(old_l[k] == new_l[k]);
                    }
                }
                if linked(old_l, x, y) {
                    let k = choose|k: int| 0 <= k < old_l.len() && (old_l[k] == (x, y) || old_l[k] == (y, x));
                    assert(new_l[k] == old_l[k]);
                }
                if (x == from && y == to) || (x == to && y == from) {
                    assert(new_l[i as int] == (from, to));
                }
            }
        }
        i = i + 1;
    }
    assert(edges@.take(n as int) =~= edges@);
    adj
}

fn push_unvisited(adj: &HashMap<u128, Vec<u128>>, visited: &HashSet<u128>, stack: &mut Vec<u128>, current: u128)
    ensures
        final(stack)@.len() >= old(stack)@.len(),
        forall|k: int| 0 <= k < old(stack)@.len() ==> #[trigger] final(stack)@[k] == old(stack)@[k],
        forall|k: int| old(stack)@.len() <= k < final(stack)@.len() ==> adj_has(adj@, current, #[trigger] final(stack)@[k]),
        forall|y: u128| adj_has(adj@, current, y) ==> visited@.contains(y) || #[trigger] final(stack)@.contains(y),
{
    let ghost s0 = stack@;
    match adj.get(&current) {
        Some(nb) => {
            let m = nb.len();
            let mut j: usize = 0;
            while j < m
                invariant
                    j <= m,
                    m == nb@.len(),
                    adj@.contains_key(current),
                    *nb == adj@[current],
                    stack@.len() >= s0.len(),
                    forall|k: int| 0 <= k < s0.len() ==> #[trigger] stack@[k] == s0[k],
                    forall|k: int| s0.len() <= k < stack@.len() ==> adj_has(adj@, current, #[trigger] stack@[k]),
                    forall|t: int| 0 <= t < j ==> visited@.contains(#[trigger] nb@[t]) || stack@.contains(nb@[t]),
                decreases m - j,
            {
                let y = nb[j];
                let ghost st = stack@;
                if !visited.contains(&y) {
                    stack.push(y);
                    proof {
                        assert(stack@[st.len() as int] == y);
                        assert forall|t: int| 0 <= t < j + 1 implies visited@.contains(#[trigger] nb@[t]) || stack@.contains(nb@[t]) by {
                            if t < j && !visited@.contains(nb@[t]) {
                                let w = choose|w: int| 0 <= w < st.len() && st[w] == nb@[t];
                                assert(stack@[w] == nb@[t]);
                            }
                        }
                        assert(nb@.contains(y));
                    }
                }
                j = j + 1;
            }
            assert forall|y: u128| adj_has(adj@, current, y) implies visited@.contains(y) || #[trigger] stack@.contains(y) by {
                let t = choose|t: int| 0 <= t < nb@.len() && nb@[t] == y;
            }
        },
        None => {},
    }
}

/// Nodes reachable through links from a node of the closed set stay in it.
proof fn lemma_closed_reach(links: Seq<(u128, u128)>, c: Set<u128>, s: u128, y: u128)
    requires
        c.contains(s),
        forall|x: u128, z: u128| c.contains(x) && #[trigger] linked(links, x, z) ==> c.contains(z),
        connected(links, s, y),
    ensures
        c.contains(y),
{
    let w = choose|w: Seq<u128>| #[trigger] is_chain(links, w) && w[0] == s && w.last() == y;
    lemma_chain_in(links, c, w, w.len() as int);
}

proof fn lemma_chain_in(links: Seq<(u128, u128)>, c: Set<u128>, w: Seq<u128>, k: int)
    requires
        is_chain(links, w),
        c.contains(w[0]),
        forall|x: u128, z: u128| c.contains(x) && #[trigger] linked(links, x, z) ==> c.contains(z),
        1 <= k <= w.len(),
    ensures
        c.contains(w[k - 1]),
    decreases k,
{
    if k > 1 {
        lemma_chain_in(links, c, w, k - 1);
        let i = k - 2;
        assert(linked(links, w[i], w[i + 1]));
    }
}


fn collect_component(
    adj: &HashMap<u128, Vec<u128>>,
    visited: &mut HashSet<u128>,
    s: u128,
    Ghost(links): Ghost<Seq<(u128, u128)>>,
    Ghost(univ): Ghost<Set<u128>>,
) -> (comp: Vec<u128>)
    requires
        forall|x: u128, y: u128| #[trigger] adj_has(adj@, x, y) <==> linked(links, x, y),
        univ.finite(),
        univ.contains(s),
        forall|x: u128, y: u128| #[trigger] linked(links, x, y) ==> univ.contains(y),
        old(visited)@.subset_of(univ),
        !old(visited)@.contains(s),
        forall|x: u128, z: u128| old(visited)@.contains(x) && #[trigger] linked(links, x, z) ==> old(visited)@.contains(z),
    ensures
        is_component(links, comp@),
        comp@[0] == s,
        forall|x: u128| #[trigger] final(visited)@.contains(x) <==> old(visited)@.contains(x) || comp@.contains(x),
        forall|x: u128| #[trigger] comp@.contains(x) ==> !old(visited)@.contains(x),
        final(visited)@.subset_of(univ),
{
    let ghost v0 = visited@;
    let mut stack: Vec<u128> = Vec::new();
    stack.push(s);
    let mut comp: Vec<u128> = Vec::new();
    proof {
        lemma_connected_refl(links, s);
        vstd::set_lib::lemma_len_subset(v0, univ);
    }
    while stack.len() > 0
        invariant
            forall|x: u128, y: u128| #[trigger] adj_has(adj@, x, y) <==> linked(links, x, y),
            univ.finite(),
            univ.contains(s),
            forall|x: u128, y: u128| #[trigger] linked(links, x, y) ==> univ.contains(y),
            v0.subset_of(univ),
            !v0.contains(s),
            forall|x: u128, z: u128| v0.contains(x) && #[trigger] linked(links, x, z) ==> v0.contains(z),
            forall|x: u128| #[trigger] visited@.contains(x) <==> v0.contains(x) || comp@.contains(x),
            visited@.subset_of(univ),
            visited@.finite(),
            forall|x: u128| #[trigger] comp@.contains(x) ==> !v0.contains(x),
            forall|a: int, b: int| 0 <= a < b < comp@.len() ==> comp@[a] != comp@[b],
            forall|k: int| 0 <= k < comp@.len() ==> connected(links, s, #[trigger] comp@[k]),
            forall|k: int| 0 <= k < stack@.len() ==> connected(links, s, #[trigger] stack@[k]) && univ.contains(stack@[k]),
            comp@.len() == 0 ==> stack@ == seq![s],
            comp@.len() > 0 ==> comp@[0] == s,
            forall|x: u128, y: u128| comp@.contains(x) && #[trigger] linked(links, x, y) ==> visited@.contains(y) || stack@.contains(y),
        decreases univ.len() - visited@.len(), stack@.len(),
    {
        let ghost st0 = stack@;
        let ghost vis0 = visited@;
        let ghost comp0 = comp@;
        let current = stack.pop().unwrap();
        assert(stack@ == st0.drop_last());
        assert(current == st0[st0.len() - 1]);
        assert(connected(links, s, current) && univ.contains(current));
        if visited.insert(current) {
            comp.push(current);
            proof {
                vstd::set_lib::lemma_len_subset(visited@, univ);
                assert(comp@ == comp0.push(current));
                assert forall|x: u128| #[trigger] comp@.contains(x) implies !v0.contains(x) by {
                    if x == current {
                        assert(!vis0.contains(current));
                        assert(v0.contains(current) ==> vis0.contains(current));
                    } else {
                        let w = choose|w: int| 0 <= w < comp@.len() && comp@[w] == x;
                        assert(comp0[w] == x);
                        assert(comp0.contains(x));
                    }
                }
                assert forall|x: u128| #[trigger] visited@.contains(x) <==> v0.contains(x) || comp@.contains(x) by {
                    if comp0.contains(x) {
                        let w = choose|w: int| 0 <= w < comp0.len() && comp0[w] == x;
                        assert(comp@[w] == x);
                    }
                    if comp@.contains(x) && x != current {
                        let w = choose|w: int| 0 <= w < comp@.len() && comp@[w] == x;
                        assert(comp0[w] == x);
                    }
                    if x == current {
                        assert(comp@[comp0.len() as int] == x);
                    }
                }
                assert forall|a: int, b: int| 0 <= a < b < comp@.len() implies comp@[a] != comp@[b] by {
                    if b == comp0.len() {
                        assert(vis0.contains(comp0[a]));
                    }
                }
            }
            let ghost st1 = stack@;
            push_unvisited(adj, visited, &mut stack, current);
            proof {
                assert forall|k: int| 0 <= k < stack@.len() implies connected(links, s, #[trigger] stack@[k]) && univ.contains(stack@[k]) by {
                    if k >= st1.len() {
                        assert(adj_has(adj@, current, stack@[k]));
                        assert(linked(links, current, stack@[k]));
                        lemma_connected_step(links, s, current, stack@[k]);
                    } else {
                        assert(stack@[k] == st1[k]);
                        assert(st1[k] == st0[k]);
                    }
                }
                assert forall|x: u128, y: u128| comp@.contains(x) && #[trigger] linked(links, x, y) implies visited@.contains(y) || stack@.contains(y) by {
                    if x == current {
                        assert(adj_has(adj@, current, y));
                    } else {
                        let w = choose|w: int| 0 <= w < comp@.len() && comp@[w] == x;
                        assert(comp0[w] == x);
                        assert(comp0.contains(x));
                        if !visited@.contains(y) {
                            assert(st0.contains(y));
                            let t = choose|t: int| 0 <= t < st0.len() && st0[t] == y;
                            if t == st0.len() - 1 {
                                assert(y == current);
                            } else {
                                assert(st1[t] == y);
                                assert(stack@[t] == y);
                            }
                        }
                    }
                }
            }
        } else {
            proof {
                assert forall|x: u128, y: u128| comp@.contains(x) && #[trigger] linked(links, x, y) implies visited@.contains(y) || stack@.contains(y) by {
                    if !visited@.contains(y) {
                        assert(st0.contains(y));
                        let t = choose|t: int| 0 <= t < st0.len() && st0[t] == y;
                        if t == st0.len() - 1 {
                            assert(y == current);
                        } else {
                            assert(stack@[t] == y);
                        }
                    }
                }
                assert forall|k: int| 0 <= k < stack@.len() implies connected(links, s, #[trigger] stack@[k]) && univ.contains(stack@[k]) by {
                    assert(stack@[k] == st0[k]);
                }
            }
        }
    }
    proof {
        let cset = comp@.to_set();
        assert(comp@.contains(comp@[0]));
        assert forall|x: u128, z: u128| cset.contains(x) && #[trigger] linked(links, x, z) implies cset.contains(z) by {
            assert(comp@.contains(x));
            if v0.contains(z) {
                assert(linked(links, z, x)) by {
                    let k = choose|k: int| 0 <= k < links.len() && (links[k] == (x, z) || links[k] == (z, x));
                }
                assert(v0.contains(x));
            }
        }
        assert forall|y: u128| #[trigger] connected(links, comp@[0], y) implies comp@.contains(y) by {
            lemma_closed_reach(links, cset, s, y);
        }
    }
    comp
}

/// Connected components of the undirected graph over `node_ids` and `edges`: for each
/// listed node that no earlier component holds, in list order, the nodes reachable from it
/// through the edges in either direction, gathered depth-first from that node.
pub fn connected_components(node_ids: &[u128], edges: &[(u128, u128)]) -> (r: Vec<Vec<u128>>)
    ensures
        components_of(node_ids@, edges@, comps_view(r@)),
{
    let ghost links = edges@;
    let ghost ids = node_ids@;
    let ghost univ = mentioned(ids, links);
    proof {
        lemma_mentioned(ids, links);
    }
    let adj = build_adjacency(edges);
    let mut visited: HashSet<u128> = HashSet::new();
    let mut components: Vec<Vec<u128>> = Vec::new();
    let n = node_ids.len();
    let mut p: usize = 0;
    while p < n
        invariant
            p <= n,
            n == ids.len(),
            ids == node_ids@,
            links == edges@,
            univ.finite(),
            forall|k: int| 0 <= k < ids.len() ==> univ.contains(#[trigger] ids[k]),
            forall|x: u128, y: u128| #[trigger] linked(links, x, y) ==> univ.contains(y),
            forall|x: u128, y: u128| #[trigger] adj_has(adj@, x, y) <==> linked(links, x, y),
            visited@.subset_of(univ),
            forall|x: u128, z: u128| visited@.contains(x) && #[trigger] linked(links, x, z) ==> visited@.contains(z),
            forall|x: u128| #[trigger] visited@.contains(x) <==> placed_before(comps_view(components@), components@.len() as int, x),
            forall|i: int| 0 <= i < components@.len() ==> is_component(links, #[trigger] comps_view(components@)[i]),
            forall|i: int, j: int| 0 <= i < j < components@.len() ==> !connected(links, #[trigger] comps_view(components@)[i][0], #[trigger] comps_view(components@)[j][0]),
            forall|k: int| 0 <= k < p ==> placed_before(comps_view(components@), components@.len() as int, #[trigger] ids[k]),
            forall|i: int| 0 <= i < components@.len() ==> #[trigger] has_start(ids, comps_view(components@), i),
        decreases n - p,
    {
        let s = node_ids[p];
        if !visited.contains(&s) {
            let ghost cs = comps_view(components@);
            let ghost v0 = visited@;
            assert(univ.contains(ids[p as int]));
            let comp = collect_component(&adj, &mut visited, s, Ghost(links), Ghost(univ));
            components.push(comp);
            proof {
                let ncs = comps_view(components@);
                let m = cs.len() as int;
                assert(ncs =~= cs.push(comp@));
                assert forall|i: int, x: u128| 0 <= i <= m implies placed_before(ncs, i, x) == placed_before(cs, i, x) by {
                    if placed_before(ncs, i, x) {
                        let j = choose|j: int| 0 <= j < i && #[trigger] ncs[j].contains(x);
                        assert(cs[j] == ncs[j]);
                    }
                    if placed_before(cs, i, x) {
                        let j = choose|j: int| 0 <= j < i && #[trigger] cs[j].contains(x);
                        assert(cs[j] == ncs[j]);
                    }
                }
                assert forall|x: u128| #[trigger] visited@.contains(x) <==> placed_before(ncs, m + 1, x) by {
                    if comp@.contains(x) {
                        assert(ncs[m].contains(x));
                    }
                    if placed_before(ncs, m + 1, x) {
                        let j = choose|j: int| 0 <= j < m + 1 && #[trigger] ncs[j].contains(x);
                        if j < m {
                            assert(placed_before(cs, m, x));
                        }
                    }
                    assert(placed_before(ncs, m, x) == placed_before(cs, m, x));
                    if placed_before(cs, m, x) {
                        let j = choose|j: int| 0 <= j < m && #[trigger] cs[j].contains(x);
                        assert(ncs[j].contains(x));
                    }
                }
                assert forall|x: u128, z: u128| visited@.contains(x) && #[trigger] linked(links, x, z) implies visited@.contains(z) by {
                    if !v0.contains(x) {
                        assert(comp@.contains(x));
                        let w = choose|w: int| 0 <= w < comp@.len() && comp@[w] == x;
                        assert(connected(links, comp@[0], x));
                        lemma_connected_step(links, comp@[0], x, z);
                    }
                }
                assert forall|i: int| 0 <= i < ncs.len() implies is_component(links, #[trigger] ncs[i]) by {
                    if i < m {
                        assert(ncs[i] == cs[i]);
                    }
                }
                assert forall|i: int, j: int| 0 <= i < j < ncs.len() implies !connected(links, #[trigger] ncs[i][0], #[trigger] ncs[j][0]) by {
                    if j == m {
                        if connected(links, cs[i][0], s) {
                            assert(is_component(links, cs[i]));
                            assert(cs[i].contains(s));
                            assert(placed_before(cs, m, s));
                        }
                    } else {
                        assert(ncs[i] == cs[i] && ncs[j] == cs[j]);
                    }
                }
                assert forall|k: int| 0 <= k < p + 1 implies placed_before(ncs, ncs.len() as int, #[trigger] ids[k]) by {
                    if k == p {
                        assert(ncs[m].contains(s)) by {
                            assert(comp@[0] == s);
                        }
                    } else {
                        assert(placed_before(cs, m, ids[k]));
                        let j = choose|j: int| 0 <= j < m && #[trigger] cs[j].contains(ids[k]);
                        assert(ncs[j].contains(ids[k]));
                    }
                }
                assert forall|i: int| 0 <= i < ncs.len() implies #[trigger] has_start(ids, ncs, i) by {
                    if i == m {
                        assert(starts_at(ids, ncs, m, p as int));
                    } else {
                        assert(has_start(ids, cs, i));
                        let q = choose|q: int| #[trigger] starts_at(ids, cs, i, q);
                        assert(ncs[i] == cs[i]);
                        assert(starts_at(ids, ncs, i, q));
                    }
                }
            }
        }
        p = p + 1;
    }
    components
}

} // verus!
