//! Dominator tree and dominance frontiers.

use vstd::prelude::*;
use crate::dominator_sets::{dominator_sets, path_dominates, count_true, lemma_count_true_sub, lemma_dom_pred, lemma_dom_refl,
    lemma_dom_total, lemma_dom_trans, lemma_entry_dom, lemma_entry_dominated_by_itself_only};
use crate::cfg::{BlockId, ControlFlowGraph, has_edge, ids, pred_of, succ_of, lemma_pred_of_contains, lemma_succ_of_contains};
use crate::paths::{lemma_push_contains, lemma_push_nodup, lemma_closed_contains_reach, count_false, is_walk, lemma_count_false_update, lemma_nodup_bounded_len, lemma_rank_decreases_along_walk, lemma_walk_prefix, lemma_walk_push, lemma_walk_suffix, on_cycle, reach, lemma_reach_refl, lemma_reach_step};

verus! {

/// `a` is an ancestor-or-self of `x` in the tree given by parent positions `idom`
/// (every non-root position points to a smaller position).
pub open spec fn anc(idom: Seq<u32>, a: int, x: int) -> bool
    decreases x,
{
    a == x || (0 < x < idom.len() && idom[x] < x && anc(idom, a, idom[x] as int))
}

/// Every non-root position has a parent at a smaller position.
pub open spec fn is_tree(idom: Seq<u32>) -> bool {
    &&& idom.len() > 0
    &&& idom[0] == 0
    &&& forall|x: int| 0 < x < idom.len() ==> #[trigger] idom[x] < x
}

/// `c` is the deepest common ancestor of `b1` and `b2`.
pub open spec fn is_lca(idom: Seq<u32>, b1: int, b2: int, c: int) -> bool {
    &&& anc(idom, c, b1)
    &&& anc(idom, c, b2)
    &&& forall|d: int| #[trigger] anc(idom, d, b1) && anc(idom, d, b2) ==> anc(idom, d, c)
}

pub proof fn lemma_anc_le(idom: Seq<u32>, a: int, x: int)
    requires
        anc(idom, a, x),
    ensures
        a <= x,
    decreases x,
{
    if a != x {
        lemma_anc_le(idom, a, idom[x] as int);
    }
}

pub proof fn lemma_anc_trans(idom: Seq<u32>, a: int, b: int, c: int)
    requires
        anc(idom, a, b),
        anc(idom, b, c),
    ensures
        anc(idom, a, c),
    decreases c,
{
    if b != c {
        lemma_anc_trans(idom, a, b, idom[c] as int);
    }
}

pub proof fn lemma_anc_root(idom: Seq<u32>, x: int)
    requires
        is_tree(idom),
        0 <= x < idom.len(),
    ensures
        anc(idom, 0, x),
    decreases x,
{
    if x > 0 {
        lemma_anc_root(idom, idom[x] as int);
    }
}

pub fn intersect_rpo(idom: &[u32], b1: u32, b2: u32) -> (r: u32)
    requires
        is_tree(idom@),
        b1 < idom@.len(),
        b2 < idom@.len(),
    ensures
        is_lca(idom@, b1 as int, b2 as int, r as int),
{
    let ghost t = idom@;
    let ghost o1 = b1 as int;
    let ghost o2 = b2 as int;
    let mut b1 = b1;
    let mut b2 = b2;
    while b1 != b2
        invariant
            is_tree(t),
            t == idom@,
            b1 < t.len(),
            b2 < t.len(),
            anc(t, b1 as int, o1),
            anc(t, b2 as int, o2),
            forall|d: int| anc(t, d, o1) && anc(t, d, o2) ==> #[trigger] anc(t, d, b1 as int) && anc(t, d, b2 as int),
        decreases b1 + b2,
    {
        let ghost sb1 = b1;
        let ghost sb2 = b2;
        while b1 > b2
            invariant
                is_tree(t),
                t == idom@,
                b1 < t.len(),
                b2 < t.len(),
                anc(t, b1 as int, o1),
                anc(t, b2 as int, o2),
                forall|d: int| anc(t, d, o1) && anc(t, d, o2) ==> #[trigger] anc(t, d, b1 as int) && anc(t, d, b2 as int),
                b1 + b2 < sb1 + sb2 || (b1 == sb1 && b2 == sb2),
            decreases b1,
        {
            let ghost ob = b1;
            b1 = idom[b1 as usize];
            proof {
                assert(t[ob as int] < ob);
                assert(anc(t, b1 as int, b1 as int));
                assert(anc(t, b1 as int, ob as int));
                lemma_anc_trans(t, b1 as int, ob as int, o1);
                assert forall|d: int| anc(t, d, o1) && anc(t, d, o2) implies #[trigger] anc(t, d, b1 as int) && anc(t, d, b2 as int) by {
                    assert(anc(t, d, ob as int));
                    assert(anc(t, d, b2 as int));
                    lemma_anc_le(t, d, b2 as int);
                }
            }
        }
        while b2 > b1
            invariant
                is_tree(t),
                t == idom@,
                b1 < t.len(),
                b2 < t.len(),
                anc(t, b1 as int, o1),
                anc(t, b2 as int, o2),
                forall|d: int| anc(t, d, o1) && anc(t, d, o2) ==> #[trigger] anc(t, d, b1 as int) && anc(t, d, b2 as int),
                b1 + b2 < sb1 + sb2 || (b1 == sb1 && b2 == sb2),
                sb1 != sb2,
                b1 + b2 < sb1 + sb2 || sb1 <= sb2,
            decreases b2,
        {
            let ghost ob = b2;
            b2 = idom[b2 as usize];
            proof {
                assert(t[ob as int] < ob);
                assert(anc(t, b2 as int, b2 as int));
                assert(anc(t, b2 as int, ob as int));
                lemma_anc_trans(t, b2 as int, ob as int, o2);
                assert forall|d: int| anc(t, d, o1) && anc(t, d, o2) implies #[trigger] anc(t, d, b1 as int) && anc(t, d, b2 as int) by {
                    assert(anc(t, d, ob as int));
                    assert(anc(t, d, b1 as int));
                    lemma_anc_le(t, d, b1 as int);
                }
            }
        }
    }
    proof {
        assert forall|d: int| #[trigger] anc(t, d, o1) && anc(t, d, o2) implies anc(t, d, b1 as int) by {}
    }
    b1
}

/// The immediate-dominator relation as parent links: `a -> idom[a]` for `a != idom[a]`.
pub open spec fn idom_rel(idom: Seq<Option<BlockId>>) -> spec_fn(int, int) -> bool {
    |a: int, b: int| 0 <= a < idom.len() && idom[a] is Some && parent_id(idom[a]) == b && a != b
}

/// The id held by a parent link (`-1` when absent).
pub open spec fn parent_id(o: Option<BlockId>) -> int {
    match o {
        Some(p) => p.0 as int,
        None => -1,
    }
}

proof fn lemma_cycle_step(idom: Seq<Option<BlockId>>, a: int, b: int)
    requires
        on_cycle(idom_rel(idom), a),
        (idom_rel(idom))(a, b),
    ensures
        on_cycle(idom_rel(idom), b),
{
    let rel = idom_rel(idom);
    let p = choose|p: Seq<int>| #[trigger] is_walk(rel, p) && p.len() >= 2 && p[0] == a && p.last() == a;
    let i = 0int;
    assert(rel(p[i], p[i + 1]));
    assert(p[1] == b);
    lemma_walk_suffix(rel, p, 1);
    let tail = p.subrange(1, p.len() as int);
    assert(tail.last() == a);
    lemma_walk_push(rel, tail, b);
    let q = tail.push(b);
    assert(q[0] == b && q.last() == b && q.len() >= 2);
    assert(is_walk(rel, q));
}

/// Verify that the immediate-dominator relation has no cycles.
pub fn verify_idom_acyclic(idom: &[Option<BlockId>]) -> (r: bool)
    ensures
        r == !exists|v: int| #[trigger] on_cycle(idom_rel(idom@), v),
{
    let n = idom.len();
    let ghost rel = idom_rel(idom@);
    let mut node: usize = 0;
    while node < n
        invariant
            n == idom@.len(),
            rel == idom_rel(idom@),
            node <= n,
            forall|v: int| 0 <= v < node ==> !#[trigger] on_cycle(rel, v),
        decreases n - node,
    {
        if idom[node].is_some() {
            let mut seen: Vec<bool> = vec![false; n];
            let mut current: usize = node;
            let ghost mut chain: Seq<int> = seq![node as int];
            proof {
                assert(is_walk(rel, chain));
                assert(chain.drop_first() =~= Seq::<int>::empty());
            }
            loop
                invariant
                    n == idom@.len(),
                    rel == idom_rel(idom@),
                    node < n,
                    current < n,
                    seen@.len() == n,
                    is_walk(rel, chain),
                    chain[0] == node as int,
                    chain.last() == current as int,
                    forall|v: int| 0 <= v < n ==> (#[trigger] seen@[v] <==> chain.drop_first().contains(v)),
                    on_cycle(rel, node as int) ==> on_cycle(rel, current as int),
                    forall|v: int| 0 <= v < node ==> !#[trigger] on_cycle(rel, v),
                ensures
                    !on_cycle(rel, node as int),
                decreases count_false(seen@),
            {
                match idom[current] {
                    None => {
                        proof {
                            if on_cycle(rel, current as int) {
                                let p = choose|p: Seq<int>| #[trigger] is_walk(rel, p) && p.len() >= 2 && p[0] == current as int && p.last() == current as int;
                                let i = 0int;
                                assert(rel(p[i], p[i + 1]));
                            }
                        }
                        break;
                    },
                    Some(parent) => {
                        if parent.0 as usize == current {
                            proof {
                                if on_cycle(rel, current as int) {
                                    let p = choose|p: Seq<int>| #[trigger] is_walk(rel, p) && p.len() >= 2 && p[0] == current as int && p.last() == current as int;
                                    let i = 0int;
                                    assert(rel(p[i], p[i + 1]));
                                }
                            }
                            break;
                        }
                        let pi = parent.0 as usize;
                        proof {
                            assert(rel(current as int, pi as int));
                        }
                        if pi >= n {
                            proof {
                                if on_cycle(rel, current as int) {
                                    lemma_cycle_step(idom@, current as int, pi as int);
                                    let p = choose|p: Seq<int>| #[trigger] is_walk(rel, p) && p.len() >= 2 && p[0] == pi as int && p.last() == pi as int;
                                    let i = 0int;
                                    assert(rel(p[i], p[i + 1]));
                                }
                            }
                            break;
                        }
                        if seen[pi] {
                            proof {
                                assert(chain.drop_first().contains(pi as int));
                                let k = choose|k: int| 0 <= k < chain.drop_first().len() && chain.drop_first()[k] == pi as int;
                                let k1 = k + 1;
                                assert(chain[k1] == pi as int);
                                lemma_walk_suffix(rel, chain, k1);
                                let tail = chain.subrange(k1, chain.len() as int);
                                assert(tail.last() == current as int);
                                lemma_walk_push(rel, tail, pi as int);
                                let cyc = tail.push(pi as int);
                                assert(cyc[0] == pi as int && cyc.last() == pi as int && cyc.len() >= 2);
                                assert(on_cycle(rel, pi as int));
                            }
                            return false;
                        }
                        proof {
                            lemma_count_false_update(seen@, pi as int);
                            lemma_walk_push(rel, chain, pi as int);
                            if on_cycle(rel, current as int) {
                                lemma_cycle_step(idom@, current as int, pi as int);
                            }
                        }
                        seen.set(pi, true);
                        proof {
                            let nc = chain.push(pi as int);
                            assert(nc.drop_first() =~= chain.drop_first().push(pi as int));
                            assert forall|v: int| 0 <= v < n implies (#[trigger] seen@[v] <==> nc.drop_first().contains(v)) by {
                                if v == pi as int {
                                    assert(nc.drop_first()[nc.drop_first().len() - 1] == v);
                                } else {
                                    if nc.drop_first().contains(v) {
                                        let k = choose|k: int| 0 <= k < nc.drop_first().len() && nc.drop_first()[k] == v;
                                        assert(chain.drop_first()[k] == v);
                                    }
                                    if chain.drop_first().contains(v) {
                                        let k = choose|k: int| 0 <= k < chain.drop_first().len() && chain.drop_first()[k] == v;
                                        assert(nc.drop_first()[k] == v);
                                    }
                                }
                            }
                            chain = nc;
                        }
                        current = pi;
                    },
                }
            }
        } else {
            proof {
                if on_cycle(rel, node as int) {
                    let p = choose|p: Seq<int>| #[trigger] is_walk(rel, p) && p.len() >= 2 && p[0] == node as int && p.last() == node as int;
                    let i = 0int;
                    assert(rel(p[i], p[i + 1]));
                }
            }
        }
        node = node + 1;
    }
    proof {
        assert forall|v: int| !#[trigger] on_cycle(rel, v) by {
            if on_cycle(rel, v) {
                let p = choose|p: Seq<int>| #[trigger] is_walk(rel, p) && p.len() >= 2 && p[0] == v && p.last() == v;
                let i = 0int;
                assert(rel(p[i], p[i + 1]));
            }
        }
    }
    true
}


/// One pending depth-first frame: a block and the index of its next successor.
#[derive(Clone, Copy)]
struct RpoFrame {
    block: BlockId,
    succ_i: usize,
}

spec fn frame_blocks(s: Seq<RpoFrame>) -> Seq<int> {
    s.map_values(|f: RpoFrame| f.block.0 as int)
}

/// `r` lists every marked block once, starts at the entry block, and every later
/// block has a predecessor listed before it.
pub open spec fn is_rpo_of(cfg: ControlFlowGraph, marks: Seq<bool>, r: Seq<int>) -> bool {
    &&& r.no_duplicates()
    &&& forall|v: int| r.contains(v) <==> (0 <= v < marks.len() && marks[v])
    &&& r.len() > 0
    &&& r[0] == cfg.entry.0 as int
    &&& forall|i: int| 0 < i < r.len() ==> #[trigger] has_earlier_pred(cfg, r, i)
}

/// Some entry before position `i` of `r` has an edge to `r[i]`.
pub open spec fn has_earlier_pred(cfg: ControlFlowGraph, r: Seq<int>, i: int) -> bool {
    exists|j: int| 0 <= j < i && #[trigger] has_edge(cfg.edges@, r[j], r[i])
}

/// Depth-first search state of the reverse-postorder computation.
#[verifier::opaque]
spec fn rpo_inv(
    cfg: ControlFlowGraph,
    reachable: Seq<bool>,
    visited: Seq<bool>,
    post: Seq<BlockId>,
    stack: Seq<RpoFrame>,
    par: Seq<int>,
) -> bool {
    let n = cfg.id_bound() as int;
    let entry = cfg.entry.0 as int;
    let rel = cfg.rel();
    &&& reachable.len() == n
    &&& forall|v: int| 0 <= v < n ==> (#[trigger] reachable[v] <==> reach(rel, entry, v))
    &&& visited.len() == n
    &&& par.len() == n
    &&& forall|v: int| 0 <= v < n && #[trigger] visited[v] ==> reachable[v]
    &&& forall|v: int| 0 <= v < n ==> (#[trigger] visited[v] <==> (ids(post).contains(v) || frame_blocks(stack).contains(v)))
    &&& ids(post).no_duplicates()
    &&& frame_blocks(stack).no_duplicates()
    &&& forall|v: int| !(#[trigger] ids(post).contains(v) && frame_blocks(stack).contains(v))
    &&& forall|k: int| 0 <= k < stack.len() ==> (#[trigger] stack[k]).block.0 < n
    &&& forall|k: int| 0 <= k < post.len() ==> (#[trigger] post[k]).0 < n
    &&& stack.len() > 0 ==> stack[0].block.0 == entry
    &&& stack.len() == 0 ==> post.len() > 0 && post.last().0 == entry
    &&& (!ids(post).contains(entry) || stack.len() == 0)
    &&& forall|k: int| 0 < k < stack.len() ==> par[(#[trigger] stack[k]).block.0 as int] == stack[k - 1].block.0 as int
    &&& forall|v: int| 0 <= v < n && v != entry && #[trigger] visited[v] ==> has_edge(cfg.edges@, par[v], v)
    &&& forall|i: int|
        0 <= i < post.len() && (#[trigger] post[i]).0 as int != entry ==> (frame_blocks(stack).contains(par[post[i].0 as int])
            || exists|j: int| i < j < post.len() && (#[trigger] post[j]).0 as int == par[post[i].0 as int])
    &&& forall|k: int| 0 <= k < stack.len() ==> (#[trigger] stack[k]).succ_i <= succ_of(cfg.edges@, stack[k].block.0).len()
    &&& forall|k: int, t: int|
        #![trigger stack[k], succ_of(cfg.edges@, stack[k].block.0)[t]]
        0 <= k < stack.len() && 0 <= t < stack[k].succ_i ==> visited[succ_of(cfg.edges@, stack[k].block.0)[t] as int]
    &&& forall|i: int, w: int| 0 <= i < post.len() && #[trigger] has_edge(cfg.edges@, (#[trigger] post[i]).0 as int, w) ==> visited[w]
}

proof fn lemma_rpo_init(cfg: ControlFlowGraph, reachable: Seq<bool>, visited: Seq<bool>, stack: Seq<RpoFrame>, par: Seq<int>)
    requires
        cfg.wf(),
        reachable.len() == cfg.id_bound(),
        forall|v: int| 0 <= v < cfg.id_bound() ==> (#[trigger] reachable[v] <==> reach(cfg.rel(), cfg.entry.0 as int, v)),
        visited.len() == cfg.id_bound(),
        forall|v: int| 0 <= v < cfg.id_bound() ==> #[trigger] visited[v] == (v == cfg.entry.0 as int),
        stack == seq![RpoFrame { block: cfg.entry, succ_i: 0 }],
        par.len() == cfg.id_bound(),
    ensures
        rpo_inv(cfg, reachable, visited, Seq::empty(), stack, par),
{
    reveal(rpo_inv);
    let entry = cfg.entry.0 as int;
    cfg.lemma_wf_bounds();
    lemma_reach_refl(cfg.rel(), entry);
    assert(frame_blocks(stack) =~= seq![entry]);
    assert(ids(Seq::<BlockId>::empty()) =~= Seq::<int>::empty());
    assert forall|v: int| 0 <= v < cfg.id_bound() implies (#[trigger] visited[v] <==> (ids(Seq::<BlockId>::empty()).contains(v) || frame_blocks(stack).contains(v))) by {
        if v == entry {
            assert(frame_blocks(stack)[0] == entry);
        }
    }
}

proof fn lemma_rpo_finish(
    cfg: ControlFlowGraph,
    reachable: Seq<bool>,
    visited: Seq<bool>,
    post: Seq<BlockId>,
    stack: Seq<RpoFrame>,
    par: Seq<int>,
    frame: RpoFrame,
)
    requires
        cfg.wf(),
        rpo_inv(cfg, reachable, visited, post, stack.push(frame), par),
        frame.succ_i >= succ_of(cfg.edges@, frame.block.0).len(),
    ensures
        rpo_inv(cfg, reachable, visited, post.push(frame.block), stack, par),
{
    reveal(rpo_inv);
    let sh = stack.push(frame);
    let n = cfg.id_bound() as int;
    let entry = cfg.entry.0 as int;
    let np = post.push(frame.block);
    assert(ids(np) =~= ids(post).push(frame.block.0 as int));
    assert(frame_blocks(sh) =~= frame_blocks(stack).push(frame.block.0 as int));
    assert(frame_blocks(sh)[sh.len() - 1] == frame.block.0 as int);
    assert(!ids(post).contains(frame.block.0 as int));
    lemma_push_nodup(ids(post), frame.block.0 as int);
    assert forall|v: int| 0 <= v < n implies (#[trigger] visited[v] <==> (ids(np).contains(v) || frame_blocks(stack).contains(v))) by {
        lemma_push_contains(frame_blocks(stack), frame.block.0 as int, v);
        lemma_push_contains(ids(post), frame.block.0 as int, v);
    }
    assert forall|i: int, j: int| 0 <= i < frame_blocks(stack).len() && 0 <= j < frame_blocks(stack).len() && i != j
        implies frame_blocks(stack)[i] != frame_blocks(stack)[j] by {
        assert(frame_blocks(stack)[i] == frame_blocks(sh)[i]);
        assert(frame_blocks(stack)[j] == frame_blocks(sh)[j]);
    }
    assert forall|v: int| !(#[trigger] ids(np).contains(v) && frame_blocks(stack).contains(v)) by {
        lemma_push_contains(frame_blocks(stack), frame.block.0 as int, v);
        lemma_push_contains(ids(post), frame.block.0 as int, v);
        if v == frame.block.0 as int && frame_blocks(stack).contains(v) {
            let k = choose|k: int| 0 <= k < frame_blocks(stack).len() && frame_blocks(stack)[k] == v;
            assert(frame_blocks(sh)[k] == v);
        }
    }
    assert forall|k: int| 0 <= k < np.len() implies (#[trigger] np[k]).0 < n by {
        if k < post.len() { assert(np[k] == post[k]); } else { assert(sh[sh.len() - 1] == frame); }
    }
    assert forall|k: int| 0 <= k < stack.len() implies (#[trigger] stack[k]).block.0 < n by {
        assert(sh[k] == stack[k]);
    }
    if stack.len() == 0 {
        assert(frame.block.0 == entry);
    } else {
        assert(sh[0] == stack[0]);
    }
    if ids(np).contains(entry) && stack.len() > 0 {
        lemma_push_contains(ids(post), frame.block.0 as int, entry);
        assert(stack[0].block.0 == entry);
        assert(frame_blocks(stack)[0] == entry);
        assert(frame_blocks(sh)[0] == entry);
        assert(frame.block.0 as int == entry);
    }
    assert forall|k: int| 0 < k < stack.len() implies par[(#[trigger] stack[k]).block.0 as int] == stack[k - 1].block.0 as int by {
        assert(sh[k] == stack[k] && sh[k - 1] == stack[k - 1]);
    }
    assert forall|i: int|
        0 <= i < np.len() && (#[trigger] np[i]).0 as int != entry implies (frame_blocks(stack).contains(par[np[i].0 as int])
            || exists|j: int| i < j < np.len() && (#[trigger] np[j]).0 as int == par[np[i].0 as int]) by {
        if i < post.len() {
            assert(np[i] == post[i]);
            let pv = par[post[i].0 as int];
            if frame_blocks(sh).contains(pv) {
                lemma_push_contains(frame_blocks(stack), frame.block.0 as int, pv);
                if pv == frame.block.0 as int {
                    assert(np[post.len() as int].0 as int == pv);
                }
            } else {
                let j = choose|j: int| i < j < post.len() && (#[trigger] post[j]).0 as int == pv;
                assert(np[j] == post[j]);
            }
        } else {
            let v = frame.block.0 as int;
            assert(np[i].0 as int == v);
            assert(stack.len() > 0);
            let k = sh.len() - 1;
            assert(par[(sh[k]).block.0 as int] == sh[k - 1].block.0 as int);
            assert(frame_blocks(stack)[k - 1] == sh[k - 1].block.0 as int);
        }
    }
    assert forall|k: int| 0 <= k < stack.len() implies (#[trigger] stack[k]).succ_i <= succ_of(cfg.edges@, stack[k].block.0).len() by {
        assert(sh[k] == stack[k]);
    }
    assert forall|k: int, t: int|
        #![trigger stack[k], succ_of(cfg.edges@, stack[k].block.0)[t]]
        0 <= k < stack.len() && 0 <= t < stack[k].succ_i implies visited[succ_of(cfg.edges@, stack[k].block.0)[t] as int] by {
        assert(sh[k] == stack[k]);
    }
    assert forall|i: int, w: int| 0 <= i < np.len() && #[trigger] has_edge(cfg.edges@, (#[trigger] np[i]).0 as int, w) implies visited[w] by {
        if i < post.len() {
            assert(np[i] == post[i]);
        } else {
            let k = sh.len() - 1;
            assert(sh[k] == frame);
            lemma_succ_of_contains(cfg.edges@, frame.block.0, w as u32);
            cfg.lemma_wf_bounds();
            let sq = succ_of(cfg.edges@, frame.block.0);
            let t = choose|t: int| 0 <= t < sq.len() && sq[t] == w as u32;
            assert(visited[succ_of(cfg.edges@, sh[k].block.0)[t] as int]);
        }
    }
}

proof fn lemma_rpo_skip(
    cfg: ControlFlowGraph,
    reachable: Seq<bool>,
    visited: Seq<bool>,
    post: Seq<BlockId>,
    stack: Seq<RpoFrame>,
    par: Seq<int>,
    frame: RpoFrame,
)
    requires
        cfg.wf(),
        rpo_inv(cfg, reachable, visited, post, stack.push(frame), par),
        frame.succ_i < succ_of(cfg.edges@, frame.block.0).len(),
        visited[succ_of(cfg.edges@, frame.block.0)[frame.succ_i as int] as int],
    ensures
        rpo_inv(cfg, reachable, visited, post, stack.push(RpoFrame { block: frame.block, succ_i: (frame.succ_i + 1) as usize }), par),
{
    reveal(rpo_inv);
    let sh = stack.push(frame);
    let nf = RpoFrame { block: frame.block, succ_i: (frame.succ_i + 1) as usize };
    let ns = stack.push(nf);
    assert(frame_blocks(ns) =~= frame_blocks(sh));
    assert forall|k: int| 0 <= k < ns.len() implies (#[trigger] ns[k]).block == sh[k].block && (k < stack.len() ==> ns[k] == sh[k]) by {}
    assert forall|k: int, t: int|
        #![trigger ns[k], succ_of(cfg.edges@, ns[k].block.0)[t]]
        0 <= k < ns.len() && 0 <= t < ns[k].succ_i implies visited[succ_of(cfg.edges@, ns[k].block.0)[t] as int] by {
        if k < stack.len() {
            assert(ns[k] == sh[k]);
        } else {
            assert(sh[k] == frame);
            if t < frame.succ_i {
                assert(visited[succ_of(cfg.edges@, sh[k].block.0)[t] as int]);
            }
        }
    }
    assert forall|k: int| 0 <= k < ns.len() implies (#[trigger] ns[k]).succ_i <= succ_of(cfg.edges@, ns[k].block.0).len() by {
        if k < stack.len() {
            assert(ns[k] == sh[k]);
        }
    }
    assert forall|k: int| 0 < k < ns.len() implies par[(#[trigger] ns[k]).block.0 as int] == ns[k - 1].block.0 as int by {
        assert(par[(sh[k]).block.0 as int] == sh[k - 1].block.0 as int);
    }
    assert forall|k: int| 0 <= k < ns.len() implies (#[trigger] ns[k]).block.0 < cfg.id_bound() by {
        assert(sh[k].block.0 < cfg.id_bound());
    }
    if ns.len() > 0 {
        assert(ns[0].block == sh[0].block);
    }
}

proof fn lemma_rpo_discover(
    cfg: ControlFlowGraph,
    reachable: Seq<bool>,
    visited: Seq<bool>,
    post: Seq<BlockId>,
    stack: Seq<RpoFrame>,
    par: Seq<int>,
    frame: RpoFrame,
    sc: BlockId,
)
    requires
        cfg.wf(),
        rpo_inv(cfg, reachable, visited, post, stack.push(frame), par),
        frame.succ_i < succ_of(cfg.edges@, frame.block.0).len(),
        sc.0 == succ_of(cfg.edges@, frame.block.0)[frame.succ_i as int],
        sc.0 < cfg.id_bound(),
        reachable[sc.0 as int],
        !visited[sc.0 as int],
    ensures
        rpo_inv(
            cfg,
            reachable,
            visited.update(sc.0 as int, true),
            post,
            stack.push(RpoFrame { block: frame.block, succ_i: (frame.succ_i + 1) as usize }).push(RpoFrame { block: sc, succ_i: 0 }),
            par.update(sc.0 as int, frame.block.0 as int),
        ),
{
    reveal(rpo_inv);
    let n = cfg.id_bound() as int;
    let entry = cfg.entry.0 as int;
    let si = sc.0 as int;
    let sh = stack.push(frame);
    let nf = RpoFrame { block: frame.block, succ_i: (frame.succ_i + 1) as usize };
    let mid = stack.push(nf);
    let ns = mid.push(RpoFrame { block: sc, succ_i: 0 });
    let nv = visited.update(si, true);
    let np = par.update(si, frame.block.0 as int);
    assert(frame_blocks(mid) =~= frame_blocks(sh));
    assert(frame_blocks(ns) =~= frame_blocks(sh).push(si));
    assert(!frame_blocks(sh).contains(si));
    assert(!ids(post).contains(si));
    lemma_push_nodup(frame_blocks(sh), si);
    assert(frame_blocks(sh)[sh.len() - 1] == frame.block.0 as int);
    assert(visited[frame.block.0 as int]);
    assert(si != entry) by {
        if si == entry {
            assert(frame_blocks(sh)[0] == entry);
        }
    }
    assert(si != frame.block.0 as int);
    lemma_succ_of_contains(cfg.edges@, frame.block.0, sc.0);
    assert(succ_of(cfg.edges@, frame.block.0).contains(sc.0));
    assert forall|v: int| 0 <= v < n implies (#[trigger] nv[v] <==> (ids(post).contains(v) || frame_blocks(ns).contains(v))) by {
        lemma_push_contains(frame_blocks(sh), si, v);
    }
    assert forall|v: int| !(#[trigger] ids(post).contains(v) && frame_blocks(ns).contains(v)) by {
        lemma_push_contains(frame_blocks(sh), si, v);
    }
    assert forall|v: int| 0 <= v < n && #[trigger] nv[v] implies reachable[v] by {}
    assert forall|k: int| 0 <= k < ns.len() implies (#[trigger] ns[k]).block.0 < n by {
        if k < sh.len() {
            assert(ns[k].block == sh[k].block);
        }
    }
    assert forall|k: int| 0 < k < ns.len() implies np[(#[trigger] ns[k]).block.0 as int] == ns[k - 1].block.0 as int by {
        if k == ns.len() - 1 {
            assert(ns[k].block == sc);
            assert(ns[k - 1].block == frame.block);
        } else {
            assert(ns[k].block == sh[k].block && ns[k - 1].block == sh[k - 1].block);
            assert(par[(sh[k]).block.0 as int] == sh[k - 1].block.0 as int);
            assert(frame_blocks(sh).contains(sh[k].block.0 as int)) by {
                assert(frame_blocks(sh)[k] == sh[k].block.0 as int);
            }
            assert(sh[k].block.0 as int != si);
        }
    }
    assert forall|v: int| 0 <= v < n && v != entry && #[trigger] nv[v] implies has_edge(cfg.edges@, np[v], v) by {
        if v != si {
            assert(visited[v]);
        }
    }
    assert forall|i: int|
        0 <= i < post.len() && (#[trigger] post[i]).0 as int != entry implies (frame_blocks(ns).contains(np[post[i].0 as int])
            || exists|j: int| i < j < post.len() && (#[trigger] post[j]).0 as int == np[post[i].0 as int]) by {
        assert(ids(post)[i] == post[i].0 as int);
        assert(ids(post).contains(post[i].0 as int));
        assert(post[i].0 as int != si);
        lemma_push_contains(frame_blocks(sh), si, par[post[i].0 as int]);
    }
    assert forall|k: int| 0 <= k < ns.len() implies (#[trigger] ns[k]).succ_i <= succ_of(cfg.edges@, ns[k].block.0).len() by {
        if k < stack.len() {
            assert(ns[k] == sh[k]);
        }
    }
    assert forall|k: int, t: int|
        #![trigger ns[k], succ_of(cfg.edges@, ns[k].block.0)[t]]
        0 <= k < ns.len() && 0 <= t < ns[k].succ_i implies nv[succ_of(cfg.edges@, ns[k].block.0)[t] as int] by {
        if k < stack.len() {
            assert(ns[k] == sh[k]);
            assert(visited[succ_of(cfg.edges@, sh[k].block.0)[t] as int]);
            let sq = succ_of(cfg.edges@, sh[k].block.0);
            assert(sq.contains(sq[t]));
            lemma_succ_of_contains(cfg.edges@, sh[k].block.0, sq[t]);
            cfg.lemma_wf_bounds();
        } else if k == stack.len() {
            assert(sh[k] == frame);
            assert(ns[k] == nf);
            let sq = succ_of(cfg.edges@, frame.block.0);
            assert(sq.contains(sq[t]));
            lemma_succ_of_contains(cfg.edges@, frame.block.0, sq[t]);
            cfg.lemma_wf_bounds();
            if t < frame.succ_i {
                assert(visited[succ_of(cfg.edges@, sh[k].block.0)[t] as int]);
            } else {
                assert(t == frame.succ_i);
            }
        } else {
            assert(ns[k].succ_i == 0);
        }
    }
    assert forall|i: int, w: int| 0 <= i < post.len() && #[trigger] has_edge(cfg.edges@, (#[trigger] post[i]).0 as int, w) implies nv[w] by {
        assert(visited[w]);
    }
    if ns.len() > 0 {
        assert(ns[0].block == sh[0].block);
    }
}

/// Reverse postorder from the entry block (entry first), computed iteratively.
fn compute_rpo(cfg: &ControlFlowGraph, reachable: &Vec<bool>) -> (r: Vec<BlockId>)
    requires
        cfg.wf(),
        reachable@.len() == cfg.id_bound(),
        forall|v: int| 0 <= v < cfg.id_bound() ==> (#[trigger] reachable@[v] <==> reach(cfg.rel(), cfg.entry.0 as int, v)),
    ensures
        is_rpo_of(*cfg, reachable@, ids(r@)),
{
    let n = reachable.len();
    let ghost rel = cfg.rel();
    let ghost entry = cfg.entry.0 as int;
    proof {
        cfg.lemma_wf_bounds();
    }
    let mut visited: Vec<bool> = vec![false; n];
    let mut post: Vec<BlockId> = Vec::new();
    let mut stack: Vec<RpoFrame> = Vec::new();
    visited.set(cfg.entry.0 as usize, true);
    stack.push(RpoFrame { block: cfg.entry, succ_i: 0 });
    let ghost mut par: Seq<int> = Seq::new(n as nat, |i: int| 0int);
    proof {
        assert(stack@ =~= seq![RpoFrame { block: cfg.entry, succ_i: 0 }]);
        assert forall|v: int| 0 <= v < n implies #[trigger] visited@[v] == (v == entry) by {}
        lemma_rpo_init(*cfg, reachable@, visited@, stack@, par);
    }
    while stack.len() > 0
        invariant
            cfg.wf(),
            rel == cfg.rel(),
            entry == cfg.entry.0 as int,
            n == cfg.id_bound(),
            visited@.len() == n,
            rpo_inv(*cfg, reachable@, visited@, post@, stack@, par),
        decreases count_false(visited@), stack@.len(), succ_of(cfg.edges@, stack@.last().block.0).len() - stack@.last().succ_i,
    {
        let ghost sh = stack@;
        let frame = stack.pop().unwrap();
        proof {
            assert(sh =~= stack@.push(frame));
            reveal(rpo_inv);
            assert(sh[sh.len() - 1] == frame);
        }
        let succs = cfg.successors(frame.block);
        proof {
            assert(ids(succs@).len() == succ_of(cfg.edges@, frame.block.0).len());
        }
        if frame.succ_i < succs.len() {
            let sc = succs[frame.succ_i];
            proof {
                let sq = succ_of(cfg.edges@, frame.block.0);
                assert(ids(succs@)[frame.succ_i as int] == sq.map_values(|x: u32| x as int)[frame.succ_i as int]);
                assert(sc.0 == sq[frame.succ_i as int]);
                assert(sq.contains(sq[frame.succ_i as int]));
                lemma_succ_of_contains(cfg.edges@, frame.block.0, sq[frame.succ_i as int]);
                cfg.lemma_wf_bounds();
            }
            let si = sc.0 as usize;
            stack.push(RpoFrame { block: frame.block, succ_i: frame.succ_i + 1 });
            if reachable[si] && !visited[si] {
                proof {
                    lemma_count_false_update(visited@, si as int);
                    assert(stack@.drop_last().push(frame) =~= sh);
                    lemma_rpo_discover(*cfg, reachable@, visited@, post@, stack@.drop_last(), par, frame, sc);
                    assert(stack@.drop_last() =~= sh.drop_last());
                    par = par.update(si as int, frame.block.0 as int);
                }
                visited.set(si, true);
                stack.push(RpoFrame { block: sc, succ_i: 0 });
                proof {
                    assert(stack@ =~= sh.drop_last().push(RpoFrame { block: frame.block, succ_i: (frame.succ_i + 1) as usize }).push(RpoFrame { block: sc, succ_i: 0 }));
                }
            } else {
                proof {
                    reveal(rpo_inv);
                    if !reachable@[si as int] {
                        assert(frame_blocks(sh)[sh.len() - 1] == frame.block.0 as int);
                        assert(visited@[frame.block.0 as int]);
                        assert(rel(frame.block.0 as int, si as int));
                        lemma_reach_step(rel, entry, frame.block.0 as int, si as int);
                        assert(false);
                    }
                    assert(sh.drop_last() =~= stack@.drop_last());
                    lemma_rpo_skip(*cfg, reachable@, visited@, post@, sh.drop_last(), par, frame);
                    assert(stack@ =~= sh.drop_last().push(RpoFrame { block: frame.block, succ_i: (frame.succ_i + 1) as usize }));
                }
            }
        } else {
            proof {
                lemma_rpo_finish(*cfg, reachable@, visited@, post@, stack@, par, frame);
            }
            post.push(frame.block);
        }
    }
    // reverse
    let mut r: Vec<BlockId> = Vec::new();
    let mut i: usize = post.len();
    while i > 0
        invariant
            i <= post@.len(),
            r@ == post@.subrange(i as int, post@.len() as int).reverse(),
        decreases i,
    {
        i = i - 1;
        r.push(post[i]);
        assert(r@ =~= post@.subrange(i as int, post@.len() as int).reverse());
    }
    proof {
        reveal(rpo_inv);
        assert(frame_blocks(stack@) =~= Seq::<int>::empty());
        assert(post@.subrange(0, post@.len() as int) =~= post@);
        let ip = ids(post@);
        let ir = ids(r@);
        let len = ip.len();
        assert(ir =~= ip.reverse());
        assert forall|a: int, b: int| 0 <= a < ir.len() && 0 <= b < ir.len() && a != b implies ir[a] != ir[b] by {
            assert(ir[a] == ip[len - 1 - a] && ir[b] == ip[len - 1 - b]);
        }
        let sset = Set::new(|v: int| 0 <= v < n && visited@[v]);
        assert(sset.contains(entry)) by {
            assert(ip[len - 1] == entry);
            assert(ip.contains(entry));
        }
        assert forall|x: int, y: int| sset.contains(x) && #[trigger] rel(x, y) implies sset.contains(y) by {
            assert(ip.contains(x));
            let k = choose|k: int| 0 <= k < ip.len() && ip[k] == x;
            assert(has_edge(cfg.edges@, post@[k].0 as int, y));
        }
        assert forall|v: int| ir.contains(v) <==> (0 <= v < n && reachable@[v]) by {
            if ir.contains(v) {
                let k = choose|k: int| 0 <= k < ir.len() && ir[k] == v;
                assert(ip[len - 1 - k] == v);
                assert(ip.contains(v));
            }
            if ir.contains(v) {
                let k = choose|k: int| 0 <= k < ir.len() && ir[k] == v;
                assert(ip[len - 1 - k] == v);
                assert(ip.contains(v));
                assert(visited@[v]);
            }
            if 0 <= v < n && reachable@[v] {
                lemma_closed_contains_reach(rel, sset, entry, v);
                assert(frame_blocks(stack@) =~= Seq::<int>::empty());
                assert(ip.contains(v));
                let k = choose|k: int| 0 <= k < ip.len() && ip[k] == v;
                assert(ir[len - 1 - k] == v);
            }
        }
        assert(ir[0] == entry);
        assert forall|i: int| 0 < i < ir.len() implies #[trigger] has_earlier_pred(*cfg, ir, i) by {
            let pi = len - 1 - i;
            let v = ip[pi];
            assert(ir[i] == v);
            assert(v != entry) by {
                assert(ip[len - 1] == entry);
            }
            assert(post@[pi].0 as int == v);
            let j2 = choose|j2: int| pi < j2 < post@.len() && (#[trigger] post@[j2]).0 as int == par[post@[pi].0 as int];
            assert(visited@[v]) by {
                assert(ip.contains(v));
            }
            let j = len - 1 - j2;
            assert(ir[j] == ip[j2]);
            assert(has_edge(cfg.edges@, ir[j], ir[i]));
        }
        assert(ir.no_duplicates());
        assert(is_rpo_of(*cfg, reachable@, ir));
    }
    r
}


/// `d` is an ancestor of the position of every numbered predecessor of block `b`.
pub open spec fn preds_common(t: Seq<u32>, edges: Seq<crate::cfg::CfgEdge>, rpo_pos: Seq<Option<u32>>, b: int, d: int) -> bool {
    forall|p: int|
        #[trigger] has_edge(edges, p, b) && 0 <= p < rpo_pos.len() && rpo_pos[p] is Some ==> anc(t, d, pos_value(rpo_pos[p]))
}

/// Value of a numbered position (`-1` when absent).
pub open spec fn pos_value(o: Option<u32>) -> int {
    match o {
        Some(k) => k as int,
        None => -1,
    }
}

/// `rpo_pos` numbers exactly the blocks of `rpo` by their position.
pub open spec fn numbering(rpo: Seq<int>, rpo_pos: Seq<Option<u32>>) -> bool {
    &&& forall|i: int| 0 <= i < rpo.len() ==> 0 <= #[trigger] rpo[i] < rpo_pos.len() && rpo_pos[rpo[i]] == Some(i as u32)
    &&& forall|v: int| 0 <= v < rpo_pos.len() && (#[trigger] rpo_pos[v]) is Some ==> pos_value(rpo_pos[v]) < rpo.len() && rpo[pos_value(rpo_pos[v])] == v
}

/// The `q`-th listed predecessor carries a position.
pub open spec fn pred_numbered(preds: Seq<BlockId>, rpo_pos: Seq<Option<u32>>, q: int) -> bool {
    preds[q].0 < rpo_pos.len() && rpo_pos[preds[q].0 as int] is Some
}

/// Position of the `q`-th listed predecessor.
pub open spec fn pred_pos(preds: Seq<BlockId>, rpo_pos: Seq<Option<u32>>, q: int) -> int {
    pos_value(rpo_pos[preds[q].0 as int])
}

/// The listed predecessors of `b` are exactly the sources of edges into `b`.
proof fn lemma_listed_preds(cfg: &ControlFlowGraph, preds: Seq<BlockId>, rpo_pos: Seq<Option<u32>>, b: BlockId, t: Seq<u32>)
    requires
        cfg.wf(),
        ids(preds) == pred_of(cfg.edges@, b.0).map_values(|x: u32| x as int),
        preds.len() == pred_of(cfg.edges@, b.0).len(),
    ensures
        forall|p: int| #[trigger] has_edge(cfg.edges@, p, b.0 as int) ==> exists|q: int| 0 <= q < preds.len() && preds[q].0 as int == p,
        forall|q: int| 0 <= q < preds.len() ==> has_edge(cfg.edges@, (#[trigger] preds[q]).0 as int, b.0 as int),
{
    let pl = pred_of(cfg.edges@, b.0);
    assert forall|p: int| #[trigger] has_edge(cfg.edges@, p, b.0 as int) implies exists|q: int| 0 <= q < preds.len() && preds[q].0 as int == p by {
        lemma_pred_of_contains(cfg.edges@, b.0, p as u32);
        cfg.lemma_wf_bounds();
        let q = choose|q: int| 0 <= q < pl.len() && pl[q] == p as u32;
        assert(ids(preds)[q] == pl.map_values(|x: u32| x as int)[q]);
    }
    assert forall|q: int| 0 <= q < preds.len() implies has_edge(cfg.edges@, (#[trigger] preds[q]).0 as int, b.0 as int) by {
        assert(ids(preds)[q] == pl.map_values(|x: u32| x as int)[q]);
        assert(pl.contains(pl[q]));
        lemma_pred_of_contains(cfg.edges@, b.0, pl[q]);
    }
}

/// Number the blocks of `rpo` by their position; other ids get `None`.
fn number_blocks(rpo: &Vec<BlockId>, n: usize) -> (pos: Vec<Option<u32>>)
    requires
        ids(rpo@).no_duplicates(),
        forall|i: int| 0 <= i < rpo@.len() ==> (#[trigger] rpo@[i]).0 < n,
        rpo@.len() <= u32::MAX,
    ensures
        pos@.len() == n,
        numbering(ids(rpo@), pos@),
{
    let mut pos: Vec<Option<u32>> = Vec::new();
    let mut v: usize = 0;
    while v < n
        invariant
            v <= n,
            pos@.len() == v,
            forall|u: int| 0 <= u < v ==> #[trigger] pos@[u] is None,
        decreases n - v,
    {
        pos.push(None);
        v = v + 1;
    }
    let ghost r = ids(rpo@);
    let mut i: usize = 0;
    while i < rpo.len()
        invariant
            r == ids(rpo@),
            r.no_duplicates(),
            forall|k: int| 0 <= k < rpo@.len() ==> (#[trigger] rpo@[k]).0 < n,
            rpo@.len() <= u32::MAX,
            i <= rpo@.len(),
            pos@.len() == n,
            forall|k: int| 0 <= k < i ==> #[trigger] pos@[r[k]] == Some(k as u32),
            forall|u: int| 0 <= u < n && (#[trigger] pos@[u]) is Some ==> pos_value(pos@[u]) < i && r[pos_value(pos@[u])] == u,
        decreases rpo@.len() - i,
    {
        let b = rpo[i].0 as usize;
        proof {
            assert(r[i as int] == b as int);
        }
        pos.set(b, Some(i as u32));
        proof {
            assert forall|k: int| 0 <= k < i + 1 implies #[trigger] pos@[r[k]] == Some(k as u32) by {
                if k < i {
                    assert(r[k] != r[i as int]);
                }
            }
        }
        i = i + 1;
    }
    proof {
        assert forall|k: int| 0 <= k < r.len() implies 0 <= #[trigger] r[k] < pos@.len() && pos@[r[k]] == Some(k as u32) by {
            assert(r[k] == rpo@[k].0 as int);
        }
    }
    pos
}

/// Position `i`'s parent is a common ancestor of all its numbered predecessors.
pub open spec fn parent_bound(t: Seq<u32>, edges: Seq<crate::cfg::CfgEdge>, rpo_pos: Seq<Option<u32>>, r: Seq<int>, i: int) -> bool {
    preds_common(t, edges, rpo_pos, r[i], t[i] as int)
}

/// Position `i`'s parent is the deepest common ancestor of its numbered predecessors.
pub open spec fn parent_is_join(t: Seq<u32>, edges: Seq<crate::cfg::CfgEdge>, rpo_pos: Seq<Option<u32>>, r: Seq<int>, i: int) -> bool {
    forall|d: int| #[trigger] anc(t, d, t[i] as int) <==> preds_common(t, edges, rpo_pos, r[i], d)
}

/// Two ancestors of the same position are ancestors of one another.
pub proof fn lemma_anc_comparable(t: Seq<u32>, a: int, b: int, x: int)
    requires
        anc(t, a, x),
        anc(t, b, x),
    ensures
        anc(t, a, b) || anc(t, b, a),
    decreases x,
{
    if a != x && b != x {
        lemma_anc_comparable(t, a, b, t[x] as int);
    }
}

/// Position of block `v` (`-1` when `v` is out of range or not numbered).
pub open spec fn posb(rpo_pos: Seq<Option<u32>>, v: int) -> int {
    if 0 <= v < rpo_pos.len() {
        pos_value(rpo_pos[v])
    } else {
        -1
    }
}

/// Block `y` lies on the tree path from position `q` up to, but excluding, position `top`.
pub open spec fn seg(t: Seq<u32>, rpo_pos: Seq<Option<u32>>, q: int, top: int, y: int) -> bool {
    &&& 0 <= posb(rpo_pos, y)
    &&& anc(t, posb(rpo_pos, y), q)
    &&& anc(t, top, posb(rpo_pos, y))
    &&& posb(rpo_pos, y) != top
}

/// Number of entries of `s` that carry a position.
pub open spec fn count_numbered(s: Seq<u32>, rpo_pos: Seq<Option<u32>>) -> nat
    decreases s.len(),
{
    if s.len() == 0 {
        0
    } else {
        count_numbered(s.drop_last(), rpo_pos) + (if posb(rpo_pos, s.last() as int) >= 0 { 1nat } else { 0nat })
    }
}

/// Block `b` (numbered, with at least two numbered predecessor entries) has `y` in its
/// frontier set: `y` lies on the tree path from some numbered predecessor of `b` up to,
/// but excluding, the parent of `b`.
pub open spec fn pos_frontier(t: Seq<u32>, edges: Seq<crate::cfg::CfgEdge>, rpo_pos: Seq<Option<u32>>, y: int, b: int) -> bool {
    &&& 0 <= posb(rpo_pos, b)
    &&& count_numbered(pred_of(edges, b as u32), rpo_pos) >= 2
    &&& exists|p: int|
        #[trigger] has_edge(edges, p, b) && 0 <= posb(rpo_pos, p) && seg(t, rpo_pos, posb(rpo_pos, p), t[posb(rpo_pos, b)] as int, y)
}

/// Stepping the runner from `runner` to its parent adds exactly `runner` to the path.
proof fn lemma_seg_step(t: Seq<u32>, rpo_pos: Seq<Option<u32>>, q: int, top: int, runner: int, y: int)
    requires
        is_tree(t),
        0 <= q < t.len(),
        anc(t, top, runner),
        anc(t, runner, q),
        runner != top,
        0 <= runner < t.len(),
    ensures
        0 < runner,
        t[runner] < runner,
        anc(t, top, t[runner] as int),
        anc(t, t[runner] as int, q),
        seg(t, rpo_pos, q, t[runner] as int, y) <==> (seg(t, rpo_pos, q, runner, y) || posb(rpo_pos, y) == runner),
{
    if runner == 0 {
        lemma_anc_le(t, top, runner);
    }
    assert(anc(t, top, t[runner] as int));
    assert(anc(t, t[runner] as int, t[runner] as int));
    assert(anc(t, t[runner] as int, runner));
    lemma_anc_trans(t, t[runner] as int, runner, q);
    let a = posb(rpo_pos, y);
    if seg(t, rpo_pos, q, t[runner] as int, y) {
        if a != runner {
            lemma_anc_comparable(t, a, runner, q);
            if anc(t, a, runner) {
                assert(anc(t, a, t[runner] as int));
                lemma_anc_le(t, a, t[runner] as int);
                lemma_anc_le(t, t[runner] as int, a);
            }
        }
    }
    if seg(t, rpo_pos, q, runner, y) {
        lemma_anc_trans(t, t[runner] as int, runner, a);
        lemma_anc_le(t, runner, a);
    }
    if a == runner && 0 <= a {
        assert(anc(t, a, q));
    }
}

/// Membership test on a list of blocks.
fn contains_block(v: &Vec<BlockId>, b: BlockId) -> (r: bool)
    ensures
        r == v@.contains(b),
{
    let mut i: usize = 0;
    while i < v.len()
        invariant
            i <= v@.len(),
            forall|k: int| 0 <= k < i ==> v@[k] != b,
        decreases v.len() - i,
    {
        if v[i] == b {
            return true;
        }
        i = i + 1;
    }
    false
}

/// Frontier entries contributed by the blocks at positions below `i`.
pub open spec fn fr_done(t: Seq<u32>, edges: Seq<crate::cfg::CfgEdge>, rpo_pos: Seq<Option<u32>>, i: int, y: int, c: BlockId) -> bool {
    posb(rpo_pos, c.0 as int) < i && pos_frontier(t, edges, rpo_pos, y, c.0 as int)
}

/// `y` lies on the tree path below `top` of one of the first `k` listed predecessors.
pub open spec fn fr_preds(t: Seq<u32>, rpo_pos: Seq<Option<u32>>, preds: Seq<BlockId>, top: int, k: int, y: int) -> bool {
    exists|q: int| 0 <= q < k && #[trigger] pred_numbered(preds, rpo_pos, q) && seg(t, rpo_pos, pred_pos(preds, rpo_pos, q), top, y)
}

proof fn lemma_anc_antisym(t: Seq<u32>, a: int, b: int)
    requires
        anc(t, a, b),
        anc(t, b, a),
    ensures
        a == b,
{
    lemma_anc_le(t, a, b);
    lemma_anc_le(t, b, a);
}

/// Count the listed predecessors that carry a position.
fn count_numbered_preds(preds: &[BlockId], rpo_pos: &Vec<Option<u32>>, pl: Ghost<Seq<u32>>) -> (cnt: usize)
    requires
        ids(preds@) == pl@.map_values(|x: u32| x as int),
        preds@.len() == pl@.len(),
    ensures
        cnt == count_numbered(pl@, rpo_pos@),
{
    let mut cnt: usize = 0;
    let mut k: usize = 0;
    while k < preds.len()
        invariant
            ids(preds@) == pl@.map_values(|x: u32| x as int),
            preds@.len() == pl@.len(),
            k <= preds@.len(),
            cnt <= k,
            cnt == count_numbered(pl@.take(k as int), rpo_pos@),
        decreases preds.len() - k,
    {
        proof {
            assert(ids(preds@)[k as int] == pl@.map_values(|x: u32| x as int)[k as int]);
            assert(pl@.take(k as int + 1).drop_last() =~= pl@.take(k as int));
        }
        let pi = preds[k].0 as usize;
        if pi < rpo_pos.len() {
            if rpo_pos[pi].is_some() {
                cnt = cnt + 1;
            }
        }
        k = k + 1;
    }
    proof {
        assert(pl@.take(k as int) =~= pl@);
    }
    cnt
}

/// Dominance frontiers over reverse-postorder positions: for each block with at least
/// two numbered predecessor entries, walk from each numbered predecessor up the tree to
/// the block's parent and add the block to the frontier of every block passed.
fn compute_dominance_frontiers(cfg: &ControlFlowGraph, t: &Vec<u32>, rpo: &Vec<BlockId>, rpo_pos: &Vec<Option<u32>>) -> (fr: Vec<Vec<BlockId>>)
    requires
        cfg.wf(),
        is_tree(t@),
        t@.len() == rpo@.len(),
        numbering(ids(rpo@), rpo_pos@),
        rpo@.len() <= u32::MAX,
        rpo_pos@.len() == cfg.id_bound(),
        forall|i: int| 0 < i < t@.len() ==> #[trigger] parent_bound(t@, cfg.edges@, rpo_pos@, ids(rpo@), i),
    ensures
        fr@.len() == cfg.id_bound(),
        forall|y: int, c: BlockId| 0 <= y < fr@.len() ==> (#[trigger] fr@[y]@.contains(c) <==> pos_frontier(t@, cfg.edges@, rpo_pos@, y, c.0 as int)),
        forall|y: int| 0 <= y < fr@.len() ==> (#[trigger] fr@[y]@).no_duplicates(),
{
    let n = rpo_pos.len();
    let m = rpo.len();
    let ghost r = ids(rpo@);
    let ghost edges = cfg.edges@;
    let mut fr: Vec<Vec<BlockId>> = Vec::new();
    let mut v: usize = 0;
    while v < n
        invariant
            v <= n,
            fr@.len() == v,
            forall|y: int| 0 <= y < v ==> (#[trigger] fr@[y]@) == Seq::<BlockId>::empty(),
        decreases n - v,
    {
        fr.push(Vec::new());
        v = v + 1;
    }
    let mut i: usize = 0;
    while i < m
        invariant
            cfg.wf(),
            edges == cfg.edges@,
            r == ids(rpo@),
            is_tree(t@),
            t@.len() == m,
            m == rpo@.len(),
            m <= u32::MAX,
            n == rpo_pos@.len(),
            numbering(r, rpo_pos@),
            rpo_pos@.len() == cfg.id_bound(),
            forall|k: int| 0 < k < m ==> #[trigger] parent_bound(t@, edges, rpo_pos@, r, k),
            i <= m,
            fr@.len() == n,
            forall|y: int, c: BlockId| 0 <= y < n ==> (#[trigger] fr@[y]@.contains(c) <==> fr_done(t@, edges, rpo_pos@, i as int, y, c)),
            forall|y: int| 0 <= y < n ==> (#[trigger] fr@[y]@).no_duplicates(),
        decreases m - i,
    {
        let b = rpo[i];
        let ghost top = t@[i as int] as int;
        proof {
            assert(r[i as int] == b.0 as int);
            assert(posb(rpo_pos@, b.0 as int) == i);
        }
        let preds = cfg.predecessors(b);
        let ghost pl = pred_of(cfg.edges@, b.0);
        proof {
            assert(ids(preds@).len() == pl.map_values(|x: u32| x as int).len());
            lemma_listed_preds(cfg, preds@, rpo_pos@, b, t@);
        }
        let cnt = count_numbered_preds(preds, rpo_pos, Ghost(pl));
        if cnt >= 2 {
            proof {
                assert forall|q: int| 0 <= q < preds@.len() && #[trigger] pred_numbered(preds@, rpo_pos@, q) implies anc(t@, top, pred_pos(preds@, rpo_pos@, q)) by {
                    let pq = pred_pos(preds@, rpo_pos@, q);
                    assert(pq < m);
                    if i == 0 {
                        lemma_anc_root(t@, pq);
                    } else {
                        assert(parent_bound(t@, edges, rpo_pos@, r, i as int));
                        assert(has_edge(cfg.edges@, preds@[q].0 as int, b.0 as int));
                    }
                }
            }
            let mut k: usize = 0;
            while k < preds.len()
                invariant
                    cfg.wf(),
                    edges == cfg.edges@,
                    r == ids(rpo@),
                    is_tree(t@),
                    t@.len() == m,
                    m == rpo@.len(),
                    m <= u32::MAX,
                    n == rpo_pos@.len(),
                    numbering(r, rpo_pos@),
                    i < m,
                    top == t@[i as int] as int,
                    b.0 as int == r[i as int],
                    posb(rpo_pos@, b.0 as int) == i,
                    forall|p: int| 0 <= p < preds@.len() ==> has_edge(cfg.edges@, (#[trigger] preds@[p]).0 as int, b.0 as int),
                    forall|q: int| 0 <= q < preds@.len() && #[trigger] pred_numbered(preds@, rpo_pos@, q) ==> anc(t@, top, pred_pos(preds@, rpo_pos@, q)),
                    k <= preds@.len(),
                    fr@.len() == n,
                    forall|y: int, c: BlockId| 0 <= y < n ==> (#[trigger] fr@[y]@.contains(c) <==> (fr_done(t@, edges, rpo_pos@, i as int, y, c)
                        || (c == b && fr_preds(t@, rpo_pos@, preds@, top, k as int, y)))),
                    forall|y: int| 0 <= y < n ==> (#[trigger] fr@[y]@).no_duplicates(),
                decreases preds.len() - k,
            {
                let pi = preds[k].0 as usize;
                if pi < n && rpo_pos[pi].is_some() {
                    let q = rpo_pos[pi].unwrap();
                    assert(pred_numbered(preds@, rpo_pos@, k as int));
                    assert(pred_pos(preds@, rpo_pos@, k as int) == q as int);
                    let mut runner: u32 = q;
                    proof {
                        assert forall|y: int| !seg(t@, rpo_pos@, q as int, runner as int, y) by {
                            if seg(t@, rpo_pos@, q as int, runner as int, y) {
                                lemma_anc_antisym(t@, posb(rpo_pos@, y), q as int);
                            }
                        }
                    }
                    while runner != t[i]
                        invariant
                            cfg.wf(),
                            edges == cfg.edges@,
                            r == ids(rpo@),
                            is_tree(t@),
                            t@.len() == m,
                            m == rpo@.len(),
                            m <= u32::MAX,
                            n == rpo_pos@.len(),
                            numbering(r, rpo_pos@),
                            i < m,
                            top == t@[i as int] as int,
                            q < m,
                            runner < m,
                            anc(t@, top, runner as int),
                            anc(t@, runner as int, q as int),
                            fr@.len() == n,
                            forall|y: int, c: BlockId| 0 <= y < n ==> (#[trigger] fr@[y]@.contains(c) <==> (fr_done(t@, edges, rpo_pos@, i as int, y, c)
                                || (c == b && (fr_preds(t@, rpo_pos@, preds@, top, k as int, y) || seg(t@, rpo_pos@, q as int, runner as int, y))))),
                            forall|y: int| 0 <= y < n ==> (#[trigger] fr@[y]@).no_duplicates(),
                        decreases runner,
                    {
                        let y0 = rpo[runner as usize].0 as usize;
                        proof {
                            assert(r[runner as int] == y0 as int);
                            assert(posb(rpo_pos@, y0 as int) == runner as int);
                            assert forall|y: int| #[trigger] seg(t@, rpo_pos@, q as int, t@[runner as int] as int, y) <==> (seg(t@, rpo_pos@, q as int, runner as int, y) || y == y0 as int) by {
                                lemma_seg_step(t@, rpo_pos@, q as int, top, runner as int, y);
                                if posb(rpo_pos@, y) == runner as int {
                                    assert(r[posb(rpo_pos@, y)] == y);
                                }
                            }
                            lemma_seg_step(t@, rpo_pos@, q as int, top, runner as int, y0 as int);
                        }
                        let present = contains_block(&fr[y0], b);
                        if !present {
                            let ghost old_fr = fr@;
                            fr[y0].push(b);
                            proof {
                                assert forall|y: int| 0 <= y < n implies (#[trigger] fr@[y]@).no_duplicates() by {
                                    if y == y0 {
                                        assert(fr@[y]@ == old_fr[y]@.push(b));
                                        crate::paths::lemma_push_nodup(old_fr[y]@, b);
                                    } else {
                                        assert(fr@[y] == old_fr[y]);
                                    }
                                }
                                assert forall|y: int, c: BlockId| 0 <= y < n implies (#[trigger] fr@[y]@.contains(c) <==> (old_fr[y]@.contains(c) || (y == y0 && c == b))) by {
                                    if y == y0 {
                                        assert(fr@[y]@ == old_fr[y]@.push(b));
                                        lemma_push_contains(old_fr[y]@, b, c);
                                    } else {
                                        assert(fr@[y] == old_fr[y]);
                                    }
                                }
                            }
                        }
                        runner = t[runner as usize];
                    }
                    proof {
                        assert forall|y: int| #[trigger] fr_preds(t@, rpo_pos@, preds@, top, k + 1, y) <==> (fr_preds(t@, rpo_pos@, preds@, top, k as int, y) || seg(t@, rpo_pos@, q as int, top, y)) by {
                            if fr_preds(t@, rpo_pos@, preds@, top, k + 1, y) {
                                let q2 = choose|q2: int| 0 <= q2 < k + 1 && #[trigger] pred_numbered(preds@, rpo_pos@, q2) && seg(t@, rpo_pos@, pred_pos(preds@, rpo_pos@, q2), top, y);
                                if q2 < k {
                                    assert(fr_preds(t@, rpo_pos@, preds@, top, k as int, y));
                                }
                            }
                            if seg(t@, rpo_pos@, q as int, top, y) {
                                assert(pred_numbered(preds@, rpo_pos@, k as int));
                            }
                            if fr_preds(t@, rpo_pos@, preds@, top, k as int, y) {
                                let q2 = choose|q2: int| 0 <= q2 < k && #[trigger] pred_numbered(preds@, rpo_pos@, q2) && seg(t@, rpo_pos@, pred_pos(preds@, rpo_pos@, q2), top, y);
                                assert(pred_numbered(preds@, rpo_pos@, q2));
                            }
                        }
                    }
                } else {
                    proof {
                        assert(!pred_numbered(preds@, rpo_pos@, k as int));
                        assert forall|y: int| #[trigger] fr_preds(t@, rpo_pos@, preds@, top, k + 1, y) <==> fr_preds(t@, rpo_pos@, preds@, top, k as int, y) by {
                            if fr_preds(t@, rpo_pos@, preds@, top, k + 1, y) {
                                let q2 = choose|q2: int| 0 <= q2 < k + 1 && #[trigger] pred_numbered(preds@, rpo_pos@, q2) && seg(t@, rpo_pos@, pred_pos(preds@, rpo_pos@, q2), top, y);
                                assert(q2 < k);
                            }
                            if fr_preds(t@, rpo_pos@, preds@, top, k as int, y) {
                                let q2 = choose|q2: int| 0 <= q2 < k && #[trigger] pred_numbered(preds@, rpo_pos@, q2) && seg(t@, rpo_pos@, pred_pos(preds@, rpo_pos@, q2), top, y);
                                assert(pred_numbered(preds@, rpo_pos@, q2));
                            }
                        }
                    }
                }
                k = k + 1;
            }
            proof {
                lemma_frontier_block_done(t@, edges, rpo_pos@, preds@, b, i as int, top);
            }
        } else {
            proof {
                assert forall|y: int| !pos_frontier(t@, edges, rpo_pos@, y, b.0 as int) by {}
            }
        }
        proof {
            assert forall|y: int, c: BlockId| 0 <= y < n implies (#[trigger] fr@[y]@.contains(c) <==> fr_done(t@, edges, rpo_pos@, i + 1, y, c)) by {
                if c.0 == b.0 {
                    assert(c == b);
                }
            }
        }
        i = i + 1;
    }
    proof {
        assert forall|y: int, c: BlockId| 0 <= y < fr@.len() implies (#[trigger] fr@[y]@.contains(c) <==> pos_frontier(t@, cfg.edges@, rpo_pos@, y, c.0 as int)) by {
            if pos_frontier(t@, cfg.edges@, rpo_pos@, y, c.0 as int) {
                let pc = posb(rpo_pos@, c.0 as int);
                assert(pc < m);
            }
        }
    }
    fr
}

/// Once every listed predecessor of `b` has been walked, the collected paths are exactly
/// the frontier entries of `b`.
proof fn lemma_frontier_block_done(
    t: Seq<u32>,
    edges: Seq<crate::cfg::CfgEdge>,
    rpo_pos: Seq<Option<u32>>,
    preds: Seq<BlockId>,
    b: BlockId,
    i: int,
    top: int,
)
    requires
        0 <= i < t.len(),
        top == t[i] as int,
        posb(rpo_pos, b.0 as int) == i,
        count_numbered(pred_of(edges, b.0), rpo_pos) >= 2,
        forall|q: int| 0 <= q < preds.len() ==> has_edge(edges, (#[trigger] preds[q]).0 as int, b.0 as int),
        forall|p: int| #[trigger] has_edge(edges, p, b.0 as int) ==> exists|q: int| 0 <= q < preds.len() && preds[q].0 as int == p,
    ensures
        forall|y: int| #[trigger] fr_preds(t, rpo_pos, preds, top, preds.len() as int, y) <==> pos_frontier(t, edges, rpo_pos, y, b.0 as int),
{
    assert forall|y: int| #[trigger] fr_preds(t, rpo_pos, preds, top, preds.len() as int, y) <==> pos_frontier(t, edges, rpo_pos, y, b.0 as int) by {
        if fr_preds(t, rpo_pos, preds, top, preds.len() as int, y) {
            let q = choose|q: int| 0 <= q < preds.len() && #[trigger] pred_numbered(preds, rpo_pos, q) && seg(t, rpo_pos, pred_pos(preds, rpo_pos, q), top, y);
            let p = preds[q].0 as int;
            assert(has_edge(edges, p, b.0 as int));
            assert(posb(rpo_pos, p) == pred_pos(preds, rpo_pos, q));
        }
        if pos_frontier(t, edges, rpo_pos, y, b.0 as int) {
            let p = choose|p: int| #[trigger] has_edge(edges, p, b.0 as int) && 0 <= posb(rpo_pos, p) && seg(t, rpo_pos, posb(rpo_pos, p), t[posb(rpo_pos, b.0 as int)] as int, y);
            let q = choose|q: int| 0 <= q < preds.len() && preds[q].0 as int == p;
            assert(pred_numbered(preds, rpo_pos, q));
        }
    }
}

/// `d` is the immediate dominator of `v`: it strictly dominates `v`, and every other strict
/// dominator of `v` dominates `d`.
pub open spec fn is_idom(cfg: ControlFlowGraph, d: int, v: int) -> bool {
    &&& path_dominates(cfg, d, v)
    &&& d != v
    &&& forall|x: int| #[trigger] path_dominates(cfg, x, v) && x != v ==> path_dominates(cfg, x, d)
}

/// Every listed block is reached by a walk from the entry block through blocks listed no later.
proof fn lemma_rpo_walk(cfg: ControlFlowGraph, marks: Seq<bool>, r: Seq<int>, rpo_pos: Seq<Option<u32>>, i: int) -> (w: Seq<int>)
    requires
        is_rpo_of(cfg, marks, r),
        numbering(r, rpo_pos),
        0 <= i < r.len(),
    ensures
        is_walk(cfg.rel(), w),
        w[0] == cfg.entry.0 as int,
        w.last() == r[i],
        forall|k: int| 0 <= k < w.len() ==> 0 <= #[trigger] posb(rpo_pos, w[k]) <= i,
    decreases i,
{
    if i == 0 {
        let w = seq![r[0]];
        assert(posb(rpo_pos, r[0]) == 0);
        assert(is_walk(cfg.rel(), w));
        w
    } else {
        assert(has_earlier_pred(cfg, r, i));
        let j = choose|j: int| 0 <= j < i && #[trigger] has_edge(cfg.edges@, r[j], r[i]);
        let w1 = lemma_rpo_walk(cfg, marks, r, rpo_pos, j);
        assert((cfg.rel())(w1.last(), r[i]));
        lemma_walk_push(cfg.rel(), w1, r[i]);
        let w = w1.push(r[i]);
        assert forall|k: int| 0 <= k < w.len() implies 0 <= #[trigger] posb(rpo_pos, w[k]) <= i by {
            if k < w1.len() {
                assert(w[k] == w1[k]);
                assert(0 <= posb(rpo_pos, w1[k]) <= j);
            } else {
                assert(posb(rpo_pos, r[i]) == i);
            }
        }
        w
    }
}

/// A block's dominators are listed no later than the block itself.
proof fn lemma_dom_listed_before(cfg: ControlFlowGraph, marks: Seq<bool>, r: Seq<int>, rpo_pos: Seq<Option<u32>>, d: int, i: int)
    requires
        is_rpo_of(cfg, marks, r),
        numbering(r, rpo_pos),
        0 <= i < r.len(),
        path_dominates(cfg, d, r[i]),
    ensures
        0 <= posb(rpo_pos, d) <= i,
{
    let w = lemma_rpo_walk(cfg, marks, r, rpo_pos, i);
    assert(w.contains(d));
    let k = choose|k: int| 0 <= k < w.len() && w[k] == d;
    assert(0 <= posb(rpo_pos, w[k]) <= i);
}

/// Number of set entries of a row.
fn count_set(row: &Vec<bool>) -> (c: usize)
    ensures
        c == count_true(row@),
{
    let mut c: usize = 0;
    let mut j: usize = 0;
    while j < row.len()
        invariant
            j <= row@.len(),
            c <= j,
            c == count_true(row@.take(j as int)),
        decreases row.len() - j,
    {
        proof {
            assert(row@.take(j as int + 1).drop_last() =~= row@.take(j as int));
            assert(row@.take(j as int + 1).last() == row@[j as int]);
        }
        if row[j] {
            c = c + 1;
        }
        j = j + 1;
    }
    proof {
        assert(row@.take(j as int) =~= row@);
    }
    c
}

/// Parent positions of the dominator tree: the block at each position other than the
/// first points at the position of its immediate dominator, the strict dominator with
/// the most dominators of its own.
fn idom_positions(cfg: &ControlFlowGraph, marks: Ghost<Seq<bool>>, rpo: &Vec<BlockId>, rpo_pos: &Vec<Option<u32>>, dom: &Vec<Vec<bool>>) -> (t: Vec<u32>)
    requires
        cfg.wf(),
        marks@.len() == cfg.id_bound(),
        forall|v: int| 0 <= v < cfg.id_bound() ==> (#[trigger] marks@[v] <==> reach(cfg.rel(), cfg.entry.0 as int, v)),
        is_rpo_of(*cfg, marks@, ids(rpo@)),
        numbering(ids(rpo@), rpo_pos@),
        rpo_pos@.len() == cfg.id_bound(),
        dom@.len() == cfg.id_bound(),
        forall|v: int| 0 <= v < cfg.id_bound() ==> (#[trigger] dom@[v])@.len() == cfg.id_bound(),
        forall|v: int, d: int| 0 <= v < cfg.id_bound() && 0 <= d < cfg.id_bound() ==> (#[trigger] dom@[v]@[d] <==> path_dominates(*cfg, d, v)),
    ensures
        t@.len() == rpo@.len(),
        is_tree(t@),
        forall|i: int| 0 < i < t@.len() ==> #[trigger] is_idom(*cfg, ids(rpo@)[t@[i] as int], ids(rpo@)[i]),
{
    let ghost r = ids(rpo@);
    let ghost e = cfg.entry.0 as int;
    let n = dom.len();
    let m = rpo.len();
    proof {
        assert forall|i: int| 0 <= i < r.len() implies 0 <= #[trigger] r[i] < n by {
            assert(r.contains(r[i]));
        }
        lemma_nodup_bounded_len(r, n as int);
    }
    let mut cnt: Vec<usize> = Vec::new();
    let mut v: usize = 0;
    while v < n
        invariant
            v <= n,
            n == dom@.len(),
            cnt@.len() == v,
            forall|u: int| 0 <= u < v ==> #[trigger] cnt@[u] == count_true(dom@[u]@),
        decreases n - v,
    {
        let c = count_set(&dom[v]);
        cnt.push(c);
        v = v + 1;
    }
    let mut t: Vec<u32> = vec![0u32; m];
    let mut i: usize = 1;
    while i < m
        invariant
            cfg.wf(),
            e == cfg.entry.0 as int,
            r == ids(rpo@),
            marks@.len() == n,
            forall|v: int| 0 <= v < n ==> (#[trigger] marks@[v] <==> reach(cfg.rel(), e, v)),
            is_rpo_of(*cfg, marks@, r),
            numbering(r, rpo_pos@),
            rpo_pos@.len() == n,
            n == cfg.id_bound(),
            n == dom@.len(),
            forall|v: int| 0 <= v < n ==> (#[trigger] dom@[v])@.len() == n,
            forall|v: int, d: int| 0 <= v < n && 0 <= d < n ==> (#[trigger] dom@[v]@[d] <==> path_dominates(*cfg, d, v)),
            cnt@.len() == n,
            forall|u: int| 0 <= u < n ==> #[trigger] cnt@[u] == count_true(dom@[u]@),
            m == rpo@.len(),
            m == r.len(),
            m <= n,
            1 <= i <= m,
            t@.len() == m,
            t@[0] == 0,
            forall|k: int| 0 < k < i ==> (#[trigger] t@[k] as int) < k,
            forall|k: int| 0 < k < i ==> #[trigger] is_idom(*cfg, r[t@[k] as int], r[k]),
        decreases m - i,
    {
        let b = rpo[i].0 as usize;
        proof {
            assert(r[i as int] == b as int);
            assert(r.contains(b as int));
        }
        let mut best: usize = n;
        let mut d: usize = 0;
        while d < n
            invariant
                d <= n,
                b < n,
                n == dom@.len(),
                cnt@.len() == n,
                dom@[b as int]@.len() == n,
                best == n || (best < n && best != b && dom@[b as int]@[best as int]
                    && forall|x: int| 0 <= x < d && x != b && #[trigger] dom@[b as int]@[x] ==> cnt@[x] <= cnt@[best as int]),
                best == n ==> forall|x: int| 0 <= x < d && x != b ==> !#[trigger] dom@[b as int]@[x],
            decreases n - d,
        {
            if d != b && dom[b][d] && (best == n || cnt[d] > cnt[best]) {
                best = d;
            }
            d = d + 1;
        }
        proof {
            let bi = b as int;
            assert(marks@[bi]);
            assert(reach(cfg.rel(), e, bi));
            assert(r[0] == e);
            assert(bi != e) by {
                if bi == e {
                    assert(r[0] == r[i as int]);
                }
            }
            cfg.lemma_wf_bounds();
            lemma_entry_dom(*cfg, bi);
            assert(dom@[bi]@[e]);
            assert(best < n);
            let bb = best as int;
            assert(path_dominates(*cfg, bb, bi));
            assert forall|x: int| #[trigger] path_dominates(*cfg, x, bi) && x != bi implies path_dominates(*cfg, x, bb) by {
                cfg.lemma_reach_in_bound(e, x);
                assert(dom@[bi]@[x]);
                lemma_dom_total(*cfg, x, bb, bi);
                if !path_dominates(*cfg, x, bb) {
                    assert(path_dominates(*cfg, bb, x));
                    assert(x != bb) by {
                        if x == bb {
                            lemma_dom_refl(*cfg, x);
                        }
                    }
                    assert forall|y: int| 0 <= y < dom@[bb]@.len() && #[trigger] dom@[bb]@[y] implies dom@[x]@[y] by {
                        lemma_dom_trans(*cfg, y, bb, x);
                    }
                    lemma_dom_refl(*cfg, x);
                    assert(dom@[x]@[x] && !dom@[bb]@[x]);
                    lemma_count_true_sub(dom@[x]@, dom@[bb]@);
                    assert(cnt@[x] <= cnt@[bb]);
                }
            }
            assert(is_idom(*cfg, bb, bi));
            lemma_dom_listed_before(*cfg, marks@, r, rpo_pos@, bb, i as int);
            assert(r[posb(rpo_pos@, bb)] == bb);
        }
        let p = match rpo_pos[best] {
            Some(k) => k,
            None => 0,
        };
        t.set(i, p);
        proof {
            assert(p as int == posb(rpo_pos@, best as int));
        }
        i = i + 1;
    }
    t
}

/// In the tree of immediate dominators, position `a` is an ancestor of position `i`
/// exactly when the block listed at `a` dominates the block listed at `i`.
proof fn lemma_idom_anc(cfg: ControlFlowGraph, marks: Seq<bool>, r: Seq<int>, rpo_pos: Seq<Option<u32>>, t: Seq<u32>, a: int, i: int)
    requires
        cfg.wf(),
        is_rpo_of(cfg, marks, r),
        numbering(r, rpo_pos),
        marks.len() == cfg.id_bound(),
        forall|v: int| 0 <= v < cfg.id_bound() ==> (#[trigger] marks[v] <==> reach(cfg.rel(), cfg.entry.0 as int, v)),
        t.len() == r.len(),
        is_tree(t),
        forall|k: int| 0 < k < t.len() ==> #[trigger] is_idom(cfg, r[t[k] as int], r[k]),
        0 <= a < r.len(),
        0 <= i < r.len(),
    ensures
        anc(t, a, i) <==> path_dominates(cfg, r[a], r[i]),
    decreases i,
{
    let e = cfg.entry.0 as int;
    assert(r.contains(r[i]));
    assert(r.contains(r[a]));
    assert(marks[r[i]] && marks[r[a]]);
    if i == 0 {
        assert(r[0] == e);
        if a == 0 {
            lemma_dom_refl(cfg, e);
        }
        if path_dominates(cfg, r[a], e) {
            lemma_entry_dominated_by_itself_only(cfg, r[a]);
            assert(r[a] == r[0]);
        }
    } else {
        let ti = t[i] as int;
        assert(ti < i);
        lemma_idom_anc(cfg, marks, r, rpo_pos, t, a, ti);
        assert(is_idom(cfg, r[ti], r[i]));
        if a == i {
            lemma_dom_refl(cfg, r[i]);
        }
        if anc(t, a, ti) {
            lemma_dom_trans(cfg, r[a], r[ti], r[i]);
        }
        if path_dominates(cfg, r[a], r[i]) && a != i {
            assert(r[a] != r[i]);
        }
    }
}

/// The tree of immediate dominators meets the bounds and the join property that the frontier
/// computation reads.
proof fn lemma_idom_join(cfg: ControlFlowGraph, marks: Seq<bool>, r: Seq<int>, rpo_pos: Seq<Option<u32>>, t: Seq<u32>, i: int)
    requires
        cfg.wf(),
        is_rpo_of(cfg, marks, r),
        numbering(r, rpo_pos),
        marks.len() == cfg.id_bound(),
        rpo_pos.len() == cfg.id_bound(),
        forall|v: int| 0 <= v < cfg.id_bound() ==> (#[trigger] marks[v] <==> reach(cfg.rel(), cfg.entry.0 as int, v)),
        t.len() == r.len(),
        is_tree(t),
        forall|k: int| 0 < k < t.len() ==> #[trigger] is_idom(cfg, r[t[k] as int], r[k]),
        0 < i < r.len(),
    ensures
        parent_bound(t, cfg.edges@, rpo_pos, r, i),
        parent_is_join(t, cfg.edges@, rpo_pos, r, i),
{
    let e = cfg.entry.0 as int;
    let b = r[i];
    let ti = t[i] as int;
    assert(is_idom(cfg, r[ti], b));
    assert(r.contains(b));
    assert(reach(cfg.rel(), e, b));
    assert forall|p: int| #[trigger] has_edge(cfg.edges@, p, b) && 0 <= p < rpo_pos.len() && rpo_pos[p] is Some
        implies anc(t, ti, pos_value(rpo_pos[p])) by {
        let pp = pos_value(rpo_pos[p]);
        assert(r[pp] == p);
        assert(r.contains(p));
        assert(reach(cfg.rel(), e, p));
        lemma_dom_pred(cfg, r[ti], b, p);
        lemma_idom_anc(cfg, marks, r, rpo_pos, t, ti, pp);
    }
    assert(parent_bound(t, cfg.edges@, rpo_pos, r, i));
    assert forall|d: int| #[trigger] anc(t, d, ti) <==> preds_common(t, cfg.edges@, rpo_pos, b, d) by {
        if anc(t, d, ti) {
            assert forall|p: int| #[trigger] has_edge(cfg.edges@, p, b) && 0 <= p < rpo_pos.len() && rpo_pos[p] is Some
                implies anc(t, d, pos_value(rpo_pos[p])) by {
                lemma_anc_trans(t, d, ti, pos_value(rpo_pos[p]));
            }
        }
        if preds_common(t, cfg.edges@, rpo_pos, b, d) {
            assert(has_earlier_pred(cfg, r, i));
            let j = choose|j: int| 0 <= j < i && #[trigger] has_edge(cfg.edges@, r[j], r[i]);
            assert(rpo_pos[r[j]] == Some(j as u32));
            assert(anc(t, d, j));
            lemma_anc_le(t, d, j);
            lemma_anc_nonneg(t, d, j);
            let db = r[d];
            assert(r.contains(db));
            assert(reach(cfg.rel(), e, db));
            assert forall|w: Seq<int>| #[trigger] is_walk(cfg.rel(), w) && w[0] == e && w.last() == b implies w.contains(db) by {
                assert(r[0] == e);
                assert(w.len() >= 2) by {
                    if w.len() == 1 {
                        assert(r[0] == r[i]);
                    }
                }
                let k = w.len() - 2;
                assert((cfg.rel())(w[k], w[k + 1]));
                let p = w[k];
                assert(has_edge(cfg.edges@, p, b));
                lemma_walk_prefix(cfg.rel(), w, k + 1);
                let w2 = w.take(k + 1);
                assert(w2[0] == e && w2.last() == p);
                assert(reach(cfg.rel(), e, p));
                cfg.lemma_reach_in_bound(e, p);
                assert(marks[p]);
                assert(r.contains(p));
                let pp = choose|pp: int| 0 <= pp < r.len() && r[pp] == p;
                assert(rpo_pos[p] == Some(pp as u32));
                assert(anc(t, d, pp));
                lemma_idom_anc(cfg, marks, r, rpo_pos, t, d, pp);
                assert(w2.contains(db));
                let q = choose|q: int| 0 <= q < w2.len() && w2[q] == db;
                assert(w[q] == db);
            }
            assert(path_dominates(cfg, db, b));
            assert(db != b) by {
                if db == b {
                    assert(r[d] == r[i]);
                    assert(d == i);
                }
            }
            lemma_idom_anc(cfg, marks, r, rpo_pos, t, d, ti);
        }
    }
}

proof fn lemma_anc_nonneg(t: Seq<u32>, a: int, x: int)
    requires
        anc(t, a, x),
        0 <= x,
    ensures
        0 <= a,
    decreases x,
{
    if a != x {
        lemma_anc_nonneg(t, a, t[x] as int);
    }
}

/// Reverse-postorder position recorded for block `v` (`-1` when it has none).
pub open spec fn order_of(order: Seq<Option<usize>>, v: int) -> int {
    if 0 <= v < order.len() {
        match order[v] {
            Some(k) => k as int,
            None => -1,
        }
    } else {
        -1
    }
}

/// `d` is `x` or lies on the chain of immediate dominators above `x`; every link of the
/// chain moves to a block with a smaller recorded position.
pub open spec fn tree_anc(idom: Seq<Option<BlockId>>, order: Seq<Option<usize>>, d: int, x: int) -> bool
    decreases order_of(order, x) + 1,
{
    d == x || (0 <= x < idom.len() && idom[x] is Some && 0 <= order_of(order, parent_id(idom[x]))
        < order_of(order, x) && tree_anc(idom, order, d, parent_id(idom[x])))
}

/// Number of entries of `s` that are marked in `marks`.
pub open spec fn count_marked(s: Seq<u32>, marks: Seq<bool>) -> nat
    decreases s.len(),
{
    if s.len() == 0 {
        0
    } else {
        count_marked(s.drop_last(), marks) + (if s.last() < marks.len() && marks[s.last() as int] { 1nat } else { 0nat })
    }
}

/// Why a dominator tree was refused.
#[derive(Debug, Clone, Copy, PartialEq, Eq, Structural)]
pub enum DominanceError {
    /// The immediate-dominator links contain a cycle.
    CyclicTree,
}

/// Dominator tree with immediate dominators and dominance frontiers, indexed by block id.
pub struct DominatorTree {
    /// Immediate dominator of each reachable block (the entry block is its own).
    pub idom: Vec<Option<BlockId>>,
    /// Dominance frontier of each block.
    pub frontiers: Vec<Vec<BlockId>>,
    /// Blocks reachable from the entry block.
    pub reachable: Vec<bool>,
    /// Reverse-postorder position of each reachable block (entry is 0).
    pub block_order: Vec<Option<usize>>,
    /// Row `v` marks the blocks that dominate block `v`.
    pub dom: Vec<Vec<bool>>,
}

impl DominatorTree {
    /// Recorded reverse-postorder position of block `v` (`-1` when absent).
    pub open spec fn ord(&self, v: int) -> int {
        order_of(self.block_order@, v)
    }

    /// Immediate dominator of block `v` (`-1` when absent).
    pub open spec fn parent(&self, v: int) -> int {
        parent_id(self.idom@[v])
    }

    /// `d` is `x` or an ancestor of `x` in the tree.
    pub open spec fn is_anc(&self, d: int, x: int) -> bool {
        tree_anc(self.idom@, self.block_order@, d, x)
    }

    /// Block `v` is a reachable block.
    pub open spec fn is_reachable(&self, v: int) -> bool {
        0 <= v < self.reachable@.len() && self.reachable@[v]
    }

    /// Shape of a tree: one entry per block; exactly the reachable blocks have a
    /// parent and a position; a parent other than the block itself is reachable and
    /// has a smaller position.
    pub open spec fn wf(&self) -> bool {
        let n = self.reachable@.len();
        &&& self.idom@.len() == n
        &&& self.block_order@.len() == n
        &&& self.frontiers@.len() == n
        &&& forall|v: int| 0 <= v < n ==> (#[trigger] self.idom@[v] is Some <==> self.reachable@[v])
        &&& forall|v: int| 0 <= v < n ==> (#[trigger] self.block_order@[v] is Some <==> self.reachable@[v])
        &&& forall|v: int| #[trigger] self.is_reachable(v) ==> self.ord(v) < n
        &&& forall|v: int| #[trigger] self.is_reachable(v) && self.parent(v) != v ==> self.is_reachable(self.parent(v)) && self.ord(self.parent(v)) < self.ord(v)
    }

    /// `x` is in the frontier of `b`: `b` is reachable with at least two reachable
    /// predecessor entries, and `x` lies on the tree path from a reachable predecessor
    /// of `b` up to, but excluding, the immediate dominator of `b`.
    pub open spec fn in_frontier(&self, cfg: ControlFlowGraph, x: int, b: int) -> bool {
        &&& self.is_reachable(b)
        &&& count_marked(pred_of(cfg.edges@, b as u32), self.reachable@) >= 2
        &&& exists|p: int|
            #[trigger] has_edge(cfg.edges@, p, b) && self.is_reachable(p) && self.is_anc(x, p) && self.is_anc(self.parent(b), x)
                && x != self.parent(b)
    }

    /// The immediate dominator of reachable `v` is the deepest block that is an ancestor
    /// of all reachable predecessors of `v`.
    pub open spec fn idom_is_join(&self, cfg: ControlFlowGraph, v: int) -> bool {
        forall|d: int| #[trigger] self.is_reachable(d) ==> (self.is_anc(d, self.parent(v)) <==> (forall|p: int|
            #[trigger] has_edge(cfg.edges@, p, v) && self.is_reachable(p) ==> self.is_anc(d, p)))
    }

    /// The tree that `build` computes for `cfg`.
    pub open spec fn built_from(&self, cfg: ControlFlowGraph) -> bool {
        let n = cfg.id_bound() as int;
        let e = cfg.entry.0 as int;
        &&& self.wf()
        &&& self.reachable@.len() == n
        &&& forall|v: int| 0 <= v < n ==> (#[trigger] self.reachable@[v] <==> reach(cfg.rel(), e, v))
        &&& self.idom@[e] == Some(cfg.entry)
        &&& self.ord(e) == 0
        &&& forall|v: int| #[trigger] self.is_reachable(v) && v != e ==> self.parent(v) != v
        &&& forall|u: int, v: int| self.is_reachable(u) && self.is_reachable(v) && #[trigger] self.ord(u) == #[trigger] self.ord(v) ==> u == v
        &&& forall|v: int| #[trigger] self.is_reachable(v) && v != e ==> self.idom_is_join(cfg, v)
        &&& forall|v: int| #[trigger] self.is_reachable(v) && v != e ==> is_idom(cfg, self.parent(v), v)
        &&& forall|d: int, v: int|
            #![trigger self.is_anc(d, v)]
            #![trigger path_dominates(cfg, d, v)]
            self.is_reachable(d) && self.is_reachable(v) ==> (self.is_anc(d, v) <==> path_dominates(cfg, d, v))
        &&& forall|x: int, c: BlockId| 0 <= x < n ==> (#[trigger] self.frontiers@[x]@.contains(c) <==> self.in_frontier(cfg, x, c.0 as int))
        &&& forall|x: int| 0 <= x < n ==> (#[trigger] self.frontiers@[x]@).no_duplicates()
        &&& self.dom@.len() == n
        &&& forall|v: int| 0 <= v < n ==> (#[trigger] self.dom@[v])@.len() == n
        &&& forall|v: int, d: int| 0 <= v < n && 0 <= d < n ==> (#[trigger] self.dom@[v]@[d] <==> path_dominates(cfg, d, v))
    }
}

/// Block-level ancestry follows position-level ancestry.
proof fn lemma_tree_anc_pos(
    t: Seq<u32>,
    rpo: Seq<BlockId>,
    rpo_pos: Seq<Option<u32>>,
    idom: Seq<Option<BlockId>>,
    order: Seq<Option<usize>>,
    d: int,
    x: int,
)
    requires
        is_tree(t),
        t.len() == rpo.len(),
        rpo.len() <= u32::MAX,
        numbering(ids(rpo), rpo_pos),
        idom.len() == rpo_pos.len(),
        order.len() == rpo_pos.len(),
        forall|v: int| 0 <= v < rpo_pos.len() ==> #[trigger] idom[v] == (if 0 <= posb(rpo_pos, v) { Some(rpo[t[posb(rpo_pos, v)] as int]) } else { None::<BlockId> }),
        forall|v: int| 0 <= v < rpo_pos.len() ==> #[trigger] order[v] == (if 0 <= posb(rpo_pos, v) { Some(posb(rpo_pos, v) as usize) } else { None::<usize> }),
        0 <= posb(rpo_pos, x),
    ensures
        tree_anc(idom, order, d, x) <==> (0 <= posb(rpo_pos, d) && anc(t, posb(rpo_pos, d), posb(rpo_pos, x))),
    decreases posb(rpo_pos, x),
{
    let r = ids(rpo);
    let xp = posb(rpo_pos, x);
    assert(order_of(order, x) == xp);
    assert(r[xp] == x);
    let pb = rpo[t[xp] as int].0 as int;
    assert(r[t[xp] as int] == pb);
    assert(posb(rpo_pos, pb) == t[xp] as int);
    assert(parent_id(idom[x]) == pb);
    assert(order_of(order, pb) == t[xp] as int);
    if 0 <= posb(rpo_pos, d) {
        assert(r[posb(rpo_pos, d)] == d);
    }
    if xp > 0 {
        lemma_tree_anc_pos(t, rpo, rpo_pos, idom, order, d, pb);
    }
}

/// Counting numbered entries is counting reachable entries.
proof fn lemma_count_numbered_marked(s: Seq<u32>, rpo_pos: Seq<Option<u32>>, marks: Seq<bool>)
    requires
        marks.len() == rpo_pos.len(),
        forall|v: int| 0 <= v < marks.len() ==> (#[trigger] marks[v] <==> 0 <= posb(rpo_pos, v)),
    ensures
        count_numbered(s, rpo_pos) == count_marked(s, marks),
    decreases s.len(),
{
    if s.len() > 0 {
        lemma_count_numbered_marked(s.drop_last(), rpo_pos, marks);
    }
}

/// The pieces computed by `build` make up the tree it promises.
proof fn lemma_build_correct(
    cfg: ControlFlowGraph,
    tree: DominatorTree,
    t: Seq<u32>,
    rpo: Seq<BlockId>,
    rpo_pos: Seq<Option<u32>>,
)
    requires
        cfg.wf(),
        tree.reachable@.len() == cfg.id_bound(),
        forall|v: int| 0 <= v < cfg.id_bound() ==> (#[trigger] tree.reachable@[v] <==> reach(cfg.rel(), cfg.entry.0 as int, v)),
        is_rpo_of(cfg, tree.reachable@, ids(rpo)),
        rpo.len() <= u32::MAX,
        numbering(ids(rpo), rpo_pos),
        rpo_pos.len() == cfg.id_bound(),
        t.len() == rpo.len(),
        is_tree(t),
        forall|i: int| 0 < i < t.len() ==> #[trigger] parent_is_join(t, cfg.edges@, rpo_pos, ids(rpo), i),
        forall|i: int| 0 < i < t.len() ==> #[trigger] is_idom(cfg, ids(rpo)[t[i] as int], ids(rpo)[i]),
        tree.idom@.len() == rpo_pos.len(),
        tree.block_order@.len() == rpo_pos.len(),
        forall|v: int| 0 <= v < rpo_pos.len() ==> #[trigger] tree.idom@[v] == (if 0 <= posb(rpo_pos, v) { Some(rpo[t[posb(rpo_pos, v)] as int]) } else { None::<BlockId> }),
        forall|v: int| 0 <= v < rpo_pos.len() ==> #[trigger] tree.block_order@[v] == (if 0 <= posb(rpo_pos, v) { Some(posb(rpo_pos, v) as usize) } else { None::<usize> }),
        tree.frontiers@.len() == cfg.id_bound(),
        forall|y: int, c: BlockId| 0 <= y < tree.frontiers@.len() ==> (#[trigger] tree.frontiers@[y]@.contains(c) <==> pos_frontier(t, cfg.edges@, rpo_pos, y, c.0 as int)),
        forall|y: int| 0 <= y < tree.frontiers@.len() ==> (#[trigger] tree.frontiers@[y]@).no_duplicates(),
        tree.dom@.len() == cfg.id_bound(),
        forall|v: int| 0 <= v < cfg.id_bound() ==> (#[trigger] tree.dom@[v])@.len() == cfg.id_bound(),
        forall|v: int, d: int| 0 <= v < cfg.id_bound() && 0 <= d < cfg.id_bound() ==> (#[trigger] tree.dom@[v]@[d] <==> path_dominates(cfg, d, v)),
    ensures
        tree.built_from(cfg),
{
    let r = ids(rpo);
    let n = cfg.id_bound() as int;
    let e = cfg.entry.0 as int;
    let idom = tree.idom@;
    let order = tree.block_order@;
    assert forall|v: int| 0 <= v < n implies (#[trigger] tree.reachable@[v] <==> 0 <= posb(rpo_pos, v)) by {
        if tree.reachable@[v] {
            assert(r.contains(v));
            let k = choose|k: int| 0 <= k < r.len() && r[k] == v;
            assert(rpo_pos[r[k]] == Some(k as u32));
        }
        if 0 <= posb(rpo_pos, v) {
            assert(r[posb(rpo_pos, v)] == v);
            assert(r.contains(v));
        }
    }
    assert forall|v: int| 0 <= v < n && 0 <= posb(rpo_pos, v) implies #[trigger] tree.ord(v) == posb(rpo_pos, v) && posb(rpo_pos, v) < rpo.len()
        && r[posb(rpo_pos, v)] == v by {}
    assert forall|v: int| #[trigger] tree.is_reachable(v) implies tree.ord(v) < n by {
        lemma_nodup_bounded_len_ids(r, n);
    }
    assert forall|v: int| #[trigger] tree.is_reachable(v) && tree.parent(v) != v implies tree.is_reachable(tree.parent(v)) && tree.ord(tree.parent(v)) < tree.ord(v) by {
        let x = posb(rpo_pos, v);
        let pb = rpo[t[x] as int].0 as int;
        assert(r[t[x] as int] == pb);
        assert(posb(rpo_pos, pb) == t[x] as int);
        if x == 0 {
            assert(r[0] == v);
        }
    }
    assert(tree.wf());
    assert(r[0] == e);
    assert(posb(rpo_pos, e) == 0);
    assert(rpo[0] == cfg.entry);
    assert forall|v: int| #[trigger] tree.is_reachable(v) && v != e implies tree.parent(v) != v by {
        let x = posb(rpo_pos, v);
        assert(r[t[x] as int] == rpo[t[x] as int].0 as int);
        if x == 0 {
            assert(r[0] == v);
        }
    }
    assert forall|u: int, v: int| tree.is_reachable(u) && tree.is_reachable(v) && #[trigger] tree.ord(u) == #[trigger] tree.ord(v) implies u == v by {
        assert(r[posb(rpo_pos, u)] == u);
        assert(r[posb(rpo_pos, v)] == v);
    }
    assert forall|v: int| #[trigger] tree.is_reachable(v) && v != e implies tree.idom_is_join(cfg, v) by {
        let x = posb(rpo_pos, v);
        assert(r[x] == v);
        if x == 0 {
            assert(r[0] == e);
        }
        assert(parent_is_join(t, cfg.edges@, rpo_pos, r, x));
        let pb = rpo[t[x] as int].0 as int;
        assert(r[t[x] as int] == pb);
        assert(posb(rpo_pos, pb) == t[x] as int);
        assert(tree.parent(v) == pb);
        assert forall|d: int| #[trigger] tree.is_reachable(d) implies (tree.is_anc(d, tree.parent(v)) <==> (forall|p: int|
            #[trigger] has_edge(cfg.edges@, p, v) && tree.is_reachable(p) ==> tree.is_anc(d, p))) by {
            let dp = posb(rpo_pos, d);
            lemma_tree_anc_pos(t, rpo, rpo_pos, idom, order, d, pb);
            assert(anc(t, dp, t[x] as int) <==> preds_common(t, cfg.edges@, rpo_pos, v, dp));
            if preds_common(t, cfg.edges@, rpo_pos, v, dp) {
                assert forall|p: int| #[trigger] has_edge(cfg.edges@, p, v) && tree.is_reachable(p) implies tree.is_anc(d, p) by {
                    lemma_tree_anc_pos(t, rpo, rpo_pos, idom, order, d, p);
                }
            }
            if forall|p: int| #[trigger] has_edge(cfg.edges@, p, v) && tree.is_reachable(p) ==> tree.is_anc(d, p) {
                assert forall|p: int| #[trigger] has_edge(cfg.edges@, p, v) && 0 <= p < rpo_pos.len() && rpo_pos[p] is Some implies anc(t, dp, pos_value(rpo_pos[p])) by {
                    assert(tree.is_reachable(p));
                    lemma_tree_anc_pos(t, rpo, rpo_pos, idom, order, d, p);
                }
            }
        }
    }
    assert forall|v: int| #[trigger] tree.is_reachable(v) && v != e implies is_idom(cfg, tree.parent(v), v) by {
        let x = posb(rpo_pos, v);
        assert(r[x] == v);
        if x == 0 {
            assert(r[0] == e);
        }
        let pb = rpo[t[x] as int].0 as int;
        assert(r[t[x] as int] == pb);
        assert(tree.parent(v) == pb);
        assert(is_idom(cfg, r[t[x] as int], r[x]));
    }
    assert forall|d: int, v: int| tree.is_reachable(d) && tree.is_reachable(v) implies (tree.is_anc(d, v) <==> path_dominates(cfg, d, v)) by {
        lemma_tree_anc_pos(t, rpo, rpo_pos, idom, order, d, v);
        let dp = posb(rpo_pos, d);
        let vp = posb(rpo_pos, v);
        assert(r[dp] == d && r[vp] == v);
        lemma_idom_anc(cfg, tree.reachable@, r, rpo_pos, t, dp, vp);
    }
    assert forall|x: int, c: BlockId| 0 <= x < n implies (#[trigger] tree.frontiers@[x]@.contains(c) <==> tree.in_frontier(cfg, x, c.0 as int)) by {
        let b = c.0 as int;
        lemma_count_numbered_marked(pred_of(cfg.edges@, c.0), rpo_pos, tree.reachable@);
        if pos_frontier(t, cfg.edges@, rpo_pos, x, b) {
            let p = choose|p: int| #[trigger] has_edge(cfg.edges@, p, b) && 0 <= posb(rpo_pos, p) && seg(t, rpo_pos, posb(rpo_pos, p), t[posb(rpo_pos, b)] as int, x);
            let bp = posb(rpo_pos, b);
            let pb = rpo[t[bp] as int].0 as int;
            assert(r[t[bp] as int] == pb);
            assert(posb(rpo_pos, pb) == t[bp] as int);
            cfg.lemma_wf_bounds();
            lemma_tree_anc_pos(t, rpo, rpo_pos, idom, order, x, p);
            lemma_tree_anc_pos(t, rpo, rpo_pos, idom, order, pb, x);
            assert(tree.is_reachable(p));
        }
        if tree.in_frontier(cfg, x, b) {
            let p = choose|p: int| #[trigger] has_edge(cfg.edges@, p, b) && tree.is_reachable(p) && tree.is_anc(x, p) && tree.is_anc(tree.parent(b), x) && x != tree.parent(b);
            let bp = posb(rpo_pos, b);
            let pb = rpo[t[bp] as int].0 as int;
            assert(r[t[bp] as int] == pb);
            assert(posb(rpo_pos, pb) == t[bp] as int);
            lemma_tree_anc_pos(t, rpo, rpo_pos, idom, order, x, p);
            lemma_tree_anc_pos(t, rpo, rpo_pos, idom, order, pb, x);
            assert(r[posb(rpo_pos, x)] == x);
            assert(seg(t, rpo_pos, posb(rpo_pos, p), t[posb(rpo_pos, b)] as int, x));
        }
    }
}

proof fn lemma_nodup_bounded_len_ids(r: Seq<int>, n: int)
    requires
        r.no_duplicates(),
        0 <= n,
        forall|v: int| r.contains(v) ==> 0 <= v < n,
    ensures
        r.len() <= n,
{
    assert forall|i: int| 0 <= i < r.len() implies 0 <= #[trigger] r[i] < n by {
        assert(r.contains(r[i]));
    }
    lemma_nodup_bounded_len(r, n);
}

impl DominatorTree {
    /// Build the dominator tree: number the reachable blocks in reverse postorder, compute
    /// the dominator set of every block, take as immediate dominator of each block its
    /// strict dominator that every other strict dominator dominates, then compute the
    /// dominance frontiers.
    pub fn build(cfg: &ControlFlowGraph) -> (tree: DominatorTree)
        requires
            cfg.wf(),
        ensures
            tree.built_from(*cfg),
    {
        proof {
            cfg.lemma_wf_bounds();
        }
        let (_, reachable) = cfg.reachable_marks();
        let rpo = compute_rpo(cfg, &reachable);
        let n = reachable.len();
        let ghost r = ids(rpo@);
        proof {
            lemma_nodup_bounded_len_ids(r, n as int);
            assert forall|i: int| 0 <= i < rpo@.len() implies (#[trigger] rpo@[i]).0 < n by {
                assert(r[i] == rpo@[i].0 as int);
                assert(r.contains(r[i]));
            }
        }
        let rpo_pos = number_blocks(&rpo, n);
        let dom = dominator_sets(cfg, &reachable);
        let t = idom_positions(cfg, Ghost(reachable@), &rpo, &rpo_pos, &dom);
        proof {
            assert forall|i: int| 0 < i < t@.len() implies #[trigger] parent_bound(t@, cfg.edges@, rpo_pos@, r, i)
                && parent_is_join(t@, cfg.edges@, rpo_pos@, r, i) by {
                lemma_idom_join(*cfg, reachable@, r, rpo_pos@, t@, i);
            }
        }
        let m = rpo.len();
        let mut idom: Vec<Option<BlockId>> = Vec::new();
        let mut order: Vec<Option<usize>> = Vec::new();
        let mut v: usize = 0;
        while v < n
            invariant
                v <= n,
                idom@.len() == v,
                order@.len() == v,
                forall|u: int| 0 <= u < v ==> #[trigger] idom@[u] is None,
                forall|u: int| 0 <= u < v ==> #[trigger] order@[u] is None,
            decreases n - v,
        {
            idom.push(None);
            order.push(None);
            v = v + 1;
        }
        let mut i: usize = 0;
        while i < m
            invariant
                m == rpo@.len(),
                m <= u32::MAX,
                t@.len() == m,
                is_tree(t@),
                r == ids(rpo@),
                numbering(r, rpo_pos@),
                rpo_pos@.len() == n,
                i <= m,
                idom@.len() == n,
                order@.len() == n,
                forall|u: int| 0 <= u < n ==> #[trigger] idom@[u] == (if 0 <= posb(rpo_pos@, u) < i { Some(rpo@[t@[posb(rpo_pos@, u)] as int]) } else { None::<BlockId> }),
                forall|u: int| 0 <= u < n ==> #[trigger] order@[u] == (if 0 <= posb(rpo_pos@, u) < i { Some(posb(rpo_pos@, u) as usize) } else { None::<usize> }),
            decreases m - i,
        {
            let b = rpo[i].0 as usize;
            proof {
                assert(r[i as int] == b as int);
                assert(posb(rpo_pos@, b as int) == i as int);
            }
            let p = rpo[t[i] as usize];
            idom.set(b, Some(p));
            order.set(b, Some(i));
            i = i + 1;
        }
        proof {
            assert forall|u: int| 0 <= u < n && 0 <= posb(rpo_pos@, u) implies posb(rpo_pos@, u) < m by {}
        }
        let frontiers = compute_dominance_frontiers(cfg, &t, &rpo, &rpo_pos);
        let tree = DominatorTree { idom, frontiers, reachable, block_order: order, dom };
        proof {
            assert forall|i: int| 0 < i < t@.len() implies #[trigger] parent_is_join(t@, cfg.edges@, rpo_pos@, r, i) by {
                lemma_idom_join(*cfg, reachable@, r, rpo_pos@, t@, i);
            }
            lemma_build_correct(*cfg, tree, t@, rpo@, rpo_pos@);
        }
        tree
    }
}

impl DominatorTree {
    /// Build the tree and check that its immediate-dominator links have no cycle.
    pub fn build_verified(cfg: &ControlFlowGraph) -> (r: Result<DominatorTree, DominanceError>)
        requires
            cfg.wf(),
        ensures
            r is Ok,
            r matches Ok(tree) ==> tree.built_from(*cfg),
    {
        let tree = Self::build(cfg);
        proof {
            lemma_tree_acyclic(&tree);
        }
        if !verify_idom_acyclic(&tree.idom) {
            return Err(DominanceError::CyclicTree);
        }
        Ok(tree)
    }

    /// Returns true if `dominator` dominates `node`: both are reachable and every walk from
    /// the entry block to `node` passes through `dominator` (for a tree built from a graph).
    pub fn dominates(&self, dominator: BlockId, node: BlockId) -> (r: bool)
        ensures
            r == ((node.0 as int) < self.dom@.len() && (dominator.0 as int) < self.dom@[node.0 as int]@.len()
                && self.dom@[node.0 as int]@[dominator.0 as int]),
    {
        let x = node.0 as usize;
        let d = dominator.0 as usize;
        if x >= self.dom.len() || d >= self.dom[x].len() {
            return false;
        }
        self.dom[x][d]
    }

    /// Dominance frontier of `block` (empty for an unknown block).
    pub fn frontier(&self, block: BlockId) -> (r: Vec<BlockId>)
        ensures
            r@ == (if (block.0 as int) < self.frontiers@.len() { self.frontiers@[block.0 as int]@ } else { Seq::<BlockId>::empty() }),
    {
        let mut r: Vec<BlockId> = Vec::new();
        let b = block.0 as usize;
        if b < self.frontiers.len() {
            let f = &self.frontiers[b];
            let mut i: usize = 0;
            while i < f.len()
                invariant
                    i <= f@.len(),
                    r@ == f@.take(i as int),
                decreases f.len() - i,
            {
                r.push(f[i]);
                proof {
                    assert(f@.take(i as int + 1) =~= f@.take(i as int).push(f@[i as int]));
                }
                i = i + 1;
            }
            proof {
                assert(f@.take(i as int) =~= f@);
            }
        }
        r
    }
}

/// The immediate-dominator links of a well-formed tree have no cycle.
pub proof fn lemma_tree_acyclic(tree: &DominatorTree)
    requires
        tree.wf(),
    ensures
        forall|v: int| !#[trigger] on_cycle(idom_rel(tree.idom@), v),
{
    let rel = idom_rel(tree.idom@);
    let rank = |v: int| tree.ord(v);
    assert forall|v: int| !#[trigger] on_cycle(rel, v) by {
        if on_cycle(rel, v) {
            let p = choose|p: Seq<int>| #[trigger] is_walk(rel, p) && p.len() >= 2 && p[0] == v && p.last() == v;
            assert forall|i: int| 0 <= i < p.len() - 1 implies rank(#[trigger] p[i]) > rank(p[i + 1]) by {
                assert(rel(p[i], p[i + 1]));
                assert(tree.is_reachable(p[i]));
            }
            lemma_rank_decreases_along_walk(rel, rank, p, p.len() - 1);
        }
    }
}

/// For a tree built from a graph, `dominates` answers exactly path dominance: `d` and `v`
/// are reachable and every walk from the entry block to `v` passes through `d`.
pub proof fn lemma_dominates_by_paths(tree: &DominatorTree, cfg: ControlFlowGraph, d: int, v: int)
    requires
        tree.built_from(cfg),
        0 <= d < cfg.id_bound(),
        0 <= v < cfg.id_bound(),
    ensures
        (v < tree.dom@.len() && d < tree.dom@[v]@.len() && tree.dom@[v]@[d]) == path_dominates(cfg, d, v),
{
}

/// The entry block dominates every reachable block.
pub proof fn lemma_entry_dominates_reachable(tree: &DominatorTree, cfg: ControlFlowGraph, v: int)
    requires
        tree.built_from(cfg),
        tree.is_reachable(v),
    ensures
        tree.is_anc(cfg.entry.0 as int, v),
    decreases tree.ord(v),
{
    let e = cfg.entry.0 as int;
    if v != e {
        let p = tree.parent(v);
        assert(tree.ord(p) < tree.ord(v));
        assert(tree.block_order@[p] is Some);
        lemma_entry_dominates_reachable(tree, cfg, p);
    }
}

} // verus!
