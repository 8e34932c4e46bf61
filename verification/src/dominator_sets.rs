//! Dominance by paths: the blocks that lie on every walk from the entry block, computed as the
//! greatest solution of the dominator equations.

use vstd::prelude::*;
use crate::cfg::{BlockId, ControlFlowGraph, has_edge, ids, pred_of, lemma_pred_of_contains};
use crate::paths::{is_walk, reach, lemma_reach_refl, lemma_walk_prefix, lemma_walk_push, lemma_walk_suffix, lemma_walk_join};

verus! {

/// `d` lies on every walk from the entry block to `v`.
pub open spec fn on_every_walk(cfg: ControlFlowGraph, d: int, v: int) -> bool {
    forall|w: Seq<int>| #[trigger] is_walk(cfg.rel(), w) && w[0] == cfg.entry.0 as int && w.last() == v ==> w.contains(d)
}

/// `d` dominates `v`: both are reachable from the entry block, and every walk from the
/// entry block to `v` passes through `d`.
pub open spec fn path_dominates(cfg: ControlFlowGraph, d: int, v: int) -> bool {
    &&& reach(cfg.rel(), cfg.entry.0 as int, d)
    &&& reach(cfg.rel(), cfg.entry.0 as int, v)
    &&& on_every_walk(cfg, d, v)
}

/// A reachable block dominates itself.
pub proof fn lemma_dom_refl(cfg: ControlFlowGraph, a: int)
    requires
        reach(cfg.rel(), cfg.entry.0 as int, a),
    ensures
        path_dominates(cfg, a, a),
{
    assert forall|w: Seq<int>| #[trigger] is_walk(cfg.rel(), w) && w[0] == cfg.entry.0 as int && w.last() == a implies w.contains(a) by {
        assert(w[w.len() - 1] == a);
    }
}

/// The entry block dominates every reachable block.
pub proof fn lemma_entry_dom(cfg: ControlFlowGraph, v: int)
    requires
        reach(cfg.rel(), cfg.entry.0 as int, v),
    ensures
        path_dominates(cfg, cfg.entry.0 as int, v),
{
    lemma_reach_refl(cfg.rel(), cfg.entry.0 as int);
    assert forall|w: Seq<int>| #[trigger] is_walk(cfg.rel(), w) && w[0] == cfg.entry.0 as int && w.last() == v implies w.contains(cfg.entry.0 as int) by {
        assert(w[0] == cfg.entry.0 as int);
    }
}

/// Dominance is transitive.
pub proof fn lemma_dom_trans(cfg: ControlFlowGraph, a: int, b: int, c: int)
    requires
        path_dominates(cfg, a, b),
        path_dominates(cfg, b, c),
    ensures
        path_dominates(cfg, a, c),
{
    let e = cfg.entry.0 as int;
    assert forall|w: Seq<int>| #[trigger] is_walk(cfg.rel(), w) && w[0] == e && w.last() == c implies w.contains(a) by {
        assert(w.contains(b));
        let k = choose|k: int| 0 <= k < w.len() && w[k] == b;
        lemma_walk_prefix(cfg.rel(), w, k + 1);
        let w2 = w.take(k + 1);
        assert(w2[0] == e && w2.last() == b);
        assert(w2.contains(a));
        let j = choose|j: int| 0 <= j < w2.len() && w2[j] == a;
        assert(w[j] == a);
    }
}

proof fn lemma_dom_antisym_walk(cfg: ControlFlowGraph, a: int, b: int, w: Seq<int>)
    requires
        path_dominates(cfg, a, b),
        path_dominates(cfg, b, a),
        is_walk(cfg.rel(), w),
        w[0] == cfg.entry.0 as int,
        w.last() == a,
    ensures
        a == b,
    decreases w.len(),
{
    if a == b {
        return;
    }
    let e = cfg.entry.0 as int;
    assert(w.contains(b));
    let k = choose|k: int| 0 <= k < w.len() && w[k] == b;
    lemma_walk_prefix(cfg.rel(), w, k + 1);
    let w2 = w.take(k + 1);
    assert(w2[0] == e && w2.last() == b);
    assert(w2.contains(a));
    let j = choose|j: int| 0 <= j < w2.len() && w2[j] == a;
    assert(w[j] == a);
    lemma_walk_prefix(cfg.rel(), w, j + 1);
    let w3 = w.take(j + 1);
    assert(w3[0] == e && w3.last() == a);
    lemma_dom_antisym_walk(cfg, a, b, w3);
}

/// Two blocks that dominate each other are the same block.
pub proof fn lemma_dom_antisym(cfg: ControlFlowGraph, a: int, b: int)
    requires
        path_dominates(cfg, a, b),
        path_dominates(cfg, b, a),
    ensures
        a == b,
{
    let w = choose|w: Seq<int>| #[trigger] is_walk(cfg.rel(), w) && w[0] == cfg.entry.0 as int && w.last() == a;
    lemma_dom_antisym_walk(cfg, a, b, w);
}

proof fn lemma_last_of_two(w: Seq<int>, a: int, b: int) -> (i: int)
    requires
        w.contains(a),
    ensures
        0 <= i < w.len(),
        w[i] == a || w[i] == b,
        forall|j: int| i < j < w.len() ==> w[j] != a && w[j] != b,
    decreases w.len(),
{
    if w.last() == a || w.last() == b {
        (w.len() - 1) as int
    } else {
        let w2 = w.drop_last();
        let k = choose|k: int| 0 <= k < w.len() && w[k] == a;
        assert(w2[k] == a);
        let i = lemma_last_of_two(w2, a, b);
        assert forall|j: int| i < j < w.len() implies w[j] != a && w[j] != b by {
            if j < w.len() - 1 {
                assert(w[j] == w2[j]);
            }
        }
        i
    }
}

/// The dominators of a block are ordered by dominance.
pub proof fn lemma_dom_total(cfg: ControlFlowGraph, a: int, b: int, v: int)
    requires
        path_dominates(cfg, a, v),
        path_dominates(cfg, b, v),
    ensures
        path_dominates(cfg, a, b) || path_dominates(cfg, b, a),
{
    let e = cfg.entry.0 as int;
    let rel = cfg.rel();
    if a == b {
        lemma_dom_refl(cfg, a);
    } else if !path_dominates(cfg, a, b) && !path_dominates(cfg, b, a) {
        let w1 = choose|w1: Seq<int>| is_walk(rel, w1) && w1[0] == e && w1.last() == b && !w1.contains(a);
        let w2 = choose|w2: Seq<int>| is_walk(rel, w2) && w2[0] == e && w2.last() == a && !w2.contains(b);
        let w = choose|w: Seq<int>| #[trigger] is_walk(rel, w) && w[0] == e && w.last() == v;
        assert(w.contains(a));
        let i = lemma_last_of_two(w, a, b);
        lemma_walk_suffix(rel, w, i);
        let s = w.subrange(i, w.len() as int);
        assert(s[0] == w[i]);
        assert(s.last() == v);
        assert forall|x: int| s.drop_first().contains(x) implies x != a && x != b by {
            let k = choose|k: int| 0 <= k < s.drop_first().len() && s.drop_first()[k] == x;
            assert(s.drop_first()[k] == w[i + 1 + k]);
        }
        if w[i] == a {
            lemma_walk_join(rel, w2, s);
            let r = w2 + s.drop_first();
            assert(!r.contains(b)) by {
                if r.contains(b) {
                    let k = choose|k: int| 0 <= k < r.len() && r[k] == b;
                    if k < w2.len() {
                        assert(w2[k] == b);
                    } else {
                        assert(s.drop_first()[k - w2.len()] == b);
                        assert(s.drop_first().contains(b));
                    }
                }
            }
            assert(is_walk(rel, r) && r[0] == e && r.last() == v);
        } else {
            lemma_walk_join(rel, w1, s);
            let r = w1 + s.drop_first();
            assert(!r.contains(a)) by {
                if r.contains(a) {
                    let k = choose|k: int| 0 <= k < r.len() && r[k] == a;
                    if k < w1.len() {
                        assert(w1[k] == a);
                    } else {
                        assert(s.drop_first()[k - w1.len()] == a);
                        assert(s.drop_first().contains(a));
                    }
                }
            }
            assert(is_walk(rel, r) && r[0] == e && r.last() == v);
        }
    }
}

/// Number of `true` entries.
pub open spec fn count_true(s: Seq<bool>) -> nat
    decreases s.len(),
{
    if s.len() == 0 {
        0
    } else {
        count_true(s.drop_last()) + if s.last() { 1nat } else { 0nat }
    }
}

/// Number of `true` entries over all rows.
pub open spec fn rows_true(rows: Seq<Vec<bool>>) -> nat
    decreases rows.len(),
{
    if rows.len() == 0 {
        0
    } else {
        rows_true(rows.drop_last()) + count_true(rows.last()@)
    }
}

pub proof fn lemma_count_true_sub(a: Seq<bool>, b: Seq<bool>)
    requires
        a.len() == b.len(),
        forall|i: int| 0 <= i < a.len() && #[trigger] b[i] ==> a[i],
    ensures
        count_true(b) <= count_true(a),
        (exists|i: int| 0 <= i < a.len() && #[trigger] a[i] && !b[i]) ==> count_true(b) < count_true(a),
    decreases a.len(),
{
    if a.len() > 0 {
        let a2 = a.drop_last();
        let b2 = b.drop_last();
        assert forall|i: int| 0 <= i < a2.len() && #[trigger] b2[i] implies a2[i] by {
            assert(b[i] == b2[i] && a[i] == a2[i]);
        }
        lemma_count_true_sub(a2, b2);
        if exists|i: int| 0 <= i < a.len() && #[trigger] a[i] && !b[i] {
            let i = choose|i: int| 0 <= i < a.len() && #[trigger] a[i] && !b[i];
            if i < a.len() - 1 {
                assert(a2[i] && !b2[i]);
            }
        }
    }
}

proof fn lemma_rows_true_update(rows: Seq<Vec<bool>>, v: int, r: Vec<bool>)
    requires
        0 <= v < rows.len(),
    ensures
        rows_true(rows.update(v, r)) + count_true(rows[v]@) == rows_true(rows) + count_true(r@),
    decreases rows.len(),
{
    let u = rows.update(v, r);
    if v < rows.len() - 1 {
        assert(u.drop_last() =~= rows.drop_last().update(v, r));
        lemma_rows_true_update(rows.drop_last(), v, r);
    } else {
        assert(u.drop_last() =~= rows.drop_last());
    }
}

/// Row `v` after one step of the dominator equations: an entry stays only when it is `v`
/// itself, or a reachable block set in the row of every reachable predecessor of `v`.
pub open spec fn kept(cfg: ControlFlowGraph, s: Seq<Vec<bool>>, marks: Seq<bool>, v: int, d: int) -> bool {
    s[v]@[d] && (d == v || (marks[d] && forall|p: int|
        0 <= p < marks.len() && #[trigger] has_edge(cfg.edges@, p, v) && marks[p] ==> s[p]@[d]))
}

/// Every row of a reachable block other than the entry is a solution of its equation.
pub open spec fn solved(cfg: ControlFlowGraph, s: Seq<Vec<bool>>, marks: Seq<bool>, upto: int) -> bool {
    forall|v: int, d: int| 0 <= v < upto && v != cfg.entry.0 && marks[v] && 0 <= d < marks.len() && #[trigger] s[v]@[d]
        ==> kept(cfg, s, marks, v, d)
}

/// The rows hold every dominance and only entries between reachable blocks.
pub open spec fn covers(cfg: ControlFlowGraph, s: Seq<Vec<bool>>, marks: Seq<bool>) -> bool {
    let n = marks.len();
    &&& s.len() == n
    &&& forall|v: int| 0 <= v < n ==> (#[trigger] s[v])@.len() == n
    &&& forall|v: int, d: int| 0 <= v < n && 0 <= d < n && #[trigger] s[v]@[d] ==> marks[v] && marks[d]
    &&& forall|v: int, d: int| 0 <= v < n && 0 <= d < n && path_dominates(cfg, d, v) ==> #[trigger] s[v]@[d]
    &&& forall|d: int| 0 <= d < n ==> (#[trigger] s[cfg.entry.0 as int]@[d] <==> d == cfg.entry.0)
}

pub proof fn lemma_dom_pred(cfg: ControlFlowGraph, d: int, v: int, p: int)
    requires
        path_dominates(cfg, d, v),
        d != v,
        has_edge(cfg.edges@, p, v),
        reach(cfg.rel(), cfg.entry.0 as int, p),
    ensures
        path_dominates(cfg, d, p),
{
    let rel = cfg.rel();
    assert forall|w: Seq<int>| #[trigger] is_walk(rel, w) && w[0] == cfg.entry.0 as int && w.last() == p implies w.contains(d) by {
        assert(rel(w.last(), v));
        lemma_walk_push(rel, w, v);
        let w2 = w.push(v);
        assert(w2[0] == cfg.entry.0 as int);
        assert(w2.contains(d));
        let k = choose|k: int| 0 <= k < w2.len() && w2[k] == d;
        assert(k < w.len());
        assert(w[k] == d);
    }
}

pub proof fn lemma_entry_dominated_by_itself_only(cfg: ControlFlowGraph, d: int)
    requires
        path_dominates(cfg, d, cfg.entry.0 as int),
    ensures
        d == cfg.entry.0,
{
    let w = seq![cfg.entry.0 as int];
    assert(is_walk(cfg.rel(), w));
    assert(w.contains(d));
}

/// A solved, covering set of rows holds only dominances.
proof fn lemma_solution_sound(cfg: ControlFlowGraph, s: Seq<Vec<bool>>, marks: Seq<bool>, d: int, w: Seq<int>)
    requires
        covers(cfg, s, marks),
        solved(cfg, s, marks, marks.len() as int),
        forall|v: int| 0 <= v < marks.len() ==> (#[trigger] marks[v] <==> reach(cfg.rel(), cfg.entry.0 as int, v)),
        marks.len() == cfg.id_bound(),
        cfg.wf(),
        is_walk(cfg.rel(), w),
        w[0] == cfg.entry.0 as int,
        0 <= d < marks.len(),
        0 <= w.last() < marks.len(),
        s[w.last()]@[d],
    ensures
        w.contains(d),
    decreases w.len(),
{
    let v = w.last();
    let e = cfg.entry.0 as int;
    if d == v {
        assert(w[w.len() - 1] == d);
    } else if v == e {
        assert(s[e]@[d]);
    } else {
        assert(w.len() >= 2);
        let p = w[w.len() - 2];
        let i = w.len() - 2;
        assert(cfg.rel()(w[i], w[i + 1]));
        assert(has_edge(cfg.edges@, p, v));
        let k = choose|k: int| 0 <= k < cfg.edges@.len() && #[trigger] cfg.edges@[k].from.0 == p && cfg.edges@[k].to.0 == v;
        assert(0 <= p < marks.len());
        lemma_walk_prefix(cfg.rel(), w, w.len() - 1);
        let w2 = w.take(w.len() - 1);
        assert(w2.last() == p);
        assert(reach(cfg.rel(), e, p)) by {
            assert(is_walk(cfg.rel(), w2) && w2[0] == e);
        }
        assert(marks[p]);
        assert(marks[v]);
        assert(kept(cfg, s, marks, v, d));
        assert(s[p]@[d]);
        lemma_solution_sound(cfg, s, marks, d, w2);
        let j = choose|j: int| 0 <= j < w2.len() && w2[j] == d;
        assert(w[j] == d);
    }
}

/// Dominator sets: row `v` marks exactly the blocks that dominate `v`.
pub fn dominator_sets(cfg: &ControlFlowGraph, marks: &Vec<bool>) -> (s: Vec<Vec<bool>>)
    requires
        cfg.wf(),
        marks@.len() == cfg.id_bound(),
        forall|v: int| 0 <= v < cfg.id_bound() ==> (#[trigger] marks@[v] <==> reach(cfg.rel(), cfg.entry.0 as int, v)),
    ensures
        s@.len() == cfg.id_bound(),
        forall|v: int| 0 <= v < cfg.id_bound() ==> (#[trigger] s@[v])@.len() == cfg.id_bound(),
        forall|v: int, d: int| 0 <= v < cfg.id_bound() && 0 <= d < cfg.id_bound() ==> (#[trigger] s@[v]@[d] <==> path_dominates(*cfg, d, v)),
{
    proof {
        cfg.lemma_wf_bounds();
    }
    let n = marks.len();
    let e = cfg.entry.0 as usize;
    let ghost m = marks@;
    let mut s: Vec<Vec<bool>> = Vec::new();
    let mut v: usize = 0;
    while v < n
        invariant
            v <= n,
            n == m.len(),
            m == marks@,
            e < n,
            e == cfg.entry.0,
            s@.len() == v,
            forall|u: int| 0 <= u < v ==> (#[trigger] s@[u])@.len() == n,
            forall|u: int, d: int| 0 <= u < v && 0 <= d < n ==> (#[trigger] s@[u]@[d] <==> (if u == e { d == e } else { m[u] && m[d] })),
        decreases n - v,
    {
        let mut row: Vec<bool> = Vec::new();
        let mut d: usize = 0;
        while d < n
            invariant
                d <= n,
                n == m.len(),
                m == marks@,
                v < n,
                row@.len() == d,
                forall|k: int| 0 <= k < d ==> (#[trigger] row@[k] <==> (if v == e { k == e } else { m[v as int] && m[k] })),
            decreases n - d,
        {
            if v == e {
                row.push(d == e);
            } else {
                row.push(marks[v] && marks[d]);
            }
            d = d + 1;
        }
        s.push(row);
        v = v + 1;
    }
    proof {
        lemma_reach_refl(cfg.rel(), e as int);
        assert(m[e as int]);
        assert forall|u: int, d: int| 0 <= u < n && 0 <= d < n && path_dominates(*cfg, d, u) implies #[trigger] s@[u]@[d] by {
            if u == e {
                lemma_entry_dominated_by_itself_only(*cfg, d);
            }
        }
    }
    let mut changed = true;
    while changed
        invariant
            n == m.len(),
            m == marks@,
            n == cfg.id_bound(),
            cfg.wf(),
            e < n,
            e == cfg.entry.0,
            forall|u: int| 0 <= u < n ==> (#[trigger] m[u] <==> reach(cfg.rel(), cfg.entry.0 as int, u)),
            covers(*cfg, s@, m),
            !changed ==> solved(*cfg, s@, m, n as int),
        decreases rows_true(s@) + if changed { 1int } else { 0int },
    {
        changed = false;
        let ghost start = s@;
        let mut v: usize = 0;
        while v < n
            invariant
                n == m.len(),
                m == marks@,
                n == cfg.id_bound(),
                cfg.wf(),
                e < n,
                e == cfg.entry.0,
                forall|u: int| 0 <= u < n ==> (#[trigger] m[u] <==> reach(cfg.rel(), cfg.entry.0 as int, u)),
                v <= n,
                covers(*cfg, s@, m),
                rows_true(s@) <= rows_true(start),
                changed ==> rows_true(s@) < rows_true(start),
                !changed ==> s@ == start && solved(*cfg, s@, m, v as int),
            decreases n - v,
        {
            if v != e && marks[v] {
                let preds = cfg.predecessors(BlockId(v as u32));
                let ghost pv = pred_of(cfg.edges@, v as u32);
                proof {
                    let pm = pv.map_values(|x: u32| x as int);
                    assert(ids(preds@) == pm);
                    assert(ids(preds@).len() == pv.len());
                    assert forall|p: int| 0 <= p < n && #[trigger] has_edge(cfg.edges@, p, v as int) implies ids(preds@).contains(p) by {
                        lemma_pred_of_contains(cfg.edges@, v as u32, p as u32);
                        let k = choose|k: int| 0 <= k < pv.len() && pv[k] == p as u32;
                        assert(pm[k] == p);
                    }
                    assert forall|k: int| 0 <= k < preds@.len() implies 0 <= #[trigger] ids(preds@)[k] < n && has_edge(cfg.edges@, ids(preds@)[k], v as int) by {
                        assert(pm[k] == pv[k] as int);
                        assert(pv.contains(pv[k]));
                        lemma_pred_of_contains(cfg.edges@, v as u32, pv[k]);
                    }
                }
                let mut row: Vec<bool> = Vec::new();
                let mut any = false;
                let mut d: usize = 0;
                while d < n
                    invariant
                        n == m.len(),
                        m == marks@,
                        n == cfg.id_bound(),
                        v < n,
                        s@.len() == n,
                        forall|u: int| 0 <= u < n ==> (#[trigger] s@[u])@.len() == n,
                        forall|p: int| 0 <= p < n && #[trigger] has_edge(cfg.edges@, p, v as int) ==> ids(preds@).contains(p),
                        forall|k: int| 0 <= k < preds@.len() ==> 0 <= #[trigger] ids(preds@)[k] < n && has_edge(cfg.edges@, ids(preds@)[k], v as int),
                        d <= n,
                        row@.len() == d,
                        forall|k: int| 0 <= k < d ==> (#[trigger] row@[k] == kept(*cfg, s@, m, v as int, k)),
                        any <==> exists|k: int| 0 <= k < d && #[trigger] s@[v as int]@[k] && !row@[k],
                    decreases n - d,
                {
                    let mut keep = s[v][d];
                    if keep && d != v {
                        if !marks[d] {
                            keep = false;
                        } else {
                            let mut q: usize = 0;
                            while q < preds.len()
                                invariant
                                    n == m.len(),
                                    m == marks@,
                                    s@.len() == n,
                                    forall|u: int| 0 <= u < n ==> (#[trigger] s@[u])@.len() == n,
                                    forall|k: int| 0 <= k < preds@.len() ==> 0 <= #[trigger] ids(preds@)[k] < n && has_edge(cfg.edges@, ids(preds@)[k], v as int),
                                    forall|p: int| 0 <= p < n && #[trigger] has_edge(cfg.edges@, p, v as int) ==> ids(preds@).contains(p),
                                    v < n,
                                    d < n,
                                    q <= preds@.len(),
                                    keep <==> forall|k: int| 0 <= k < q && m[ids(preds@)[k]] ==> #[trigger] s@[ids(preds@)[k]]@[d as int],
                                decreases preds.len() - q,
                            {
                                let p = preds[q].0 as usize;
                                assert(ids(preds@)[q as int] == p as int);
                                if marks[p] && !s[p][d] {
                                    keep = false;
                                }
                                q = q + 1;
                            }
                            proof {
                                if keep {
                                    assert forall|p: int| 0 <= p < m.len() && #[trigger] has_edge(cfg.edges@, p, v as int) && m[p] implies s@[p]@[d as int] by {
                                        let k = choose|k: int| 0 <= k < ids(preds@).len() && ids(preds@)[k] == p;
                                    }
                                } else {
                                    let k = choose|k: int| 0 <= k < preds@.len() && m[ids(preds@)[k]] && !#[trigger] s@[ids(preds@)[k]]@[d as int];
                                    let p = ids(preds@)[k];
                                    assert(has_edge(cfg.edges@, p, v as int));
                                }
                            }
                        }
                    }
                    let old_bit = s[v][d];
                    if old_bit && !keep {
                        any = true;
                    }
                    row.push(keep);
                    proof {
                        assert(row@[d as int] == kept(*cfg, s@, m, v as int, d as int));
                        if any {
                            if old_bit && !keep {
                                assert(s@[v as int]@[d as int] && !row@[d as int]);
                            }
                        }
                    }
                    d = d + 1;
                }
                if any {
                    let ghost before = s@;
                    proof {
                        lemma_count_true_sub(before[v as int]@, row@);
                        lemma_rows_true_update(before, v as int, row);
                        assert forall|u: int, k: int| 0 <= u < n && 0 <= k < n && path_dominates(*cfg, k, u) implies #[trigger] before.update(v as int, row)[u]@[k] by {
                            if u == v as int {
                                assert(before[u]@[k]);
                                if k != u {
                                    assert forall|p: int| 0 <= p < m.len() && #[trigger] has_edge(cfg.edges@, p, v as int) && m[p] implies before[p]@[k] by {
                                        lemma_dom_pred(*cfg, k, u, p);
                                    }
                                    assert(m[k]);
                                }
                                assert(kept(*cfg, before, m, u, k));
                            }
                        }
                    }
                    s.set(v, row);
                    changed = true;
                } else {
                    proof {
                        assert forall|k: int| 0 <= k < n && #[trigger] s@[v as int]@[k] implies kept(*cfg, s@, m, v as int, k) by {
                            assert(row@[k] == kept(*cfg, s@, m, v as int, k));
                        }
                    }
                }
            }
            v = v + 1;
        }
    }
    proof {
        assert forall|u: int, d: int| 0 <= u < n && 0 <= d < n implies (#[trigger] s@[u]@[d] <==> path_dominates(*cfg, d, u)) by {
            if s@[u]@[d] {
                assert(m[u] && m[d]);
                assert forall|w: Seq<int>| #[trigger] is_walk(cfg.rel(), w) && w[0] == cfg.entry.0 as int && w.last() == u implies w.contains(d) by {
                    lemma_solution_sound(*cfg, s@, m, d, w);
                }
            }
        }
    }
    s
}

} // verus!
