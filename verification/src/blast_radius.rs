//! Depth-limited blast radius: the callers of a symbol, and every function that reaches it
//! through at most a given number of call steps, each with its least number of steps.

use vstd::prelude::*;
use crate::paths::{is_walk, lemma_push_contains, lemma_walk_prefix, lemma_walk_push};

verus! {

/// One call step backwards from `x`: `u` is a listed caller of `x`, is a function, and is not
/// the start symbol.
pub open spec fn caller_step(callers: Seq<Vec<u32>>, is_fn: Seq<bool>, start: int, x: int, u: int) -> bool {
    &&& 0 <= x < callers.len()
    &&& callers[x]@.contains(u as u32)
    &&& 0 <= u < is_fn.len()
    &&& is_fn[u]
    &&& u != start
}

/// The caller-step relation.
pub open spec fn step_rel(callers: Seq<Vec<u32>>, is_fn: Seq<bool>, start: int) -> spec_fn(int, int) -> bool {
    |x: int, u: int| caller_step(callers, is_fn, start, x, u)
}

/// `v` is `start` or reaches it in at most `k` caller steps.
pub open spec fn within(callers: Seq<Vec<u32>>, is_fn: Seq<bool>, start: int, k: nat, v: int) -> bool {
    exists|w: Seq<int>| #[trigger] is_walk(step_rel(callers, is_fn, start), w) && w[0] == start && w.last() == v
        && w.len() <= k + 1
}

/// `v` is at exactly `k` caller steps from `start`, and no fewer.
pub open spec fn at_distance(callers: Seq<Vec<u32>>, is_fn: Seq<bool>, start: int, k: nat, v: int) -> bool {
    within(callers, is_fn, start, k, v) && (k == 0 || !within(callers, is_fn, start, (k - 1) as nat, v))
}

proof fn lemma_within_zero(callers: Seq<Vec<u32>>, is_fn: Seq<bool>, start: int, v: int)
    ensures
        within(callers, is_fn, start, 0, v) <==> v == start,
{
    if v == start {
        let w = seq![start];
        assert(is_walk(step_rel(callers, is_fn, start), w));
    }
}

proof fn lemma_within_mono(callers: Seq<Vec<u32>>, is_fn: Seq<bool>, start: int, j: nat, k: nat, v: int)
    requires
        j <= k,
        within(callers, is_fn, start, j, v),
    ensures
        within(callers, is_fn, start, k, v),
{
    let w = choose|w: Seq<int>| #[trigger] is_walk(step_rel(callers, is_fn, start), w) && w[0] == start && w.last() == v
        && w.len() <= j + 1;
    assert(is_walk(step_rel(callers, is_fn, start), w));
}

proof fn lemma_within_step(callers: Seq<Vec<u32>>, is_fn: Seq<bool>, start: int, k: nat, x: int, v: int)
    requires
        within(callers, is_fn, start, k, x),
        caller_step(callers, is_fn, start, x, v),
    ensures
        within(callers, is_fn, start, k + 1, v),
{
    let rel = step_rel(callers, is_fn, start);
    let w = choose|w: Seq<int>| #[trigger] is_walk(rel, w) && w[0] == start && w.last() == x && w.len() <= k + 1;
    assert(rel(w.last(), v));
    lemma_walk_push(rel, w, v);
    assert(w.push(v)[0] == start);
    assert(is_walk(rel, w.push(v)));
}

proof fn lemma_within_last(callers: Seq<Vec<u32>>, is_fn: Seq<bool>, start: int, k: nat, v: int) -> (y: int)
    requires
        within(callers, is_fn, start, k + 1, v),
        !within(callers, is_fn, start, k, v),
    ensures
        within(callers, is_fn, start, k, y),
        caller_step(callers, is_fn, start, y, v),
{
    let rel = step_rel(callers, is_fn, start);
    let w = choose|w: Seq<int>| #[trigger] is_walk(rel, w) && w[0] == start && w.last() == v && w.len() <= k + 2;
    if w.len() <= k + 1 {
        assert(within(callers, is_fn, start, k, v));
    }
    assert(w.len() >= 2);
    let i = w.len() - 2;
    assert(rel(w[i], w[i + 1]));
    lemma_walk_prefix(rel, w, w.len() - 1);
    let w2 = w.take(w.len() - 1);
    assert(w2[0] == start && w2.last() == w[i]);
    assert(is_walk(rel, w2));
    w[i]
}

/// No node is first reached at `d + 1` steps, so none is first reached later either.
pub open spec fn settled(callers: Seq<Vec<u32>>, is_fn: Seq<bool>, start: int, d: nat) -> bool {
    forall|v: int| #[trigger] within(callers, is_fn, start, d + 1, v) ==> within(callers, is_fn, start, d, v)
}

proof fn lemma_settled(callers: Seq<Vec<u32>>, is_fn: Seq<bool>, start: int, d: nat, k: nat, v: int)
    requires
        settled(callers, is_fn, start, d),
        d <= k,
        within(callers, is_fn, start, k, v),
    ensures
        within(callers, is_fn, start, d, v),
    decreases k,
{
    if k > d && !within(callers, is_fn, start, (k - 1) as nat, v) {
        let y = lemma_within_last(callers, is_fn, start, (k - 1) as nat, v);
        lemma_settled(callers, is_fn, start, d, (k - 1) as nat, y);
        lemma_within_step(callers, is_fn, start, d, y, v);
    } else if k > d {
        lemma_settled(callers, is_fn, start, d, (k - 1) as nat, v);
    }
}

/// Functions that call `start` directly, in the order listed.
pub fn direct_callers(callers: &Vec<Vec<u32>>, is_fn: &Vec<bool>, start: u32) -> (r: Vec<u32>)
    requires
        (start as int) < callers@.len(),
    ensures
        r@ == callers@[start as int]@.filter(|u: u32| (u as int) < is_fn@.len() && is_fn@[u as int]),
{
    let list = &callers[start as usize];
    let ghost f = |u: u32| (u as int) < is_fn@.len() && is_fn@[u as int];
    let mut r: Vec<u32> = Vec::new();
    let mut i: usize = 0;
    while i < list.len()
        invariant
            i <= list@.len(),
            list@ == callers@[start as int]@,
            f == (|u: u32| (u as int) < is_fn@.len() && is_fn@[u as int]),
            r@ == list@.take(i as int).filter(f),
        decreases list.len() - i,
    {
        proof {
            assert(list@.take(i as int + 1).drop_last() =~= list@.take(i as int));
            reveal(Seq::filter);
        }
        let u = list[i];
        if (u as usize) < is_fn.len() && is_fn[u as usize] {
            r.push(u);
        }
        proof {
            assert(list@.take(i as int + 1).last() == u);
        }
        i = i + 1;
    }
    proof {
        assert(list@.take(i as int) =~= list@);
    }
    r
}

/// Impact zone within `max_depth` caller steps of `start`, level by level: each function
/// other than `start` that reaches it in at most `max_depth` steps, once, with its least
/// number of steps, in increasing node order.
pub fn impact_bfs(callers: &Vec<Vec<u32>>, is_fn: &Vec<bool>, start: u32, max_depth: usize) -> (r: Vec<(u32, usize)>)
    requires
        callers@.len() == is_fn@.len(),
        (start as int) < callers@.len(),
        callers@.len() <= u32::MAX,
    ensures
        forall|i: int, j: int| 0 <= i < j < r@.len() ==> r@[i].0 < r@[j].0,
        forall|i: int| 0 <= i < r@.len() ==> 1 <= (#[trigger] r@[i]).1 <= max_depth
            && at_distance(callers@, is_fn@, start as int, r@[i].1 as nat, r@[i].0 as int),
        forall|v: int, k: nat| 1 <= k <= max_depth && #[trigger] at_distance(callers@, is_fn@, start as int, k, v)
            ==> exists|i: int| 0 <= i < r@.len() && r@[i].0 as int == v && r@[i].1 == k,
{
    let n = callers.len();
    let ghost cs = callers@;
    let ghost fs = is_fn@;
    let ghost st = start as int;
    let mut dist: Vec<Option<usize>> = Vec::new();
    let mut t: usize = 0;
    while t < n
        invariant
            t <= n,
            st == start as int,
            dist@.len() == t,
            forall|v: int| 0 <= v < t ==> dist@[v] == (if v == st { Some(0usize) } else { None::<usize> }),
        decreases n - t,
    {
        dist.push(if t == start as usize { Some(0usize) } else { None });
        t = t + 1;
    }
    let mut d: usize = 0;
    let mut done = false;
    proof {
        assert forall|v: int| 0 <= v < n implies match #[trigger] dist@[v] {
            Some(k) => k <= d && at_distance(cs, fs, st, k as nat, v),
            None => !within(cs, fs, st, d as nat, v),
        } by {
            lemma_within_zero(cs, fs, st, v);
        }
        assert forall|v: int| within(cs, fs, st, d as nat, v) implies 0 <= v < n by {
            lemma_within_zero(cs, fs, st, v);
        }
    }
    while d < max_depth && !done
        invariant
            done ==> settled(cs, fs, st, d as nat),
            n == cs.len(),
            n == fs.len(),
            cs == callers@,
            fs == is_fn@,
            st == start as int,
            0 <= st < n,
            n <= u32::MAX,
            d <= max_depth,
            dist@.len() == n,
            forall|v: int| 0 <= v < n ==> match #[trigger] dist@[v] {
                Some(k) => k <= d && at_distance(cs, fs, st, k as nat, v),
                None => !within(cs, fs, st, d as nat, v),
            },
            forall|v: int| within(cs, fs, st, d as nat, v) ==> 0 <= v < n,
        decreases max_depth - d + (if done { 0int } else { 1int }),
    {
        let ghost dist0 = dist@;
        let nd = d + 1;
        let mut grew = false;
        let mut x: usize = 0;
        while x < n
            invariant
                n == cs.len(),
                n == fs.len(),
                cs == callers@,
                fs == is_fn@,
                st == start as int,
                0 <= st < n,
                n <= u32::MAX,
                nd == d + 1,
                x <= n,
                forall|w: int| within(cs, fs, st, d as nat, w) ==> 0 <= w < n,
                !grew ==> dist@ == dist0,
                dist@.len() == n,
                forall|v: int| 0 <= v < n ==> match #[trigger] dist0[v] {
                    Some(k) => k <= d && at_distance(cs, fs, st, k as nat, v),
                    None => !within(cs, fs, st, d as nat, v),
                },
                forall|v: int| 0 <= v < n ==> match #[trigger] dist@[v] {
                    Some(k) => dist0[v] == Some(k) || (k == nd && dist0[v] is None && at_distance(cs, fs, st, nd as nat, v)),
                    None => dist0[v] is None && forall|y: int| 0 <= y < x && dist0[y] == Some(d) ==> !#[trigger] caller_step(cs, fs, st, y, v),
                },
            decreases n - x,
        {
            if dist[x] == Some(d) {
                let list = &callers[x];
                let mut k: usize = 0;
                while k < list.len()
                    invariant
                        n == cs.len(),
                        n == fs.len(),
                        cs == callers@,
                        fs == is_fn@,
                        st == start as int,
                        0 <= st < n,
                        n <= u32::MAX,
                        nd == d + 1,
                        x < n,
                        forall|w: int| within(cs, fs, st, d as nat, w) ==> 0 <= w < n,
                        !grew ==> dist@ == dist0,
                        dist0[x as int] == Some(d),
                        list@ == cs[x as int]@,
                        k <= list@.len(),
                        dist@.len() == n,
                        forall|v: int| 0 <= v < n ==> match #[trigger] dist0[v] {
                            Some(k2) => k2 <= d && at_distance(cs, fs, st, k2 as nat, v),
                            None => !within(cs, fs, st, d as nat, v),
                        },
                        forall|v: int| 0 <= v < n ==> match #[trigger] dist@[v] {
                            Some(k2) => dist0[v] == Some(k2) || (k2 == nd && dist0[v] is None && at_distance(cs, fs, st, nd as nat, v)),
                            None => dist0[v] is None && (forall|y: int| 0 <= y < x && dist0[y] == Some(d) ==> !#[trigger] caller_step(cs, fs, st, y, v))
                                && !(list@.take(k as int).contains(v as u32) && fs[v] && v != st),
                        },
                    decreases list.len() - k,
                {
                    let u = list[k];
                    proof {
                        assert(list@.take(k as int + 1) =~= list@.take(k as int).push(u));
                    }
                    if (u as usize) < n && is_fn[u as usize] && u != start && dist[u as usize].is_none() {
                        proof {
                            let v = u as int;
                            assert(within(cs, fs, st, d as nat, x as int));
                            assert(cs[x as int]@.contains(u));
                            assert(caller_step(cs, fs, st, x as int, v));
                            lemma_within_step(cs, fs, st, d as nat, x as int, v);
                        }
                        dist.set(u as usize, Some(nd));
                        grew = true;
                    }
                    proof {
                        assert forall|v: int| 0 <= v < n implies match #[trigger] dist@[v] {
                            Some(k2) => dist0[v] == Some(k2) || (k2 == nd && dist0[v] is None && at_distance(cs, fs, st, nd as nat, v)),
                            None => dist0[v] is None && (forall|y: int| 0 <= y < x && dist0[y] == Some(d) ==> !#[trigger] caller_step(cs, fs, st, y, v))
                                && !(list@.take(k as int + 1).contains(v as u32) && fs[v] && v != st),
                        } by {
                            lemma_push_contains(list@.take(k as int), u, v as u32);
                        }
                    }
                    k = k + 1;
                }
                proof {
                    assert(list@.take(k as int) =~= list@);
                }
            }
            proof {
                assert forall|v: int| 0 <= v < n implies match #[trigger] dist@[v] {
                    Some(k2) => dist0[v] == Some(k2) || (k2 == nd && dist0[v] is None && at_distance(cs, fs, st, nd as nat, v)),
                    None => dist0[v] is None && forall|y: int| 0 <= y < x + 1 && dist0[y] == Some(d) ==> !#[trigger] caller_step(cs, fs, st, y, v),
                } by {
                    if dist@[v] is None {
                        assert forall|y: int| 0 <= y < x + 1 && dist0[y] == Some(d) implies !#[trigger] caller_step(cs, fs, st, y, v) by {
                            if y == x as int && caller_step(cs, fs, st, y, v) {
                                assert(cs[x as int]@.contains(v as u32));
                            }
                        }
                    }
                }
            }
            x = x + 1;
        }
        proof {
            assert forall|v: int| 0 <= v < n implies match #[trigger] dist@[v] {
                Some(k) => k <= nd && at_distance(cs, fs, st, k as nat, v),
                None => !within(cs, fs, st, nd as nat, v),
            } by {
                if dist@[v] is None && within(cs, fs, st, nd as nat, v) {
                    assert(dist0[v] is None);
                    assert(!within(cs, fs, st, d as nat, v));
                    let y = lemma_within_last(cs, fs, st, d as nat, v);
                    assert(0 <= y < n);
                    match dist0[y] {
                        Some(k) => {
                            if (k as int) < d {
                                assert(within(cs, fs, st, k as nat, y));
                                lemma_within_step(cs, fs, st, k as nat, y, v);
                                lemma_within_mono(cs, fs, st, (k + 1) as nat, d as nat, v);
                            }
                            assert(k == d);
                        },
                        None => {},
                    }
                }
                match dist@[v] {
                    Some(k) => {
                        if dist0[v] == Some(k) {
                            assert(k <= d);
                        }
                    },
                    None => {},
                }
            }
            assert forall|v: int| within(cs, fs, st, nd as nat, v) implies 0 <= v < n by {
                if !within(cs, fs, st, d as nat, v) {
                    let y = lemma_within_last(cs, fs, st, d as nat, v);
                }
            }
        }
        if !grew {
            proof {
                assert forall|v: int| #[trigger] within(cs, fs, st, (d as nat) + 1, v) implies within(cs, fs, st, d as nat, v) by {
                    assert(0 <= v < n);
                    assert(dist@[v] == dist0[v]);
                    match dist0[v] {
                        Some(k) => {
                            lemma_within_mono(cs, fs, st, k as nat, d as nat, v);
                        },
                        None => {},
                    }
                }
            }
            done = true;
        } else {
            d = nd;
        }
    }
    let mut out: Vec<(u32, usize)> = Vec::new();
    let mut v: usize = 0;
    while v < n
        invariant
            n == cs.len(),
            n == fs.len(),
            cs == callers@,
            fs == is_fn@,
            st == start as int,
            n <= u32::MAX,
            d <= max_depth,
            d == max_depth || settled(cs, fs, st, d as nat),
            v <= n,
            forall|w: int| within(cs, fs, st, d as nat, w) ==> 0 <= w < n,
            dist@.len() == n,
            forall|w: int| 0 <= w < n ==> match #[trigger] dist@[w] {
                Some(k) => k <= d && at_distance(cs, fs, st, k as nat, w),
                None => !within(cs, fs, st, d as nat, w),
            },
            forall|i: int, j: int| 0 <= i < j < out@.len() ==> out@[i].0 < out@[j].0,
            forall|i: int| 0 <= i < out@.len() ==> (#[trigger] out@[i]).0 < v,
            forall|i: int| 0 <= i < out@.len() ==> 1 <= (#[trigger] out@[i]).1 <= max_depth
                && at_distance(cs, fs, st, out@[i].1 as nat, out@[i].0 as int),
            forall|w: int| 0 <= w < v && (#[trigger] dist@[w] matches Some(k) && k >= 1) ==> exists|i: int| 0 <= i < out@.len()
                && out@[i].0 as int == w && Some(out@[i].1) == dist@[w],
        decreases n - v,
    {
        let ghost out_before = out@;
        match dist[v] {
            Some(k) => {
                if k >= 1 {
                    out.push((v as u32, k));
                }
            },
            None => {},
        }
        proof {
            assert forall|i: int| 0 <= i < out_before.len() implies out@[i] == out_before[i] by {}
            assert forall|w: int| 0 <= w < v + 1 && (#[trigger] dist@[w] matches Some(k) && k >= 1) implies exists|i: int| 0 <= i < out@.len()
                && out@[i].0 as int == w && Some(out@[i].1) == dist@[w] by {
                if w == v as int {
                    assert(out@[out@.len() - 1].0 as int == w);
                    assert(Some(out@[out@.len() - 1].1) == dist@[w]);
                } else {
                    let i = choose|i: int| 0 <= i < out_before.len() && out_before[i].0 as int == w && Some(out_before[i].1) == dist@[w];
                    assert(out@[i] == out_before[i]);
                }
            }
        }
        v = v + 1;
    }
    proof {
        assert forall|w: int, k: nat| 1 <= k <= max_depth && #[trigger] at_distance(cs, fs, st, k, w)
            implies exists|i: int| 0 <= i < out@.len() && out@[i].0 as int == w && out@[i].1 == k by {
            if k <= d {
                lemma_within_mono(cs, fs, st, k, d as nat, w);
            } else {
                lemma_settled(cs, fs, st, d as nat, k, w);
                lemma_within_mono(cs, fs, st, d as nat, (k - 1) as nat, w);
            }
            assert(0 <= w < n);
            match dist@[w] {
                Some(k2) => {
                    if k2 as nat != k {
                        if (k2 as nat) < k {
                            lemma_within_mono(cs, fs, st, k2 as nat, (k - 1) as nat, w);
                        } else {
                            lemma_within_mono(cs, fs, st, k, (k2 - 1) as nat, w);
                        }
                    }
                },
                None => {},
            }
        }
    }
    out
}


/// Why a symbol name did not resolve to one node.
#[derive(Debug, Clone, Copy, PartialEq, Eq, Structural)]
pub enum SymbolError {
    /// No node carries the name.
    NotFound,
    /// Several nodes carry the name.
    Ambiguous { count: usize },
}

/// The one node among the nodes found under a symbol name: an error when there are none
/// or more than one.
pub fn resolve_unique_symbol(matches: &Vec<(u128, String)>) -> (r: Result<(u128, String), SymbolError>)
    ensures
        matches@.len() == 0 ==> r == Err::<(u128, String), SymbolError>(SymbolError::NotFound),
        matches@.len() == 1 ==> (r matches Ok(found) && found.0 == matches@[0].0 && found.1@ == matches@[0].1@),
        matches@.len() > 1 ==> r == Err::<(u128, String), SymbolError>(
            SymbolError::Ambiguous { count: matches@.len() as usize },
        ),
{
    if matches.len() == 0 {
        Err(SymbolError::NotFound)
    } else if matches.len() == 1 {
        Ok((matches[0].0, matches[0].1.clone()))
    } else {
        Err(SymbolError::Ambiguous { count: matches.len() })
    }
}

} // verus!
