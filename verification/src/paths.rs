//! Walks, reachability and simple paths over an abstract directed relation on integers.

use vstd::prelude::*;

verus! {

/// `p` is a non-empty walk: consecutive entries are related by `rel`.
pub open spec fn is_walk(rel: spec_fn(int, int) -> bool, p: Seq<int>) -> bool {
    &&& p.len() > 0
    &&& forall|i: int| 0 <= i < p.len() - 1 ==> #[trigger] rel(p[i], p[i + 1])
}

/// `b` is reachable from `a` by zero or more steps of `rel`.
pub open spec fn reach(rel: spec_fn(int, int) -> bool, a: int, b: int) -> bool {
    exists|p: Seq<int>| #[trigger] is_walk(rel, p) && p[0] == a && p.last() == b
}

/// A walk from `a` back to `a` with at least one step.
pub open spec fn on_cycle(rel: spec_fn(int, int) -> bool, a: int) -> bool {
    exists|p: Seq<int>| #[trigger] is_walk(rel, p) && p.len() >= 2 && p[0] == a && p.last() == a
}

/// Some node reachable from `root` lies on a cycle.
pub open spec fn cycle_reachable(rel: spec_fn(int, int) -> bool, root: int) -> bool {
    exists|c: int| reach(rel, root, c) && #[trigger] on_cycle(rel, c)
}

/// `s` is closed under `rel`.
pub open spec fn closed_under(rel: spec_fn(int, int) -> bool, s: Set<int>) -> bool {
    forall|a: int, b: int| s.contains(a) && #[trigger] rel(a, b) ==> s.contains(b)
}

pub proof fn lemma_reach_refl(rel: spec_fn(int, int) -> bool, a: int)
    ensures
        reach(rel, a, a),
{
    let p = seq![a];
    assert(is_walk(rel, p));
}

pub proof fn lemma_reach_step(rel: spec_fn(int, int) -> bool, a: int, b: int, c: int)
    requires
        reach(rel, a, b),
        rel(b, c),
    ensures
        reach(rel, a, c),
{
    let p = choose|p: Seq<int>| #[trigger] is_walk(rel, p) && p[0] == a && p.last() == b;
    let q = p.push(c);
    assert forall|i: int| 0 <= i < q.len() - 1 implies #[trigger] rel(q[i], q[i + 1]) by {
        if i < p.len() - 1 {
            assert(q[i] == p[i] && q[i + 1] == p[i + 1]);
        } else {
            assert(q[i] == b);
        }
    }
    assert(is_walk(rel, q));
}

proof fn lemma_closed_walk_prefix(rel: spec_fn(int, int) -> bool, s: Set<int>, p: Seq<int>, k: int)
    requires
        is_walk(rel, p),
        closed_under(rel, s),
        s.contains(p[0]),
        0 <= k < p.len(),
    ensures
        s.contains(p[k]),
    decreases k,
{
    if k > 0 {
        lemma_closed_walk_prefix(rel, s, p, k - 1);
        let i = k - 1;
        assert(rel(p[i], p[i + 1]));
        assert(i + 1 == k);
    }
}

/// A set that contains `a` and is closed under `rel` contains everything reachable from `a`.
pub proof fn lemma_closed_contains_reach(rel: spec_fn(int, int) -> bool, s: Set<int>, a: int, b: int)
    requires
        s.contains(a),
        closed_under(rel, s),
        reach(rel, a, b),
    ensures
        s.contains(b),
{
    let p = choose|p: Seq<int>| #[trigger] is_walk(rel, p) && p[0] == a && p.last() == b;
    lemma_closed_walk_prefix(rel, s, p, p.len() - 1);
}

/// Reachability is transitive.
pub proof fn lemma_reach_trans(rel: spec_fn(int, int) -> bool, a: int, b: int, c: int)
    requires
        reach(rel, a, b),
        reach(rel, b, c),
    ensures
        reach(rel, a, c),
{
    let p = choose|p: Seq<int>| #[trigger] is_walk(rel, p) && p[0] == a && p.last() == b;
    let q = choose|q: Seq<int>| #[trigger] is_walk(rel, q) && q[0] == b && q.last() == c;
    let r = p + q.drop_first();
    assert forall|i: int| 0 <= i < r.len() - 1 implies #[trigger] rel(r[i], r[i + 1]) by {
        if i < p.len() - 1 {
            assert(r[i] == p[i] && r[i + 1] == p[i + 1]);
        } else if i == p.len() - 1 {
            assert(r[i] == b);
            assert(r[i + 1] == q[1]);
            assert(rel(q[0], q[1]));
        } else {
            let j = i - p.len() + 1;
            assert(r[i] == q[j] && r[i + 1] == q[j + 1]);
            assert(rel(q[j], q[j + 1]));
        }
    }
    if q.len() == 1 {
        assert(r =~= p);
    }
    assert(is_walk(rel, r));
}


/// `p` is a walk without repeated nodes from `a` to `b`.
pub open spec fn is_simple_path(rel: spec_fn(int, int) -> bool, p: Seq<int>, a: int, b: int) -> bool {
    &&& is_walk(rel, p)
    &&& p.no_duplicates()
    &&& p[0] == a
    &&& p.last() == b
}

/// Number of `false` entries.
pub open spec fn count_false(s: Seq<bool>) -> nat
    decreases s.len(),
{
    if s.len() == 0 {
        0
    } else {
        count_false(s.drop_last()) + if s.last() { 0nat } else { 1nat }
    }
}

pub proof fn lemma_count_false_update(s: Seq<bool>, i: int)
    requires
        0 <= i < s.len(),
        !s[i],
    ensures
        count_false(s.update(i, true)) + 1 == count_false(s),
    decreases s.len(),
{
    let t = s.update(i, true);
    if i < s.len() - 1 {
        assert(t.drop_last() =~= s.drop_last().update(i, true));
        lemma_count_false_update(s.drop_last(), i);
    } else {
        assert(t.drop_last() =~= s.drop_last());
    }
}

/// A duplicate-free sequence of values in `[0, n)` has at most `n` entries.
pub proof fn lemma_nodup_bounded_len(s: Seq<int>, n: int)
    requires
        s.no_duplicates(),
        0 <= n,
        forall|i: int| 0 <= i < s.len() ==> 0 <= #[trigger] s[i] < n,
    ensures
        s.len() <= n,
{
    s.unique_seq_to_set();
    vstd::set_lib::lemma_int_range(0, n);
    assert(s.to_set().subset_of(vstd::set_lib::set_int_range(0, n)));
    vstd::set_lib::lemma_len_subset(s.to_set(), vstd::set_lib::set_int_range(0, n));
}

/// Entries of a walk along strictly decreasing ranks: the first rank exceeds the last.
pub proof fn lemma_rank_decreases_along_walk(
    rel: spec_fn(int, int) -> bool,
    rank: spec_fn(int) -> int,
    p: Seq<int>,
    k: int,
)
    requires
        is_walk(rel, p),
        1 <= k < p.len(),
        forall|i: int| 0 <= i < p.len() - 1 ==> rank(#[trigger] p[i]) > rank(p[i + 1]),
    ensures
        rank(p[0]) > rank(p[k]),
    decreases k,
{
    if k > 1 {
        lemma_rank_decreases_along_walk(rel, rank, p, k - 1);
        let i = k - 1;
        assert(rank(p[i]) > rank(p[i + 1]));
    } else {
        let i = 0int;
        assert(rank(p[i]) > rank(p[i + 1]));
    }
}


pub proof fn lemma_walk_push(rel: spec_fn(int, int) -> bool, p: Seq<int>, x: int)
    requires
        is_walk(rel, p),
        rel(p.last(), x),
    ensures
        is_walk(rel, p.push(x)),
{
    let q = p.push(x);
    assert forall|i: int| 0 <= i < q.len() - 1 implies #[trigger] rel(q[i], q[i + 1]) by {
        if i < p.len() - 1 {
            assert(q[i] == p[i] && q[i + 1] == p[i + 1]);
        } else {
            assert(q[i] == p.last());
        }
    }
}

pub proof fn lemma_walk_prefix(rel: spec_fn(int, int) -> bool, p: Seq<int>, k: int)
    requires
        is_walk(rel, p),
        1 <= k <= p.len(),
    ensures
        is_walk(rel, p.take(k)),
{
    let q = p.take(k);
    assert forall|i: int| 0 <= i < q.len() - 1 implies #[trigger] rel(q[i], q[i + 1]) by {
        assert(q[i] == p[i] && q[i + 1] == p[i + 1]);
    }
}

pub proof fn lemma_walk_suffix(rel: spec_fn(int, int) -> bool, p: Seq<int>, k: int)
    requires
        is_walk(rel, p),
        0 <= k < p.len(),
    ensures
        is_walk(rel, p.subrange(k, p.len() as int)),
{
    let q = p.subrange(k, p.len() as int);
    assert forall|i: int| 0 <= i < q.len() - 1 implies #[trigger] rel(q[i], q[i + 1]) by {
        assert(q[i] == p[k + i] && q[i + 1] == p[k + i + 1]);
        let j = k + i;
        assert(rel(p[j], p[j + 1]));
    }
}

/// Joining a walk that ends at `x` with a walk that starts at `x` gives a walk; every node of
/// the joined walk lies on one of the two.
pub proof fn lemma_walk_join(rel: spec_fn(int, int) -> bool, p: Seq<int>, q: Seq<int>)
    requires
        is_walk(rel, p),
        is_walk(rel, q),
        p.last() == q[0],
    ensures
        is_walk(rel, p + q.drop_first()),
        (p + q.drop_first())[0] == p[0],
        (p + q.drop_first()).last() == q.last(),
        forall|x: int| (p + q.drop_first()).contains(x) ==> p.contains(x) || q.contains(x),
{
    let r = p + q.drop_first();
    assert forall|i: int| 0 <= i < r.len() - 1 implies #[trigger] rel(r[i], r[i + 1]) by {
        if i < p.len() - 1 {
            assert(r[i] == p[i] && r[i + 1] == p[i + 1]);
        } else if i == p.len() - 1 {
            assert(r[i] == q[0]);
            assert(r[i + 1] == q[1]);
            assert(rel(q[0], q[1]));
        } else {
            let j = i - p.len() + 1;
            assert(r[i] == q[j] && r[i + 1] == q[j + 1]);
            assert(rel(q[j], q[j + 1]));
        }
    }
    if q.len() == 1 {
        assert(r =~= p);
    } else {
        assert(r.last() == q[q.len() - 1]);
    }
    assert forall|x: int| r.contains(x) implies p.contains(x) || q.contains(x) by {
        let k = choose|k: int| 0 <= k < r.len() && r[k] == x;
        if k < p.len() {
            assert(p[k] == x);
        } else {
            assert(q[k - p.len() + 1] == x);
        }
    }
}

/// `q` extends the prefix `prefix` into a simple path from `a` to `b`.
pub open spec fn extends_to_simple_path(
    rel: spec_fn(int, int) -> bool,
    q: Seq<int>,
    prefix: Seq<int>,
    a: int,
    b: int,
) -> bool {
    &&& is_simple_path(rel, q, a, b)
    &&& q.len() >= prefix.len()
    &&& q.take(prefix.len() as int) == prefix
}


pub proof fn lemma_count_false_mono(a: Seq<bool>, b: Seq<bool>)
    requires
        a.len() == b.len(),
        forall|i: int| 0 <= i < a.len() && #[trigger] a[i] ==> b[i],
    ensures
        count_false(b) <= count_false(a),
    decreases a.len(),
{
    if a.len() > 0 {
        let a2 = a.drop_last();
        let b2 = b.drop_last();
        assert forall|i: int| 0 <= i < a2.len() && #[trigger] a2[i] implies b2[i] by {
            assert(a[i] == a2[i]);
        }
        lemma_count_false_mono(a2, b2);
        let k = a.len() - 1;
        assert(a[k] ==> b[k]);
    }
}


pub proof fn lemma_push_contains<A>(s: Seq<A>, x: A, v: A)
    ensures
        s.push(x).contains(v) <==> (s.contains(v) || v == x),
{
    if s.contains(v) {
        let k = choose|k: int| 0 <= k < s.len() && s[k] == v;
        assert(s.push(x)[k] == v);
    }
    if v == x {
        assert(s.push(x)[s.len() as int] == v);
    }
    if s.push(x).contains(v) {
        let k = choose|k: int| 0 <= k < s.len() + 1 && s.push(x)[k] == v;
        if k < s.len() {
            assert(s[k] == v);
        }
    }
}

pub proof fn lemma_push_nodup<A>(s: Seq<A>, x: A)
    requires
        s.no_duplicates(),
        !s.contains(x),
    ensures
        s.push(x).no_duplicates(),
{
    let t = s.push(x);
    assert forall|i: int, j: int| 0 <= i < t.len() && 0 <= j < t.len() && i != j implies t[i] != t[j] by {
        if i == s.len() {
            assert(s.contains(t[j]) ==> t[j] != x);
            assert(t[j] == s[j]);
        } else if j == s.len() {
            assert(t[i] == s[i]);
        } else {
            assert(t[i] == s[i] && t[j] == s[j]);
        }
    }
}

} // verus!
