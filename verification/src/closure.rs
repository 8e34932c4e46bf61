//! Connectivity generated by a list of undirected links.

use vstd::prelude::*;

verus! {

/// `x` and `y` are joined by one of the links (in either direction).
pub open spec fn linked<A>(links: Seq<(A, A)>, x: A, y: A) -> bool {
    exists|k: int| 0 <= k < links.len() && (links[k] == (x, y) || links[k] == (y, x))
}

/// `w` is a chain of links.
pub open spec fn is_chain<A>(links: Seq<(A, A)>, w: Seq<A>) -> bool {
    &&& w.len() > 0
    &&& forall|i: int| 0 <= i < w.len() - 1 ==> #[trigger] linked(links, w[i], w[i + 1])
}

/// `x` and `y` are connected through the links (every value is connected to itself).
pub open spec fn connected<A>(links: Seq<(A, A)>, x: A, y: A) -> bool {
    exists|w: Seq<A>| #[trigger] is_chain(links, w) && w[0] == x && w.last() == y
}

pub proof fn lemma_connected_refl<A>(links: Seq<(A, A)>, x: A)
    ensures
        connected(links, x, x),
{
    let w = seq![x];
    assert(is_chain(links, w));
}

pub proof fn lemma_connected_step<A>(links: Seq<(A, A)>, x: A, y: A, z: A)
    requires
        connected(links, x, y),
        linked(links, y, z),
    ensures
        connected(links, x, z),
{
    let w = choose|w: Seq<A>| #[trigger] is_chain(links, w) && w[0] == x && w.last() == y;
    let w2 = w.push(z);
    assert forall|i: int| 0 <= i < w2.len() - 1 implies #[trigger] linked(links, w2[i], w2[i + 1]) by {
        if i < w.len() - 1 {
            assert(w2[i] == w[i] && w2[i + 1] == w[i + 1]);
        }
    }
    assert(is_chain(links, w2));
}

pub proof fn lemma_connected_sym<A>(links: Seq<(A, A)>, x: A, y: A)
    requires
        connected(links, x, y),
    ensures
        connected(links, y, x),
{
    let w = choose|w: Seq<A>| #[trigger] is_chain(links, w) && w[0] == x && w.last() == y;
    let r = w.reverse();
    assert forall|i: int| 0 <= i < r.len() - 1 implies #[trigger] linked(links, r[i], r[i + 1]) by {
        let j = w.len() - 2 - i;
        assert(linked(links, w[j], w[j + 1]));
        assert(r[i] == w[j + 1] && r[i + 1] == w[j]);
        let k = choose|k: int| 0 <= k < links.len() && (links[k] == (w[j], w[j + 1]) || links[k] == (w[j + 1], w[j]));
    }
    assert(is_chain(links, r));
}

pub proof fn lemma_connected_trans<A>(links: Seq<(A, A)>, x: A, y: A, z: A)
    requires
        connected(links, x, y),
        connected(links, y, z),
    ensures
        connected(links, x, z),
{
    let w = choose|w: Seq<A>| #[trigger] is_chain(links, w) && w[0] == y && w.last() == z;
    lemma_connected_prefix(links, x, w, w.len() as int);
}

proof fn lemma_connected_prefix<A>(links: Seq<(A, A)>, x: A, w: Seq<A>, k: int)
    requires
        is_chain(links, w),
        connected(links, x, w[0]),
        1 <= k <= w.len(),
    ensures
        connected(links, x, w[k - 1]),
    decreases k,
{
    if k > 1 {
        lemma_connected_prefix(links, x, w, k - 1);
        let i = k - 2;
        assert(linked(links, w[i], w[i + 1]));
        lemma_connected_step(links, x, w[k - 2], w[k - 1]);
    }
}

/// Connections through the old links stay connections after adding a link.
pub proof fn lemma_connected_mono<A>(links: Seq<(A, A)>, extra: (A, A), x: A, y: A)
    requires
        connected(links, x, y),
    ensures
        connected(links.push(extra), x, y),
{
    let w = choose|w: Seq<A>| #[trigger] is_chain(links, w) && w[0] == x && w.last() == y;
    let nl = links.push(extra);
    assert forall|i: int| 0 <= i < w.len() - 1 implies #[trigger] linked(nl, w[i], w[i + 1]) by {
        assert(linked(links, w[i], w[i + 1]));
        let k = choose|k: int| 0 <= k < links.len() && (links[k] == (w[i], w[i + 1]) || links[k] == (w[i + 1], w[i]));
        assert(nl[k] == links[k]);
    }
    assert(is_chain(nl, w));
}

/// What a new link `(a, b)` connects: old connections, or paths through the link.
pub open spec fn union_conn<A>(links: Seq<(A, A)>, a: A, b: A, x: A, y: A) -> bool {
    ||| connected(links, x, y)
    ||| (connected(links, x, a) && connected(links, b, y))
    ||| (connected(links, x, b) && connected(links, a, y))
}

proof fn lemma_union_conn_step<A>(links: Seq<(A, A)>, a: A, b: A, x: A, y: A, z: A)
    requires
        union_conn(links, a, b, x, y),
        linked(links.push((a, b)), y, z),
    ensures
        union_conn(links, a, b, x, z),
{
    let nl = links.push((a, b));
    let k = choose|k: int| 0 <= k < nl.len() && (nl[k] == (y, z) || nl[k] == (z, y));
    if k < links.len() {
        assert(nl[k] == links[k]);
        assert(linked(links, y, z));
        if connected(links, x, y) {
            lemma_connected_step(links, x, y, z);
        } else if connected(links, x, a) && connected(links, b, y) {
            lemma_connected_step(links, b, y, z);
        } else {
            lemma_connected_step(links, a, y, z);
        }
    } else {
        lemma_connected_refl(links, z);
        if y == a && z == b {
            if connected(links, x, y) {
            } else if connected(links, x, a) && connected(links, b, y) {
                lemma_connected_sym(links, b, y);
                lemma_connected_trans(links, x, b, a);
            } else {
            }
        } else {
            assert(y == b && z == a);
            if connected(links, x, y) {
            } else if connected(links, x, a) && connected(links, b, y) {
            } else {
                lemma_connected_sym(links, a, y);
                lemma_connected_trans(links, x, a, b);
            }
        }
    }
}

proof fn lemma_union_conn_prefix<A>(links: Seq<(A, A)>, a: A, b: A, w: Seq<A>, k: int)
    requires
        is_chain(links.push((a, b)), w),
        1 <= k <= w.len(),
    ensures
        union_conn(links, a, b, w[0], w[k - 1]),
    decreases k,
{
    if k == 1 {
        lemma_connected_refl(links, w[0]);
    } else {
        lemma_union_conn_prefix(links, a, b, w, k - 1);
        let i = k - 2;
        assert(linked(links.push((a, b)), w[i], w[i + 1]));
        lemma_union_conn_step(links, a, b, w[0], w[k - 2], w[k - 1]);
    }
}

/// Adding the link `(a, b)` connects exactly the old connections and the pairs joined
/// through the new link.
pub proof fn lemma_connected_push<A>(links: Seq<(A, A)>, a: A, b: A, x: A, y: A)
    ensures
        connected(links.push((a, b)), x, y) <==> union_conn(links, a, b, x, y),
{
    let nl = links.push((a, b));
    if connected(nl, x, y) {
        let w = choose|w: Seq<A>| #[trigger] is_chain(nl, w) && w[0] == x && w.last() == y;
        lemma_union_conn_prefix(links, a, b, w, w.len() as int);
    }
    if union_conn(links, a, b, x, y) {
        assert(linked(nl, a, b)) by {
            assert(nl[links.len() as int] == (a, b));
        }
        if connected(links, x, y) {
            lemma_connected_mono(links, (a, b), x, y);
        } else if connected(links, x, a) && connected(links, b, y) {
            lemma_connected_mono(links, (a, b), x, a);
            lemma_connected_mono(links, (a, b), b, y);
            lemma_connected_step(nl, x, a, b);
            lemma_connected_trans(nl, x, b, y);
        } else {
            lemma_connected_mono(links, (a, b), x, b);
            lemma_connected_mono(links, (a, b), a, y);
            assert(linked(nl, b, a));
            lemma_connected_step(nl, x, b, a);
            lemma_connected_trans(nl, x, a, y);
        }
    }
}

/// A value that no link mentions is connected only to itself.
pub proof fn lemma_connected_isolated<A>(links: Seq<(A, A)>, x: A, y: A)
    requires
        connected(links, x, y),
        forall|k: int| 0 <= k < links.len() ==> (#[trigger] links[k]).0 != x && links[k].1 != x,
    ensures
        y == x,
{
    let w = choose|w: Seq<A>| #[trigger] is_chain(links, w) && w[0] == x && w.last() == y;
    if w.len() > 1 {
        let i = 0int;
        assert(linked(links, w[i], w[i + 1]));
        let k = choose|k: int| 0 <= k < links.len() && (links[k] == (w[0], w[1]) || links[k] == (w[1], w[0]));
    }
}

} // verus!
