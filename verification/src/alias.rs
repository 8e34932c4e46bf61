//! May-alias name sets: names linked by field access (`order` and `order.status`) or by
//! plain copies (`a = b`), closed under those links with a union-find.

use vstd::prelude::*;
use crate::cfg::{BasicBlock, ControlFlowGraph, DefVar, Statement, def_name};
use crate::closure::{connected, lemma_connected_isolated, lemma_connected_push, lemma_connected_refl, lemma_connected_sym, union_conn};
use crate::text::{chars_of, chars_slice, find_from, find_sub, str_eq, string_from_chars};

verus! {

/// `p` is a forest of parent links whose ranks `d` strictly decrease toward the roots.
pub open spec fn uf_ok(p: Seq<usize>, d: Seq<nat>) -> bool {
    &&& p.len() == d.len()
    &&& forall|x: int| 0 <= x < p.len() ==> (#[trigger] p[x] as int) < p.len()
    &&& forall|x: int| 0 <= x < p.len() && p[x] as int != x ==> d[p[x] as int] < #[trigger] d[x]
}

/// Root of `x`: follow parent links until a node is its own parent.
pub open spec fn uf_root(p: Seq<usize>, d: Seq<nat>, x: int) -> int
    decreases (if 0 <= x < d.len() { d[x] } else { 0 }),
{
    if 0 <= x < p.len() && x < d.len() && p[x] as int != x && (p[x] as int) < d.len() && d[p[x] as int] < d[x] {
        uf_root(p, d, p[x] as int)
    } else {
        x
    }
}

pub proof fn lemma_root_props(p: Seq<usize>, d: Seq<nat>, x: int)
    requires
        uf_ok(p, d),
        0 <= x < p.len(),
    ensures
        0 <= uf_root(p, d, x) < p.len(),
        p[uf_root(p, d, x)] as int == uf_root(p, d, x),
        d[uf_root(p, d, x)] <= d[x],
        p[x] as int != x ==> uf_root(p, d, x) == uf_root(p, d, p[x] as int) && d[uf_root(p, d, x)] < d[x],
    decreases d[x],
{
    if p[x] as int != x {
        lemma_root_props(p, d, p[x] as int);
    }
}

/// Pointing a non-root `x` straight at its root keeps the forest and every root.
proof fn lemma_compress(p: Seq<usize>, d: Seq<nat>, x: int, y: int)
    requires
        uf_ok(p, d),
        0 <= x < p.len(),
        p[x] as int != x,
        0 <= y < p.len(),
    ensures
        uf_ok(p.update(x, uf_root(p, d, x) as usize), d),
        uf_root(p.update(x, uf_root(p, d, x) as usize), d, y) == uf_root(p, d, y),
    decreases d[y],
{
    let r = uf_root(p, d, x);
    lemma_root_props(p, d, x);
    let q = p.update(x, r as usize);
    assert(q[x] as int == r);
    assert forall|z: int| 0 <= z < q.len() && q[z] as int != z implies d[q[z] as int] < #[trigger] d[z] by {
        if z != x {
            assert(q[z] == p[z]);
        }
    }
    if y == x {
        lemma_root_props(p, d, r);
        assert(q[r] == p[r]);
        assert(uf_root(q, d, r) == r);
        assert(uf_root(q, d, x) == uf_root(q, d, r));
    } else if p[y] as int != y {
        lemma_compress(p, d, x, p[y] as int);
        lemma_root_props(p, d, y);
        assert(q[y] == p[y]);
        assert(uf_root(q, d, y) == uf_root(q, d, p[y] as int));
    } else {
        assert(q[y] == p[y]);
    }
}

/// Ranks after linking root `ra` under root `rb`: the trees under `ra` move up past `rb`.
pub open spec fn linked_ranks(p: Seq<usize>, d: Seq<nat>, ra: int, rb: int) -> Seq<nat> {
    Seq::new(d.len(), |y: int| if uf_root(p, d, y) == ra { d[y] + d[rb] + 1 } else { d[y] })
}

/// Linking root `ra` under root `rb` keeps a forest and moves every node rooted at `ra` to
/// `rb`.
proof fn lemma_link(p: Seq<usize>, d: Seq<nat>, ra: int, rb: int, y: int)
    requires
        uf_ok(p, d),
        0 <= ra < p.len(),
        0 <= rb < p.len(),
        ra != rb,
        p[ra] as int == ra,
        p[rb] as int == rb,
        0 <= y < p.len(),
    ensures
        uf_ok(p.update(ra, rb as usize), linked_ranks(p, d, ra, rb)),
        uf_root(p.update(ra, rb as usize), linked_ranks(p, d, ra, rb), y) == (if uf_root(p, d, y) == ra { rb } else { uf_root(p, d, y) }),
    decreases d[y],
{
    let q = p.update(ra, rb as usize);
    let e = linked_ranks(p, d, ra, rb);
    assert(uf_root(p, d, rb) == rb);
    assert(uf_root(p, d, ra) == ra);
    assert forall|z: int| 0 <= z < q.len() && q[z] as int != z implies e[q[z] as int] < #[trigger] e[z] by {
        if z != ra {
            assert(q[z] == p[z]);
            lemma_root_props(p, d, z);
        }
    }
    assert(uf_ok(q, e));
    if p[y] as int == y {
        if y == ra {
            assert(q[ra] as int == rb);
            assert(e[rb] < e[ra]);
            assert(q[rb] == p[rb]);
            assert(uf_root(q, e, rb) == rb);
            assert(uf_root(q, e, ra) == uf_root(q, e, rb));
        } else {
            assert(q[y] == p[y]);
        }
    } else {
        lemma_root_props(p, d, y);
        lemma_link(p, d, ra, rb, p[y] as int);
        assert(q[y] == p[y]);
        assert(e[q[y] as int] < e[y]);
        assert(uf_root(q, e, y) == uf_root(q, e, p[y] as int));
    }
}

/// One step of path compression: after the parent's path was compressed, pointing `x` at
/// its root keeps every root, and each entry is either unchanged or points at its root.
proof fn lemma_find_step(before: Seq<usize>, mid: Seq<usize>, d: Seq<nat>, x: int, root: int)
    requires
        uf_ok(before, d),
        uf_ok(mid, d),
        0 <= x < before.len(),
        mid.len() == before.len(),
        before[x] as int != x,
        root == uf_root(before, d, x),
        forall|y: int| 0 <= y < before.len() ==> #[trigger] uf_root(mid, d, y) == uf_root(before, d, y),
        forall|y: int| 0 <= y < before.len() ==> #[trigger] mid[y] == before[y] || mid[y] as int == uf_root(before, d, y),
    ensures
        uf_ok(mid.update(x, root as usize), d),
        forall|y: int| 0 <= y < before.len() ==> #[trigger] uf_root(mid.update(x, root as usize), d, y) == uf_root(before, d, y),
        forall|y: int| 0 <= y < before.len() ==> #[trigger] mid.update(x, root as usize)[y] == before[y] || mid.update(x, root as usize)[y] as int == uf_root(before, d, y),
{
    lemma_root_props(before, d, x);
    assert(uf_root(mid, d, x) == root);
    assert(mid[x] as int != x);
    lemma_compress(mid, d, x, x);
    assert forall|y: int| 0 <= y < before.len() implies #[trigger] uf_root(mid.update(x, root as usize), d, y) == uf_root(before, d, y) by {
        lemma_compress(mid, d, x, y);
    }
    assert forall|y: int| 0 <= y < before.len() implies #[trigger] mid.update(x, root as usize)[y] == before[y] || mid.update(x, root as usize)[y] as int == uf_root(before, d, y) by {
        if y != x {
            assert(mid.update(x, root as usize)[y] == mid[y]);
        }
    }
}

/// Root of `x`, pointing every node on the way straight at it.
fn uf_find(parent: &mut Vec<usize>, x: usize, Ghost(d): Ghost<Seq<nat>>) -> (r: usize)
    requires
        uf_ok(old(parent)@, d),
        (x as int) < old(parent)@.len(),
    ensures
        final(parent)@.len() == old(parent)@.len(),
        uf_ok(final(parent)@, d),
        r as int == uf_root(old(parent)@, d, x as int),
        forall|y: int| 0 <= y < old(parent)@.len() ==> #[trigger] uf_root(final(parent)@, d, y) == uf_root(old(parent)@, d, y),
        forall|y: int| 0 <= y < old(parent)@.len() ==> #[trigger] final(parent)@[y] == old(parent)@[y] || final(parent)@[y] as int == uf_root(old(parent)@, d, y),
    decreases d[x as int],
{
    let p = parent[x];
    if p == x {
        return x;
    }
    let ghost before = parent@;
    proof {
        lemma_root_props(before, d, x as int);
    }
    let root = uf_find(parent, p, Ghost(d));
    let ghost mid = parent@;
    proof {
        lemma_find_step(before, mid, d, x as int, root as int);
    }
    parent.set(x, root);
    root
}


/// Adding singleton trees `n..` (each its own parent, rank 0) keeps every old root.
proof fn lemma_root_extend(p: Seq<usize>, d: Seq<nat>, q: Seq<usize>, e: Seq<nat>, y: int)
    requires
        uf_ok(p, d),
        p.len() <= q.len(),
        q.len() == e.len(),
        forall|z: int| 0 <= z < p.len() ==> q[z] == p[z] && e[z] == d[z],
        forall|z: int| p.len() <= z < q.len() ==> q[z] as int == z && e[z] == 0,
        0 <= y < p.len(),
    ensures
        uf_root(q, e, y) == uf_root(p, d, y),
    decreases d[y],
{
    assert(q[y] == p[y] && e[y] == d[y]);
    if p[y] as int != y {
        assert(q[y] as int == p[y] as int);
        assert(e[q[y] as int] == d[p[y] as int]);
        lemma_root_extend(p, d, q, e, p[y] as int);
    }
}

/// Makes sure `parent` covers `id`, adding singleton trees for the new entries.
fn grow_parent(parent: &mut Vec<usize>, id: usize, Ghost(d): Ghost<Seq<nat>>) -> (nd: Ghost<Seq<nat>>)
    requires
        uf_ok(old(parent)@, d),
        id < usize::MAX,
    ensures
        final(parent)@.len() == (if old(parent)@.len() <= id { id + 1 } else { old(parent)@.len() as int }),
        nd@.len() == final(parent)@.len(),
        forall|y: int| 0 <= y < old(parent)@.len() ==> final(parent)@[y] == old(parent)@[y] && #[trigger] nd@[y] == d[y],
        forall|y: int| old(parent)@.len() <= y < final(parent)@.len() ==> #[trigger] final(parent)@[y] as int == y,
        uf_ok(final(parent)@, nd@),
        forall|y: int| 0 <= y < old(parent)@.len() ==> #[trigger] uf_root(final(parent)@, nd@, y) == uf_root(old(parent)@, d, y),
        forall|y: int| old(parent)@.len() <= y < final(parent)@.len() ==> #[trigger] uf_root(final(parent)@, nd@, y) == y,
{
    let ghost p0 = parent@;
    let need = id + 1;
    let mut e: Ghost<Seq<nat>> = Ghost(d);
    while parent.len() < need
        invariant
            p0 == old(parent)@,
            uf_ok(p0, d),
            need == id + 1,
            p0.len() <= parent@.len(),
            parent@.len() <= need || parent@.len() == p0.len(),
            e@.len() == parent@.len(),
            forall|y: int| 0 <= y < p0.len() ==> #[trigger] parent@[y] == p0[y] && e@[y] == d[y],
            forall|y: int| p0.len() <= y < parent@.len() ==> #[trigger] parent@[y] as int == y && e@[y] == 0,
        decreases need - parent.len(),
    {
        let k = parent.len();
        let ghost before = parent@;
        let ghost eb = e@;
        parent.push(k);
        proof {
            e@ = e@.push(0nat);
            assert forall|y: int| 0 <= y < before.len() implies #[trigger] parent@[y] == before[y] && e@[y] == eb[y] by {}
            assert forall|y: int| p0.len() <= y < parent@.len() implies #[trigger] parent@[y] as int == y && e@[y] == 0 by {
                if y < before.len() {
                    assert(parent@[y] == before[y]);
                } else {
                    assert(y == k);
                }
            }
        }
    }
    proof {
        let q = parent@;
        let f = e@;
        assert forall|x: int| 0 <= x < q.len() implies (#[trigger] q[x] as int) < q.len() by {
            if x < p0.len() {
                assert(q[x] == p0[x]);
            }
        }
        assert forall|x: int| 0 <= x < q.len() && q[x] as int != x implies f[q[x] as int] < #[trigger] f[x] by {
            if x >= p0.len() {
                assert(q[x] as int == x);
            }
            assert(q[x] == p0[x]);
            assert(e@[x] == d[x]);
            let t = p0[x] as int;
            assert(t < p0.len());
            assert(parent@[t] == p0[t]);
        }
        assert forall|y: int| 0 <= y < p0.len() implies #[trigger] uf_root(q, f, y) == uf_root(p0, d, y) by {
            lemma_root_extend(p0, d, q, f, y);
        }
    }
    e
}

/// Linking root `ra` of `a` under root `rb` of `b` in a forest with the same roots as `p0`
/// moves exactly the tree of `a` under the root of `b`.
proof fn lemma_union_roots(p0: Seq<usize>, mid: Seq<usize>, d: Seq<nat>, a: int, b: int)
    requires
        uf_ok(p0, d),
        uf_ok(mid, d),
        mid.len() == p0.len(),
        0 <= a < p0.len(),
        0 <= b < p0.len(),
        forall|y: int| 0 <= y < p0.len() ==> #[trigger] uf_root(mid, d, y) == uf_root(p0, d, y),
        uf_root(p0, d, a) != uf_root(p0, d, b),
    ensures
        ({
            let ra = uf_root(p0, d, a);
            let rb = uf_root(p0, d, b);
            let q = mid.update(ra, rb as usize);
            let e = linked_ranks(mid, d, ra, rb);
            &&& uf_ok(q, e)
            &&& forall|y: int| 0 <= y < p0.len() ==> #[trigger] uf_root(q, e, y) == (if uf_root(p0, d, y) == ra { rb } else { uf_root(p0, d, y) })
        }),
{
    let ra = uf_root(p0, d, a);
    let rb = uf_root(p0, d, b);
    assert(uf_root(mid, d, a) == ra);
    assert(uf_root(mid, d, b) == rb);
    lemma_root_props(mid, d, a);
    lemma_root_props(mid, d, b);
    lemma_link(mid, d, ra, rb, 0);
    assert forall|y: int| 0 <= y < p0.len() implies #[trigger] uf_root(mid.update(ra, rb as usize), linked_ranks(mid, d, ra, rb), y) == (if uf_root(p0, d, y) == ra { rb } else { uf_root(p0, d, y) }) by {
        lemma_link(mid, d, ra, rb, y);
        assert(uf_root(mid, d, y) == uf_root(p0, d, y));
    }
}

/// Joins the trees of `a` and `b`: the root of `a` is linked under the root of `b`.
fn uf_union(parent: &mut Vec<usize>, a: usize, b: usize, Ghost(d): Ghost<Seq<nat>>) -> (nd: Ghost<Seq<nat>>)
    requires
        uf_ok(old(parent)@, d),
        (a as int) < old(parent)@.len(),
        (b as int) < old(parent)@.len(),
    ensures
        final(parent)@.len() == old(parent)@.len(),
        uf_ok(final(parent)@, nd@),
        forall|y: int| 0 <= y < old(parent)@.len() ==> #[trigger] uf_root(final(parent)@, nd@, y) == (if uf_root(old(parent)@, d, y) == uf_root(old(parent)@, d, a as int) {
            uf_root(old(parent)@, d, b as int)
        } else {
            uf_root(old(parent)@, d, y)
        }),
{
    let ghost p0 = parent@;
    let ra = uf_find(parent, a, Ghost(d));
    let rb = uf_find(parent, b, Ghost(d));
    let ghost mid = parent@;
    if ra != rb {
        proof {
            lemma_union_roots(p0, mid, d, a as int, b as int);
            lemma_root_props(p0, d, a as int);
        }
        parent.set(ra, rb);
        Ghost(linked_ranks(mid, d, ra as int, rb as int))
    } else {
        Ghost(d)
    }
}

/// The names seen so far, each once, in the order they were first seen.
struct VarIntern {
    names: Vec<String>,
}

impl VarIntern {
    spec fn distinct(&self) -> bool {
        forall|i: int, j: int| 0 <= i < j < self.names@.len() ==> self.names@[i]@ != self.names@[j]@
    }

    /// Position of `name`, adding it at the end when it is new.
    fn intern(&mut self, name: &str) -> (id: usize)
        requires
            old(self).distinct(),
        ensures
            final(self).distinct(),
            id < final(self).names@.len(),
            final(self).names@[id as int]@ == name@,
            forall|i: int| 0 <= i < old(self).names@.len() ==> final(self).names@[i] == old(self).names@[i],
            final(self).names@.len() == old(self).names@.len() || (final(self).names@.len() == old(self).names@.len() + 1
                && id == old(self).names@.len()
                && forall|i: int| 0 <= i < old(self).names@.len() ==> (#[trigger] old(self).names@[i])@ != name@),
    {
        let mut i: usize = 0;
        while i < self.names.len()
            invariant
                self.names@ == old(self).names@,
                old(self).distinct(),
                i <= self.names@.len(),
                forall|k: int| 0 <= k < i ==> (#[trigger] self.names@[k])@ != name@,
            decreases self.names.len() - i,
        {
            if str_eq(self.names[i].as_str(), name) {
                return i;
            }
            i = i + 1;
        }
        let ghost before = self.names@;
        self.names.push(String::from_str(name));
        proof {
            assert forall|a: int, b: int| 0 <= a < b < self.names@.len() implies self.names@[a]@ != self.names@[b]@ by {
                if b == before.len() {
                    assert(before[a] == self.names@[a]);
                } else {
                    assert(before[a] == self.names@[a] && before[b] == self.names@[b]);
                }
            }
        }
        i
    }
}


/// The link a dotted name brings: the name and its base before the first `.`.
pub open spec fn field_links(n: Seq<char>) -> Seq<(Seq<char>, Seq<char>)> {
    let k = find_from(n, seq!['.'], 0);
    if k >= 0 {
        seq![(n, n.subrange(0, k))]
    } else {
        Seq::empty()
    }
}

/// The field links of a list of names, in order.
pub open spec fn names_links(ns: Seq<Seq<char>>) -> Seq<(Seq<char>, Seq<char>)>
    decreases ns.len(),
{
    if ns.len() == 0 {
        Seq::empty()
    } else {
        names_links(ns.drop_last()) + field_links(ns.last())
    }
}

proof fn lemma_names_links_take(ns: Seq<Seq<char>>, k: int)
    requires
        0 <= k < ns.len(),
    ensures
        names_links(ns.take(k + 1)) == names_links(ns.take(k)) + field_links(ns[k]),
{
    assert(ns.take(k + 1).drop_last() =~= ns.take(k));
}

/// Canonical names of what a statement defines.
pub open spec fn def_names(st: Statement) -> Seq<Seq<char>> {
    st.defined_vars@.map_values(|v: DefVar| def_name(v))
}

/// Names a statement uses.
pub open spec fn use_names(st: Statement) -> Seq<Seq<char>> {
    st.used_vars@.map_values(|u: String| u@)
}

/// A plain copy `a = b`: one defined and one used name, neither with a `.`.
pub open spec fn copy_links(st: Statement) -> Seq<(Seq<char>, Seq<char>)> {
    let ds = def_names(st);
    let us = use_names(st);
    if ds.len() == 1 && us.len() == 1 && find_from(ds[0], seq!['.'], 0) < 0 && find_from(us[0], seq!['.'], 0) < 0 {
        seq![(ds[0], us[0])]
    } else {
        Seq::empty()
    }
}

/// Links of one statement: field links of its definitions, then of its uses, then a copy.
pub open spec fn statement_links(st: Statement) -> Seq<(Seq<char>, Seq<char>)> {
    names_links(def_names(st)) + names_links(use_names(st)) + copy_links(st)
}

pub open spec fn statements_links(ss: Seq<Statement>) -> Seq<(Seq<char>, Seq<char>)>
    decreases ss.len(),
{
    if ss.len() == 0 {
        Seq::empty()
    } else {
        statements_links(ss.drop_last()) + statement_links(ss.last())
    }
}

pub open spec fn blocks_links(bs: Seq<BasicBlock>) -> Seq<(Seq<char>, Seq<char>)>
    decreases bs.len(),
{
    if bs.len() == 0 {
        Seq::empty()
    } else {
        blocks_links(bs.drop_last()) + statements_links(bs.last().statements@)
    }
}

/// All links that `may_alias_names` follows from `seed` in `cfg`.
pub open spec fn alias_links(cfg: ControlFlowGraph, seed: Seq<char>) -> Seq<(Seq<char>, Seq<char>)> {
    field_links(seed) + blocks_links(cfg.blocks@)
}

spec fn interned(names: Seq<String>, x: Seq<char>) -> bool {
    exists|i: int| 0 <= i < names.len() && (#[trigger] names[i])@ == x
}

/// Interned names with their union-find forest, and the links joined so far.
struct AliasSets {
    intern: VarIntern,
    parent: Vec<usize>,
    ranks: Ghost<Seq<nat>>,
    links: Ghost<Seq<(Seq<char>, Seq<char>)>>,
}

impl AliasSets {
    /// Two names share a root exactly when the links connect them, and every link joins
    /// interned names.
    spec fn inv(&self) -> bool {
        let n = self.intern.names@;
        let p = self.parent@;
        let d = self.ranks@;
        let l = self.links@;
        &&& self.intern.distinct()
        &&& p.len() == n.len()
        &&& uf_ok(p, d)
        &&& forall|i: int, j: int|
            #![trigger uf_root(p, d, i), uf_root(p, d, j)]
            #![trigger connected(l, n[i]@, n[j]@)]
            0 <= i < n.len() && 0 <= j < n.len() ==> (uf_root(p, d, i) == uf_root(p, d, j) <==> connected(l, n[i]@, n[j]@))
        &&& forall|k: int| 0 <= k < l.len() ==> interned(n, (#[trigger] l[k]).0) && interned(n, l[k].1)
    }

    fn new() -> (r: Self)
        ensures
            r.inv(),
            r.intern.names@.len() == 0,
            r.links@ == Seq::<(Seq<char>, Seq<char>)>::empty(),
    {
        AliasSets { intern: VarIntern { names: Vec::new() }, parent: Vec::new(), ranks: Ghost(Seq::empty()), links: Ghost(Seq::empty()) }
    }

    /// Interns `name` and gives it a tree of its own when it is new.
    fn intern_name(&mut self, name: &str) -> (id: usize)
        requires
            old(self).inv(),
        ensures
            final(self).inv(),
            final(self).links@ == old(self).links@,
            id < final(self).intern.names@.len(),
            final(self).intern.names@[id as int]@ == name@,
            old(self).intern.names@.len() <= final(self).intern.names@.len() <= old(self).intern.names@.len() + 1,
            forall|i: int| 0 <= i < old(self).intern.names@.len() ==> final(self).intern.names@[i] == old(self).intern.names@[i],
    {
        let ghost n0 = self.intern.names@;
        let ghost p0 = self.parent@;
        let ghost d0 = self.ranks@;
        let ghost l = self.links@;
        let id = self.intern.intern(name);
        let count = self.intern.names.len();
        assert(id < count);
        let nd = grow_parent(&mut self.parent, id, self.ranks);
        self.ranks = nd;
        proof {
            let n = self.intern.names@;
            let p = self.parent@;
            let d = self.ranks@;
            assert(p.len() == n.len());
            assert forall|k: int| 0 <= k < l.len() implies interned(n, (#[trigger] l[k]).0) && interned(n, l[k].1) by {
                let i0 = choose|i: int| 0 <= i < n0.len() && (#[trigger] n0[i])@ == l[k].0;
                let i1 = choose|i: int| 0 <= i < n0.len() && (#[trigger] n0[i])@ == l[k].1;
                assert(n[i0] == n0[i0]);
                assert(n[i1] == n0[i1]);
            }
            assert forall|i: int, j: int| 0 <= i < n.len() && 0 <= j < n.len() implies (uf_root(p, d, i) == uf_root(p, d, j) <==> connected(l, n[i]@, n[j]@)) by {
                if i < n0.len() && j < n0.len() {
                    assert(n[i] == n0[i] && n[j] == n0[j]);
                    assert(uf_root(p0, d0, i) == uf_root(p0, d0, j) <==> connected(l, n0[i]@, n0[j]@));
                } else {
                    assert(n.len() == n0.len() + 1);
                    assert forall|k: int| 0 <= k < l.len() implies (#[trigger] l[k]).0 != name@ && l[k].1 != name@ by {
                        let i0 = choose|i: int| 0 <= i < n0.len() && (#[trigger] n0[i])@ == l[k].0;
                        let i1 = choose|i: int| 0 <= i < n0.len() && (#[trigger] n0[i])@ == l[k].1;
                    }
                    if i == j {
                        lemma_connected_refl(l, n[i]@);
                    } else if i < n0.len() {
                        assert(j == n0.len());
                        lemma_root_props(p0, d0, i);
                        assert(n[i] == n0[i]);
                        if connected(l, n[i]@, n[j]@) {
                            lemma_connected_sym(l, n[i]@, n[j]@);
                            lemma_connected_isolated(l, n[j]@, n[i]@);
                        }
                    } else {
                        assert(i == n0.len());
                        lemma_root_props(p0, d0, j);
                        assert(n[j] == n0[j]);
                        if connected(l, n[i]@, n[j]@) {
                            lemma_connected_isolated(l, n[i]@, n[j]@);
                        }
                    }
                }
            }
        }
        id
    }

    /// Interns both names and joins their sets.
    fn union_names(&mut self, a: &str, b: &str)
        requires
            old(self).inv(),
        ensures
            final(self).inv(),
            final(self).links@ == old(self).links@.push((a@, b@)),
            old(self).intern.names@.len() <= final(self).intern.names@.len(),
            forall|i: int| 0 <= i < old(self).intern.names@.len() ==> final(self).intern.names@[i] == old(self).intern.names@[i],
    {
        let a_id = self.intern_name(a);
        let b_id = self.intern_name(b);
        let ghost n = self.intern.names@;
        let ghost p0 = self.parent@;
        let ghost d0 = self.ranks@;
        let ghost l = self.links@;
        proof {
            assert(n[a_id as int]@ == a@);
        }
        let nd = uf_union(&mut self.parent, a_id, b_id, self.ranks);
        self.ranks = nd;
        self.links = Ghost(l.push((a@, b@)));
        proof {
            let p = self.parent@;
            let d = self.ranks@;
            let nl = self.links@;
            let ai = a_id as int;
            let bi = b_id as int;
            assert forall|i: int, j: int| 0 <= i < n.len() && 0 <= j < n.len() implies (uf_root(p, d, i) == uf_root(p, d, j) <==> connected(nl, n[i]@, n[j]@)) by {
                lemma_connected_push(l, a@, b@, n[i]@, n[j]@);
                assert(uf_root(p0, d0, i) == uf_root(p0, d0, j) <==> connected(l, n[i]@, n[j]@));
                assert(uf_root(p0, d0, i) == uf_root(p0, d0, ai) <==> connected(l, n[i]@, n[ai]@));
                assert(uf_root(p0, d0, bi) == uf_root(p0, d0, j) <==> connected(l, n[bi]@, n[j]@));
                assert(uf_root(p0, d0, i) == uf_root(p0, d0, bi) <==> connected(l, n[i]@, n[bi]@));
                assert(uf_root(p0, d0, ai) == uf_root(p0, d0, j) <==> connected(l, n[ai]@, n[j]@));
                assert(uf_root(p, d, i) == (if uf_root(p0, d0, i) == uf_root(p0, d0, ai) { uf_root(p0, d0, bi) } else { uf_root(p0, d0, i) }));
                assert(uf_root(p, d, j) == (if uf_root(p0, d0, j) == uf_root(p0, d0, ai) { uf_root(p0, d0, bi) } else { uf_root(p0, d0, j) }));
            }
            assert forall|k: int| 0 <= k < nl.len() implies interned(n, (#[trigger] nl[k]).0) && interned(n, nl[k].1) by {
                if k < l.len() {
                    assert(nl[k] == l[k]);
                } else {
                    assert(nl[k] == (a@, b@));
                    assert(n[ai]@ == a@);
                    assert(n[bi]@ == b@);
                }
            }
        }
    }

    /// Interns `name`; a dotted name is joined with its base before the first `.`.
    fn link_name(&mut self, name: &str)
        requires
            old(self).inv(),
        ensures
            final(self).inv(),
            final(self).links@ == old(self).links@ + field_links(name@),
            interned(final(self).intern.names@, name@),
            old(self).intern.names@.len() == 0 ==> final(self).intern.names@[0]@ == name@,
            old(self).intern.names@.len() <= final(self).intern.names@.len(),
            forall|i: int| 0 <= i < old(self).intern.names@.len() ==> final(self).intern.names@[i] == old(self).intern.names@[i],
    {
        let ghost l0 = self.links@;
        let id = self.intern_name(name);
        let cs = chars_of(name);
        let dot = vec!['.'];
        proof {
            assert(dot@ == seq!['.']);
        }
        match find_sub(cs.as_slice(), dot.as_slice()) {
            Some(k) => {
                let base_chars = chars_slice(cs.as_slice(), 0, k);
                let base = string_from_chars(base_chars.as_slice());
                let ghost n1 = self.intern.names@;
                self.union_names(name, base.as_str());
                proof {
                    assert(self.links@ =~= l0 + field_links(name@));
                    assert(self.intern.names@[id as int] == n1[id as int]);
                }
            },
            None => {
                proof {
                    assert(self.links@ =~= l0 + field_links(name@));
                }
            },
        }
    }

    /// Interns and links every name of `st`, then joins a plain copy `a = b`.
    fn link_statement(&mut self, st: &Statement)
        requires
            old(self).inv(),
        ensures
            final(self).inv(),
            final(self).links@ == old(self).links@ + statement_links(*st),
            old(self).intern.names@.len() <= final(self).intern.names@.len(),
            forall|i: int| 0 <= i < old(self).intern.names@.len() ==> final(self).intern.names@[i] == old(self).intern.names@[i],
    {
        let ghost l0 = self.links@;
        let ghost n0 = self.intern.names@;
        let ghost ds = def_names(*st);
        let ghost us = use_names(*st);
        let mut k: usize = 0;
        while k < st.defined_vars.len()
            invariant
                self.inv(),
                ds == def_names(*st),
                k <= st.defined_vars@.len(),
                self.links@ == l0 + names_links(ds.take(k as int)),
                n0.len() <= self.intern.names@.len(),
                forall|i: int| 0 <= i < n0.len() ==> self.intern.names@[i] == n0[i],
            decreases st.defined_vars.len() - k,
        {
            let dn = st.defined_vars[k].name();
            let ghost before = self.links@;
            self.link_name(dn.as_str());
            proof {
                lemma_names_links_take(ds, k as int);
                assert(self.links@ =~= l0 + names_links(ds.take(k as int + 1)));
            }
            k = k + 1;
        }
        proof {
            assert(ds.take(ds.len() as int) =~= ds);
        }
        let ghost l1 = self.links@;
        let mut k: usize = 0;
        while k < st.used_vars.len()
            invariant
                self.inv(),
                us == use_names(*st),
                k <= st.used_vars@.len(),
                self.links@ == l1 + names_links(us.take(k as int)),
                n0.len() <= self.intern.names@.len(),
                forall|i: int| 0 <= i < n0.len() ==> self.intern.names@[i] == n0[i],
            decreases st.used_vars.len() - k,
        {
            self.link_name(st.used_vars[k].as_str());
            proof {
                lemma_names_links_take(us, k as int);
                assert(self.links@ =~= l1 + names_links(us.take(k as int + 1)));
            }
            k = k + 1;
        }
        proof {
            assert(us.take(us.len() as int) =~= us);
        }
        let ghost l2 = self.links@;
        if st.defined_vars.len() == 1 && st.used_vars.len() == 1 {
            let dn = st.defined_vars[0].name();
            let un = st.used_vars[0].as_str();
            let dot = vec!['.'];
            proof {
                assert(dot@ == seq!['.']);
            }
            let dc = chars_of(dn.as_str());
            let uc = chars_of(un);
            let d_dot = find_sub(dc.as_slice(), dot.as_slice());
            let u_dot = find_sub(uc.as_slice(), dot.as_slice());
            if d_dot.is_none() && u_dot.is_none() {
                self.union_names(dn.as_str(), un);
                proof {
                    assert(copy_links(*st) == seq![(dn@, un@)]);
                    assert(self.links@ =~= l0 + statement_links(*st));
                }
            } else {
                proof {
                    assert(copy_links(*st) =~= Seq::<(Seq<char>, Seq<char>)>::empty());
                    assert(self.links@ =~= l0 + statement_links(*st));
                }
            }
        } else {
            proof {
                assert(copy_links(*st) =~= Seq::<(Seq<char>, Seq<char>)>::empty());
                assert(self.links@ =~= l0 + statement_links(*st));
            }
        }
    }
}


proof fn lemma_statements_links_take(ss: Seq<Statement>, k: int)
    requires
        0 <= k < ss.len(),
    ensures
        statements_links(ss.take(k + 1)) == statements_links(ss.take(k)) + statement_links(ss[k]),
{
    assert(ss.take(k + 1).drop_last() =~= ss.take(k));
}

proof fn lemma_blocks_links_take(bs: Seq<BasicBlock>, k: int)
    requires
        0 <= k < bs.len(),
    ensures
        blocks_links(bs.take(k + 1)) == blocks_links(bs.take(k)) + statements_links(bs[k].statements@),
{
    assert(bs.take(k + 1).drop_last() =~= bs.take(k));
}

/// A name that some chain of links reaches from another name appears in one of the links.
proof fn lemma_reached_is_linked(l: Seq<(Seq<char>, Seq<char>)>, x: Seq<char>, y: Seq<char>)
    requires
        connected(l, x, y),
        x != y,
    ensures
        exists|k: int| 0 <= k < l.len() && ((#[trigger] l[k]).0 == y || l[k].1 == y),
{
    if forall|k: int| 0 <= k < l.len() ==> (#[trigger] l[k]).0 != y && l[k].1 != y {
        lemma_connected_sym(l, x, y);
        lemma_connected_isolated(l, y, x);
    }
}

/// The names whose root is the root of `seed`, in order, with their positions.
fn members_with_root(parent: &mut Vec<usize>, names: &Vec<String>, Ghost(d): Ghost<Seq<nat>>, seed: usize) -> (out: (Vec<String>, Ghost<Seq<int>>))
    requires
        uf_ok(old(parent)@, d),
        old(parent)@.len() == names@.len(),
        (seed as int) < names@.len(),
    ensures
        ({
            let (r, idx) = out;
            let p0 = old(parent)@;
            &&& r@.len() == idx@.len()
            &&& forall|m: int| 0 <= m < idx@.len() ==> 0 <= #[trigger] idx@[m] < names@.len() && uf_root(p0, d, idx@[m]) == uf_root(p0, d, seed as int) && r@[m]@ == names@[idx@[m]]@
            &&& forall|m1: int, m2: int| 0 <= m1 < m2 < idx@.len() ==> idx@[m1] < idx@[m2]
            &&& forall|y: int| 0 <= y < names@.len() && uf_root(p0, d, y) == uf_root(p0, d, seed as int) ==> exists|m: int| 0 <= m < idx@.len() && #[trigger] idx@[m] == y
        }),
{
    let ghost p0 = parent@;
    let seed_root = uf_find(parent, seed, Ghost(d));
    let mut r: Vec<String> = Vec::new();
    let ghost mut idx: Seq<int> = Seq::empty();
    let mut k: usize = 0;
    while k < names.len()
        invariant
            p0 == old(parent)@,
            p0.len() == names@.len(),
            parent@.len() == p0.len(),
            uf_ok(parent@, d),
            forall|y: int| 0 <= y < p0.len() ==> #[trigger] uf_root(parent@, d, y) == uf_root(p0, d, y),
            seed_root as int == uf_root(p0, d, seed as int),
            k <= names@.len(),
            r@.len() == idx.len(),
            forall|m: int| 0 <= m < idx.len() ==> 0 <= #[trigger] idx[m] < k && uf_root(p0, d, idx[m]) == seed_root as int && r@[m]@ == names@[idx[m]]@,
            forall|m1: int, m2: int| 0 <= m1 < m2 < idx.len() ==> idx[m1] < idx[m2],
            forall|y: int| 0 <= y < k && uf_root(p0, d, y) == seed_root as int ==> exists|m: int| 0 <= m < idx.len() && #[trigger] idx[m] == y,
        decreases names.len() - k,
    {
        let ghost before = parent@;
        let ghost idx0 = idx;
        let rk = uf_find(parent, k, Ghost(d));
        proof {
            assert(rk as int == uf_root(p0, d, k as int));
            assert forall|y: int| 0 <= y < p0.len() implies #[trigger] uf_root(parent@, d, y) == uf_root(p0, d, y) by {
                assert(uf_root(before, d, y) == uf_root(p0, d, y));
            }
        }
        if rk == seed_root {
            r.push(names[k].clone());
            proof {
                idx = idx.push(k as int);
                assert(idx[idx.len() - 1] == k as int);
                assert forall|y: int| 0 <= y < k + 1 && uf_root(p0, d, y) == seed_root as int implies exists|m: int| 0 <= m < idx.len() && #[trigger] idx[m] == y by {
                    if y < k {
                        let m = choose|m: int| 0 <= m < idx0.len() && #[trigger] idx0[m] == y;
                        assert(idx[m] == idx0[m]);
                    } else {
                        assert(idx[idx.len() - 1] == y);
                    }
                }
            }
        } else {
            proof {
                assert forall|y: int| 0 <= y < k + 1 && uf_root(p0, d, y) == seed_root as int implies exists|m: int| 0 <= m < idx.len() && #[trigger] idx[m] == y by {
                    if y < k {
                        let m = choose|m: int| 0 <= m < idx0.len() && #[trigger] idx0[m] == y;
                    }
                }
            }
        }
        k = k + 1;
    }
    (r, Ghost(idx))
}

/// The may-alias set of `seed`: every name that field links (`a.b` with `a`) and plain copies
/// (`a = b`) in `cfg` connect to `seed`, `seed` included, each once.
pub fn may_alias_names(cfg: &ControlFlowGraph, seed: &str) -> (r: Vec<String>)
    ensures
        forall|a: int, b: int| 0 <= a < b < r@.len() ==> r@[a]@ != r@[b]@,
        forall|n: Seq<char>| (exists|m: int| 0 <= m < r@.len() && (#[trigger] r@[m])@ == n) <==> connected(alias_links(*cfg, seed@), seed@, n),
{
    let mut sets = AliasSets::new();
    sets.link_name(seed);
    proof {
        assert(blocks_links(cfg.blocks@.take(0)) =~= Seq::<(Seq<char>, Seq<char>)>::empty());
        assert(sets.links@ =~= field_links(seed@) + blocks_links(cfg.blocks@.take(0)));
    }
    let mut i: usize = 0;
    while i < cfg.blocks.len()
        invariant
            sets.inv(),
            sets.intern.names@.len() >= 1,
            sets.intern.names@[0]@ == seed@,
            i <= cfg.blocks@.len(),
            sets.links@ == field_links(seed@) + blocks_links(cfg.blocks@.take(i as int)),
        decreases cfg.blocks.len() - i,
    {
        let block = &cfg.blocks[i];
        let ghost lb = sets.links@;
        let mut j: usize = 0;
        proof {
            assert(block.statements@.take(0) =~= Seq::<Statement>::empty());
            assert(sets.links@ =~= lb + statements_links(block.statements@.take(0)));
        }
        while j < block.statements.len()
            invariant
                sets.inv(),
                sets.intern.names@.len() >= 1,
                sets.intern.names@[0]@ == seed@,
                j <= block.statements@.len(),
                sets.links@ == lb + statements_links(block.statements@.take(j as int)),
            decreases block.statements.len() - j,
        {
            sets.link_statement(&block.statements[j]);
            proof {
                lemma_statements_links_take(block.statements@, j as int);
                assert(sets.links@ =~= lb + statements_links(block.statements@.take(j as int + 1)));
            }
            j = j + 1;
        }
        proof {
            assert(block.statements@.take(block.statements@.len() as int) =~= block.statements@);
            lemma_blocks_links_take(cfg.blocks@, i as int);
            assert(sets.links@ =~= field_links(seed@) + blocks_links(cfg.blocks@.take(i as int + 1)));
        }
        i = i + 1;
    }
    proof {
        assert(cfg.blocks@.take(cfg.blocks@.len() as int) =~= cfg.blocks@);
    }
    let ghost frozen = sets;
    let ghost names = sets.intern.names@;
    let ghost p0 = sets.parent@;
    let ghost d = sets.ranks@;
    let (r, Ghost(idx)) = members_with_root(&mut sets.parent, &sets.intern.names, sets.ranks, 0);
    proof {
        let l = frozen.links@;
        assert(frozen.inv());
        assert(l == alias_links(*cfg, seed@));
        assert forall|a: int, b: int| 0 <= a < b < r@.len() implies r@[a]@ != r@[b]@ by {
            assert(idx[a] < idx[b]);
        }
        assert forall|n: Seq<char>| (exists|m: int| 0 <= m < r@.len() && (#[trigger] r@[m])@ == n) <==> connected(l, seed@, n) by {
            if exists|m: int| 0 <= m < r@.len() && (#[trigger] r@[m])@ == n {
                let m = choose|m: int| 0 <= m < r@.len() && (#[trigger] r@[m])@ == n;
                let y = idx[m];
                assert(uf_root(p0, d, 0) == uf_root(p0, d, y));
                assert(connected(l, names[0]@, names[y]@));
            }
            if connected(l, seed@, n) {
                let y: int = if n == seed@ {
                    0
                } else {
                    lemma_reached_is_linked(l, seed@, n);
                    let k = choose|k: int| 0 <= k < l.len() && ((#[trigger] l[k]).0 == n || l[k].1 == n);
                    assert(interned(names, l[k].0) && interned(names, l[k].1));
                    choose|i: int| 0 <= i < names.len() && (#[trigger] names[i])@ == n
                };
                assert(0 <= y < names.len() && names[y]@ == n);
                assert(connected(l, names[0]@, names[y]@));
                assert(uf_root(p0, d, 0) == uf_root(p0, d, y));
                let m = choose|m: int| 0 <= m < idx.len() && #[trigger] idx[m] == y;
                assert(r@[m]@ == names[idx[m]]@);
            }
        }
    }
    r
}

} // verus!
