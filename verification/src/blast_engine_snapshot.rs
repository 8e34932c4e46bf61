//! Reachability rows of the SCC blast-radius engine: bitset words, compressed rows,
//! on-demand ancestor sets and the snapshot header.

use vstd::prelude::*;
use crate::bits::{BitRow, bitset_contains, bitset_insert, bitset_members, bitset_new, bitset_sorted_members};
use crate::paths::{count_false, lemma_count_false_update, lemma_reach_refl, lemma_reach_step};

verus! {

#[verifier::external_type_specification]
#[verifier::external_body]
pub struct ExIoError(std::io::Error);

/// Number of set bits of `w`.
pub open spec fn popcount(w: u64) -> nat
    decreases w,
{
    if w == 0 {
        0
    } else {
        (w % 2) as nat + popcount(w / 2)
    }
}

proof fn lemma_popcount_le_64(w: u64)
    ensures
        popcount(w) <= 64,
{
    vstd::arithmetic::power2::lemma2_to64();
    lemma_popcount_bits(w, 64);
}

proof fn lemma_popcount_bits(w: u64, k: nat)
    requires
        w < vstd::arithmetic::power2::pow2(k),
    ensures
        popcount(w) <= k,
    decreases k,
{
    if w != 0 {
        if k == 0 {
            vstd::arithmetic::power2::lemma_pow2(0);
            assert(vstd::arithmetic::power2::pow2(0) == 1) by {
                vstd::arithmetic::power2::lemma2_to64();
            }
        } else {
            vstd::arithmetic::power2::lemma_pow2_unfold(k);
            lemma_popcount_bits(w / 2, (k - 1) as nat);
        }
    }
}

fn popcount_exec(w: u64) -> (r: u32)
    ensures
        r == popcount(w),
{
    let mut x = w;
    let mut c: u32 = 0;
    proof {
        lemma_popcount_le_64(w);
    }
    while x != 0
        invariant
            c + popcount(x) == popcount(w),
            popcount(w) <= 64,
        decreases x,
    {
        let ghost xo = x;
        let bit = x & 1;
        proof {
            assert(xo & 1 == xo % 2) by (bit_vector);
            assert(xo >> 1 == xo / 2) by (bit_vector);
        }
        c = c + bit as u32;
        x = x >> 1;
    }
    c
}

/// Total number of set bits over `words`.
pub open spec fn words_popcount_spec(words: Seq<u64>) -> nat
    decreases words.len(),
{
    if words.len() == 0 {
        0
    } else {
        words_popcount_spec(words.drop_last()) + popcount(words.last())
    }
}

/// Total number of set bits over `words`.
pub fn words_popcount(words: &[u64]) -> (r: u32)
    requires
        words_popcount_spec(words@) <= u32::MAX,
    ensures
        r == words_popcount_spec(words@),
{
    let mut total: u32 = 0;
    let mut i: usize = 0;
    while i < words.len()
        invariant
            i <= words@.len(),
            total == words_popcount_spec(words@.take(i as int)),
            words_popcount_spec(words@) <= u32::MAX,
        decreases words.len() - i,
    {
        proof {
            assert(words@.take(i as int + 1).drop_last() =~= words@.take(i as int));
            lemma_words_popcount_prefix(words@, i as int + 1);
        }
        let c = popcount_exec(words[i]);
        total = total + c;
        i = i + 1;
    }
    proof {
        assert(words@.take(i as int) =~= words@);
    }
    total
}

proof fn lemma_words_popcount_prefix(w: Seq<u64>, k: int)
    requires
        0 <= k <= w.len(),
    ensures
        words_popcount_spec(w.take(k)) <= words_popcount_spec(w),
    decreases w.len() - k,
{
    if k < w.len() {
        lemma_words_popcount_prefix(w, k + 1);
        assert(w.take(k + 1).drop_last() =~= w.take(k));
    } else {
        assert(w.take(k) =~= w);
    }
}

/// Callers of `v` among the DAG edges whose ends are both below `n`, in edge order.
pub open spec fn callers_of(edges: Seq<(usize, usize)>, n: int, v: int) -> Seq<usize>
    decreases edges.len(),
{
    if edges.len() == 0 {
        Seq::empty()
    } else {
        let e = edges.last();
        if e.1 == v && (e.1 as int) < n && (e.0 as int) < n {
            callers_of(edges.drop_last(), n, v).push(e.0)
        } else {
            callers_of(edges.drop_last(), n, v)
        }
    }
}

/// Incoming SCC adjacency (caller lists) from condensed DAG edges.
pub fn incoming_from_dag_edges(dag_edges: &[(usize, usize)], scc_count: usize) -> (r: Vec<Vec<usize>>)
    ensures
        r@.len() == scc_count,
        forall|v: int| 0 <= v < scc_count ==> (#[trigger] r@[v])@ == callers_of(dag_edges@, scc_count as int, v),
{
    let ghost e = dag_edges@;
    let mut incoming: Vec<Vec<usize>> = Vec::new();
    let mut k: usize = 0;
    while k < scc_count
        invariant
            k <= scc_count,
            incoming@.len() == k,
            forall|v: int| 0 <= v < k ==> (#[trigger] incoming@[v])@ == Seq::<usize>::empty(),
        decreases scc_count - k,
    {
        incoming.push(Vec::new());
        k = k + 1;
    }
    let mut i: usize = 0;
    while i < dag_edges.len()
        invariant
            e == dag_edges@,
            i <= e.len(),
            incoming@.len() == scc_count,
            forall|v: int| 0 <= v < scc_count ==> (#[trigger] incoming@[v])@ == callers_of(e.take(i as int), scc_count as int, v),
        decreases e.len() - i,
    {
        let (from, to) = dag_edges[i];
        proof {
            assert(e.take(i as int + 1).drop_last() =~= e.take(i as int));
            assert(e.take(i as int + 1).last() == e[i as int]);
        }
        if to < scc_count && from < scc_count {
            incoming[to].push(from);
        }
        i = i + 1;
    }
    proof {
        assert(e.take(i as int) =~= e);
    }
    incoming
}

/// One step against the edge direction: `b` is a listed caller of `a` (both below `n`).
pub open spec fn caller_step(incoming: Seq<Vec<usize>>, n: int) -> spec_fn(int, int) -> bool {
    |a: int, b: int| 0 <= a < incoming.len() && 0 <= b < n && incoming[a]@.contains(b as usize)
}

/// SCCs that reach `scc_id` along caller lists (including `scc_id` itself).
pub open spec fn ancestors(incoming: Seq<Vec<usize>>, n: int, scc_id: int) -> Set<usize> {
    Set::new(|v: usize| crate::paths::reach(caller_step(incoming, n), scc_id, v as int))
}

/// A DAG edge from `a` to `b`, both below `n`.
pub open spec fn dag_step(edges: Seq<(usize, usize)>, n: int) -> spec_fn(int, int) -> bool {
    |a: int, b: int| 0 <= a < n && 0 <= b < n && exists|k: int| 0 <= k < edges.len() && #[trigger] edges[k] == (a as usize, b as usize)
}

pub proof fn lemma_callers_of_contains(edges: Seq<(usize, usize)>, n: int, v: usize, b: usize)
    ensures
        callers_of(edges, n, v as int).contains(b) <==> ((v as int) < n && (b as int) < n && exists|k: int| 0 <= k < edges.len() && #[trigger] edges[k] == (b, v)),
    decreases edges.len(),
{
    if edges.len() > 0 {
        let init = edges.drop_last();
        let e = edges.last();
        lemma_callers_of_contains(init, n, v, b);
        let r = callers_of(init, n, v as int);
        let last = edges.len() - 1;
        assert(edges[last] == e);
        if e.1 == v && (e.1 as int) < n && (e.0 as int) < n {
            crate::paths::lemma_push_contains(r, e.0, b);
        }
        if exists|k: int| 0 <= k < init.len() && #[trigger] init[k] == (b, v) {
            let k = choose|k: int| 0 <= k < init.len() && #[trigger] init[k] == (b, v);
            assert(edges[k] == init[k]);
        }
        if exists|k: int| 0 <= k < edges.len() && #[trigger] edges[k] == (b, v) {
            let k = choose|k: int| 0 <= k < edges.len() && #[trigger] edges[k] == (b, v);
            if k < init.len() {
                assert(init[k] == edges[k]);
            }
        }
    }
}

proof fn lemma_reverse_walk(incoming: Seq<Vec<usize>>, edges: Seq<(usize, usize)>, n: int, w: Seq<int>)
    requires
        n <= usize::MAX,
        incoming.len() == n,
        forall|v: int| 0 <= v < n ==> (#[trigger] incoming[v])@ == callers_of(edges, n, v),
        crate::paths::is_walk(caller_step(incoming, n), w),
    ensures
        crate::paths::is_walk(dag_step(edges, n), w.reverse()),
{
    let r = w.reverse();
    assert forall|i: int| 0 <= i < r.len() - 1 implies #[trigger] dag_step(edges, n)(r[i], r[i + 1]) by {
        let j = w.len() - 2 - i;
        assert(caller_step(incoming, n)(w[j], w[j + 1]));
        assert(r[i] == w[j + 1] && r[i + 1] == w[j]);
        lemma_callers_of_contains(edges, n, w[j] as usize, w[j + 1] as usize);
    }
}

proof fn lemma_forward_walk(incoming: Seq<Vec<usize>>, edges: Seq<(usize, usize)>, n: int, w: Seq<int>)
    requires
        n <= usize::MAX,
        incoming.len() == n,
        forall|v: int| 0 <= v < n ==> (#[trigger] incoming[v])@ == callers_of(edges, n, v),
        crate::paths::is_walk(dag_step(edges, n), w),
    ensures
        crate::paths::is_walk(caller_step(incoming, n), w.reverse()),
{
    let r = w.reverse();
    assert forall|i: int| 0 <= i < r.len() - 1 implies #[trigger] caller_step(incoming, n)(r[i], r[i + 1]) by {
        let j = w.len() - 2 - i;
        assert(dag_step(edges, n)(w[j], w[j + 1]));
        assert(r[i] == w[j + 1] && r[i + 1] == w[j]);
        lemma_callers_of_contains(edges, n, w[j + 1] as usize, w[j] as usize);
    }
}

/// The on-demand row of SCC `s` over the caller lists built from the DAG edges holds exactly
/// the SCCs that reach `s` along the edges (`s` itself included).
pub proof fn lemma_row_is_reaching_set(edges: Seq<(usize, usize)>, incoming: Seq<Vec<usize>>, n: int, s: int, v: usize)
    requires
        0 <= s < n,
        n <= usize::MAX,
        (v as int) < n,
        incoming.len() == n,
        forall|u: int| 0 <= u < n ==> (#[trigger] incoming[u])@ == callers_of(edges, n, u),
    ensures
        ancestors(incoming, n, s).contains(v) <==> crate::paths::reach(dag_step(edges, n), v as int, s),
{
    if ancestors(incoming, n, s).contains(v) {
        let w = choose|w: Seq<int>| #[trigger] crate::paths::is_walk(caller_step(incoming, n), w) && w[0] == s && w.last() == v as int;
        lemma_reverse_walk(incoming, edges, n, w);
        assert(w.reverse()[0] == v as int && w.reverse().last() == s);
        assert(crate::paths::is_walk(dag_step(edges, n), w.reverse()));
    }
    if crate::paths::reach(dag_step(edges, n), v as int, s) {
        let w = choose|w: Seq<int>| #[trigger] crate::paths::is_walk(dag_step(edges, n), w) && w[0] == v as int && w.last() == s;
        lemma_forward_walk(incoming, edges, n, w);
        assert(w.reverse()[0] == s && w.reverse().last() == v as int);
        assert(crate::paths::is_walk(caller_step(incoming, n), w.reverse()));
    }
}

/// Membership marks of `s` over `[0, n)`.
pub open spec fn member_marks(s: BitRow, n: nat) -> Seq<bool> {
    Seq::new(n, |v: int| bitset_members(s).contains(v as usize))
}

/// Inserting a fresh member below `n` removes one unmarked entry.
proof fn lemma_marks_insert(s0: BitRow, s1: BitRow, n: nat, p: usize)
    requires
        (p as int) < n,
        n <= usize::MAX,
        !bitset_members(s0).contains(p),
        bitset_members(s1) == bitset_members(s0).insert(p),
    ensures
        count_false(member_marks(s1, n)) + 1 == count_false(member_marks(s0, n)),
{
    assert forall|v: int| 0 <= v < n implies #[trigger] member_marks(s1, n)[v] == member_marks(s0, n).update(p as int, true)[v] by {
        if v != p as int {
            assert((v as usize) != p);
        }
    }
    assert(member_marks(s1, n) =~= member_marks(s0, n).update(p as int, true));
    lemma_count_false_update(member_marks(s0, n), p as int);
}

/// SCCs that reach `scc_id` in the condensed DAG, found by a depth-first walk over the
/// caller lists.
pub fn reachability_row_on_demand(incoming: &[Vec<usize>], scc_id: usize, scc_count: usize) -> (r: BitRow)
    requires
        scc_id < usize::MAX,
        scc_count < usize::MAX,
    ensures
        bitset_members(r) == ancestors(incoming@, scc_count as int, scc_id as int),
{
    let ghost rel = caller_step(incoming@, scc_count as int);
    let ghost target = ancestors(incoming@, scc_count as int, scc_id as int);
    let ghost n = scc_count as nat;
    let mut reachable = bitset_new();
    let mut stack: Vec<usize> = Vec::new();
    stack.push(scc_id);
    bitset_insert(&mut reachable, scc_id);
    proof {
        lemma_reach_refl(rel, scc_id as int);
        assert(target.contains(scc_id));
        assert(stack@[0] == scc_id);
        assert forall|a: usize, b: usize| #[trigger] rel(a as int, b as int) implies (bitset_members(reachable).contains(a) && !stack@.contains(a)
            ==> bitset_members(reachable).contains(b)) by {
            if bitset_members(reachable).contains(a) {
                assert(a == scc_id);
                assert(stack@.contains(a));
            }
        }
    }
    while stack.len() > 0
        invariant
            rel == caller_step(incoming@, scc_count as int),
            target == ancestors(incoming@, scc_count as int, scc_id as int),
            n == scc_count as nat,
            bitset_members(reachable).contains(scc_id),
            forall|v: usize| #[trigger] bitset_members(reachable).contains(v) ==> target.contains(v),
            forall|k: int| 0 <= k < stack@.len() ==> bitset_members(reachable).contains(#[trigger] stack@[k]),
            stack@.no_duplicates(),
            forall|a: usize, b: usize| #[trigger] rel(a as int, b as int) ==> (bitset_members(reachable).contains(a) && !stack@.contains(a)
                ==> bitset_members(reachable).contains(b)),
        decreases count_false(member_marks(reachable, n)), stack@.len(),
    {
        let ghost full = stack@;
        let cur = stack.pop().unwrap();
        let ghost popped_stack = stack@;
        let ghost count_at_pop = count_false(member_marks(reachable, n));
        proof {
            assert(stack@ =~= full.drop_last());
            assert(cur == full[full.len() - 1]);
            assert(!stack@.contains(cur)) by {
                if stack@.contains(cur) {
                    let k = choose|k: int| 0 <= k < stack@.len() && stack@[k] == cur;
                    assert(full[k] == full[full.len() - 1]);
                }
            }
            assert(bitset_members(reachable).contains(cur));
            assert forall|a: usize| !stack@.contains(a) && a != cur implies !full.contains(a) by {
                if full.contains(a) {
                    let k = choose|k: int| 0 <= k < full.len() && full[k] == a;
                    if k < full.len() - 1 {
                        assert(stack@[k] == a);
                    }
                }
            }
        }
        if cur < incoming.len() {
            let parents = &incoming[cur];
            let mut j: usize = 0;
            while j < parents.len()
                invariant
                    rel == caller_step(incoming@, scc_count as int),
                    target == ancestors(incoming@, scc_count as int, scc_id as int),
                    n == scc_count as nat,
                    cur < incoming@.len(),
                    *parents == incoming@[cur as int],
                    bitset_members(reachable).contains(cur),
                    !stack@.contains(cur),
                    j <= parents@.len(),
                    bitset_members(reachable).contains(scc_id),
                    forall|v: usize| #[trigger] bitset_members(reachable).contains(v) ==> target.contains(v),
                    forall|k: int| 0 <= k < stack@.len() ==> bitset_members(reachable).contains(#[trigger] stack@[k]),
                    stack@.no_duplicates(),
                    forall|a: usize, b: usize| #[trigger] rel(a as int, b as int) ==> (bitset_members(reachable).contains(a) && !stack@.contains(a)
                        && a != cur ==> bitset_members(reachable).contains(b)),
                    forall|q: int| 0 <= q < j && (parents@[q] as int) < scc_count ==> bitset_members(reachable).contains(#[trigger] parents@[q]),
                    count_false(member_marks(reachable, n)) <= count_at_pop,
                    count_false(member_marks(reachable, n)) == count_at_pop ==> stack@ == popped_stack,
                decreases parents.len() - j,
            {
                let parent = parents[j];
                if parent < scc_count {
                    let ghost before = reachable;
                    let ghost stack_before = stack@;
                    let fresh = bitset_insert(&mut reachable, parent);
                    if fresh {
                        proof {
                            lemma_marks_insert(before, reachable, n, parent);
                            assert(parents@[j as int] == parent);
                            assert(rel(cur as int, parent as int));
                            lemma_reach_step(rel, scc_id as int, cur as int, parent as int);
                            assert(target.contains(parent));
                        }
                        stack.push(parent);
                        proof {
                            assert(stack@ == stack_before.push(parent));
                            assert forall|k: int| 0 <= k < stack@.len() implies bitset_members(reachable).contains(#[trigger] stack@[k]) by {
                                if k < stack_before.len() {
                                    assert(stack@[k] == stack_before[k]);
                                    assert(bitset_members(before).contains(stack_before[k]));
                                }
                            }
                            assert(!stack_before.contains(parent)) by {
                                if stack_before.contains(parent) {
                                    let k = choose|k: int| 0 <= k < stack_before.len() && stack_before[k] == parent;
                                    assert(bitset_members(before).contains(stack_before[k]));
                                }
                            }
                            crate::paths::lemma_push_nodup(stack_before, parent);
                            assert(stack@[stack@.len() - 1] == parent);
                            assert(stack@.contains(parent));
                            assert forall|a: usize, b: usize| #[trigger] rel(a as int, b as int) implies (bitset_members(reachable).contains(a) && !stack@.contains(a)
                                && a != cur ==> bitset_members(reachable).contains(b)) by {
                                if bitset_members(reachable).contains(a) && !stack@.contains(a) && a != cur {
                                    assert(a != parent);
                                    assert(bitset_members(before).contains(a));
                                    assert(!stack_before.contains(a)) by {
                                        if stack_before.contains(a) {
                                            let k = choose|k: int| 0 <= k < stack_before.len() && stack_before[k] == a;
                                            assert(stack@[k] == a);
                                        }
                                    }
                                }
                            }
                            assert forall|q: int| 0 <= q < j + 1 && (parents@[q] as int) < scc_count implies bitset_members(reachable).contains(#[trigger] parents@[q]) by {
                                if q < j {
                                    assert(bitset_members(before).contains(parents@[q]));
                                }
                            }
                        }
                    } else {
                        proof {
                            assert(bitset_members(reachable) =~= bitset_members(before));
                        }
                    }
                }
                j = j + 1;
            }
            proof {
                assert forall|b: usize| #[trigger] rel(cur as int, b as int) implies bitset_members(reachable).contains(b) by {
                    let q = choose|q: int| 0 <= q < parents@.len() && parents@[q] == b;
                    assert(parents@[q] == b);
                }
            }
        } else {
            proof {
                assert forall|b: usize| #[trigger] rel(cur as int, b as int) implies bitset_members(reachable).contains(b) by {}
            }
        }
        proof {
            assert forall|a: usize, b: usize| #[trigger] rel(a as int, b as int) implies (bitset_members(reachable).contains(a) && !stack@.contains(a)
                ==> bitset_members(reachable).contains(b)) by {
                if a == cur {
                    assert(rel(cur as int, b as int));
                }
            }
        }
    }
    proof {
        let members = Set::new(|v: int| 0 <= v && v <= usize::MAX && bitset_members(reachable).contains(v as usize));
        assert(crate::paths::closed_under(rel, members)) by {
            assert forall|a: int, b: int| members.contains(a) && #[trigger] rel(a, b) implies members.contains(b) by {
                assert(bitset_members(reachable).contains(a as usize));
                assert(rel(a as usize as int, b as usize as int));
            }
        }
        assert forall|v: usize| target.contains(v) implies bitset_members(reachable).contains(v) by {
            crate::paths::lemma_closed_contains_reach(rel, members, scc_id as int, v as int);
        }
        assert(bitset_members(reachable) =~= target);
    }
    reachable
}

/// Bit `b` of `w`.
pub open spec fn word_bit(w: u64, b: int) -> bool {
    ((w >> (b as u64)) & 1u64) == 1u64
}

proof fn lemma_or_bit(x: u64, k: u64, b: u64)
    requires
        k < 64,
        b < 64,
    ensures
        word_bit(x | (1u64 << k), b as int) == (word_bit(x, b as int) || b == k),
{
    assert((((x | (1u64 << k)) >> b) & 1u64) == 1u64 <==> ((((x >> b) & 1u64) == 1u64) || b == k)) by (bit_vector)
        requires
            k < 64,
            b < 64,
    ;
}

proof fn lemma_zero_bit(b: u64)
    requires
        b < 64,
    ensures
        !word_bit(0u64, b as int),
{
    assert(((0u64 >> b) & 1u64) != 1u64) by (bit_vector);
}

proof fn lemma_and_bit(x: u64, b: u64)
    requires
        b < 64,
    ensures
        ((x & (1u64 << b)) != 0) == word_bit(x, b as int),
{
    assert(((x & (1u64 << b)) != 0) <==> (((x >> b) & 1u64) == 1u64)) by (bit_vector)
        requires
            b < 64,
    ;
}

/// Number of 64-bit words that hold `n` bits.
pub open spec fn word_count_for(n: int) -> int {
    n / 64 + (if n % 64 != 0 { 1int } else { 0int })
}

/// `words` holds, bit for bit, the members of `m` below `n`.
pub open spec fn encodes(words: Seq<u64>, m: Set<usize>, n: int) -> bool {
    &&& words.len() == word_count_for(n)
    &&& forall|w: int, b: int| 0 <= w < words.len() && 0 <= b < 64 ==> (#[trigger] word_bit(words[w], b) <==> (w * 64 + b < n
        && m.contains((w * 64 + b) as usize)))
}

/// The positions below `n` whose bit is set in `words`.
pub open spec fn decoded(words: Seq<u64>, n: int) -> Set<usize> {
    Set::new(|idx: usize| (idx as int) < n && (idx as int) < words.len() * 64 && word_bit(words[idx as int / 64], idx as int % 64))
}

/// Bitset words covering `bit_len` bits.
pub fn bitset_to_words(bs: &BitRow, bit_len: usize) -> (r: Vec<u64>)
    ensures
        encodes(r@, bitset_members(*bs), bit_len as int),
{
    let word_count = bit_len / 64 + if bit_len % 64 != 0 { 1 } else { 0 };
    let mut words: Vec<u64> = vec![0u64; word_count];
    let members = bitset_sorted_members(bs);
    let ghost m = bitset_members(*bs);
    proof {
        assert forall|w: int, b: int| 0 <= w < words@.len() && 0 <= b < 64 implies !#[trigger] word_bit(words@[w], b) by {
            lemma_zero_bit(b as u64);
        }
    }
    let mut i: usize = 0;
    while i < members.len()
        invariant
            words@.len() == word_count,
            word_count == word_count_for(bit_len as int),
            m == bitset_members(*bs),
            forall|a: int, c: int| 0 <= a < c < members@.len() ==> members@[a] < members@[c],
            forall|v: usize| members@.contains(v) <==> m.contains(v),
            i <= members@.len(),
            forall|k: int| 0 <= k < i ==> (#[trigger] members@[k] as int) < bit_len,
            forall|w: int, b: int| 0 <= w < words@.len() && 0 <= b < 64 ==> (#[trigger] word_bit(words@[w], b) <==> exists|k: int|
                0 <= k < i && members@[k] as int == w * 64 + b),
        ensures
            i == members@.len() || members@[i as int] >= bit_len,
        decreases members.len() - i,
    {
        let idx = members[i];
        if idx >= bit_len {
            break;
        }
        let w = idx / 64;
        let b = idx % 64;
        let ghost before = words@;
        let nw = words[w] | (1u64 << (b as u64));
        words.set(w, nw);
        proof {
            assert forall|w2: int, b2: int| 0 <= w2 < words@.len() && 0 <= b2 < 64 implies (#[trigger] word_bit(words@[w2], b2) <==> exists|k: int|
                0 <= k < i + 1 && members@[k] as int == w2 * 64 + b2) by {
                if w2 == w as int {
                    lemma_or_bit(before[w2], b as u64, b2 as u64);
                    if b2 == b as int {
                        assert(members@[i as int] as int == w2 * 64 + b2);
                    }
                    if exists|k: int| 0 <= k < i + 1 && members@[k] as int == w2 * 64 + b2 {
                        let k = choose|k: int| 0 <= k < i + 1 && members@[k] as int == w2 * 64 + b2;
                        if k == i as int {
                            assert(b2 == b as int);
                        }
                    }
                } else {
                    if exists|k: int| 0 <= k < i + 1 && members@[k] as int == w2 * 64 + b2 {
                        let k = choose|k: int| 0 <= k < i + 1 && members@[k] as int == w2 * 64 + b2;
                        if k == i as int {
                            assert(w2 == w as int);
                        }
                    }
                }
            }
        }
        i = i + 1;
    }
    proof {
        assert forall|w: int, b: int| 0 <= w < words@.len() && 0 <= b < 64 implies (#[trigger] word_bit(words@[w], b) <==> (w * 64 + b
            < bit_len && m.contains((w * 64 + b) as usize))) by {
            if w * 64 + b < bit_len && m.contains((w * 64 + b) as usize) {
                let v = (w * 64 + b) as usize;
                assert(members@.contains(v));
                let k = choose|k: int| 0 <= k < members@.len() && members@[k] == v;
                if k >= i {
                    assert(members@[i as int] <= members@[k]);
                }
            }
        }
    }
    words
}

/// Members of a row from bitset words, keeping positions below `bit_len`.
pub fn words_to_bitset(words: &[u64], bit_len: usize) -> (r: BitRow)
    requires
        words@.len() * 64 <= usize::MAX,
    ensures
        bitset_members(r) == decoded(words@, bit_len as int),
{
    let mut bs = bitset_new();
    let mut w: usize = 0;
    while w < words.len()
        invariant
            words@.len() * 64 <= usize::MAX,
            w <= words@.len(),
            forall|idx: usize| #[trigger] bitset_members(bs).contains(idx) <==> ((idx as int) < bit_len && (idx as int) < w * 64
                && word_bit(words@[idx as int / 64], idx as int % 64)),
        decreases words.len() - w,
    {
        let word = words[w];
        let mut b: usize = 0;
        while b < 64
            invariant
                words@.len() * 64 <= usize::MAX,
                w < words@.len(),
                word == words@[w as int],
                b <= 64,
                forall|idx: usize| #[trigger] bitset_members(bs).contains(idx) <==> ((idx as int) < bit_len && ((idx as int) < w * 64 || (w
                    * 64 <= idx < w * 64 + b)) && word_bit(words@[idx as int / 64], idx as int % 64)),
            ensures
                forall|x: usize| #[trigger] bitset_members(bs).contains(x) <==> ((x as int) < bit_len && (x as int) < w * 64 + 64
                    && word_bit(words@[x as int / 64], x as int % 64)),
            decreases 64 - b,
        {
            let idx = w * 64 + b;
            if idx >= bit_len {
                proof {
                    assert forall|x: usize| #[trigger] bitset_members(bs).contains(x) <==> ((x as int) < bit_len && (x as int) < w * 64 + 64
                        && word_bit(words@[x as int / 64], x as int % 64)) by {}
                }
                break;
            }
            proof {
                lemma_and_bit(word, b as u64);
            }
            if (word & (1u64 << (b as u64))) != 0 {
                let ghost before = bs;
                bitset_insert(&mut bs, idx);
                proof {
                    assert forall|x: usize| #[trigger] bitset_members(bs).contains(x) <==> ((x as int) < bit_len && ((x as int) < w * 64 || (w
                        * 64 <= x < w * 64 + b + 1)) && word_bit(words@[x as int / 64], x as int % 64)) by {
                        if x == idx {
                            assert(x as int / 64 == w && x as int % 64 == b);
                        }
                    }
                }
            } else {
                proof {
                    assert forall|x: usize| #[trigger] bitset_members(bs).contains(x) <==> ((x as int) < bit_len && ((x as int) < w * 64 || (w
                        * 64 <= x < w * 64 + b + 1)) && word_bit(words@[x as int / 64], x as int % 64)) by {
                        if x == idx {
                            assert(x as int / 64 == w && x as int % 64 == b);
                        }
                    }
                }
            }
            b = b + 1;
        }
        w = w + 1;
    }
    proof {
        assert(bitset_members(bs) =~= decoded(words@, bit_len as int));
    }
    bs
}

/// Reading back the words written for a row gives the row's members below the bit
/// length.
pub proof fn lemma_words_round_trip(words: Seq<u64>, m: Set<usize>, n: int)
    requires
        encodes(words, m, n),
        0 <= n,
    ensures
        decoded(words, n) == m.filter(|v: usize| (v as int) < n),
{
    assert forall|v: usize| decoded(words, n).contains(v) <==> m.filter(|x: usize| (x as int) < n).contains(v) by {
        let w = v as int / 64;
        let b = v as int % 64;
        if (v as int) < n {
            assert(w < word_count_for(n));
            assert(word_bit(words[w], b) <==> (w * 64 + b < n && m.contains((w * 64 + b) as usize)));
        }
    }
    assert(decoded(words, n) =~= m.filter(|v: usize| (v as int) < n));
}

/// One sparse reachability row.
#[derive(Debug, Clone)]
pub struct ReachabilityRow {
    /// SCC index for this row.
    pub scc_idx: u32,
    /// zstd-compressed little-endian `u64` bitset words.
    pub compressed: Vec<u8>,
}

/// Why a reachability row could not be packed or unpacked.
#[derive(Debug, Clone, Copy, PartialEq, Eq, Structural)]
pub enum RowError {
    /// The compressor reported an error.
    Compress,
    /// The decompressor reported an error.
    Decompress,
    /// The row unpacked to a different number of bytes than its words need.
    SizeMismatch { expected: usize, got: usize },
    /// The SCC index is not below the SCC count.
    OutOfRange { scc_id: usize, scc_count: usize },
}

/// Little-endian bytes of `w`.
pub open spec fn u64_le(w: u64) -> Seq<u8> {
    seq![
        (w & 0xff) as u8,
        ((w >> 8u64) & 0xff) as u8,
        ((w >> 16u64) & 0xff) as u8,
        ((w >> 24u64) & 0xff) as u8,
        ((w >> 32u64) & 0xff) as u8,
        ((w >> 40u64) & 0xff) as u8,
        ((w >> 48u64) & 0xff) as u8,
        ((w >> 56u64) & 0xff) as u8,
    ]
}

/// Little-endian bytes of all words, in order.
pub open spec fn words_le(words: Seq<u64>) -> Seq<u8>
    decreases words.len(),
{
    if words.len() == 0 {
        Seq::empty()
    } else {
        words_le(words.drop_last()) + u64_le(words.last())
    }
}

/// The `u64` whose little-endian bytes start at `b[k]`.
pub open spec fn le_u64_at(b: Seq<u8>, k: int) -> u64 {
    (b[k] as u64) | ((b[k + 1] as u64) << 8u64) | ((b[k + 2] as u64) << 16u64) | ((b[k + 3] as u64) << 24u64) | ((b[k
        + 4] as u64) << 32u64) | ((b[k + 5] as u64) << 40u64) | ((b[k + 6] as u64) << 48u64) | ((b[k + 7] as u64) << 56u64)
}

/// The `u32` whose little-endian bytes start at `b[k]`.
pub open spec fn le_u32_at(b: Seq<u8>, k: int) -> u32 {
    (b[k] as u32) | ((b[k + 1] as u32) << 8u32) | ((b[k + 2] as u32) << 16u32) | ((b[k + 3] as u32) << 24u32)
}

pub(crate) fn le_u64_exec(b: &[u8], k: usize) -> (r: u64)
    requires
        k + 8 <= b@.len(),
    ensures
        r == le_u64_at(b@, k as int),
{
    (b[k] as u64) | ((b[k + 1] as u64) << 8u64) | ((b[k + 2] as u64) << 16u64) | ((b[k + 3] as u64) << 24u64) | ((b[k + 4] as u64)
        << 32u64) | ((b[k + 5] as u64) << 40u64) | ((b[k + 6] as u64) << 48u64) | ((b[k + 7] as u64) << 56u64)
}

pub(crate) fn le_u32_exec(b: &[u8], k: usize) -> (r: u32)
    requires
        k + 4 <= b@.len(),
    ensures
        r == le_u32_at(b@, k as int),
{
    (b[k] as u32) | ((b[k + 1] as u32) << 8u32) | ((b[k + 2] as u32) << 16u32) | ((b[k + 3] as u32) << 24u32)
}

proof fn lemma_le_round_trip(w: u64)
    ensures
        le_u64_at(u64_le(w), 0) == w,
{
    let b = u64_le(w);
    let b0 = (w & 0xff) as u8;
    let b1 = ((w >> 8u64) & 0xff) as u8;
    let b2 = ((w >> 16u64) & 0xff) as u8;
    let b3 = ((w >> 24u64) & 0xff) as u8;
    let b4 = ((w >> 32u64) & 0xff) as u8;
    let b5 = ((w >> 40u64) & 0xff) as u8;
    let b6 = ((w >> 48u64) & 0xff) as u8;
    let b7 = ((w >> 56u64) & 0xff) as u8;
    assert(b[0] == b0 && b[1] == b1 && b[2] == b2 && b[3] == b3 && b[4] == b4 && b[5] == b5 && b[6] == b6 && b[7] == b7);
    assert((b0 as u64) | ((b1 as u64) << 8u64) | ((b2 as u64) << 16u64) | ((b3 as u64) << 24u64) | ((b4 as u64) << 32u64) | ((b5
        as u64) << 40u64) | ((b6 as u64) << 48u64) | ((b7 as u64) << 56u64) == w) by (bit_vector)
        requires
            b0 == (w & 0xff) as u8,
            b1 == ((w >> 8u64) & 0xff) as u8,
            b2 == ((w >> 16u64) & 0xff) as u8,
            b3 == ((w >> 24u64) & 0xff) as u8,
            b4 == ((w >> 32u64) & 0xff) as u8,
            b5 == ((w >> 40u64) & 0xff) as u8,
            b6 == ((w >> 48u64) & 0xff) as u8,
            b7 == ((w >> 56u64) & 0xff) as u8,
    ;
}

proof fn lemma_words_le_len(words: Seq<u64>)
    ensures
        words_le(words).len() == 8 * words.len(),
    decreases words.len(),
{
    if words.len() > 0 {
        lemma_words_le_len(words.drop_last());
    }
}

proof fn lemma_words_le_at(words: Seq<u64>, i: int)
    requires
        0 <= i < words.len(),
    ensures
        le_u64_at(words_le(words), 8 * i) == words[i],
    decreases words.len(),
{
    lemma_words_le_len(words.drop_last());
    let pre = words_le(words.drop_last());
    let all = words_le(words);
    if i < words.len() - 1 {
        lemma_words_le_at(words.drop_last(), i);
        assert forall|k: int| 0 <= k < 8 implies #[trigger] all[8 * i + k] == pre[8 * i + k] by {}
        assert(le_u64_at(all, 8 * i) == le_u64_at(pre, 8 * i));
    } else {
        let lw = u64_le(words.last());
        assert forall|k: int| 0 <= k < 8 implies #[trigger] all[8 * i + k] == lw[k] by {}
        lemma_le_round_trip(words.last());
        assert(le_u64_at(all, 8 * i) == le_u64_at(lw, 0));
    }
}

/// The compressed frame that zstd's `encode_all` produces for `data` at `level`.
pub uninterp spec fn zstd_frame(data: Seq<u8>, level: i32) -> Seq<u8>;

/// zstd `encode_all` over an in-memory byte slice. The frame it returns is named, not
/// described. At level 3 reading the slice and writing the frame into a `Vec` cannot fail,
/// so the call succeeds; at other levels it may report an error.
#[verifier::external_body]
fn zstd_encode(data: &[u8], level: i32) -> (r: Result<Vec<u8>, std::io::Error>)
    ensures
        r matches Ok(v) ==> v@ == zstd_frame(data@, level),
        level == 3 ==> r is Ok,
{
    zstd::encode_all(data, level)
}

/// zstd `decode_all` over an in-memory byte slice. A frame produced by `encode_all`
/// decodes back to the bytes it was made from (the crate documents the round trip);
/// for other input only an error or some bytes are promised.
#[verifier::external_body]
fn zstd_decode(frame: &[u8]) -> (r: Result<Vec<u8>, std::io::Error>)
    ensures
        r is Ok || forall|data: Seq<u8>, level: i32| #[trigger] zstd_frame(data, level) != frame@,
        r matches Ok(v) ==> forall|data: Seq<u8>, level: i32| #[trigger] zstd_frame(data, level) == frame@ ==> v@ == data,
{
    zstd::decode_all(frame)
}

/// Compress bitset words: their little-endian bytes, zstd level 3.
pub fn compress_words(words: &[u64]) -> (r: Result<Vec<u8>, RowError>)
    requires
        words@.len() * 8 <= usize::MAX,
    ensures
        r matches Ok(v) && v@ == zstd_frame(words_le(words@), 3),
{
    let mut raw: Vec<u8> = Vec::new();
    let mut i: usize = 0;
    while i < words.len()
        invariant
            i <= words@.len(),
            raw@ == words_le(words@.take(i as int)),
        decreases words.len() - i,
    {
        let w = words[i];
        raw.push((w & 0xff) as u8);
        raw.push(((w >> 8u64) & 0xff) as u8);
        raw.push(((w >> 16u64) & 0xff) as u8);
        raw.push(((w >> 24u64) & 0xff) as u8);
        raw.push(((w >> 32u64) & 0xff) as u8);
        raw.push(((w >> 40u64) & 0xff) as u8);
        raw.push(((w >> 48u64) & 0xff) as u8);
        raw.push(((w >> 56u64) & 0xff) as u8);
        proof {
            assert(words@.take(i as int + 1).drop_last() =~= words@.take(i as int));
            assert(words@.take(i as int + 1).last() == w);
            assert(raw@ =~= words_le(words@.take(i as int + 1)));
        }
        i = i + 1;
    }
    proof {
        assert(words@.take(i as int) =~= words@);
    }
    match zstd_encode(raw.as_slice(), 3) {
        Ok(v) => Ok(v),
        Err(_) => Err(RowError::Compress),
    }
}

/// Decompress a row back into `word_count` words.
pub fn decompress_words(compressed: &[u8], word_count: usize) -> (r: Result<Vec<u64>, RowError>)
    requires
        word_count * 8 <= usize::MAX,
    ensures
        r matches Ok(v) ==> v@.len() == word_count && exists|raw: Seq<u8>| raw.len() == 8 * word_count && (forall|i: int|
            0 <= i < word_count ==> #[trigger] v@[i] == le_u64_at(raw, 8 * i)) && (forall|data: Seq<u8>, level: i32|
            #[trigger] zstd_frame(data, level) == compressed@ ==> raw == data),
        forall|data: Seq<u8>, level: i32| #[trigger] zstd_frame(data, level) == compressed@ ==> (r matches Err(e) ==> e
            == RowError::SizeMismatch { expected: (word_count * 8) as usize, got: data.len() as usize }),
        (exists|data: Seq<u8>, level: i32| #[trigger] zstd_frame(data, level) == compressed@ && data.len() == 8 * word_count)
            ==> r is Ok,
{
    let raw = match zstd_decode(compressed) {
        Ok(v) => v,
        Err(_) => {
            return Err(RowError::Decompress);
        },
    };
    words_from_le_bytes(raw.as_slice(), word_count)
}

/// Read `word_count` little-endian words from unpacked row bytes: an error naming both sizes
/// unless there are exactly eight bytes per word.
pub fn words_from_le_bytes(raw: &[u8], word_count: usize) -> (r: Result<Vec<u64>, RowError>)
    requires
        word_count * 8 <= usize::MAX,
    ensures
        raw@.len() != 8 * word_count ==> r == Err::<Vec<u64>, RowError>(RowError::SizeMismatch { expected: (word_count * 8) as usize, got: raw@.len() as usize }),
        raw@.len() == 8 * word_count ==> (r matches Ok(v) && v@.len() == word_count
            && forall|i: int| 0 <= i < word_count ==> #[trigger] v@[i] == le_u64_at(raw@, 8 * i)),
{
    if raw.len() != word_count * 8 {
        return Err(RowError::SizeMismatch { expected: word_count * 8, got: raw.len() });
    }
    let mut out: Vec<u64> = Vec::new();
    let mut i: usize = 0;
    while i < word_count
        invariant
            raw@.len() == 8 * word_count,
            word_count * 8 <= usize::MAX,
            i <= word_count,
            out@.len() == i,
            forall|k: int| 0 <= k < i ==> #[trigger] out@[k] == le_u64_at(raw@, 8 * k),
        decreases word_count - i,
    {
        let w = le_u64_exec(raw, 8 * i);
        out.push(w);
        i = i + 1;
    }
    Ok(out)
}

/// Unpacking a packed row gives the words back.
pub proof fn lemma_row_round_trip(words: Seq<u64>, frame: Seq<u8>, unpacked: Seq<u64>, raw: Seq<u8>)
    requires
        frame == zstd_frame(words_le(words), 3),
        raw.len() == 8 * unpacked.len(),
        unpacked.len() == words.len(),
        forall|i: int| 0 <= i < unpacked.len() ==> #[trigger] unpacked[i] == le_u64_at(raw, 8 * i),
        forall|data: Seq<u8>, level: i32| #[trigger] zstd_frame(data, level) == frame ==> raw == data,
    ensures
        unpacked == words,
{
    assert(zstd_frame(words_le(words), 3) == frame);
    assert(raw == words_le(words));
    assert forall|i: int| 0 <= i < words.len() implies unpacked[i] == words[i] by {
        lemma_words_le_at(words, i);
    }
    assert(unpacked =~= words);
}

/// Magic bytes for blast engine snapshots (`RBSE`).
pub open spec fn snapshot_magic() -> Seq<u8> {
    seq![0x52u8, 0x42u8, 0x53u8, 0x45u8]
}

/// Legacy dense reachability format.
pub const BLAST_SNAPSHOT_VERSION_V1: u32 = 1;

/// Sparse + zstd-compressed reachability rows.
pub const BLAST_SNAPSHOT_VERSION: u32 = 2;

/// The text that `str::from_utf8` reads from `bytes`, when they are valid UTF-8.
pub open spec fn utf8_text_of(bytes: Seq<u8>) -> Option<Seq<char>> {
    if vstd::utf8::valid_utf8(bytes) {
        Some(vstd::utf8::decode_utf8(bytes))
    } else {
        None
    }
}

/// std `str::from_utf8`, copied into a `String`: text exactly when the bytes are
/// valid UTF-8.
#[verifier::external_body]
pub(crate) fn utf8_string(bytes: &[u8]) -> (r: Option<String>)
    ensures
        match r {
            Some(s) => utf8_text_of(bytes@) == Some(s@),
            None => utf8_text_of(bytes@) is None,
        },
{
    match std::str::from_utf8(bytes) {
        Ok(s) => Some(s.to_string()),
        Err(_) => None,
    }
}

/// The string at the start of a bincode payload: a little-endian `u64` length, then that
/// many bytes of UTF-8.
pub open spec fn leading_string(payload: Seq<u8>) -> Option<Seq<char>> {
    if payload.len() < 8 {
        None
    } else {
        let len = le_u64_at(payload, 0) as usize;
        if 8 + len > usize::MAX || 8 + len > payload.len() {
            None
        } else {
            utf8_text_of(payload.subrange(8, 8 + len))
        }
    }
}

/// First field of a snapshot payload (`graph_digest: String`, bincode u64 length + UTF-8).
pub fn parse_bincode_leading_string(payload: &[u8]) -> (r: Option<String>)
    ensures
        match r {
            Some(s) => leading_string(payload@) == Some(s@),
            None => leading_string(payload@) is None,
        },
{
    if payload.len() < 8 {
        return None;
    }
    let len = le_u64_exec(payload, 0) as usize;
    let end = match 8usize.checked_add(len) {
        Some(e) => e,
        None => return None,
    };
    if end > payload.len() {
        return None;
    }
    let bytes = vstd::slice::slice_subrange(payload, 8, end);
    utf8_string(bytes)
}

/// Graph digest recorded in a snapshot file image: magic, a known version, a payload
/// length that fits, then the payload's leading string.
pub open spec fn snapshot_digest(image: Seq<u8>) -> Option<Seq<char>> {
    if image.len() < 16 || image.subrange(0, 4) != snapshot_magic() {
        None
    } else {
        let version = le_u32_at(image, 4);
        if version != 2 && version != 1 {
            None
        } else {
            let plen = le_u64_at(image, 8) as usize;
            if 16 + plen > usize::MAX || 16 + plen > image.len() {
                None
            } else {
                leading_string(image.subrange(16, 16 + plen))
            }
        }
    }
}

/// Why a snapshot file image has no payload.
#[derive(Debug, Clone, Copy, PartialEq, Eq, Structural)]
pub enum SnapshotFrameError {
    /// Shorter than the 16-byte header.
    Truncated,
    /// Does not start with `RBSE`.
    BadMagic,
    /// A version other than 1 or 2.
    BadVersion { version: u32 },
    /// Shorter than its header says.
    PayloadTruncated,
}

/// Byte range of the payload of a snapshot file image: after the magic, a supported version
/// and the payload length, as long as the image holds that many bytes.
pub fn snapshot_payload_range(b: &[u8]) -> (r: Result<(usize, usize), SnapshotFrameError>)
    ensures
        b@.len() < 16 ==> r == Err::<(usize, usize), SnapshotFrameError>(SnapshotFrameError::Truncated),
        b@.len() >= 16 && b@.subrange(0, 4) != snapshot_magic() ==> r == Err::<(usize, usize), SnapshotFrameError>(SnapshotFrameError::BadMagic),
        b@.len() >= 16 && b@.subrange(0, 4) == snapshot_magic() && le_u32_at(b@, 4) != BLAST_SNAPSHOT_VERSION
            && le_u32_at(b@, 4) != BLAST_SNAPSHOT_VERSION_V1
            ==> r == Err::<(usize, usize), SnapshotFrameError>(SnapshotFrameError::BadVersion { version: le_u32_at(b@, 4) }),
        b@.len() >= 16 && b@.subrange(0, 4) == snapshot_magic()
            && (le_u32_at(b@, 4) == BLAST_SNAPSHOT_VERSION || le_u32_at(b@, 4) == BLAST_SNAPSHOT_VERSION_V1)
            ==> (if 16 + le_u64_at(b@, 8) > b@.len() {
                r == Err::<(usize, usize), SnapshotFrameError>(SnapshotFrameError::PayloadTruncated)
            } else {
                r == Ok::<(usize, usize), SnapshotFrameError>((16, (16 + le_u64_at(b@, 8)) as usize))
            }),
{
    if b.len() < 16 {
        return Err(SnapshotFrameError::Truncated);
    }
    if !(b[0] == 0x52 && b[1] == 0x42 && b[2] == 0x53 && b[3] == 0x45) {
        proof {
            if b@.subrange(0, 4) == snapshot_magic() {
                assert(b@.subrange(0, 4)[0] == b@[0]);
                assert(b@.subrange(0, 4)[1] == b@[1]);
                assert(b@.subrange(0, 4)[2] == b@[2]);
                assert(b@.subrange(0, 4)[3] == b@[3]);
            }
        }
        return Err(SnapshotFrameError::BadMagic);
    }
    proof {
        assert(b@.subrange(0, 4) =~= snapshot_magic());
    }
    let version = le_u32_exec(b, 4);
    if version != BLAST_SNAPSHOT_VERSION && version != BLAST_SNAPSHOT_VERSION_V1 {
        return Err(SnapshotFrameError::BadVersion { version });
    }
    let payload_len = le_u64_exec(b, 8);
    if payload_len > (b.len() - 16) as u64 {
        return Err(SnapshotFrameError::PayloadTruncated);
    }
    Ok((16, 16 + payload_len as usize))
}

/// Header of a snapshot file with a payload of `payload_len` bytes: magic, version 2, length.
pub fn snapshot_header(payload_len: u64) -> (r: Vec<u8>)
    ensures
        r@ == snapshot_magic() + crate::cfg_pdg_archive::u32_le(BLAST_SNAPSHOT_VERSION) + u64_le(payload_len),
{
    let mut out: Vec<u8> = vec![0x52u8, 0x42u8, 0x53u8, 0x45u8];
    let v = BLAST_SNAPSHOT_VERSION;
    out.push((v & 0xff) as u8);
    out.push(((v >> 8u32) & 0xff) as u8);
    out.push(((v >> 16u32) & 0xff) as u8);
    out.push(((v >> 24u32) & 0xff) as u8);
    let w = payload_len;
    out.push((w & 0xff) as u8);
    out.push(((w >> 8u64) & 0xff) as u8);
    out.push(((w >> 16u64) & 0xff) as u8);
    out.push(((w >> 24u64) & 0xff) as u8);
    out.push(((w >> 32u64) & 0xff) as u8);
    out.push(((w >> 40u64) & 0xff) as u8);
    out.push(((w >> 48u64) & 0xff) as u8);
    out.push(((w >> 56u64) & 0xff) as u8);
    assert(out@ =~= snapshot_magic() + crate::cfg_pdg_archive::u32_le(BLAST_SNAPSHOT_VERSION) + u64_le(payload_len));
    out
}

/// Read the graph digest from a snapshot file image without decoding the rows.
pub fn parse_graph_digest_from_mmap(mmap: &[u8]) -> (r: Option<String>)
    ensures
        match r {
            Some(s) => snapshot_digest(mmap@) == Some(s@),
            None => snapshot_digest(mmap@) is None,
        },
{
    if mmap.len() < 16 {
        return None;
    }
    if !(mmap[0] == 0x52 && mmap[1] == 0x42 && mmap[2] == 0x53 && mmap[3] == 0x45) {
        proof {
            if mmap@.subrange(0, 4) == snapshot_magic() {
                assert(mmap@.subrange(0, 4)[0] == mmap@[0]);
                assert(mmap@.subrange(0, 4)[1] == mmap@[1]);
                assert(mmap@.subrange(0, 4)[2] == mmap@[2]);
                assert(mmap@.subrange(0, 4)[3] == mmap@[3]);
            }
        }
        return None;
    }
    proof {
        assert(mmap@.subrange(0, 4) =~= snapshot_magic());
    }
    let version = le_u32_exec(mmap, 4);
    if version != BLAST_SNAPSHOT_VERSION && version != BLAST_SNAPSHOT_VERSION_V1 {
        return None;
    }
    let payload_len = le_u64_exec(mmap, 8) as usize;
    let end = match 16usize.checked_add(payload_len) {
        Some(e) => e,
        None => return None,
    };
    if end > mmap.len() {
        return None;
    }
    let payload = vstd::slice::slice_subrange(mmap, 16, end);
    parse_bincode_leading_string(payload)
}


/// Words of `raw` read as little-endian `u64`s, `count` of them.
pub open spec fn le_words(raw: Seq<u8>, count: int) -> Seq<u64> {
    Seq::new(count as nat, |i: int| le_u64_at(raw, 8 * i))
}

/// Where the reachability rows of a condensed call graph come from.
pub enum RowSource {
    /// zstd-compressed rows from a snapshot, by SCC index; an SCC without a row reaches
    /// only itself.
    Sparse { scc_count: usize, rows: Vec<(u32, Vec<u8>)> },
    /// Rows walked on demand over the caller lists of the condensed DAG.
    OnDemand { scc_count: usize, incoming: Vec<Vec<usize>> },
    /// Rows computed ahead, by SCC index.
    Eager { scc_count: usize, rows: Vec<BitRow> },
}

/// The bytes of the last stored row for `scc_id`, if any.
pub open spec fn stored_row(rows: Seq<(u32, Vec<u8>)>, scc_id: int) -> Option<Seq<u8>>
    decreases rows.len(),
{
    if rows.len() == 0 {
        None
    } else if rows.last().0 as int == scc_id {
        Some(rows.last().1@)
    } else {
        stored_row(rows.drop_last(), scc_id)
    }
}

impl RowSource {
    /// Number of SCCs.
    pub open spec fn count(&self) -> usize {
        match self {
            RowSource::Sparse { scc_count, .. } => *scc_count,
            RowSource::OnDemand { scc_count, .. } => *scc_count,
            RowSource::Eager { scc_count, .. } => *scc_count,
        }
    }

    /// Rows of a snapshot: the stored rows when there are any, else rows walked on demand
    /// over the DAG edges.
    pub fn from_snapshot(scc_count: usize, rows: Vec<(u32, Vec<u8>)>, dag_edges: &[(usize, usize)]) -> (r: Self)
        ensures
            r.count() == scc_count,
            rows@.len() > 0 ==> r == (RowSource::Sparse { scc_count, rows }),
            rows@.len() == 0 ==> (r matches RowSource::OnDemand { incoming, .. } && incoming@.len() == scc_count
                && forall|v: int| 0 <= v < scc_count ==> (#[trigger] incoming@[v])@ == callers_of(dag_edges@, scc_count as int, v)),
    {
        if rows.len() > 0 {
            RowSource::Sparse { scc_count, rows }
        } else {
            RowSource::OnDemand { scc_count, incoming: incoming_from_dag_edges(dag_edges, scc_count) }
        }
    }

    /// Rows walked on demand from the DAG's caller lists.
    pub fn from_dag_on_demand(incoming: Vec<Vec<usize>>, scc_count: usize) -> (r: Self)
        ensures
            r == (RowSource::OnDemand { scc_count, incoming }),
    {
        RowSource::OnDemand { scc_count, incoming }
    }

    /// Reachability row of SCC `scc_id`: an error for an index not below the SCC count; on
    /// demand, the SCCs that reach it; from a snapshot, the decoded stored row, or only the SCC
    /// itself when it has no stored row; from rows computed ahead, a copy of its row (an error
    /// when there are fewer rows than SCCs).
    #[verifier::loop_isolation(false)]
    pub fn row(&self, scc_id: usize) -> (r: Result<BitRow, RowError>)
        requires
            self.count() <= usize::MAX - 64,
        ensures
            scc_id >= self.count() ==> r == Err::<BitRow, RowError>(RowError::OutOfRange { scc_id, scc_count: self.count() }),
            scc_id < self.count() ==> match self {
                RowSource::OnDemand { scc_count, incoming } => (r matches Ok(b)
                    && bitset_members(b) == ancestors(incoming@, *scc_count as int, scc_id as int)),
                RowSource::Eager { scc_count, rows } => if (scc_id as int) < rows@.len() {
                    (r matches Ok(b) && bitset_members(b) == bitset_members(rows@[scc_id as int]))
                } else {
                    r == Err::<BitRow, RowError>(RowError::OutOfRange { scc_id, scc_count: rows@.len() as usize })
                },
                RowSource::Sparse { scc_count, rows } => match stored_row(rows@, scc_id as int) {
                    None => (r matches Ok(b) && bitset_members(b) == Set::<usize>::empty().insert(scc_id)),
                    Some(bytes) => forall|data: Seq<u8>, level: i32|
                        #[trigger] zstd_frame(data, level) == bytes && data.len() == 8 * ((*scc_count as int + 63) / 64)
                        ==> (r matches Ok(b) && bitset_members(b) == decoded(le_words(data, (*scc_count as int + 63) / 64), *scc_count as int)),
                },
            },
    {
        match self {
            RowSource::OnDemand { scc_count, incoming } => {
                if scc_id >= *scc_count {
                    return Err(RowError::OutOfRange { scc_id, scc_count: *scc_count });
                }
                Ok(reachability_row_on_demand(incoming.as_slice(), scc_id, *scc_count))
            },
            RowSource::Eager { scc_count, rows } => {
                if scc_id >= *scc_count {
                    return Err(RowError::OutOfRange { scc_id, scc_count: *scc_count });
                }
                if scc_id >= rows.len() {
                    return Err(RowError::OutOfRange { scc_id, scc_count: rows.len() });
                }
                Ok(crate::bits::bitset_clone(&rows[scc_id]))
            },
            RowSource::Sparse { scc_count, rows } => {
                if scc_id >= *scc_count {
                    return Err(RowError::OutOfRange { scc_id, scc_count: *scc_count });
                }
                let word_count = (*scc_count + 63) / 64;
                assert(word_count * 64 <= *scc_count + 63) by (nonlinear_arith)
                    requires
                        word_count == (*scc_count + 63) / 64,
                ;
                let mut k = rows.len();
                proof {
                    assert(rows@.take(k as int) =~= rows@);
                }
                while k > 0
                    invariant
                        k <= rows@.len(),
                        scc_id < *scc_count,
                        *scc_count <= usize::MAX - 64,
                        word_count == (*scc_count + 63) / 64,
                        word_count * 64 <= *scc_count + 63,
                        stored_row(rows@, scc_id as int) == stored_row(rows@.take(k as int), scc_id as int),
                    decreases k,
                {
                    proof {
                        assert(rows@.take(k as int).drop_last() =~= rows@.take(k as int - 1));
                        assert(rows@.take(k as int).last() == rows@[k as int - 1]);
                    }
                    if rows[k - 1].0 as usize == scc_id {
                        let words = match decompress_words(rows[k - 1].1.as_slice(), word_count) {
                            Ok(w) => w,
                            Err(e) => {
                                return Err(e);
                            },
                        };
                        proof {
                            assert forall|data: Seq<u8>, level: i32|
                                #[trigger] zstd_frame(data, level) == rows@[k as int - 1].1@ && data.len() == 8 * word_count
                                implies words@ == le_words(data, word_count as int) by {
                                assert(words@ =~= le_words(data, word_count as int));
                            }
                        }
                        return Ok(words_to_bitset(words.as_slice(), *scc_count));
                    }
                    k = k - 1;
                }
                proof {
                    assert(rows@.take(0) =~= Seq::<(u32, Vec<u8>)>::empty());
                }
                let mut b = crate::bits::bitset_new();
                crate::bits::bitset_insert(&mut b, scc_id);
                proof {
                    assert(Set::<usize>::empty().insert(scc_id) =~= Set::<usize>::empty().insert(scc_id));
                }
                Ok(b)
            },
        }
    }
}

} // verus!
