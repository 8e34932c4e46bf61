//! Reaching definitions: the least solution of the gen/kill equations over a control-flow
//! graph, found with a worklist.

use vstd::prelude::*;
use std::collections::VecDeque;
use crate::bits::{BitRow, bitset_clone, bitset_contains, bitset_eq, bitset_insert, bitset_members, bitset_new, bitset_sorted_members, bitset_union_with};
use crate::paths::{count_false, lemma_count_false_update};
use crate::text::str_eq;
use crate::cfg::{BasicBlock, BlockId, ControlFlowGraph, has_edge, ids, lemma_pred_of_contains, lemma_succ_of_contains, pred_of, succ_of};

verus! {

/// The members of each row.
pub open spec fn rows(v: Seq<BitRow>) -> Seq<Set<usize>> {
    v.map_values(|r: BitRow| bitset_members(r))
}

/// The adjacency lists as sequences.
pub open spec fn adj(v: Seq<Vec<usize>>) -> Seq<Seq<usize>> {
    v.map_values(|l: Vec<usize>| l@)
}

/// What reaches the entry of `b`: everything that leaves one of its predecessors.
pub open spec fn flow_in(preds: Seq<Seq<usize>>, outs: Seq<Set<usize>>, b: int) -> Set<usize> {
    Set::new(|x: usize| exists|k: int| 0 <= k < preds[b].len() && #[trigger] outs[preds[b][k] as int].contains(x))
}

/// What leaves a block: its own last definitions, and what reaches it and is not redefined.
pub open spec fn transfer(gen: Set<usize>, kill: Set<usize>, in_b: Set<usize>) -> Set<usize> {
    gen.union(in_b.difference(kill))
}

/// `ins`/`outs` satisfy the reaching-definition equations of every block.
pub open spec fn is_solution(
    preds: Seq<Seq<usize>>,
    gens: Seq<Set<usize>>,
    kills: Seq<Set<usize>>,
    ins: Seq<Set<usize>>,
    outs: Seq<Set<usize>>,
) -> bool {
    &&& ins.len() == preds.len()
    &&& outs.len() == preds.len()
    &&& forall|b: int|
        0 <= b < preds.len() ==> #[trigger] ins[b] == flow_in(preds, outs, b) && outs[b] == transfer(gens[b], kills[b], ins[b])
}

/// `ins`/`outs` is a solution contained, block by block, in every solution.
pub open spec fn least_solution(
    preds: Seq<Seq<usize>>,
    gens: Seq<Set<usize>>,
    kills: Seq<Set<usize>>,
    ins: Seq<Set<usize>>,
    outs: Seq<Set<usize>>,
) -> bool {
    &&& is_solution(preds, gens, kills, ins, outs)
    &&& forall|si: Seq<Set<usize>>, so: Seq<Set<usize>>|
        #[trigger] is_solution(preds, gens, kills, si, so) ==> below(ins, outs, si, so)
}

/// Block by block, `ins`/`outs` are contained in `si`/`so`.
pub open spec fn below(ins: Seq<Set<usize>>, outs: Seq<Set<usize>>, si: Seq<Set<usize>>, so: Seq<Set<usize>>) -> bool {
    forall|b: int| 0 <= b < ins.len() ==> (#[trigger] ins[b]).subset_of(si[b]) && outs[b].subset_of(so[b])
}

/// Predecessor and successor lists of the same graph on blocks `0..n`.
pub open spec fn graph_ok(preds: Seq<Seq<usize>>, succs: Seq<Seq<usize>>) -> bool {
    &&& preds.len() == succs.len()
    &&& forall|b: int, k: int| 0 <= b < preds.len() && 0 <= k < preds[b].len() ==> (#[trigger] preds[b][k] as int) < preds.len()
    &&& forall|b: int, k: int| 0 <= b < succs.len() && 0 <= k < succs[b].len() ==> (#[trigger] succs[b][k] as int) < succs.len()
    &&& forall|b: int, k: int|
        0 <= b < preds.len() && 0 <= k < preds[b].len() ==> succs[#[trigger] preds[b][k] as int].contains(b as usize)
}

/// Number of values below `m` that `s` lacks.
pub open spec fn missing(s: Set<usize>, m: nat) -> nat
    decreases m,
{
    if m == 0 {
        0
    } else {
        missing(s, (m - 1) as nat) + if s.contains((m - 1) as usize) { 0nat } else { 1nat }
    }
}

pub open spec fn total_missing(outs: Seq<Set<usize>>, m: nat) -> nat
    decreases outs.len(),
{
    if outs.len() == 0 {
        0
    } else {
        total_missing(outs.drop_last(), m) + missing(outs.last(), m)
    }
}

proof fn lemma_missing_mono(a: Set<usize>, b: Set<usize>, m: nat)
    requires
        m <= usize::MAX + 1,
        forall|x: usize| (x as int) < m && a.contains(x) ==> b.contains(x),
    ensures
        missing(b, m) <= missing(a, m),
        (exists|x: usize| (x as int) < m && b.contains(x) && !a.contains(x)) ==> missing(b, m) < missing(a, m),
    decreases m,
{
    if m > 0 {
        lemma_missing_mono(a, b, (m - 1) as nat);
        if exists|x: usize| (x as int) < m && b.contains(x) && !a.contains(x) {
            let x = choose|x: usize| (x as int) < m && b.contains(x) && !a.contains(x);
            if (x as int) < m - 1 {
                assert(exists|y: usize| (y as int) < m - 1 && b.contains(y) && !a.contains(y));
            }
        }
    }
}

proof fn lemma_total_update(outs: Seq<Set<usize>>, i: int, s: Set<usize>, m: nat)
    requires
        0 <= i < outs.len(),
    ensures
        total_missing(outs.update(i, s), m) + missing(outs[i], m) == total_missing(outs, m) + missing(s, m),
    decreases outs.len(),
{
    let u = outs.update(i, s);
    if i < outs.len() - 1 {
        assert(u.drop_last() =~= outs.drop_last().update(i, s));
        lemma_total_update(outs.drop_last(), i, s, m);
    } else {
        assert(u.drop_last() =~= outs.drop_last());
    }
}

proof fn lemma_flow_in_mono(preds: Seq<Seq<usize>>, o1: Seq<Set<usize>>, o2: Seq<Set<usize>>, b: int)
    requires
        o1.len() == o2.len(),
        forall|c: int| 0 <= c < o1.len() ==> (#[trigger] o1[c]).subset_of(o2[c]),
        forall|k: int| 0 <= k < preds[b].len() ==> (#[trigger] preds[b][k] as int) < o1.len(),
    ensures
        flow_in(preds, o1, b).subset_of(flow_in(preds, o2, b)),
{
    assert forall|x: usize| flow_in(preds, o1, b).contains(x) implies flow_in(preds, o2, b).contains(x) by {
        let k = choose|k: int| 0 <= k < preds[b].len() && #[trigger] o1[preds[b][k] as int].contains(x);
        assert(o1[preds[b][k] as int].subset_of(o2[preds[b][k] as int]));
        assert(o2[preds[b][k] as int].contains(x));
    }
}

proof fn lemma_flow_in_frame(preds: Seq<Seq<usize>>, o: Seq<Set<usize>>, c: int, s: Set<usize>, b: int)
    requires
        0 <= c < o.len(),
        forall|k: int| 0 <= k < preds[b].len() ==> (#[trigger] preds[b][k] as int) != c && (preds[b][k] as int) < o.len(),
    ensures
        flow_in(preds, o.update(c, s), b) == flow_in(preds, o, b),
{
    let o2 = o.update(c, s);
    assert forall|x: usize| flow_in(preds, o2, b).contains(x) <==> flow_in(preds, o, b).contains(x) by {
        if flow_in(preds, o2, b).contains(x) {
            let k = choose|k: int| 0 <= k < preds[b].len() && #[trigger] o2[preds[b][k] as int].contains(x);
            assert(o[preds[b][k] as int].contains(x));
        }
        if flow_in(preds, o, b).contains(x) {
            let k = choose|k: int| 0 <= k < preds[b].len() && #[trigger] o[preds[b][k] as int].contains(x);
            assert(o2[preds[b][k] as int].contains(x));
        }
    }
    assert(flow_in(preds, o2, b) =~= flow_in(preds, o, b));
}

/// Union of the rows of `b`'s predecessors.
fn union_of_preds(preds_b: &Vec<usize>, out_bits: &Vec<BitRow>, Ghost(preds): Ghost<Seq<Seq<usize>>>, Ghost(b): Ghost<int>) -> (r: BitRow)
    requires
        0 <= b < preds.len(),
        preds[b] == preds_b@,
        forall|k: int| 0 <= k < preds_b@.len() ==> (#[trigger] preds_b@[k] as int) < out_bits@.len(),
    ensures
        bitset_members(r) == flow_in(preds, rows(out_bits@), b),
{
    let ghost o = rows(out_bits@);
    let mut r = bitset_new();
    let mut k: usize = 0;
    while k < preds_b.len()
        invariant
            0 <= b < preds.len(),
            preds[b] == preds_b@,
            o == rows(out_bits@),
            forall|j: int| 0 <= j < preds_b@.len() ==> (#[trigger] preds_b@[j] as int) < out_bits@.len(),
            k <= preds_b@.len(),
            forall|x: usize| bitset_members(r).contains(x) <==> exists|j: int| 0 <= j < k && #[trigger] o[preds_b@[j] as int].contains(x),
        decreases preds_b.len() - k,
    {
        let p = preds_b[k];
        let ghost before = bitset_members(r);
        bitset_union_with(&mut r, &out_bits[p]);
        proof {
            assert forall|x: usize| bitset_members(r).contains(x) <==> exists|j: int| 0 <= j < k + 1 && #[trigger] o[preds_b@[j] as int].contains(x) by {
                if bitset_members(r).contains(x) && !before.contains(x) {
                    assert(o[preds_b@[k as int] as int].contains(x));
                }
                if exists|j: int| 0 <= j < k + 1 && #[trigger] o[preds_b@[j] as int].contains(x) {
                    let j = choose|j: int| 0 <= j < k + 1 && #[trigger] o[preds_b@[j] as int].contains(x);
                    if j == k {
                        assert(bitset_members(out_bits@[p as int]).contains(x));
                    }
                }
            }
        }
        k = k + 1;
    }
    proof {
        assert(bitset_members(r) =~= flow_in(preds, o, b));
    }
    r
}

/// `gen ∪ (in_b \ kill)`.
fn apply_transfer(gen: &BitRow, kill: &BitRow, in_b: &BitRow) -> (r: BitRow)
    requires
        forall|x: usize| bitset_members(*in_b).contains(x) ==> x < usize::MAX,
    ensures
        bitset_members(r) == transfer(bitset_members(*gen), bitset_members(*kill), bitset_members(*in_b)),
{
    let ghost target = transfer(bitset_members(*gen), bitset_members(*kill), bitset_members(*in_b));
    let mut out_b = bitset_clone(gen);
    let items = bitset_sorted_members(in_b);
    let mut k: usize = 0;
    while k < items.len()
        invariant
            target == transfer(bitset_members(*gen), bitset_members(*kill), bitset_members(*in_b)),
            forall|v: usize| items@.contains(v) <==> bitset_members(*in_b).contains(v),
            forall|x: usize| bitset_members(*in_b).contains(x) ==> x < usize::MAX,
            k <= items@.len(),
            forall|x: usize| bitset_members(out_b).contains(x) ==> target.contains(x),
            forall|x: usize| bitset_members(*gen).contains(x) ==> bitset_members(out_b).contains(x),
            forall|j: int| 0 <= j < k && !bitset_members(*kill).contains(#[trigger] items@[j]) ==> bitset_members(out_b).contains(items@[j]),
        decreases items.len() - k,
    {
        let x = items[k];
        proof {
            assert(items@.contains(x));
        }
        if !bitset_contains(kill, x) {
            bitset_insert(&mut out_b, x);
        }
        k = k + 1;
    }
    proof {
        assert forall|x: usize| target.contains(x) implies bitset_members(out_b).contains(x) by {
            if !bitset_members(*gen).contains(x) {
                assert(items@.contains(x));
                let j = choose|j: int| 0 <= j < items@.len() && items@[j] == x;
            }
        }
        assert(bitset_members(out_b) =~= target);
    }
    out_b
}


/// Worklist bookkeeping: `flags[c]` holds exactly when `c` waits in `wl`, once.
pub open spec fn queue_ok(wl: Seq<usize>, flags: Seq<bool>) -> bool {
    &&& forall|k: int| 0 <= k < wl.len() ==> (#[trigger] wl[k] as int) < flags.len() && flags[wl[k] as int]
    &&& forall|c: int| 0 <= c < flags.len() && #[trigger] flags[c] ==> wl.contains(c as usize)
    &&& wl.no_duplicates()
    &&& wl.len() + count_false(flags) == flags.len()
}

/// Queues every successor that is not waiting yet.
fn enqueue_successors(succs_b: &Vec<usize>, wl: &mut VecDeque<usize>, flags: &mut Vec<bool>)
    requires
        queue_ok(old(wl)@, old(flags)@),
        forall|k: int| 0 <= k < succs_b@.len() ==> (#[trigger] succs_b@[k] as int) < old(flags)@.len(),
    ensures
        queue_ok(final(wl)@, final(flags)@),
        final(flags)@.len() == old(flags)@.len(),
        forall|c: int| 0 <= c < old(flags)@.len() && old(flags)@[c] ==> #[trigger] final(flags)@[c],
        forall|k: int| 0 <= k < succs_b@.len() ==> final(flags)@[#[trigger] succs_b@[k] as int],
        forall|c: int| 0 <= c < old(flags)@.len() && #[trigger] final(flags)@[c] ==> old(flags)@[c] || succs_b@.contains(c as usize),
{
    let ghost f0 = flags@;
    let mut k: usize = 0;
    while k < succs_b.len()
        invariant
            f0 == old(flags)@,
            queue_ok(wl@, flags@),
            flags@.len() == f0.len(),
            forall|j: int| 0 <= j < succs_b@.len() ==> (#[trigger] succs_b@[j] as int) < f0.len(),
            k <= succs_b@.len(),
            forall|c: int| 0 <= c < f0.len() && f0[c] ==> #[trigger] flags@[c],
            forall|j: int| 0 <= j < k ==> flags@[#[trigger] succs_b@[j] as int],
            forall|c: int| 0 <= c < f0.len() && #[trigger] flags@[c] ==> f0[c] || succs_b@.contains(c as usize),
        decreases succs_b.len() - k,
    {
        let s = succs_b[k];
        if !flags[s] {
            let ghost w0 = wl@;
            let ghost g0 = flags@;
            proof {
                lemma_count_false_update(g0, s as int);
                assert(!w0.contains(s));
            }
            wl.push_back(s);
            flags.set(s, true);
            proof {
                assert(succs_b@.contains(s));
                assert forall|c: int| 0 <= c < flags@.len() && #[trigger] flags@[c] implies wl@.contains(c as usize) by {
                    if c != s as int {
                        assert(g0[c]);
                        let j = choose|j: int| 0 <= j < w0.len() && w0[j] == c as usize;
                        assert(wl@[j] == w0[j]);
                    } else {
                        assert(wl@[wl@.len() - 1] == s);
                    }
                }
                assert forall|j: int| 0 <= j < wl@.len() implies (#[trigger] wl@[j] as int) < flags@.len() && flags@[wl@[j] as int] by {
                    if j < w0.len() {
                        assert(wl@[j] == w0[j]);
                    }
                }
            }
        }
        k = k + 1;
    }
}

/// After block `b` got the new row `fb` (strictly larger, and every successor of `b` was
/// queued), the solver's invariants hold again and fewer values are missing.
proof fn lemma_update_facts(
    pg: Seq<Seq<usize>>,
    sg: Seq<Seq<usize>>,
    gs: Seq<Set<usize>>,
    ks: Seq<Set<usize>>,
    i0: Seq<Set<usize>>,
    o0: Seq<Set<usize>>,
    b: int,
    ib: Set<usize>,
    fb: Set<usize>,
    flags: Seq<bool>,
    f1: Seq<bool>,
    m: nat,
)
    requires
        graph_ok(pg, sg),
        gs.len() == pg.len(),
        ks.len() == pg.len(),
        i0.len() == pg.len(),
        o0.len() == pg.len(),
        flags.len() == pg.len(),
        f1.len() == pg.len(),
        0 <= b < pg.len(),
        pg.len() <= usize::MAX,
        m <= usize::MAX + 1,
        forall|c: int, x: usize| 0 <= c < pg.len() && #[trigger] o0[c].contains(x) ==> (x as int) < m,
        forall|c: int| 0 <= c < pg.len() ==> (#[trigger] o0[c]).subset_of(transfer(gs[c], ks[c], flow_in(pg, o0, c))),
        forall|c: int| 0 <= c < pg.len() && c != b && !(#[trigger] f1[c]) ==> i0[c] == flow_in(pg, o0, c) && o0[c] == transfer(gs[c], ks[c], i0[c]),
        forall|si: Seq<Set<usize>>, so: Seq<Set<usize>>| #[trigger] is_solution(pg, gs, ks, si, so) ==> below(i0, o0, si, so),
        ib == flow_in(pg, o0, b),
        fb == transfer(gs[b], ks[b], ib),
        o0[b] != fb,
        forall|x: usize| fb.contains(x) ==> (x as int) < m,
        forall|c: int| 0 <= c < pg.len() && #[trigger] f1[c] ==> flags[c],
        forall|k: int| 0 <= k < sg[b].len() ==> flags[#[trigger] sg[b][k] as int],
    ensures
        ({
            let o1 = o0.update(b, fb);
            let i1 = i0.update(b, ib);
            &&& forall|c: int, x: usize| 0 <= c < pg.len() && #[trigger] o1[c].contains(x) ==> (x as int) < m
            &&& forall|c: int| 0 <= c < pg.len() ==> (#[trigger] o1[c]).subset_of(transfer(gs[c], ks[c], flow_in(pg, o1, c)))
            &&& forall|c: int| 0 <= c < pg.len() && !(#[trigger] flags[c]) ==> i1[c] == flow_in(pg, o1, c) && o1[c] == transfer(gs[c], ks[c], i1[c])
            &&& forall|si: Seq<Set<usize>>, so: Seq<Set<usize>>| #[trigger] is_solution(pg, gs, ks, si, so) ==> below(i1, o1, si, so)
            &&& total_missing(o1, m) < total_missing(o0, m)
        }),
{
    let o1 = o0.update(b, fb);
    let i1 = i0.update(b, ib);
    let n = pg.len();
    assert(o0[b].subset_of(fb));
    assert(rows_below(o0, o1)) by {
        assert forall|c: int| 0 <= c < o0.len() implies (#[trigger] o0[c]).subset_of(o1[c]) by {
            if c == b {
                assert(o0[b].subset_of(fb));
            }
        }
    }
    assert forall|c: int| 0 <= c < n implies (#[trigger] o1[c]).subset_of(transfer(gs[c], ks[c], flow_in(pg, o1, c))) by {
        lemma_flow_in_mono(pg, o0, o1, c);
        assert(o0[c].subset_of(transfer(gs[c], ks[c], flow_in(pg, o0, c))));
    }
    assert forall|c: int| 0 <= c < n && !(#[trigger] flags[c]) implies i1[c] == flow_in(pg, o1, c) && o1[c] == transfer(gs[c], ks[c], i1[c]) by {
        assert forall|k: int| 0 <= k < pg[c].len() implies (#[trigger] pg[c][k] as int) != b && (pg[c][k] as int) < o0.len() by {
            if pg[c][k] as int == b {
                assert(sg[pg[c][k] as int].contains(c as usize));
                assert(sg[b].contains(c as usize));
                let j = choose|j: int| 0 <= j < sg[b].len() && sg[b][j] == c as usize;
                assert(flags[sg[b][j] as int]);
            }
        }
        lemma_flow_in_frame(pg, o0, b, fb, c);
        if c != b {
            assert(!f1[c]);
        }
    }
    assert forall|si: Seq<Set<usize>>, so: Seq<Set<usize>>| #[trigger] is_solution(pg, gs, ks, si, so) implies below(i1, o1, si, so) by {
        assert(below(i0, o0, si, so));
        assert(rows_below(o0, so)) by {
            assert forall|c: int| 0 <= c < o0.len() implies (#[trigger] o0[c]).subset_of(so[c]) by {
                assert(i0[c].subset_of(si[c]));
            }
        }
        lemma_flow_in_mono(pg, o0, so, b);
        assert(si[b] == flow_in(pg, so, b) && so[b] == transfer(gs[b], ks[b], si[b]));
        assert forall|c: int| 0 <= c < i1.len() implies (#[trigger] i1[c]).subset_of(si[c]) && o1[c].subset_of(so[c]) by {
            assert(i0[c].subset_of(si[c]));
        }
    }
    let x = choose|x: usize| !(o0[b].contains(x) <==> fb.contains(x));
    assert(!(o0[b] =~= fb));
    assert(fb.contains(x) && !o0[b].contains(x));
    lemma_missing_mono(o0[b], fb, m);
    lemma_total_update(o0, b, fb, m);
}

/// Pointwise containment of the rows.
pub open spec fn rows_below(a: Seq<Set<usize>>, b: Seq<Set<usize>>) -> bool {
    &&& a.len() == b.len()
    &&& forall|c: int| 0 <= c < a.len() ==> (#[trigger] a[c]).subset_of(b[c])
}

/// The least solution of the reaching-definition equations on blocks `0..n`, from empty
/// sets, recomputing a block whenever one of its predecessors changed.
pub fn solve_reaching(
    preds: &Vec<Vec<usize>>,
    succs: &Vec<Vec<usize>>,
    gens: &Vec<BitRow>,
    kills: &Vec<BitRow>,
    m: usize,
) -> (r: (Vec<BitRow>, Vec<BitRow>))
    requires
        graph_ok(adj(preds@), adj(succs@)),
        gens@.len() == preds@.len(),
        kills@.len() == preds@.len(),
        forall|b: int, x: usize| 0 <= b < gens@.len() && #[trigger] bitset_members(gens@[b]).contains(x) ==> x < m,
    ensures
        r.0@.len() == preds@.len(),
        r.1@.len() == preds@.len(),
        least_solution(adj(preds@), rows(gens@), rows(kills@), rows(r.0@), rows(r.1@)),
{
    let ghost pg = adj(preds@);
    let ghost sg = adj(succs@);
    let ghost gs = rows(gens@);
    let ghost ks = rows(kills@);
    let n = preds.len();
    let mut in_bits: Vec<BitRow> = Vec::new();
    let mut out_bits: Vec<BitRow> = Vec::new();
    let mut flags: Vec<bool> = Vec::new();
    let mut wl: VecDeque<usize> = VecDeque::new();
    let mut i: usize = 0;
    while i < n
        invariant
            n == preds@.len(),
            i <= n,
            in_bits@.len() == i,
            out_bits@.len() == i,
            flags@.len() == i,
            wl@.len() == i,
            forall|c: int| 0 <= c < i ==> bitset_members(#[trigger] in_bits@[c]) == Set::<usize>::empty(),
            forall|c: int| 0 <= c < i ==> bitset_members(#[trigger] out_bits@[c]) == Set::<usize>::empty(),
            forall|c: int| 0 <= c < i ==> #[trigger] flags@[c],
            forall|c: int| 0 <= c < i ==> #[trigger] wl@[c] as int == c,
            count_false(flags@) == 0,
        decreases n - i,
    {
        in_bits.push(bitset_new());
        out_bits.push(bitset_new());
        let ghost f0 = flags@;
        flags.push(true);
        proof {
            assert(flags@.drop_last() =~= f0);
        }
        wl.push_back(i);
        i = i + 1;
    }
    proof {
        assert forall|c: int| 0 <= c < n && #[trigger] flags@[c] implies wl@.contains(c as usize) by {
            assert(wl@[c] as int == c);
        }
        assert forall|a: int, b: int| 0 <= a < wl@.len() && 0 <= b < wl@.len() && a != b implies wl@[a] != wl@[b] by {
            assert(wl@[a] as int == a && wl@[b] as int == b);
        }
        assert forall|b: int| 0 <= b < n implies rows(out_bits@)[b].subset_of(transfer(gs[b], ks[b], flow_in(pg, rows(out_bits@), b))) by {
            assert(rows(out_bits@)[b] =~= Set::<usize>::empty());
        }
        assert forall|si: Seq<Set<usize>>, so: Seq<Set<usize>>| #[trigger] is_solution(pg, gs, ks, si, so) implies below(rows(in_bits@), rows(out_bits@), si, so) by {
            assert forall|b: int| 0 <= b < n implies (#[trigger] rows(in_bits@)[b]).subset_of(si[b]) && rows(out_bits@)[b].subset_of(so[b]) by {
                assert(rows(in_bits@)[b] =~= Set::<usize>::empty());
                assert(rows(out_bits@)[b] =~= Set::<usize>::empty());
            }
        }
    }
    while wl.len() > 0
        invariant
            pg == adj(preds@),
            sg == adj(succs@),
            gs == rows(gens@),
            ks == rows(kills@),
            graph_ok(pg, sg),
            n == preds@.len(),
            gens@.len() == n,
            kills@.len() == n,
            forall|b: int, x: usize| 0 <= b < gens@.len() && #[trigger] bitset_members(gens@[b]).contains(x) ==> x < m,
            in_bits@.len() == n,
            out_bits@.len() == n,
            flags@.len() == n,
            queue_ok(wl@, flags@),
            forall|b: int, x: usize| 0 <= b < n && #[trigger] rows(out_bits@)[b].contains(x) ==> x < m,
            forall|b: int| 0 <= b < n ==> (#[trigger] rows(out_bits@)[b]).subset_of(transfer(gs[b], ks[b], flow_in(pg, rows(out_bits@), b))),
            forall|b: int| 0 <= b < n && !(#[trigger] flags@[b]) ==> rows(in_bits@)[b] == flow_in(pg, rows(out_bits@), b)
                && rows(out_bits@)[b] == transfer(gs[b], ks[b], rows(in_bits@)[b]),
            forall|si: Seq<Set<usize>>, so: Seq<Set<usize>>| #[trigger] is_solution(pg, gs, ks, si, so) ==> below(rows(in_bits@), rows(out_bits@), si, so),
        decreases total_missing(rows(out_bits@), m as nat), wl@.len(),
    {
        let ghost w0 = wl@;
        let ghost f0 = flags@;
        let ghost o0 = rows(out_bits@);
        let ghost i0 = rows(in_bits@);
        let b = wl.pop_front().unwrap();
        proof {
            assert(b == w0[0]);
            assert(f0[b as int]);
            lemma_count_false_update(f0.update(b as int, false), b as int);
            assert(f0.update(b as int, false).update(b as int, true) =~= f0);
        }
        flags.set(b, false);
        proof {
            assert(wl@ =~= w0.drop_first());
            assert forall|c: int| 0 <= c < n && #[trigger] flags@[c] implies wl@.contains(c as usize) by {
                assert(f0[c]);
                let j = choose|j: int| 0 <= j < w0.len() && w0[j] == c as usize;
                assert(j != 0);
                assert(wl@[j - 1] == w0[j]);
            }
            assert forall|j: int| 0 <= j < wl@.len() implies (#[trigger] wl@[j] as int) < flags@.len() && flags@[wl@[j] as int] by {
                assert(wl@[j] == w0[j + 1]);
                assert(w0[j + 1] != w0[0]);
            }
            assert(queue_ok(wl@, flags@));
            assert forall|k: int| 0 <= k < preds@[b as int]@.len() implies (#[trigger] preds@[b as int]@[k] as int) < out_bits@.len() by {
                assert(pg[b as int] == preds@[b as int]@);
                assert(pg[b as int][k] == preds@[b as int]@[k]);
            }
        }
        let in_b = union_of_preds(&preds[b], &out_bits, Ghost(pg), Ghost(b as int));
        proof {
            assert forall|x: usize| bitset_members(in_b).contains(x) implies x < usize::MAX by {
                let k = choose|k: int| 0 <= k < pg[b as int].len() && #[trigger] o0[pg[b as int][k] as int].contains(x);
            }
        }
        let out_b = apply_transfer(&gens[b], &kills[b], &in_b);
        let ghost fb = bitset_members(out_b);
        let ghost ib = bitset_members(in_b);
        proof {
            assert(fb == transfer(gs[b as int], ks[b as int], flow_in(pg, o0, b as int)));
            assert forall|x: usize| fb.contains(x) implies x < m by {
                if !gs[b as int].contains(x) {
                    let k = choose|k: int| 0 <= k < pg[b as int].len() && #[trigger] o0[pg[b as int][k] as int].contains(x);
                } else {
                    assert(bitset_members(gens@[b as int]).contains(x));
                }
            }
        }
        if !bitset_eq(&out_bits[b], &out_b) {
            out_bits.set(b, out_b);
            in_bits.set(b, in_b);
            let ghost f1 = flags@;
            proof {
                assert forall|k: int| 0 <= k < succs@[b as int]@.len() implies (#[trigger] succs@[b as int]@[k] as int) < flags@.len() by {
                    assert(sg[b as int] == succs@[b as int]@);
                    assert(sg[b as int][k] == succs@[b as int]@[k]);
                }
            }
            enqueue_successors(&succs[b], &mut wl, &mut flags);
            proof {
                let o1 = rows(out_bits@);
                let i1 = rows(in_bits@);
                assert(o1 =~= o0.update(b as int, fb));
                assert(i1 =~= i0.update(b as int, ib));
                assert(sg[b as int] == succs@[b as int]@);
                assert(rows_below(o0, o1));
                lemma_update_facts(pg, sg, gs, ks, i0, o0, b as int, ib, fb, flags@, f1, m as nat);
            }
        } else {
            in_bits.set(b, in_b);
            proof {
                let i1 = rows(in_bits@);
                assert(i1 =~= i0.update(b as int, ib));
                assert(rows(out_bits@) == o0);
                assert forall|c: int| 0 <= c < n && !(#[trigger] flags@[c]) implies i1[c] == flow_in(pg, o0, c) && o0[c] == transfer(gs[c], ks[c], i1[c]) by {
                    if c != b as int {
                        assert(!f0[c]);
                    }
                }
                assert forall|si: Seq<Set<usize>>, so: Seq<Set<usize>>| #[trigger] is_solution(pg, gs, ks, si, so) implies below(i1, o0, si, so) by {
                    assert(below(i0, o0, si, so));
                    assert forall|c: int| 0 <= c < o0.len() implies (#[trigger] o0[c]).subset_of(so[c]) by {
                        assert(i0[c].subset_of(si[c]));
                    }
                    lemma_flow_in_mono(pg, o0, so, b as int);
                    assert(si[b as int] == flow_in(pg, so, b as int));
                    assert forall|c: int| 0 <= c < i1.len() implies (#[trigger] i1[c]).subset_of(si[c]) && o0[c].subset_of(so[c]) by {
                        assert(i0[c].subset_of(si[c]));
                    }
                }
            }
        }
    }
    proof {
        assert forall|b: int| 0 <= b < n implies #[trigger] rows(in_bits@)[b] == flow_in(pg, rows(out_bits@), b)
            && rows(out_bits@)[b] == transfer(gs[b], ks[b], rows(in_bits@)[b]) by {
            if flags@[b] {
                assert(wl@.contains(b as usize));
            }
        }
        assert(is_solution(pg, gs, ks, rows(in_bits@), rows(out_bits@)));
    }
    (in_bits, out_bits)
}


/// No two blocks share an id.
pub open spec fn distinct_ids(blocks: Seq<BasicBlock>) -> bool {
    forall|p: int, q: int| 0 <= p < blocks.len() && 0 <= q < blocks.len() && p != q ==> blocks[p].id != blocks[q].id
}

/// Block `q` (a position in `cfg.blocks`) has an edge into block `p`.
pub open spec fn block_edge(cfg: ControlFlowGraph, q: int, p: int) -> bool {
    has_edge(cfg.edges@, cfg.blocks@[q].id.0 as int, cfg.blocks@[p].id.0 as int)
}

/// What reaches the entry of block `p`: what leaves a block with an edge into it.
pub open spec fn cfg_flow_in(cfg: ControlFlowGraph, outs: Seq<Set<usize>>, p: int) -> Set<usize> {
    Set::new(|x: usize| exists|q: int| 0 <= q < cfg.blocks@.len() && block_edge(cfg, q, p) && #[trigger] outs[q].contains(x))
}

/// `ins`/`outs` (one set per block position) satisfy the equations of `cfg`.
pub open spec fn cfg_is_solution(
    cfg: ControlFlowGraph,
    gens: Seq<Set<usize>>,
    kills: Seq<Set<usize>>,
    ins: Seq<Set<usize>>,
    outs: Seq<Set<usize>>,
) -> bool {
    &&& ins.len() == cfg.blocks@.len()
    &&& outs.len() == cfg.blocks@.len()
    &&& forall|p: int|
        0 <= p < cfg.blocks@.len() ==> #[trigger] ins[p] == cfg_flow_in(cfg, outs, p) && outs[p] == transfer(gens[p], kills[p], ins[p])
}

/// The least solution of the equations of `cfg`.
pub open spec fn cfg_least_solution(
    cfg: ControlFlowGraph,
    gens: Seq<Set<usize>>,
    kills: Seq<Set<usize>>,
    ins: Seq<Set<usize>>,
    outs: Seq<Set<usize>>,
) -> bool {
    &&& cfg_is_solution(cfg, gens, kills, ins, outs)
    &&& forall|si: Seq<Set<usize>>, so: Seq<Set<usize>>|
        #[trigger] cfg_is_solution(cfg, gens, kills, si, so) ==> below(ins, outs, si, so)
}

/// Position lists whose entries are exactly the blocks with an edge into (out of) each block.
pub open spec fn positions_ok(cfg: ControlFlowGraph, preds: Seq<Seq<usize>>, succs: Seq<Seq<usize>>) -> bool {
    &&& preds.len() == cfg.blocks@.len()
    &&& succs.len() == cfg.blocks@.len()
    &&& forall|p: int, k: int| 0 <= p < preds.len() && 0 <= k < preds[p].len() ==> (#[trigger] preds[p][k] as int) < preds.len()
    &&& forall|p: int, k: int| 0 <= p < succs.len() && 0 <= k < succs[p].len() ==> (#[trigger] succs[p][k] as int) < succs.len()
    &&& forall|p: int, q: int| 0 <= p < preds.len() && 0 <= q < preds.len() ==> (#[trigger] preds[p].contains(q as usize) <==> block_edge(cfg, q, p))
    &&& forall|p: int, q: int| 0 <= p < succs.len() && 0 <= q < succs.len() ==> (#[trigger] succs[p].contains(q as usize) <==> block_edge(cfg, p, q))
}

proof fn lemma_positions_graph(cfg: ControlFlowGraph, preds: Seq<Seq<usize>>, succs: Seq<Seq<usize>>)
    requires
        positions_ok(cfg, preds, succs),
        preds.len() <= usize::MAX,
    ensures
        graph_ok(preds, succs),
        forall|outs: Seq<Set<usize>>, p: int| 0 <= p < preds.len() ==> #[trigger] flow_in(preds, outs, p) == cfg_flow_in(cfg, outs, p),
{
    assert forall|b: int, k: int| 0 <= b < preds.len() && 0 <= k < preds[b].len() implies succs[#[trigger] preds[b][k] as int].contains(b as usize) by {
        let q = preds[b][k] as int;
        assert(preds[b].contains(q as usize));
        assert(block_edge(cfg, q, b));
        assert(succs[q].contains(b as usize));
    }
    assert forall|outs: Seq<Set<usize>>, p: int| 0 <= p < preds.len() implies #[trigger] flow_in(preds, outs, p) == cfg_flow_in(cfg, outs, p) by {
        assert forall|x: usize| flow_in(preds, outs, p).contains(x) <==> cfg_flow_in(cfg, outs, p).contains(x) by {
            if flow_in(preds, outs, p).contains(x) {
                let k = choose|k: int| 0 <= k < preds[p].len() && #[trigger] outs[preds[p][k] as int].contains(x);
                let q = preds[p][k] as int;
                assert(preds[p].contains(q as usize));
                assert(block_edge(cfg, q, p));
            }
            if cfg_flow_in(cfg, outs, p).contains(x) {
                let q = choose|q: int| 0 <= q < cfg.blocks@.len() && block_edge(cfg, q, p) && #[trigger] outs[q].contains(x);
                assert(preds[p].contains(q as usize));
                let k = choose|k: int| 0 <= k < preds[p].len() && preds[p][k] == q as usize;
                assert(outs[preds[p][k] as int].contains(x));
            }
        }
        assert(flow_in(preds, outs, p) =~= cfg_flow_in(cfg, outs, p));
    }
}

/// Position of the block with id `id`, if there is one.
fn block_position(blocks: &Vec<BasicBlock>, id: BlockId) -> (r: Option<usize>)
    ensures
        match r {
            Some(q) => q < blocks@.len() && blocks@[q as int].id == id,
            None => forall|q: int| 0 <= q < blocks@.len() ==> (#[trigger] blocks@[q]).id != id,
        },
{
    let mut q: usize = 0;
    while q < blocks.len()
        invariant
            q <= blocks@.len(),
            forall|j: int| 0 <= j < q ==> (#[trigger] blocks@[j]).id != id,
        decreases blocks.len() - q,
    {
        if blocks[q].id.0 == id.0 {
            return Some(q);
        }
        q = q + 1;
    }
    None
}

/// Positions of the blocks among `ids_list`, in order, skipping ids without a block.
fn positions_of(blocks: &Vec<BasicBlock>, ids_list: &[BlockId]) -> (r: Vec<usize>)
    requires
        distinct_ids(blocks@),
    ensures
        forall|k: int| 0 <= k < r@.len() ==> (#[trigger] r@[k] as int) < blocks@.len(),
        forall|q: int| 0 <= q < blocks@.len() ==> (r@.contains(q as usize) <==> ids(ids_list@).contains(#[trigger] blocks@[q].id.0 as int)),
{
    let mut r: Vec<usize> = Vec::new();
    let mut k: usize = 0;
    let nb = blocks.len();
    while k < ids_list.len()
        invariant
            nb == blocks@.len(),
            distinct_ids(blocks@),
            k <= ids_list@.len(),
            forall|j: int| 0 <= j < r@.len() ==> (#[trigger] r@[j] as int) < blocks@.len(),
            forall|q: int| 0 <= q < blocks@.len() ==> (r@.contains(q as usize) <==> ids(ids_list@.take(k as int)).contains(#[trigger] blocks@[q].id.0 as int)),
        decreases ids_list.len() - k,
    {
        let ghost r0 = r@;
        let found = block_position(blocks, ids_list[k]);
        match found {
            Some(q) => {
                r.push(q);
            },
            None => {},
        }
        proof {
            let t0 = ids(ids_list@.take(k as int));
            let t1 = ids(ids_list@.take(k as int + 1));
            assert(t1 =~= t0.push(ids_list@[k as int].0 as int));
            assert forall|q: int| 0 <= q < blocks@.len() implies (r@.contains(q as usize) <==> t1.contains(#[trigger] blocks@[q].id.0 as int)) by {
                if r@.contains(q as usize) && !r0.contains(q as usize) {
                    assert(found is Some);
                    let qq = found->0;
                    assert(r@ == r0.push(qq));
                    let j = choose|j: int| 0 <= j < r@.len() && r@[j] == q as usize;
                    if j < r0.len() {
                        assert(r0[j] == r@[j]);
                        assert(r0.contains(q as usize));
                    }
                    assert(j == r0.len());
                    assert(r@[j] == qq);
                    assert(qq as int == q);
                    assert(blocks@[qq as int].id == ids_list@[k as int]);
                    assert(t1[t1.len() - 1] == ids_list@[k as int].0 as int);
                }
                if r0.contains(q as usize) {
                    let j = choose|j: int| 0 <= j < r0.len() && r0[j] == q as usize;
                    assert(r@[j] == q as usize);
                }
                if t1.contains(blocks@[q].id.0 as int) && !t0.contains(blocks@[q].id.0 as int) {
                    assert(ids_list@[k as int].0 == blocks@[q].id.0);
                    assert(r@[r@.len() - 1] as int == q) by {
                        let qq = r@[r@.len() - 1] as int;
                        assert(blocks@[qq].id == blocks@[q].id);
                    }
                }
                if t0.contains(blocks@[q].id.0 as int) {
                    let j = choose|j: int| 0 <= j < t0.len() && t0[j] == blocks@[q].id.0 as int;
                    assert(t1[j] == t0[j]);
                }
            }
        }
        k = k + 1;
    }
    proof {
        assert(ids_list@.take(ids_list@.len() as int) =~= ids_list@);
    }
    r
}

/// Predecessor and successor positions of every block.
fn position_graph(cfg: &ControlFlowGraph) -> (r: (Vec<Vec<usize>>, Vec<Vec<usize>>))
    requires
        cfg.wf(),
        distinct_ids(cfg.blocks@),
    ensures
        positions_ok(*cfg, adj(r.0@), adj(r.1@)),
{
    let mut preds: Vec<Vec<usize>> = Vec::new();
    let mut succs: Vec<Vec<usize>> = Vec::new();
    let mut p: usize = 0;
    while p < cfg.blocks.len()
        invariant
            cfg.wf(),
            distinct_ids(cfg.blocks@),
            p <= cfg.blocks@.len(),
            preds@.len() == p,
            succs@.len() == p,
            forall|a: int, k: int| 0 <= a < p && 0 <= k < preds@[a]@.len() ==> (#[trigger] preds@[a]@[k] as int) < cfg.blocks@.len(),
            forall|a: int, k: int| 0 <= a < p && 0 <= k < succs@[a]@.len() ==> (#[trigger] succs@[a]@[k] as int) < cfg.blocks@.len(),
            forall|a: int, q: int| 0 <= a < p && 0 <= q < cfg.blocks@.len() ==> (#[trigger] preds@[a]@.contains(q as usize) <==> block_edge(*cfg, q, a)),
            forall|a: int, q: int| 0 <= a < p && 0 <= q < cfg.blocks@.len() ==> (#[trigger] succs@[a]@.contains(q as usize) <==> block_edge(*cfg, a, q)),
        decreases cfg.blocks.len() - p,
    {
        let id = cfg.blocks[p].id;
        let pids = cfg.predecessors(id);
        let sids = cfg.successors(id);
        let pl = positions_of(&cfg.blocks, pids);
        let sl = positions_of(&cfg.blocks, sids);
        proof {
            assert forall|q: int| 0 <= q < cfg.blocks@.len() implies (#[trigger] pl@.contains(q as usize) <==> block_edge(*cfg, q, p as int)) by {
                lemma_pred_of_contains(cfg.edges@, id.0, cfg.blocks@[q].id.0);
                let ps = pred_of(cfg.edges@, id.0);
                assert(ids(pids@) == ps.map_values(|x: u32| x as int));
                if ps.contains(cfg.blocks@[q].id.0) {
                    let j = choose|j: int| 0 <= j < ps.len() && ps[j] == cfg.blocks@[q].id.0;
                    assert(ps.map_values(|x: u32| x as int)[j] == cfg.blocks@[q].id.0 as int);
                }
                let pm = ps.map_values(|x: u32| x as int);
                if pm.contains(cfg.blocks@[q].id.0 as int) {
                    let j = choose|j: int| 0 <= j < pm.len() && #[trigger] pm[j] == cfg.blocks@[q].id.0 as int;
                    assert(ps[j] == cfg.blocks@[q].id.0);
                }
            }
            assert forall|q: int| 0 <= q < cfg.blocks@.len() implies (#[trigger] sl@.contains(q as usize) <==> block_edge(*cfg, p as int, q)) by {
                lemma_succ_of_contains(cfg.edges@, id.0, cfg.blocks@[q].id.0);
                let ss = succ_of(cfg.edges@, id.0);
                assert(ids(sids@) == ss.map_values(|x: u32| x as int));
                if ss.contains(cfg.blocks@[q].id.0) {
                    let j = choose|j: int| 0 <= j < ss.len() && ss[j] == cfg.blocks@[q].id.0;
                    assert(ss.map_values(|x: u32| x as int)[j] == cfg.blocks@[q].id.0 as int);
                }
                let sm = ss.map_values(|x: u32| x as int);
                if sm.contains(cfg.blocks@[q].id.0 as int) {
                    let j = choose|j: int| 0 <= j < sm.len() && #[trigger] sm[j] == cfg.blocks@[q].id.0 as int;
                    assert(ss[j] == cfg.blocks@[q].id.0);
                }
            }
        }
        preds.push(pl);
        succs.push(sl);
        p = p + 1;
    }
    proof {
        let pa = adj(preds@);
        let sa = adj(succs@);
        assert forall|a: int, k: int| 0 <= a < pa.len() && 0 <= k < pa[a].len() implies (#[trigger] pa[a][k] as int) < pa.len() by {
            assert(pa[a] == preds@[a]@);
        }
        assert forall|a: int, k: int| 0 <= a < sa.len() && 0 <= k < sa[a].len() implies (#[trigger] sa[a][k] as int) < sa.len() by {
            assert(sa[a] == succs@[a]@);
        }
        assert forall|a: int, q: int| 0 <= a < pa.len() && 0 <= q < pa.len() implies (#[trigger] pa[a].contains(q as usize) <==> block_edge(*cfg, q, a)) by {
            assert(pa[a] == preds@[a]@);
        }
        assert forall|a: int, q: int| 0 <= a < sa.len() && 0 <= q < sa.len() implies (#[trigger] sa[a].contains(q as usize) <==> block_edge(*cfg, a, q)) by {
            assert(sa[a] == succs@[a]@);
        }
    }
    (preds, succs)
}


/// The PDG node found for a statement: its id and the variables it defines.
pub struct PdgNode {
    pub id: u128,
    pub defined_vars: Vec<String>,
}

/// A definition of a variable at a specific statement.
pub struct Definition {
    /// Variable name.
    pub variable: String,
    /// Block containing the definition.
    pub block: BlockId,
    /// Index of the defining statement within the block.
    pub statement_index: usize,
    /// PDG node id of the defining statement.
    pub pdg_node: u128,
}

/// A definition as plain values: variable, block id, statement index, node id.
pub open spec fn def_view(d: Definition) -> (Seq<char>, u32, usize, u128) {
    (d.variable@, d.block.0, d.statement_index, d.pdg_node)
}

/// The definitions `ds` are, one by one, the plain values `vs`.
pub open spec fn views_are(ds: Seq<Definition>, vs: Seq<(Seq<char>, u32, usize, u128)>) -> bool {
    &&& ds.len() == vs.len()
    &&& forall|t: int| 0 <= t < ds.len() ==> def_view(#[trigger] ds[t]) == vs[t]
}

/// The definitions statement `i` makes: one per variable its PDG node defines.
pub open spec fn statement_defs(id: BlockId, i: int, node: Option<PdgNode>) -> Seq<(Seq<char>, u32, usize, u128)> {
    match node {
        Some(n) => n.defined_vars@.map_values(|v: String| (v@, id.0, i as usize, n.id)),
        None => Seq::empty(),
    }
}

/// The definitions of a block whose statements have the PDG nodes `nodes`, in order.
pub open spec fn block_defs(id: BlockId, nodes: Seq<Option<PdgNode>>) -> Seq<(Seq<char>, u32, usize, u128)>
    decreases nodes.len(),
{
    if nodes.len() == 0 {
        Seq::empty()
    } else {
        block_defs(id, nodes.drop_last()) + statement_defs(id, nodes.len() - 1, nodes.last())
    }
}

/// All definitions of the first `p` blocks, block after block.
pub open spec fn catalog_upto(blocks: Seq<BasicBlock>, nodes: Seq<Vec<Option<PdgNode>>>, p: int) -> Seq<(Seq<char>, u32, usize, u128)>
    decreases p,
{
    if p <= 0 {
        Seq::empty()
    } else {
        catalog_upto(blocks, nodes, p - 1) + block_defs(blocks[p - 1].id, nodes[p - 1]@)
    }
}

/// A block's own definitions that are the last of their variable in it (positions `lo..hi`).
pub open spec fn gen_set(cat: Seq<(Seq<char>, u32, usize, u128)>, lo: int, hi: int) -> Set<usize> {
    Set::new(|i: usize| lo <= i < hi && forall|j: int| i < j < hi ==> (#[trigger] cat[j]).0 != cat[i as int].0)
}

/// Every other definition of a variable that the block defines.
pub open spec fn kill_set(cat: Seq<(Seq<char>, u32, usize, u128)>, lo: int, hi: int) -> Set<usize> {
    Set::new(|i: usize| (i as int) < cat.len() && (exists|j: int| lo <= j < hi && (#[trigger] cat[j]).0 == cat[i as int].0) && !gen_set(cat, lo, hi).contains(i))
}

/// Gen sets of all blocks of `cfg`.
pub open spec fn block_gens(cfg: ControlFlowGraph, nodes: Seq<Vec<Option<PdgNode>>>) -> Seq<Set<usize>> {
    let nb = cfg.blocks@.len() as int;
    let cat = catalog_upto(cfg.blocks@, nodes, nb);
    Seq::new(nb as nat, |p: int| gen_set(cat, catalog_upto(cfg.blocks@, nodes, p).len() as int, catalog_upto(cfg.blocks@, nodes, p + 1).len() as int))
}

/// Kill sets of all blocks of `cfg`.
pub open spec fn block_kills(cfg: ControlFlowGraph, nodes: Seq<Vec<Option<PdgNode>>>) -> Seq<Set<usize>> {
    let nb = cfg.blocks@.len() as int;
    let cat = catalog_upto(cfg.blocks@, nodes, nb);
    Seq::new(nb as nat, |p: int| kill_set(cat, catalog_upto(cfg.blocks@, nodes, p).len() as int, catalog_upto(cfg.blocks@, nodes, p + 1).len() as int))
}

/// The definitions a block makes, from the PDG nodes of its statements.
pub fn collect_block_definitions(block: &BasicBlock, nodes: &Vec<Option<PdgNode>>) -> (r: Vec<Definition>)
    requires
        nodes@.len() == block.statements@.len(),
    ensures
        views_are(r@, block_defs(block.id, nodes@)),
{
    let mut defs: Vec<Definition> = Vec::new();
    let mut idx: usize = 0;
    while idx < nodes.len()
        invariant
            idx <= nodes@.len(),
            views_are(defs@, block_defs(block.id, nodes@.take(idx as int))),
        decreases nodes.len() - idx,
    {
        let ghost d0 = block_defs(block.id, nodes@.take(idx as int));
        match &nodes[idx] {
            Some(node) => {
                let ghost sd = statement_defs(block.id, idx as int, Some(*node));
                let mut k: usize = 0;
                while k < node.defined_vars.len()
                    invariant
                        k <= node.defined_vars@.len(),
                        sd == statement_defs(block.id, idx as int, Some(*node)),
                        views_are(defs@, d0 + sd.take(k as int)),
                    decreases node.defined_vars.len() - k,
                {
                    let ghost before = defs@;
                    defs.push(Definition {
                        variable: node.defined_vars[k].clone(),
                        block: block.id,
                        statement_index: idx,
                        pdg_node: node.id,
                    });
                    proof {
                        let target = d0 + sd.take(k as int + 1);
                        assert(target =~= (d0 + sd.take(k as int)).push(sd[k as int]));
                        assert forall|t: int| 0 <= t < defs@.len() implies def_view(#[trigger] defs@[t]) == target[t] by {
                            if t < before.len() {
                                assert(defs@[t] == before[t]);
                            }
                        }
                    }
                    k = k + 1;
                }
                proof {
                    assert(sd.take(k as int) =~= statement_defs(block.id, idx as int, nodes@[idx as int]));
                }
            },
            None => {
                proof {
                    assert(d0 =~= d0 + statement_defs(block.id, idx as int, nodes@[idx as int]));
                }
            },
        }
        proof {
            assert(nodes@.take(idx as int + 1).drop_last() =~= nodes@.take(idx as int));
        }
        idx = idx + 1;
    }
    proof {
        assert(nodes@.take(nodes@.len() as int) =~= nodes@);
    }
    defs
}


/// Gen row of the block whose definitions sit at positions `lo..hi` of the catalog.
fn gen_row(defs: &Vec<Definition>, lo: usize, hi: usize, Ghost(cat): Ghost<Seq<(Seq<char>, u32, usize, u128)>>) -> (r: BitRow)
    requires
        views_are(defs@, cat),
        lo <= hi <= defs@.len(),
    ensures
        bitset_members(r) == gen_set(cat, lo as int, hi as int),
{
    let mut r = bitset_new();
    let mut i: usize = lo;
    while i < hi
        invariant
            views_are(defs@, cat),
            lo <= i <= hi,
            hi <= defs@.len(),
            forall|x: usize| bitset_members(r).contains(x) <==> (x < i && gen_set(cat, lo as int, hi as int).contains(x)),
        decreases hi - i,
    {
        let mut last = true;
        let mut j: usize = i + 1;
        while j < hi
            invariant
                views_are(defs@, cat),
                i < j <= hi,
                hi <= defs@.len(),
                last <==> forall|t: int| i < t < j ==> (#[trigger] cat[t]).0 != cat[i as int].0,
            decreases hi - j,
        {
            proof {
                assert(def_view(defs@[j as int]) == cat[j as int]);
                assert(def_view(defs@[i as int]) == cat[i as int]);
            }
            if str_eq(defs[j].variable.as_str(), defs[i].variable.as_str()) {
                last = false;
            }
            j = j + 1;
        }
        if last {
            bitset_insert(&mut r, i);
        }
        i = i + 1;
    }
    proof {
        assert(bitset_members(r) =~= gen_set(cat, lo as int, hi as int));
    }
    r
}

/// Kill row: every definition of a variable defined at positions `lo..hi`, but `gen`.
fn kill_row(defs: &Vec<Definition>, lo: usize, hi: usize, gen: &BitRow, Ghost(cat): Ghost<Seq<(Seq<char>, u32, usize, u128)>>) -> (r: BitRow)
    requires
        views_are(defs@, cat),
        lo <= hi <= defs@.len(),
        bitset_members(*gen) == gen_set(cat, lo as int, hi as int),
    ensures
        bitset_members(r) == kill_set(cat, lo as int, hi as int),
{
    let mut r = bitset_new();
    let mut i: usize = 0;
    while i < defs.len()
        invariant
            views_are(defs@, cat),
            i <= defs@.len(),
            lo <= hi <= defs@.len(),
            bitset_members(*gen) == gen_set(cat, lo as int, hi as int),
            forall|x: usize| bitset_members(r).contains(x) <==> (x < i && kill_set(cat, lo as int, hi as int).contains(x)),
        decreases defs.len() - i,
    {
        let mut same = false;
        let mut j: usize = lo;
        while j < hi
            invariant
                views_are(defs@, cat),
                i < defs@.len(),
                lo <= j <= hi,
                hi <= defs@.len(),
                same <==> exists|t: int| lo <= t < j && (#[trigger] cat[t]).0 == cat[i as int].0,
            decreases hi - j,
        {
            proof {
                assert(def_view(defs@[j as int]) == cat[j as int]);
                assert(def_view(defs@[i as int]) == cat[i as int]);
            }
            if str_eq(defs[j].variable.as_str(), defs[i].variable.as_str()) {
                same = true;
                proof {
                    assert(cat[j as int].0 == cat[i as int].0);
                }
            }
            j = j + 1;
        }
        if same && !bitset_contains(gen, i) {
            bitset_insert(&mut r, i);
        }
        i = i + 1;
    }
    proof {
        assert(bitset_members(r) =~= kill_set(cat, lo as int, hi as int));
    }
    r
}

/// Reaching definitions of every block: the catalog of definitions, and for each block
/// position the sorted catalog indices reaching its entry and its exit.
pub struct ReachingDefs {
    /// All definitions, block after block, statement after statement.
    pub definitions: Vec<Definition>,
    /// Indices of the definitions reaching the entry of each block.
    pub in_set: Vec<Vec<usize>>,
    /// Indices of the definitions reaching the exit of each block.
    pub out_set: Vec<Vec<usize>>,
}

/// The index lists as sets.
pub open spec fn index_sets(v: Seq<Vec<usize>>) -> Seq<Set<usize>> {
    v.map_values(|l: Vec<usize>| l@.to_set())
}

/// Each list is strictly increasing.
pub open spec fn all_sorted(v: Seq<Vec<usize>>) -> bool {
    forall|p: int, a: int, b: int| 0 <= p < v.len() && 0 <= a < b < v[p]@.len() ==> #[trigger] v[p]@[a] < #[trigger] v[p]@[b]
}

proof fn lemma_cfg_least(
    cfg: ControlFlowGraph,
    preds: Seq<Seq<usize>>,
    succs: Seq<Seq<usize>>,
    gens: Seq<Set<usize>>,
    kills: Seq<Set<usize>>,
    ins: Seq<Set<usize>>,
    outs: Seq<Set<usize>>,
)
    requires
        positions_ok(cfg, preds, succs),
        preds.len() <= usize::MAX,
        least_solution(preds, gens, kills, ins, outs),
    ensures
        cfg_least_solution(cfg, gens, kills, ins, outs),
{
    lemma_positions_graph(cfg, preds, succs);
    assert forall|si: Seq<Set<usize>>, so: Seq<Set<usize>>| #[trigger] cfg_is_solution(cfg, gens, kills, si, so) implies is_solution(preds, gens, kills, si, so) by {
        assert forall|b: int| 0 <= b < preds.len() implies #[trigger] si[b] == flow_in(preds, so, b) && so[b] == transfer(gens[b], kills[b], si[b]) by {
            assert(flow_in(preds, so, b) == cfg_flow_in(cfg, so, b));
        }
    }
    assert forall|b: int| 0 <= b < cfg.blocks@.len() implies #[trigger] ins[b] == cfg_flow_in(cfg, outs, b) && outs[b] == transfer(gens[b], kills[b], ins[b]) by {
        assert(flow_in(preds, outs, b) == cfg_flow_in(cfg, outs, b));
    }
}

/// Sorted member lists of the rows.
fn sorted_rows(v: &Vec<BitRow>) -> (r: Vec<Vec<usize>>)
    ensures
        index_sets(r@) == rows(v@),
        all_sorted(r@),
{
    let mut r: Vec<Vec<usize>> = Vec::new();
    let mut p: usize = 0;
    while p < v.len()
        invariant
            p <= v@.len(),
            r@.len() == p,
            forall|q: int| 0 <= q < p ==> (#[trigger] r@[q])@.to_set() == bitset_members(v@[q]),
            all_sorted(r@),
        decreases v.len() - p,
    {
        let l = bitset_sorted_members(&v[p]);
        proof {
            assert(l@.to_set() =~= bitset_members(v@[p as int]));
        }
        let ghost r0 = r@;
        r.push(l);
        proof {
            assert forall|q: int, a: int, b: int| 0 <= q < r@.len() && 0 <= a < b < r@[q]@.len() implies #[trigger] r@[q]@[a] < #[trigger] r@[q]@[b] by {
                if q < p {
                    assert(r@[q] == r0[q]);
                }
            }
            assert forall|q: int| 0 <= q < p + 1 implies (#[trigger] r@[q])@.to_set() == bitset_members(v@[q]) by {
                if q < p {
                    assert(r@[q] == r0[q]);
                }
            }
        }
        p = p + 1;
    }
    proof {
        assert(index_sets(r@) =~= rows(v@));
    }
    r
}


proof fn lemma_catalog_step(blocks: Seq<BasicBlock>, nodes: Seq<Vec<Option<PdgNode>>>, p: int)
    requires
        0 <= p,
    ensures
        catalog_upto(blocks, nodes, p + 1) == catalog_upto(blocks, nodes, p) + block_defs(blocks[p].id, nodes[p]@),
        catalog_upto(blocks, nodes, p).len() <= catalog_upto(blocks, nodes, p + 1).len(),
{
}

/// Reaching definitions of `cfg`, whose statements have the PDG nodes `nodes` (one entry
/// per statement of each block, in block order): the least solution of the gen/kill
/// equations, with each block generating the last definition of every variable it defines
/// and killing all other definitions of those variables.
pub fn compute_reaching_definitions(cfg: &ControlFlowGraph, nodes: &Vec<Vec<Option<PdgNode>>>) -> (r: ReachingDefs)
    requires
        cfg.wf(),
        distinct_ids(cfg.blocks@),
        nodes@.len() == cfg.blocks@.len(),
        forall|p: int| 0 <= p < nodes@.len() ==> (#[trigger] nodes@[p])@.len() == cfg.blocks@[p].statements@.len(),
    ensures
        views_are(r.definitions@, catalog_upto(cfg.blocks@, nodes@, cfg.blocks@.len() as int)),
        r.in_set@.len() == cfg.blocks@.len(),
        r.out_set@.len() == cfg.blocks@.len(),
        all_sorted(r.in_set@),
        all_sorted(r.out_set@),
        cfg_least_solution(*cfg, block_gens(*cfg, nodes@), block_kills(*cfg, nodes@), index_sets(r.in_set@), index_sets(r.out_set@)),
{
    let nb = cfg.blocks.len();
    let ghost blocks = cfg.blocks@;
    let ghost nv = nodes@;
    let mut defs: Vec<Definition> = Vec::new();
    let mut offsets: Vec<usize> = Vec::new();
    offsets.push(0);
    let mut p: usize = 0;
    while p < nb
        invariant
            nb == blocks.len(),
            blocks == cfg.blocks@,
            nv == nodes@,
            nv.len() == nb,
            forall|q: int| 0 <= q < nv.len() ==> (#[trigger] nv[q])@.len() == blocks[q].statements@.len(),
            p <= nb,
            views_are(defs@, catalog_upto(blocks, nv, p as int)),
            offsets@.len() == p + 1,
            forall|q: int| 0 <= q <= p ==> #[trigger] offsets@[q] as int == catalog_upto(blocks, nv, q).len(),
            forall|q: int| 0 <= q < p ==> #[trigger] offsets@[q] <= offsets@[q + 1],
            forall|q: int| 0 <= q <= p ==> #[trigger] offsets@[q] <= defs@.len(),
        decreases nb - p,
    {
        let mut local = collect_block_definitions(&cfg.blocks[p], &nodes[p]);
        let ghost d0 = defs@;
        let ghost l0 = local@;
        defs.append(&mut local);
        proof {
            lemma_catalog_step(blocks, nv, p as int);
            let target = catalog_upto(blocks, nv, p as int + 1);
            assert forall|t: int| 0 <= t < defs@.len() implies def_view(#[trigger] defs@[t]) == target[t] by {
                if t < d0.len() {
                    assert(defs@[t] == d0[t]);
                } else {
                    assert(defs@[t] == l0[t - d0.len()]);
                }
            }
        }
        let ghost o0 = offsets@;
        offsets.push(defs.len());
        proof {
            assert forall|q: int| 0 <= q <= p + 1 implies #[trigger] offsets@[q] as int == catalog_upto(blocks, nv, q).len() by {
                if q <= p {
                    assert(offsets@[q] == o0[q]);
                }
            }
            assert forall|q: int| 0 <= q < p + 1 implies #[trigger] offsets@[q] <= offsets@[q + 1] by {
                if q < p {
                    assert(offsets@[q] == o0[q] && offsets@[q + 1] == o0[q + 1]);
                }
            }
            assert forall|q: int| 0 <= q <= p + 1 implies #[trigger] offsets@[q] <= defs@.len() by {
                if q <= p {
                    assert(offsets@[q] == o0[q]);
                }
            }
        }
        p = p + 1;
    }
    let ghost cat = catalog_upto(blocks, nv, nb as int);
    let mut gens: Vec<BitRow> = Vec::new();
    let mut kills: Vec<BitRow> = Vec::new();
    let mut p: usize = 0;
    while p < nb
        invariant
            nb == blocks.len(),
            blocks == cfg.blocks@,
            nv == nodes@,
            cat == catalog_upto(blocks, nv, nb as int),
            views_are(defs@, cat),
            offsets@.len() == nb + 1,
            forall|q: int| 0 <= q <= nb ==> #[trigger] offsets@[q] as int == catalog_upto(blocks, nv, q).len(),
            forall|q: int| 0 <= q < nb ==> #[trigger] offsets@[q] <= offsets@[q + 1],
            forall|q: int| 0 <= q <= nb ==> #[trigger] offsets@[q] <= defs@.len(),
            p <= nb,
            gens@.len() == p,
            kills@.len() == p,
            forall|q: int| 0 <= q < p ==> #[trigger] rows(gens@)[q] == block_gens(*cfg, nv)[q],
            forall|q: int| 0 <= q < p ==> #[trigger] rows(kills@)[q] == block_kills(*cfg, nv)[q],
        decreases nb - p,
    {
        let lo = offsets[p];
        let hi = offsets[p + 1];
        proof {
            assert(offsets@[p as int] <= offsets@[p + 1]);
            assert(offsets@[p + 1] <= defs@.len());
        }
        let g = gen_row(&defs, lo, hi, Ghost(cat));
        let k = kill_row(&defs, lo, hi, &g, Ghost(cat));
        let ghost g0 = gens@;
        let ghost k0 = kills@;
        gens.push(g);
        kills.push(k);
        proof {
            assert(offsets@[p as int] as int == catalog_upto(blocks, nv, p as int).len());
            assert(offsets@[p + 1] as int == catalog_upto(blocks, nv, p + 1).len());
            assert(block_gens(*cfg, nv)[p as int] == gen_set(cat, lo as int, hi as int));
            assert(block_kills(*cfg, nv)[p as int] == kill_set(cat, lo as int, hi as int));
            assert(rows(gens@)[p as int] == bitset_members(g));
            assert(rows(kills@)[p as int] == bitset_members(k));
            assert forall|q: int| 0 <= q < p + 1 implies #[trigger] rows(gens@)[q] == block_gens(*cfg, nv)[q] by {
                if q < p {
                    assert(gens@[q] == g0[q]);
                    assert(rows(g0)[q] == block_gens(*cfg, nv)[q]);
                }
            }
            assert forall|q: int| 0 <= q < p + 1 implies #[trigger] rows(kills@)[q] == block_kills(*cfg, nv)[q] by {
                if q < p {
                    assert(kills@[q] == k0[q]);
                    assert(rows(k0)[q] == block_kills(*cfg, nv)[q]);
                }
            }
        }
        p = p + 1;
    }
    let (preds, succs) = position_graph(cfg);
    proof {
        lemma_positions_graph(*cfg, adj(preds@), adj(succs@));
        assert(rows(gens@) =~= block_gens(*cfg, nv));
        assert(rows(kills@) =~= block_kills(*cfg, nv));
        assert forall|b: int, x: usize| 0 <= b < gens@.len() && #[trigger] bitset_members(gens@[b]).contains(x) implies x < defs.len() by {
            assert(rows(gens@)[b] == block_gens(*cfg, nv)[b]);
            assert(offsets@[b + 1] <= defs@.len());
        }
    }
    let (ins, outs) = solve_reaching(&preds, &succs, &gens, &kills, defs.len());
    proof {
        lemma_cfg_least(*cfg, adj(preds@), adj(succs@), rows(gens@), rows(kills@), rows(ins@), rows(outs@));
    }
    let in_set = sorted_rows(&ins);
    let out_set = sorted_rows(&outs);
    ReachingDefs { definitions: defs, in_set, out_set }
}

} // verus!
