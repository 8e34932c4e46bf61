//! Hand-off from a blast-radius impact zone to slice seeds: one seed per call into an
//! affected function and per formal parameter of that function.

use vstd::prelude::*;
use crate::callgraph::{CallGraph, CallGraphEdge, CallType, call_edge_view, calls_between};
use crate::text::str_eq;

verus! {

/// Seed for an interprocedural slice derived from a call-site parameter mapping.
pub struct SliceHandoffSeed {
    /// Callee function receiving the argument.
    pub callee_id: u128,
    /// Callee function name.
    pub callee_name: String,
    /// Direct caller invoking the callee.
    pub caller_id: u128,
    /// Caller function name.
    pub caller_name: String,
    /// Callee formal parameter name.
    pub param_name: String,
    /// Zero-based index of the callee formal parameter.
    pub param_index: usize,
    /// Call-site source line (when known).
    pub call_site_line: usize,
}

/// A seed as plain values.
pub type SeedView = (u128, Seq<char>, u128, Seq<char>, Seq<char>, usize, usize);

pub open spec fn seed_view(s: SliceHandoffSeed) -> SeedView {
    (s.callee_id, s.callee_name@, s.caller_id, s.caller_name@, s.param_name@, s.param_index, s.call_site_line)
}

pub open spec fn seed_views(v: Seq<SliceHandoffSeed>) -> Seq<SeedView> {
    v.map_values(|s: SliceHandoffSeed| seed_view(s))
}

/// Name of node `id` in the table (the first entry), or the empty name.
pub open spec fn name_in(names: Seq<(u128, String)>, id: u128) -> Seq<char>
    decreases names.len(),
{
    if names.len() == 0 {
        Seq::empty()
    } else if names[0].0 == id {
        names[0].1@
    } else {
        name_in(names.drop_first(), id)
    }
}

/// One seed per parameter for a call at `line`.
pub open spec fn param_seeds(callee: u128, callee_name: Seq<char>, caller: u128, caller_name: Seq<char>, params: Seq<Seq<char>>, line: usize, k: int) -> Seq<SeedView>
    decreases k,
{
    if k <= 0 {
        Seq::empty()
    } else {
        param_seeds(callee, callee_name, caller, caller_name, params, line, k - 1).push((callee, callee_name, caller, caller_name, params[k - 1], (k - 1) as usize, line))
    }
}

/// Seeds of the first `k` calls (`metas`) from `caller` into `callee`; with `input`, a call
/// into a function without parameters gives one seed named `input`.
pub open spec fn call_seeds(
    callee: u128,
    callee_name: Seq<char>,
    caller: u128,
    caller_name: Seq<char>,
    params: Seq<Seq<char>>,
    metas: Seq<(usize, CallType, Seq<(int, Seq<char>)>)>,
    input: bool,
    k: int,
) -> Seq<SeedView>
    decreases k,
{
    if k <= 0 {
        Seq::empty()
    } else {
        let line = metas[k - 1].0;
        call_seeds(callee, callee_name, caller, caller_name, params, metas, input, k - 1) + param_seeds(callee, callee_name, caller, caller_name, params, line, params.len() as int)
            + if input && params.len() == 0 {
            seq![(callee, callee_name, caller, caller_name, seq!['i', 'n', 'p', 'u', 't'], 0usize, line)]
        } else {
            Seq::empty()
        }
    }
}

/// Parameter names of function `id` in the call graph.
pub open spec fn params_of(g: CallGraph, id: u128) -> Seq<Seq<char>> {
    if g.index_of(id) >= 0 {
        g.parameters@[g.index_of(id)]@.map_values(|s: String| s@)
    } else {
        Seq::empty()
    }
}

/// Seeds from the first `k` direct callers of `symbol`.
pub open spec fn direct_seeds(g: CallGraph, names: Seq<(u128, String)>, direct: Seq<u128>, symbol: u128, symbol_name: Seq<char>, k: int) -> Seq<SeedView>
    decreases k,
{
    if k <= 0 {
        Seq::empty()
    } else {
        let c = direct[k - 1];
        let metas = calls_between(g, c, symbol);
        direct_seeds(g, names, direct, symbol, symbol_name, k - 1) + call_seeds(symbol, symbol_name, c, name_in(names, c), params_of(g, symbol), metas, true, metas.len() as int)
    }
}

/// Callers of function `id` in the call graph, one per call.
pub open spec fn callers_of(g: CallGraph, id: u128) -> Seq<u128> {
    if g.index_of(id) >= 0 {
        g.pred()[g.index_of(id)].map_values(|c: u32| g.index_to_id@[c as int])
    } else {
        Seq::empty()
    }
}

/// Seeds of the first `k` callers of impacted function `x` that are themselves impacted or are
/// the symbol.
pub open spec fn caller_seeds(g: CallGraph, names: Seq<(u128, String)>, impact: Seq<u128>, symbol: u128, x: u128, callers: Seq<u128>, k: int) -> Seq<SeedView>
    decreases k,
{
    if k <= 0 {
        Seq::empty()
    } else {
        let c = callers[k - 1];
        let rest = caller_seeds(g, names, impact, symbol, x, callers, k - 1);
        if !impact.contains(c) && c != symbol {
            rest
        } else {
            let metas = calls_between(g, c, x);
            rest + call_seeds(x, name_in(names, x), c, name_in(names, c), params_of(g, x), metas, false, metas.len() as int)
        }
    }
}

/// Seeds of the first `k` impacted functions other than the symbol and its direct callers.
pub open spec fn impact_seeds(g: CallGraph, names: Seq<(u128, String)>, direct: Seq<u128>, impact: Seq<u128>, symbol: u128, k: int) -> Seq<SeedView>
    decreases k,
{
    if k <= 0 {
        Seq::empty()
    } else {
        let x = impact[k - 1];
        let rest = impact_seeds(g, names, direct, impact, symbol, k - 1);
        if x == symbol || direct.contains(x) {
            rest
        } else {
            let callers = callers_of(g, x);
            rest + caller_seeds(g, names, impact, symbol, x, callers, callers.len() as int)
        }
    }
}

/// The identity of a seed: caller, callee, parameter index, call-site line.
pub open spec fn seed_key(s: SeedView) -> (u128, u128, usize, usize) {
    (s.2, s.0, s.5, s.6)
}

/// The seeds whose identity did not occur before, in order.
pub open spec fn dedupe(s: Seq<SeedView>) -> Seq<SeedView>
    decreases s.len(),
{
    if s.len() == 0 {
        Seq::empty()
    } else {
        let d = dedupe(s.drop_last());
        if exists|j: int| 0 <= j < d.len() && seed_key(#[trigger] d[j]) == seed_key(s.last()) {
            d
        } else {
            d.push(s.last())
        }
    }
}


/// Name of node `id` in the table, or the empty name.
fn name_lookup(names: &Vec<(u128, String)>, id: u128) -> (r: String)
    ensures
        r@ == name_in(names@, id),
{
    let mut i: usize = 0;
    proof {
        assert(names@.skip(0) =~= names@);
    }
    while i < names.len()
        invariant
            i <= names@.len(),
            name_in(names@, id) == name_in(names@.skip(i as int), id),
        decreases names.len() - i,
    {
        if names[i].0 == id {
            proof {
                assert(names@.skip(i as int)[0] == names@[i as int]);
            }
            return names[i].1.clone();
        }
        proof {
            assert(names@.skip(i as int).drop_first() =~= names@.skip(i as int + 1));
        }
        i = i + 1;
    }
    String::new()
}

/// A copy of a seed.
fn copy_seed(s: &SliceHandoffSeed) -> (r: SliceHandoffSeed)
    ensures
        seed_view(r) == seed_view(*s),
{
    SliceHandoffSeed {
        callee_id: s.callee_id,
        callee_name: s.callee_name.clone(),
        caller_id: s.caller_id,
        caller_name: s.caller_name.clone(),
        param_name: s.param_name.clone(),
        param_index: s.param_index,
        call_site_line: s.call_site_line,
    }
}

/// Appends the seeds of the calls `edges` from `caller` into `callee`.
fn push_call_seeds(
    out: &mut Vec<SliceHandoffSeed>,
    callee: u128,
    callee_name: &String,
    caller: u128,
    caller_name: &String,
    params: &[String],
    edges: &Vec<CallGraphEdge>,
    input: bool,
    Ghost(metas): Ghost<Seq<(usize, CallType, Seq<(int, Seq<char>)>)>>,
)
    requires
        edges@.len() == metas.len(),
        forall|k: int| 0 <= k < edges@.len() ==> #[trigger] call_edge_view(edges@[k]) == (caller, callee, metas[k]),
    ensures
        seed_views(final(out)@) == seed_views(old(out)@) + call_seeds(callee, callee_name@, caller, caller_name@, params@.map_values(|s: String| s@), metas, input, metas.len() as int),
{
    let ghost ps = params@.map_values(|s: String| s@);
    let ghost base = seed_views(out@);
    let mut e: usize = 0;
    while e < edges.len()
        invariant
            edges@.len() == metas.len(),
            forall|k: int| 0 <= k < edges@.len() ==> #[trigger] call_edge_view(edges@[k]) == (caller, callee, metas[k]),
            ps == params@.map_values(|s: String| s@),
            e <= edges@.len(),
            seed_views(out@) == base + call_seeds(callee, callee_name@, caller, caller_name@, ps, metas, input, e as int),
        decreases edges.len() - e,
    {
        let line = edges[e].call_site;
        proof {
            assert(call_edge_view(edges@[e as int]) == (caller, callee, metas[e as int]));
            assert(line == metas[e as int].0);
        }
        let ghost mid = seed_views(out@);
        let mut p: usize = 0;
        while p < params.len()
            invariant
                ps == params@.map_values(|s: String| s@),
                p <= params@.len(),
                seed_views(out@) == mid + param_seeds(callee, callee_name@, caller, caller_name@, ps, line, p as int),
            decreases params.len() - p,
        {
            let ghost before = out@;
            out.push(SliceHandoffSeed {
                callee_id: callee,
                callee_name: callee_name.clone(),
                caller_id: caller,
                caller_name: caller_name.clone(),
                param_name: params[p].clone(),
                param_index: p,
                call_site_line: line,
            });
            proof {
                assert(seed_views(out@) =~= seed_views(before).push(seed_view(out@[out@.len() - 1])));
                assert(seed_views(out@) =~= mid + param_seeds(callee, callee_name@, caller, caller_name@, ps, line, p as int + 1));
            }
            p = p + 1;
        }
        let ghost after_params = seed_views(out@);
        if input && params.len() == 0 {
            let ghost before = out@;
            let nm = "input";
            proof {
                reveal_strlit("input");
            }
            out.push(SliceHandoffSeed {
                callee_id: callee,
                callee_name: callee_name.clone(),
                caller_id: caller,
                caller_name: caller_name.clone(),
                param_name: nm.to_string(),
                param_index: 0,
                call_site_line: line,
            });
            proof {
                assert(seed_views(out@) =~= seed_views(before).push(seed_view(out@[out@.len() - 1])));
                assert(nm@ =~= seq!['i', 'n', 'p', 'u', 't']);
            }
        }
        proof {
            assert(seed_views(out@) =~= base + call_seeds(callee, callee_name@, caller, caller_name@, ps, metas, input, e as int + 1));
        }
        e = e + 1;
    }
}


/// Whether `v` is in `ids`.
fn contains_id(ids: &Vec<u128>, v: u128) -> (r: bool)
    ensures
        r == ids@.contains(v),
{
    let mut i: usize = 0;
    while i < ids.len()
        invariant
            i <= ids@.len(),
            forall|j: int| 0 <= j < i ==> ids@[j] != v,
        decreases ids.len() - i,
    {
        if ids[i] == v {
            return true;
        }
        i = i + 1;
    }
    false
}

/// Keeps the first seed of each identity (caller, callee, parameter index, call-site line).
pub fn dedupe_seeds(seeds: Vec<SliceHandoffSeed>) -> (r: Vec<SliceHandoffSeed>)
    ensures
        seed_views(r@) == dedupe(seed_views(seeds@)),
{
    let ghost sv = seed_views(seeds@);
    let mut kept: Vec<SliceHandoffSeed> = Vec::new();
    let mut i: usize = 0;
    while i < seeds.len()
        invariant
            sv == seed_views(seeds@),
            i <= seeds@.len(),
            seed_views(kept@) == dedupe(sv.take(i as int)),
        decreases seeds.len() - i,
    {
        let s = &seeds[i];
        let mut found = false;
        let mut j: usize = 0;
        while j < kept.len()
            invariant
                j <= kept@.len(),
                found <==> exists|t: int| 0 <= t < j && seed_key(#[trigger] seed_views(kept@)[t]) == seed_key(seed_view(*s)),
            decreases kept.len() - j,
        {
            let k = &kept[j];
            if k.caller_id == s.caller_id && k.callee_id == s.callee_id && k.param_index == s.param_index && k.call_site_line == s.call_site_line {
                found = true;
            }
            proof {
                assert(seed_views(kept@)[j as int] == seed_view(kept@[j as int]));
            }
            j = j + 1;
        }
        proof {
            assert(sv.take(i as int + 1).drop_last() =~= sv.take(i as int));
            assert(sv.take(i as int + 1).last() == seed_view(*s));
        }
        if !found {
            let ghost before = kept@;
            kept.push(copy_seed(s));
            proof {
                assert(seed_views(kept@) =~= seed_views(before).push(seed_view(*s)));
            }
        }
        i = i + 1;
    }
    proof {
        assert(sv.take(i as int) =~= sv);
    }
    kept
}

/// Resolves slice seeds from blast-radius callers into callee parameters: every call from a
/// direct caller into `symbol` gives one seed per parameter of `symbol` (or one `input` seed
/// when it has none), and every call into another impacted function from an impacted caller
/// or from `symbol` gives one seed per parameter; the first seed of each identity is kept.
pub fn resolve_handoff_seeds_with_call_graph(
    names: &Vec<(u128, String)>,
    call_graph: &CallGraph,
    direct_caller_ids: &Vec<u128>,
    impact_zone_ids: &Vec<u128>,
    symbol_id: u128,
    symbol_name: &String,
) -> (r: Vec<SliceHandoffSeed>)
    requires
        call_graph.wf(),
    ensures
        seed_views(r@) == dedupe(
            direct_seeds(*call_graph, names@, direct_caller_ids@, symbol_id, symbol_name@, direct_caller_ids@.len() as int)
                + impact_seeds(*call_graph, names@, direct_caller_ids@, impact_zone_ids@, symbol_id, impact_zone_ids@.len() as int),
        ),
{
    let ghost g = *call_graph;
    let mut seeds: Vec<SliceHandoffSeed> = Vec::new();
    let mut d: usize = 0;
    while d < direct_caller_ids.len()
        invariant
            g == *call_graph,
            call_graph.wf(),
            d <= direct_caller_ids@.len(),
            seed_views(seeds@) == direct_seeds(g, names@, direct_caller_ids@, symbol_id, symbol_name@, d as int),
        decreases direct_caller_ids.len() - d,
    {
        let caller_id = direct_caller_ids[d];
        let caller_name = name_lookup(names, caller_id);
        let edges = call_graph.call_edges_between(caller_id, symbol_id);
        let params = call_graph.parameter_names(symbol_id);
        proof {
            assert(params@.map_values(|s: String| s@) =~= params_of(g, symbol_id));
        }
        push_call_seeds(&mut seeds, symbol_id, symbol_name, caller_id, &caller_name, params, &edges, true, Ghost(calls_between(g, caller_id, symbol_id)));
        d = d + 1;
    }
    let ghost direct_part = seed_views(seeds@);
    let mut x: usize = 0;
    while x < impact_zone_ids.len()
        invariant
            g == *call_graph,
            call_graph.wf(),
            x <= impact_zone_ids@.len(),
            direct_part == direct_seeds(g, names@, direct_caller_ids@, symbol_id, symbol_name@, direct_caller_ids@.len() as int),
            seed_views(seeds@) == direct_part + impact_seeds(g, names@, direct_caller_ids@, impact_zone_ids@, symbol_id, x as int),
        decreases impact_zone_ids.len() - x,
    {
        let impact_id = impact_zone_ids[x];
        let ghost before = seed_views(seeds@);
        if impact_id == symbol_id || contains_id(direct_caller_ids, impact_id) {
        } else {
            let impact_name = name_lookup(names, impact_id);
            let callers = call_graph.callers(impact_id);
            let params = call_graph.parameter_names(impact_id);
            proof {
                assert(params@.map_values(|s: String| s@) =~= params_of(g, impact_id));
                assert(callers@ == callers_of(g, impact_id));
            }
            let mut c: usize = 0;
            while c < callers.len()
                invariant
                    g == *call_graph,
                    call_graph.wf(),
                    callers@ == callers_of(g, impact_id),
                    params@.map_values(|s: String| s@) == params_of(g, impact_id),
                    impact_name@ == name_in(names@, impact_id),
                    c <= callers@.len(),
                    seed_views(seeds@) == before + caller_seeds(g, names@, impact_zone_ids@, symbol_id, impact_id, callers@, c as int),
                decreases callers.len() - c,
            {
                let caller_id = callers[c];
                if !contains_id(impact_zone_ids, caller_id) && caller_id != symbol_id {
                } else {
                    let caller_name = name_lookup(names, caller_id);
                    let edges = call_graph.call_edges_between(caller_id, impact_id);
                    let ghost mid = seed_views(seeds@);
                    push_call_seeds(&mut seeds, impact_id, &impact_name, caller_id, &caller_name, params, &edges, false, Ghost(calls_between(g, caller_id, impact_id)));
                    proof {
                        assert(seed_views(seeds@) =~= before + caller_seeds(g, names@, impact_zone_ids@, symbol_id, impact_id, callers@, c as int + 1));
                    }
                }
                c = c + 1;
            }
            proof {
                assert(seed_views(seeds@) =~= direct_part + impact_seeds(g, names@, direct_caller_ids@, impact_zone_ids@, symbol_id, x as int + 1));
            }
        }
        x = x + 1;
    }
    dedupe_seeds(seeds)
}

/// Seeds for parameter index `param_index`, in order.
pub fn filter_handoff_seeds_by_index(seeds: &[SliceHandoffSeed], param_index: usize) -> (r: Vec<SliceHandoffSeed>)
    ensures
        seed_views(r@) == seed_views(seeds@).filter(|s: SeedView| s.5 == param_index),
{
    let ghost sv = seed_views(seeds@);
    let mut r: Vec<SliceHandoffSeed> = Vec::new();
    let mut i: usize = 0;
    while i < seeds.len()
        invariant
            sv == seed_views(seeds@),
            i <= seeds@.len(),
            seed_views(r@) == sv.take(i as int).filter(|s: SeedView| s.5 == param_index),
        decreases seeds.len() - i,
    {
        proof {
            assert(sv.take(i as int + 1).drop_last() =~= sv.take(i as int));
            reveal(Seq::filter);
        }
        if seeds[i].param_index == param_index {
            let ghost before = r@;
            r.push(copy_seed(&seeds[i]));
            proof {
                assert(seed_views(r@) =~= seed_views(before).push(sv[i as int]));
            }
        }
        i = i + 1;
    }
    proof {
        assert(sv.take(i as int) =~= sv);
    }
    r
}

/// Resolves the seeds and keeps those for one of `param_indices` (such as the mutated
/// arguments only).
pub fn resolve_handoff_seeds_for_indices(
    names: &Vec<(u128, String)>,
    call_graph: &CallGraph,
    direct_caller_ids: &Vec<u128>,
    impact_zone_ids: &Vec<u128>,
    symbol_id: u128,
    symbol_name: &String,
    param_indices: &[usize],
) -> (r: Vec<SliceHandoffSeed>)
    requires
        call_graph.wf(),
    ensures
        seed_views(r@) == dedupe(
            direct_seeds(*call_graph, names@, direct_caller_ids@, symbol_id, symbol_name@, direct_caller_ids@.len() as int)
                + impact_seeds(*call_graph, names@, direct_caller_ids@, impact_zone_ids@, symbol_id, impact_zone_ids@.len() as int),
        ).filter(|s: SeedView| param_indices@.contains(s.5)),
{
    let all = resolve_handoff_seeds_with_call_graph(names, call_graph, direct_caller_ids, impact_zone_ids, symbol_id, symbol_name);
    let ghost sv = seed_views(all@);
    let mut r: Vec<SliceHandoffSeed> = Vec::new();
    let mut i: usize = 0;
    while i < all.len()
        invariant
            sv == seed_views(all@),
            i <= all@.len(),
            seed_views(r@) == sv.take(i as int).filter(|s: SeedView| param_indices@.contains(s.5)),
        decreases all.len() - i,
    {
        proof {
            assert(sv.take(i as int + 1).drop_last() =~= sv.take(i as int));
            reveal(Seq::filter);
        }
        let mut hit = false;
        let mut k: usize = 0;
        let want = all[i].param_index;
        while k < param_indices.len()
            invariant
                k <= param_indices@.len(),
                hit <==> exists|t: int| 0 <= t < k && param_indices@[t] == want,
            decreases param_indices.len() - k,
        {
            if param_indices[k] == want {
                hit = true;
            }
            k = k + 1;
        }
        proof {
            assert(sv[i as int].5 == all@[i as int].param_index);
        }
        if hit {
            let ghost before = r@;
            r.push(copy_seed(&all[i]));
            proof {
                assert(seed_views(r@) =~= seed_views(before).push(sv[i as int]));
            }
        }
        i = i + 1;
    }
    proof {
        assert(sv.take(i as int) =~= sv);
    }
    r
}

} // verus!
