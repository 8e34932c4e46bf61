//! Call graph over function indices: adjacency lists in both directions, per-call-site
//! metadata, topological order and recursion.

use vstd::prelude::*;
use std::collections::{HashMap, HashSet, VecDeque};
use crate::paths::{count_false, is_walk, lemma_count_false_update, lemma_walk_suffix, on_cycle, reach};
use crate::text::{chars_of, chars_slice, parse_usize_text, str_eq, unsigned_text};

verus! {

broadcast use vstd::std_specs::hash::group_hash_axioms;

/// Index of an `arg_<n>` property key (`n` read as an unsigned number).
pub open spec fn arg_index(key: Seq<char>) -> Option<int> {
    if key.len() >= 4 && key.subrange(0, 4) == seq!['a', 'r', 'g', '_'] {
        match unsigned_text(key.subrange(4, key.len() as int)) {
            Some(v) => if v <= usize::MAX { Some(v) } else { None },
            None => None,
        }
    } else {
        None
    }
}

/// `(index, value)` of the argument properties, in property order.
pub open spec fn arg_entries(props: Seq<(String, String)>) -> Seq<(int, Seq<char>)>
    decreases props.len(),
{
    if props.len() == 0 {
        Seq::empty()
    } else {
        let rest = arg_entries(props.drop_last());
        match arg_index(props.last().0@) {
            Some(i) => rest.push((i, props.last().1@)),
            None => rest,
        }
    }
}

/// `x` placed after every entry of `sorted` whose index is not larger.
pub open spec fn insert_by_index(sorted: Seq<(int, Seq<char>)>, x: (int, Seq<char>)) -> Seq<(int, Seq<char>)>
    decreases sorted.len(),
{
    if sorted.len() == 0 || sorted.last().0 <= x.0 {
        sorted.push(x)
    } else {
        insert_by_index(sorted.drop_last(), x).push(sorted.last())
    }
}

/// Entries ordered by index; entries with equal index keep their order.
pub open spec fn sort_by_index(s: Seq<(int, Seq<char>)>) -> Seq<(int, Seq<char>)>
    decreases s.len(),
{
    if s.len() == 0 {
        s
    } else {
        insert_by_index(sort_by_index(s.drop_last()), s.last())
    }
}

/// The argument properties (`arg_0`, `arg_1`, ...) as `(index, value)`, ordered by index.
pub open spec fn argument_names(props: Seq<(String, String)>) -> Seq<(int, Seq<char>)> {
    sort_by_index(arg_entries(props))
}

/// The value of the first entry with index `i`.
pub open spec fn arg_lookup(args: Seq<(int, Seq<char>)>, i: int) -> Option<Seq<char>>
    decreases args.len(),
{
    if args.len() == 0 {
        None
    } else {
        match arg_lookup(args.drop_last(), i) {
            Some(v) => Some(v),
            None => if args.last().0 == i { Some(args.last().1) } else { None },
        }
    }
}

/// The value of property `arg_i`: the first property whose key reads as argument `i`.
pub open spec fn arg_value(props: Seq<(String, String)>, i: int) -> Option<Seq<char>>
    decreases props.len(),
{
    if props.len() == 0 {
        None
    } else {
        match arg_value(props.drop_last(), i) {
            Some(v) => Some(v),
            None => if arg_index(props.last().0@) == Some(i) { Some(props.last().1@) } else { None },
        }
    }
}

proof fn lemma_lookup_insert(t: Seq<(int, Seq<char>)>, x: (int, Seq<char>), i: int)
    ensures
        arg_lookup(insert_by_index(t, x), i) == arg_lookup(t.push(x), i),
    decreases t.len(),
{
    if !(t.len() == 0 || t.last().0 <= x.0) {
        let t2 = t.drop_last();
        let l = t.last();
        lemma_lookup_insert(t2, x, i);
        reveal_with_fuel(arg_lookup, 3);
        assert(insert_by_index(t, x) == insert_by_index(t2, x).push(l));
        assert(insert_by_index(t2, x).push(l).drop_last() =~= insert_by_index(t2, x));
        assert(t.push(x).drop_last() =~= t);
        assert(t2.push(x).drop_last() =~= t2);
        assert(t2.push(l) =~= t);
    }
}

proof fn lemma_lookup_sorted(s: Seq<(int, Seq<char>)>, i: int)
    ensures
        arg_lookup(sort_by_index(s), i) == arg_lookup(s, i),
    decreases s.len(),
{
    if s.len() > 0 {
        let s2 = s.drop_last();
        lemma_lookup_sorted(s2, i);
        lemma_lookup_insert(sort_by_index(s2), s.last(), i);
        assert(sort_by_index(s2).push(s.last()).drop_last() =~= sort_by_index(s2));
    }
}

proof fn lemma_lookup_entries(props: Seq<(String, String)>, i: int)
    ensures
        arg_lookup(arg_entries(props), i) == arg_value(props, i),
    decreases props.len(),
{
    if props.len() > 0 {
        lemma_lookup_entries(props.drop_last(), i);
        let rest = arg_entries(props.drop_last());
        match arg_index(props.last().0@) {
            Some(k) => {
                assert(rest.push((k, props.last().1@)).drop_last() =~= rest);
            },
            None => {},
        }
    }
}

/// One argument entry read from a property, if it is one.
fn arg_entry(key: &String) -> (r: Option<usize>)
    ensures
        match r {
            Some(i) => arg_index(key@) == Some(i as int),
            None => arg_index(key@) is None,
        },
{
    let c = chars_of(key.as_str());
    if c.len() >= 4 && c[0] == 'a' && c[1] == 'r' && c[2] == 'g' && c[3] == '_' {
        proof {
            assert(c@.subrange(0, 4) =~= seq!['a', 'r', 'g', '_']);
        }
        let rest = chars_slice(c.as_slice(), 4, c.len());
        parse_usize_text(rest.as_slice())
    } else {
        proof {
            if c@.len() >= 4 && c@.subrange(0, 4) == seq!['a', 'r', 'g', '_'] {
                assert(c@.subrange(0, 4)[0] == c@[0]);
                assert(c@.subrange(0, 4)[1] == c@[1]);
                assert(c@.subrange(0, 4)[2] == c@[2]);
                assert(c@.subrange(0, 4)[3] == c@[3]);
            }
        }
        None
    }
}

/// Views of index/value pairs.
pub open spec fn entry_views(v: Seq<(usize, String)>) -> Seq<(int, Seq<char>)> {
    v.map_values(|e: (usize, String)| (e.0 as int, e.1@))
}

/// Insert `x` into the sorted list, after the entries whose index is not larger.
fn insert_entry(sorted: &mut Vec<(usize, String)>, x: (usize, String))
    ensures
        entry_views(final(sorted)@) == insert_by_index(entry_views(old(sorted)@), (x.0 as int, x.1@)),
    decreases old(sorted)@.len(),
{
    let n = sorted.len();
    if n == 0 || sorted[n - 1].0 <= x.0 {
        let ghost before = sorted@;
        sorted.push(x);
        proof {
            assert(entry_views(sorted@) =~= entry_views(before).push((x.0 as int, x.1@)));
        }
    } else {
        let ghost before = sorted@;
        let last = sorted.pop().unwrap();
        proof {
            assert(entry_views(sorted@) =~= entry_views(before).drop_last());
        }
        insert_entry(sorted, x);
        let ghost mid = sorted@;
        sorted.push(last);
        proof {
            assert(entry_views(sorted@) =~= entry_views(mid).push((last.0 as int, last.1@)));
        }
    }
}

/// Argument names recorded as `arg_<index>` properties, as `(index, name)` ordered by
/// index; the name for argument `i` is the value of property `arg_i`.
pub fn parse_argument_names(properties: &Vec<(String, String)>) -> (r: Vec<(usize, String)>)
    ensures
        entry_views(r@) == argument_names(properties@),
        forall|i: int| #[trigger] arg_lookup(entry_views(r@), i) == arg_value(properties@, i),
{
    let ghost props = properties@;
    let mut sorted: Vec<(usize, String)> = Vec::new();
    let mut i: usize = 0;
    while i < properties.len()
        invariant
            props == properties@,
            i <= props.len(),
            entry_views(sorted@) == sort_by_index(arg_entries(props.take(i as int))),
        decreases properties.len() - i,
    {
        proof {
            assert(props.take(i as int + 1).drop_last() =~= props.take(i as int));
            assert(props.take(i as int + 1).last() == props[i as int]);
        }
        match arg_entry(&properties[i].0) {
            Some(idx) => {
                let v = properties[i].1.clone();
                proof {
                    assert(v@ == props[i as int].1@);
                    let prev = arg_entries(props.take(i as int));
                    assert(arg_entries(props.take(i as int + 1)) == prev.push((idx as int, v@)));
                    assert(prev.push((idx as int, v@)).drop_last() =~= prev);
                    assert(sort_by_index(prev.push((idx as int, v@))) == insert_by_index(sort_by_index(prev), (idx as int, v@)));
                }
                insert_entry(&mut sorted, (idx, v));
            },
            None => {
                proof {
                    assert(arg_entries(props.take(i as int + 1)) == arg_entries(props.take(i as int)));
                }
            },
        }
        i = i + 1;
    }
    proof {
        assert(props.take(i as int) =~= props);
        assert forall|k: int| #[trigger] arg_lookup(entry_views(sorted@), k) == arg_value(props, k) by {
            lemma_lookup_sorted(arg_entries(props), k);
            lemma_lookup_entries(props, k);
        }
    }
    sorted
}

/// The name recorded for argument `i` in a parsed list.
pub fn lookup_argument(args: &Vec<(usize, String)>, i: usize) -> (r: Option<String>)
    ensures
        match r {
            Some(s) => arg_lookup(entry_views(args@), i as int) == Some(s@),
            None => arg_lookup(entry_views(args@), i as int) is None,
        },
{
    let mut k: usize = 0;
    while k < args.len()
        invariant
            k <= args@.len(),
            arg_lookup(entry_views(args@.take(k as int)), i as int) is None,
        decreases args.len() - k,
    {
        proof {
            assert(entry_views(args@.take(k as int + 1)).drop_last() =~= entry_views(args@.take(k as int)));
        }
        if args[k].0 == i {
            let v = args[k].1.clone();
            proof {
                lemma_lookup_prefix(entry_views(args@), k as int + 1, i as int);
                assert(entry_views(args@).take(k as int + 1) =~= entry_views(args@.take(k as int + 1)));
            }
            return Some(v);
        }
        k = k + 1;
    }
    proof {
        assert(args@.take(k as int) =~= args@);
    }
    None
}

proof fn lemma_lookup_prefix(s: Seq<(int, Seq<char>)>, k: int, i: int)
    requires
        0 <= k <= s.len(),
        arg_lookup(s.take(k), i) is Some,
    ensures
        arg_lookup(s, i) == arg_lookup(s.take(k), i),
    decreases s.len() - k,
{
    if k < s.len() {
        assert(s.take(k + 1).drop_last() =~= s.take(k));
        lemma_lookup_prefix(s, k + 1, i);
    } else {
        assert(s.take(k) =~= s);
    }
}

/// A copy of a parsed argument list.
fn copy_entries(v: &Vec<(usize, String)>) -> (r: Vec<(usize, String)>)
    ensures
        entry_views(r@) == entry_views(v@),
{
    let mut r: Vec<(usize, String)> = Vec::new();
    let mut i: usize = 0;
    while i < v.len()
        invariant
            i <= v@.len(),
            r@.len() == i,
            forall|t: int| 0 <= t < i ==> (#[trigger] r@[t]).0 == v@[t].0 && r@[t].1@ == v@[t].1@,
        decreases v.len() - i,
    {
        r.push((v[i].0, v[i].1.clone()));
        i = i + 1;
    }
    assert(entry_views(r@) =~= entry_views(v@));
    r
}


/// Direct vs indirect call.
#[derive(Debug, Clone, Copy, PartialEq, Eq, Structural)]
pub enum CallType {
    Direct,
    Indirect,
}

/// A function node of the code graph: what the call graph keeps of it.
pub struct FunctionRecord {
    /// Graph node id.
    pub id: u128,
    /// Function name.
    pub name: String,
    /// Source file path, when known.
    pub file_path: Option<String>,
    /// Start line, when known.
    pub start_line: Option<usize>,
    /// Formal parameter names.
    pub parameters: Vec<String>,
}

/// An edge of the code graph: what the call graph keeps of it.
pub struct GraphEdgeRecord {
    /// Source node id.
    pub from: u128,
    /// Target node id.
    pub to: u128,
    /// The edge is a call.
    pub is_call: bool,
    /// Direct vs indirect, when recorded.
    pub call_type: Option<CallType>,
    /// Edge properties (`call_site_line`, `arg_<n>`, ...), keys distinct.
    pub properties: Vec<(String, String)>,
}

/// A function of the call graph as one record.
pub struct CallGraphNode {
    /// Graph node id.
    pub id: u128,
    /// Function name.
    pub name: String,
    /// Qualified name if available.
    pub qualified_name: Option<String>,
    /// Source file path.
    pub file_path: String,
    /// Start line.
    pub start_line: usize,
    /// Formal parameter names.
    pub parameters: Vec<String>,
}

/// A call edge between functions.
pub struct CallGraphEdge {
    /// Caller function id.
    pub from: u128,
    /// Callee function id.
    pub to: u128,
    /// Call site line (0 if unknown).
    pub call_site: usize,
    /// Direct vs indirect call.
    pub call_type: CallType,
    /// Argument variable names at the call site, as `(argument index, name)`.
    pub argument_names: Vec<(usize, String)>,
}

/// Metadata for one call edge instance (caller index -> callee index).
pub struct CallEdgeMeta {
    pub call_site: usize,
    pub call_type: CallType,
    pub argument_names: Vec<(usize, String)>,
}

/// Metadata as plain values: call-site line, call type, argument names.
pub open spec fn meta_view(call_site: usize, call_type: CallType, args: Seq<(usize, String)>) -> (usize, CallType, Seq<(int, Seq<char>)>) {
    (call_site, call_type, entry_views(args))
}

/// Call graph with contiguous adjacency lists over function indices.
pub struct CallGraph {
    /// Function id of each index.
    pub index_to_id: Vec<u128>,
    /// Index of each function id.
    pub id_to_index: HashMap<u128, u32>,
    /// Outgoing calls: index -> callee indices.
    pub success_list: Vec<Vec<u32>>,
    /// Incoming calls: index -> caller indices.
    pub precursor_list: Vec<Vec<u32>>,
    /// Function name of each index.
    pub names: Vec<String>,
    /// Source file path of each index (empty when unknown).
    pub file_paths: Vec<String>,
    /// Definition line of each index.
    pub line_numbers: Vec<usize>,
    /// Formal parameter names of each index.
    pub parameters: Vec<Vec<String>>,
    /// Metadata of each outgoing call, parallel to `success_list`.
    pub call_edge_meta: Vec<Vec<CallEdgeMeta>>,
}

/// Position of the function record with id `id` (the last one), or -1.
pub open spec fn fn_index(fs: Seq<FunctionRecord>, id: u128) -> int
    decreases fs.len(),
{
    if fs.len() == 0 {
        -1
    } else if fs.last().id == id {
        fs.len() - 1
    } else {
        fn_index(fs.drop_last(), id)
    }
}

/// The record is a call between two known functions.
pub open spec fn kept_call(fs: Seq<FunctionRecord>, e: GraphEdgeRecord) -> bool {
    e.is_call && fn_index(fs, e.from) >= 0 && fn_index(fs, e.to) >= 0
}

/// Callee indices of function `u`, one per call edge, in edge order.
pub open spec fn calls_from(fs: Seq<FunctionRecord>, es: Seq<GraphEdgeRecord>, u: int) -> Seq<u32>
    decreases es.len(),
{
    if es.len() == 0 {
        Seq::empty()
    } else {
        let rest = calls_from(fs, es.drop_last(), u);
        if kept_call(fs, es.last()) && fn_index(fs, es.last().from) == u {
            rest.push(fn_index(fs, es.last().to) as u32)
        } else {
            rest
        }
    }
}

/// Caller indices of function `v`, one per call edge, in edge order.
pub open spec fn calls_to(fs: Seq<FunctionRecord>, es: Seq<GraphEdgeRecord>, v: int) -> Seq<u32>
    decreases es.len(),
{
    if es.len() == 0 {
        Seq::empty()
    } else {
        let rest = calls_to(fs, es.drop_last(), v);
        if kept_call(fs, es.last()) && fn_index(fs, es.last().to) == v {
            rest.push(fn_index(fs, es.last().from) as u32)
        } else {
            rest
        }
    }
}

/// Value of the first property named `key`.
pub open spec fn prop_value(props: Seq<(String, String)>, key: Seq<char>) -> Option<Seq<char>>
    decreases props.len(),
{
    if props.len() == 0 {
        None
    } else if props[0].0@ == key {
        Some(props[0].1@)
    } else {
        prop_value(props.drop_first(), key)
    }
}

/// The call-site line recorded on an edge: `call_site_line` read as a number, else 0.
pub open spec fn call_site_of(props: Seq<(String, String)>) -> usize {
    match prop_value(props, seq!['c', 'a', 'l', 'l', '_', 's', 'i', 't', 'e', '_', 'l', 'i', 'n', 'e']) {
        Some(v) => match unsigned_text(v) {
            Some(n) => if n <= usize::MAX { n as usize } else { 0 },
            None => 0,
        },
        None => 0,
    }
}

/// Metadata of an edge record as plain values.
pub open spec fn edge_meta(e: GraphEdgeRecord) -> (usize, CallType, Seq<(int, Seq<char>)>) {
    (call_site_of(e.properties@), match e.call_type {
        Some(t) => t,
        None => CallType::Direct,
    }, argument_names(e.properties@))
}

/// Metadata of the call edges out of `u`, in edge order.
pub open spec fn metas_from(fs: Seq<FunctionRecord>, es: Seq<GraphEdgeRecord>, u: int) -> Seq<(usize, CallType, Seq<(int, Seq<char>)>)>
    decreases es.len(),
{
    if es.len() == 0 {
        Seq::empty()
    } else {
        let rest = metas_from(fs, es.drop_last(), u);
        if kept_call(fs, es.last()) && fn_index(fs, es.last().from) == u {
            rest.push(edge_meta(es.last()))
        } else {
            rest
        }
    }
}

/// No two function records share an id.
pub open spec fn distinct_fn_ids(fs: Seq<FunctionRecord>) -> bool {
    forall|i: int, j: int| 0 <= i < j < fs.len() ==> fs[i].id != fs[j].id
}

/// Adjacency lists as sequences.
pub open spec fn lists(v: Seq<Vec<u32>>) -> Seq<Seq<u32>> {
    v.map_values(|l: Vec<u32>| l@)
}

/// Metadata of the `k`-th entry of list `u`, as plain values.
pub open spec fn meta_at(m: Seq<Vec<CallEdgeMeta>>, u: int, k: int) -> (usize, CallType, Seq<(int, Seq<char>)>) {
    let e = m[u]@[k];
    meta_view(e.call_site, e.call_type, e.argument_names@)
}

/// The graph columns of one function hold what its record says.
pub open spec fn record_kept(f: FunctionRecord, id: u128, name: String, path: String, line: usize, params: Vec<String>) -> bool {
    &&& id == f.id
    &&& name@ == f.name@
    &&& path@ == (match f.file_path {
        Some(p) => p@,
        None => Seq::<char>::empty(),
    })
    &&& line == (match f.start_line {
        Some(l) => l,
        None => 0,
    })
    &&& string_seq(params@) == string_seq(f.parameters@)
}

proof fn lemma_metas_len(fs: Seq<FunctionRecord>, es: Seq<GraphEdgeRecord>)
    ensures
        forall|u: int| #[trigger] metas_from(fs, es, u).len() == calls_from(fs, es, u).len(),
    decreases es.len(),
{
    if es.len() > 0 {
        lemma_metas_len(fs, es.drop_last());
        assert forall|u: int| #[trigger] metas_from(fs, es, u).len() == calls_from(fs, es, u).len() by {
            assert(metas_from(fs, es.drop_last(), u).len() == calls_from(fs, es.drop_last(), u).len());
        }
    }
}

impl CallGraph {
    /// Outgoing lists as sequences.
    pub open spec fn succ(&self) -> Seq<Seq<u32>> {
        lists(self.success_list@)
    }

    /// Incoming lists as sequences.
    pub open spec fn pred(&self) -> Seq<Seq<u32>> {
        lists(self.precursor_list@)
    }

    /// Metadata of the `k`-th outgoing call of `u`.
    pub open spec fn meta(&self, u: int, k: int) -> (usize, CallType, Seq<(int, Seq<char>)>) {
        meta_at(self.call_edge_meta@, u, k)
    }

    /// Lengths agree, indices are in range, ids are distinct and mapped back to their
    /// index, and the incoming lists mirror the outgoing ones.
    pub open spec fn wf(&self) -> bool {
        let n = self.index_to_id@.len();
        &&& n <= u32::MAX
        &&& self.success_list@.len() == n
        &&& self.precursor_list@.len() == n
        &&& self.names@.len() == n
        &&& self.file_paths@.len() == n
        &&& self.line_numbers@.len() == n
        &&& self.parameters@.len() == n
        &&& self.call_edge_meta@.len() == n
        &&& forall|u: int| 0 <= u < n ==> (#[trigger] self.call_edge_meta@[u])@.len() == self.success_list@[u]@.len()
        &&& forall|u: int, k: int| 0 <= u < n && 0 <= k < self.succ()[u].len() ==> (#[trigger] self.succ()[u][k] as int) < n
        &&& forall|u: int, k: int| 0 <= u < n && 0 <= k < self.pred()[u].len() ==> (#[trigger] self.pred()[u][k] as int) < n
        &&& forall|u: int, v: int| 0 <= u < n && 0 <= v < n ==> (#[trigger] self.pred()[v].contains(u as u32) <==> #[trigger] self.succ()[u].contains(v as u32))
        &&& forall|i: int, j: int| 0 <= i < j < n ==> self.index_to_id@[i] != self.index_to_id@[j]
        &&& forall|i: int| 0 <= i < n ==> #[trigger] self.id_to_index@.contains_key(self.index_to_id@[i]) && self.id_to_index@[self.index_to_id@[i]] == i
        &&& forall|id: u128| #[trigger] self.id_to_index@.contains_key(id) ==> (self.id_to_index@[id] as int) < n && self.index_to_id@[self.id_to_index@[id] as int] == id
    }

    /// Index of function `id`, or -1.
    pub open spec fn index_of(&self, id: u128) -> int {
        if self.id_to_index@.contains_key(id) {
            self.id_to_index@[id] as int
        } else {
            -1
        }
    }
}


/// Views of a list of strings.
pub open spec fn string_seq(v: Seq<String>) -> Seq<Seq<char>> {
    v.map_values(|s: String| s@)
}

/// A copy of a list of strings.
fn copy_strings(v: &Vec<String>) -> (r: Vec<String>)
    ensures
        string_seq(r@) == string_seq(v@),
{
    let mut r: Vec<String> = Vec::new();
    let mut i: usize = 0;
    while i < v.len()
        invariant
            i <= v@.len(),
            r@.len() == i,
            forall|t: int| 0 <= t < i ==> (#[trigger] r@[t])@ == v@[t]@,
        decreases v.len() - i,
    {
        r.push(v[i].clone());
        i = i + 1;
    }
    proof {
        assert forall|t: int| 0 <= t < r@.len() implies #[trigger] string_seq(r@)[t] == string_seq(v@)[t] by {
            assert(r@[t]@ == v@[t]@);
        }
        assert(string_seq(r@) =~= string_seq(v@));
    }
    r
}

proof fn lemma_fn_index(fs: Seq<FunctionRecord>, id: u128)
    ensures
        fn_index(fs, id) < fs.len(),
        fn_index(fs, id) >= 0 ==> fs[fn_index(fs, id)].id == id,
        fn_index(fs, id) < 0 ==> forall|i: int| 0 <= i < fs.len() ==> fs[i].id != id,
        distinct_fn_ids(fs) ==> forall|i: int| 0 <= i < fs.len() && fs[i].id == id ==> fn_index(fs, id) == i,
    decreases fs.len(),
{
    if fs.len() > 0 {
        lemma_fn_index(fs.drop_last(), id);
        assert forall|i: int| 0 <= i < fs.len() - 1 implies fs.drop_last()[i] == fs[i] by {}
        if distinct_fn_ids(fs) {
            assert(distinct_fn_ids(fs.drop_last())) by {
                assert forall|i: int, j: int| 0 <= i < j < fs.len() - 1 implies fs.drop_last()[i].id != fs.drop_last()[j].id by {
                    assert(fs[i].id != fs[j].id);
                }
            }
        }
    }
}

/// The value of the first property named `key`.
pub(crate) fn find_property<'a>(props: &'a Vec<(String, String)>, key: &str) -> (r: Option<&'a String>)
    ensures
        match r {
            Some(v) => prop_value(props@, key@) == Some(v@),
            None => prop_value(props@, key@) is None,
        },
{
    let mut i: usize = 0;
    proof {
        assert(props@.skip(0) =~= props@);
    }
    while i < props.len()
        invariant
            i <= props@.len(),
            prop_value(props@, key@) == prop_value(props@.skip(i as int), key@),
        decreases props.len() - i,
    {
        if str_eq(props[i].0.as_str(), key) {
            return Some(&props[i].1);
        }
        proof {
            assert(props@.skip(i as int).drop_first() =~= props@.skip(i as int + 1));
        }
        i = i + 1;
    }
    None
}

/// Metadata of an edge record: call-site line, call type, argument names.
fn meta_of(e: &GraphEdgeRecord) -> (r: CallEdgeMeta)
    ensures
        meta_view(r.call_site, r.call_type, r.argument_names@) == edge_meta(*e),
{
    let key = "call_site_line";
    proof {
        reveal_strlit("call_site_line");
        assert(key@ =~= seq!['c', 'a', 'l', 'l', '_', 's', 'i', 't', 'e', '_', 'l', 'i', 'n', 'e']);
    }
    let call_site = match find_property(&e.properties, key) {
        Some(v) => {
            let c = chars_of(v.as_str());
            match parse_usize_text(c.as_slice()) {
                Some(n) => n,
                None => 0,
            }
        },
        None => 0,
    };
    let call_type = match e.call_type {
        Some(t) => t,
        None => CallType::Direct,
    };
    let argument_names = parse_argument_names(&e.properties);
    CallEdgeMeta { call_site, call_type, argument_names }
}

proof fn lemma_calls_wf(fs: Seq<FunctionRecord>, es: Seq<GraphEdgeRecord>)
    requires
        fs.len() <= u32::MAX,
    ensures
        forall|u: int, k: int| 0 <= k < calls_from(fs, es, u).len() ==> (#[trigger] calls_from(fs, es, u)[k] as int) < fs.len(),
        forall|u: int, k: int| 0 <= k < calls_to(fs, es, u).len() ==> (#[trigger] calls_to(fs, es, u)[k] as int) < fs.len(),
    decreases es.len(),
{
    if es.len() > 0 {
        lemma_calls_wf(fs, es.drop_last());
        lemma_fn_index(fs, es.last().from);
        lemma_fn_index(fs, es.last().to);
        assert forall|u: int, k: int| 0 <= k < calls_from(fs, es, u).len() implies (#[trigger] calls_from(fs, es, u)[k] as int) < fs.len() by {
            if k < calls_from(fs, es.drop_last(), u).len() {
                assert(calls_from(fs, es, u)[k] == calls_from(fs, es.drop_last(), u)[k]);
            }
        }
        assert forall|u: int, k: int| 0 <= k < calls_to(fs, es, u).len() implies (#[trigger] calls_to(fs, es, u)[k] as int) < fs.len() by {
            if k < calls_to(fs, es.drop_last(), u).len() {
                assert(calls_to(fs, es, u)[k] == calls_to(fs, es.drop_last(), u)[k]);
            }
        }
    }
}

proof fn lemma_calls_mirror(fs: Seq<FunctionRecord>, es: Seq<GraphEdgeRecord>, u: int, v: int)
    requires
        fs.len() <= u32::MAX,
        0 <= u < fs.len(),
        0 <= v < fs.len(),
    ensures
        calls_to(fs, es, v).contains(u as u32) <==> calls_from(fs, es, u).contains(v as u32),
    decreases es.len(),
{
    if es.len() > 0 {
        let init = es.drop_last();
        lemma_calls_mirror(fs, init, u, v);
        let e = es.last();
        lemma_fn_index(fs, e.from);
        lemma_fn_index(fs, e.to);
        let a = calls_to(fs, init, v);
        let b = calls_from(fs, init, u);
        let hit = kept_call(fs, e) && fn_index(fs, e.from) == u && fn_index(fs, e.to) == v;
        if calls_to(fs, es, v).contains(u as u32) && !a.contains(u as u32) {
            assert(kept_call(fs, e) && fn_index(fs, e.to) == v);
            assert(calls_to(fs, es, v) == a.push(fn_index(fs, e.from) as u32));
            let j = choose|j: int| 0 <= j < calls_to(fs, es, v).len() && calls_to(fs, es, v)[j] == u as u32;
            if j < a.len() {
                assert(a[j] == u as u32);
            }
            assert(fn_index(fs, e.from) == u);
            assert(calls_from(fs, es, u) == b.push(v as u32));
            assert(calls_from(fs, es, u)[b.len() as int] == v as u32);
        }
        if calls_from(fs, es, u).contains(v as u32) && !b.contains(v as u32) {
            assert(kept_call(fs, e) && fn_index(fs, e.from) == u);
            assert(calls_from(fs, es, u) == b.push(fn_index(fs, e.to) as u32));
            let j = choose|j: int| 0 <= j < calls_from(fs, es, u).len() && calls_from(fs, es, u)[j] == v as u32;
            if j < b.len() {
                assert(b[j] == v as u32);
            }
            assert(fn_index(fs, e.to) == v);
            assert(calls_to(fs, es, v) == a.push(u as u32));
            assert(calls_to(fs, es, v)[a.len() as int] == u as u32);
        }
        if a.contains(u as u32) {
            let j = choose|j: int| 0 <= j < a.len() && a[j] == u as u32;
            if kept_call(fs, e) && fn_index(fs, e.to) == v {
                assert(calls_to(fs, es, v)[j] == u as u32);
            } else {
                assert(calls_to(fs, es, v) == a);
            }
        }
        if b.contains(v as u32) {
            let j = choose|j: int| 0 <= j < b.len() && b[j] == v as u32;
            if kept_call(fs, e) && fn_index(fs, e.from) == u {
                assert(calls_from(fs, es, u)[j] == v as u32);
            } else {
                assert(calls_from(fs, es, u) == b);
            }
        }
    }
}

/// `m` maps the ids of the first `i` records to their positions, and nothing else.
pub open spec fn indexes_ok(m: Map<u128, u32>, fs: Seq<FunctionRecord>, i: int) -> bool {
    &&& forall|j: int| 0 <= j < i ==> #[trigger] m.contains_key(fs[j].id) && m[fs[j].id] == j
    &&& forall|id: u128| #[trigger] m.contains_key(id) ==> (m[id] as int) < i && fs[m[id] as int].id == id
}

proof fn lemma_indexes_step(m: Map<u128, u32>, fs: Seq<FunctionRecord>, i: int)
    requires
        indexes_ok(m, fs, i),
        distinct_fn_ids(fs),
        0 <= i < fs.len(),
        i <= u32::MAX,
    ensures
        indexes_ok(m.insert(fs[i].id, i as u32), fs, i + 1),
{
    let m2 = m.insert(fs[i].id, i as u32);
    assert forall|j: int| 0 <= j < i + 1 implies #[trigger] m2.contains_key(fs[j].id) && m2[fs[j].id] == j by {
        if j < i {
            assert(fs[j].id != fs[i].id);
            assert(m.contains_key(fs[j].id));
        }
    }
    assert forall|id: u128| #[trigger] m2.contains_key(id) implies (m2[id] as int) < i + 1 && fs[m2[id] as int].id == id by {
        if id != fs[i].id {
            assert(m.contains_key(id));
        }
    }
}

impl CallGraph {
    /// Builds the call graph of the function nodes `functions` (index = position) from the
    /// call edges among `edges`; edges touching other nodes are left out.
    pub fn from_backend(functions: &Vec<FunctionRecord>, edges: &Vec<GraphEdgeRecord>) -> (r: CallGraph)
        requires
            distinct_fn_ids(functions@),
            functions@.len() <= u32::MAX,
        ensures
            r.wf(),
            r.index_to_id@.len() == functions@.len(),
            forall|i: int| 0 <= i < functions@.len() ==> record_kept(functions@[i], #[trigger] r.index_to_id@[i], r.names@[i], r.file_paths@[i], r.line_numbers@[i], r.parameters@[i]),
            forall|u: int| 0 <= u < functions@.len() ==> #[trigger] r.succ()[u] == calls_from(functions@, edges@, u)
                && r.pred()[u] == calls_to(functions@, edges@, u),
            forall|u: int, k: int| 0 <= u < functions@.len() && 0 <= k < r.succ()[u].len() ==> #[trigger] r.meta(u, k) == metas_from(functions@, edges@, u)[k],
    {
        let ghost fs = functions@;
        let ghost es = edges@;
        let n = functions.len();
        let mut index_to_id: Vec<u128> = Vec::new();
        let mut id_to_index: HashMap<u128, u32> = HashMap::new();
        let mut names: Vec<String> = Vec::new();
        let mut file_paths: Vec<String> = Vec::new();
        let mut line_numbers: Vec<usize> = Vec::new();
        let mut parameters: Vec<Vec<String>> = Vec::new();
        let mut i: usize = 0;
        while i < n
            invariant
                fs == functions@,
                n == fs.len(),
                n <= u32::MAX,
                distinct_fn_ids(fs),
                i <= n,
                index_to_id@.len() == i,
                names@.len() == i,
                file_paths@.len() == i,
                line_numbers@.len() == i,
                parameters@.len() == i,
                forall|j: int| 0 <= j < i ==> record_kept(fs[j], #[trigger] index_to_id@[j], names@[j], file_paths@[j], line_numbers@[j], parameters@[j]),
                indexes_ok(id_to_index@, fs, i as int),
            decreases n - i,
        {
            let f = &functions[i];
            let ghost m0 = id_to_index@;
            let ghost ids0 = index_to_id@;
            let ghost names0 = names@;
            let ghost paths0 = file_paths@;
            let ghost lines0 = line_numbers@;
            let ghost params0 = parameters@;
            id_to_index.insert(f.id, i as u32);
            index_to_id.push(f.id);
            names.push(f.name.clone());
            let path = match &f.file_path {
                Some(p) => p.clone(),
                None => String::new(),
            };
            file_paths.push(path);
            let line = match f.start_line {
                Some(l) => l,
                None => 0,
            };
            line_numbers.push(line);
            parameters.push(copy_strings(&f.parameters));
            proof {
                lemma_indexes_step(m0, fs, i as int);
                assert(id_to_index@ == m0.insert(fs[i as int].id, i as u32));
                assert forall|j: int| 0 <= j < i + 1 implies record_kept(fs[j], #[trigger] index_to_id@[j], names@[j], file_paths@[j], line_numbers@[j], parameters@[j]) by {
                    if j < i {
                        assert(index_to_id@[j] == ids0[j]);
                        assert(record_kept(fs[j], ids0[j], names0[j], paths0[j], lines0[j], params0[j]));
                    }
                }
            }
            i = i + 1;
        }
        let mut success_list: Vec<Vec<u32>> = Vec::new();
        let mut precursor_list: Vec<Vec<u32>> = Vec::new();
        let mut call_edge_meta: Vec<Vec<CallEdgeMeta>> = Vec::new();
        let mut i: usize = 0;
        while i < n
            invariant
                i <= n,
                success_list@.len() == i,
                precursor_list@.len() == i,
                call_edge_meta@.len() == i,
                forall|u: int| 0 <= u < i ==> (#[trigger] success_list@[u])@.len() == 0 && precursor_list@[u]@.len() == 0 && call_edge_meta@[u]@.len() == 0,
            decreases n - i,
        {
            success_list.push(Vec::new());
            precursor_list.push(Vec::new());
            call_edge_meta.push(Vec::new());
            i = i + 1;
        }
        proof {
            assert(es.take(0) =~= Seq::<GraphEdgeRecord>::empty());
            assert forall|u: int| 0 <= u < n implies #[trigger] lists(success_list@)[u] == calls_from(fs, es.take(0), u)
                && lists(precursor_list@)[u] == calls_to(fs, es.take(0), u)
                && call_edge_meta@[u]@.len() == success_list@[u]@.len() by {
                assert(lists(success_list@)[u] =~= Seq::<u32>::empty());
                assert(lists(precursor_list@)[u] =~= Seq::<u32>::empty());
            }
            assert forall|u: int, m: int| 0 <= u < n && 0 <= m < call_edge_meta@[u]@.len() implies #[trigger] meta_at(call_edge_meta@, u, m) == metas_from(fs, es.take(0), u)[m] by {
                assert(success_list@[u]@.len() == 0);
                assert(call_edge_meta@[u]@.len() == 0);
            }
        }
        let mut k: usize = 0;
        while k < edges.len()
            invariant
                fs == functions@,
                es == edges@,
                n == fs.len(),
                n <= u32::MAX,
                distinct_fn_ids(fs),
                k <= es.len(),
                success_list@.len() == n,
                precursor_list@.len() == n,
                call_edge_meta@.len() == n,
                indexes_ok(id_to_index@, fs, n as int),
                forall|u: int| 0 <= u < n ==> #[trigger] lists(success_list@)[u] == calls_from(fs, es.take(k as int), u)
                    && lists(precursor_list@)[u] == calls_to(fs, es.take(k as int), u)
                    && call_edge_meta@[u]@.len() == success_list@[u]@.len(),
                forall|u: int, m: int| 0 <= u < n && 0 <= m < call_edge_meta@[u]@.len() ==> #[trigger] meta_at(call_edge_meta@, u, m) == metas_from(fs, es.take(k as int), u)[m],
            decreases edges.len() - k,
        {
            let e = &edges[k];
            let ghost s0 = success_list@;
            let ghost p0 = precursor_list@;
            let ghost c0 = call_edge_meta@;
            proof {
                assert(es.take(k as int + 1).drop_last() =~= es.take(k as int));
                assert(es.take(k as int + 1).last() == es[k as int]);
                lemma_fn_index(fs, e.from);
                lemma_fn_index(fs, e.to);
                lemma_metas_len(fs, es.take(k as int));
            }
            let mut kept = false;
            if e.is_call {
                let from_idx = id_to_index.get(&e.from);
                let to_idx = id_to_index.get(&e.to);
                match (from_idx, to_idx) {
                    (Some(fr), Some(tr)) => {
                        let f = *fr;
                        let t = *tr;
                        proof {
                            assert(fn_index(fs, e.from) == f as int);
                            assert(fn_index(fs, e.to) == t as int);
                        }
                        let meta = meta_of(e);
                        success_list[f as usize].push(t);
                        precursor_list[t as usize].push(f);
                        call_edge_meta[f as usize].push(meta);
                        kept = true;
                        proof {
                            assert forall|u: int| 0 <= u < n implies #[trigger] lists(success_list@)[u] == calls_from(fs, es.take(k as int + 1), u)
                                && lists(precursor_list@)[u] == calls_to(fs, es.take(k as int + 1), u)
                                && call_edge_meta@[u]@.len() == success_list@[u]@.len() by {
                                assert(lists(s0)[u] == calls_from(fs, es.take(k as int), u));
                                assert(lists(p0)[u] == calls_to(fs, es.take(k as int), u));
                            }
                            assert forall|u: int, m: int| 0 <= u < n && 0 <= m < call_edge_meta@[u]@.len() implies #[trigger] meta_at(call_edge_meta@, u, m) == metas_from(fs, es.take(k as int + 1), u)[m] by {
                                assert(lists(s0)[u] == calls_from(fs, es.take(k as int), u));
                                assert(metas_from(fs, es.take(k as int), u).len() == calls_from(fs, es.take(k as int), u).len());
                                if u == f as int && m == c0[u]@.len() {
                                    assert(call_edge_meta@[u]@[m] == meta);
                                } else {
                                    assert(call_edge_meta@[u]@[m] == c0[u]@[m]);
                                    assert(meta_at(c0, u, m) == metas_from(fs, es.take(k as int), u)[m]);
                                }
                            }
                        }
                    },
                    _ => {},
                }
            }
            if !kept {
                proof {
                    assert(!kept_call(fs, *e));
                    assert forall|u: int| 0 <= u < n implies #[trigger] lists(success_list@)[u] == calls_from(fs, es.take(k as int + 1), u)
                        && lists(precursor_list@)[u] == calls_to(fs, es.take(k as int + 1), u)
                        && call_edge_meta@[u]@.len() == success_list@[u]@.len() by {
                        assert(lists(s0)[u] == calls_from(fs, es.take(k as int), u));
                    }
                    assert forall|u: int, m: int| 0 <= u < n && 0 <= m < call_edge_meta@[u]@.len() implies #[trigger] meta_at(call_edge_meta@, u, m) == metas_from(fs, es.take(k as int + 1), u)[m] by {
                        assert(meta_at(c0, u, m) == metas_from(fs, es.take(k as int), u)[m]);
                    }
                }
            }
            k = k + 1;
        }
        proof {
            assert(es.take(es.len() as int) =~= es);
            lemma_calls_wf(fs, es);
            assert forall|u: int, v: int| 0 <= u < n && 0 <= v < n implies (#[trigger] lists(precursor_list@)[v].contains(u as u32) <==> #[trigger] lists(success_list@)[u].contains(v as u32)) by {
                lemma_calls_mirror(fs, es, u, v);
                assert(k == es.len());
                assert(lists(success_list@)[u] == calls_from(fs, es.take(k as int), u));
                assert(lists(success_list@)[v] == calls_from(fs, es.take(k as int), v));
                assert(lists(precursor_list@)[v] == calls_to(fs, es.take(k as int), v));
            }
        }
        let g = CallGraph { index_to_id, id_to_index, success_list, precursor_list, names, file_paths, line_numbers, parameters, call_edge_meta };
        proof {
            assert(g.succ() == lists(g.success_list@));
            assert(g.pred() == lists(g.precursor_list@));
            assert forall|u: int| 0 <= u < n implies (#[trigger] g.call_edge_meta@[u])@.len() == g.success_list@[u]@.len() by {
                assert(lists(g.success_list@)[u] == calls_from(fs, es.take(k as int), u));
            }
            assert forall|u: int, j: int| 0 <= u < n && 0 <= j < g.succ()[u].len() implies (#[trigger] g.succ()[u][j] as int) < n by {
                assert(lists(g.success_list@)[u] == calls_from(fs, es.take(k as int), u));
            }
            assert forall|u: int, j: int| 0 <= u < n && 0 <= j < g.pred()[u].len() implies (#[trigger] g.pred()[u][j] as int) < n by {
                assert(lists(g.success_list@)[u] == calls_from(fs, es.take(k as int), u));
                assert(lists(g.precursor_list@)[u] == calls_to(fs, es.take(k as int), u));
            }
        }
        g
    }
}


/// Total length of the lists.
pub open spec fn total_len(s: Seq<Seq<u32>>) -> nat
    decreases s.len(),
{
    if s.len() == 0 {
        0
    } else {
        total_len(s.drop_last()) + s.last().len()
    }
}

/// Position of the first name equal to `name`, or -1.
pub open spec fn first_named(names: Seq<String>, name: Seq<char>) -> int
    decreases names.len(),
{
    if names.len() == 0 {
        -1
    } else if names[0]@ == name {
        0
    } else if first_named(names.drop_first(), name) >= 0 {
        first_named(names.drop_first(), name) + 1
    } else {
        -1
    }
}

/// Metadata of the calls from `u` whose callee has id `callee`, among the first `k` calls.
pub open spec fn metas_to(g: CallGraph, u: int, callee: u128, k: int) -> Seq<(usize, CallType, Seq<(int, Seq<char>)>)>
    decreases k,
{
    if k <= 0 {
        Seq::empty()
    } else if g.index_to_id@[g.succ()[u][k - 1] as int] == callee {
        metas_to(g, u, callee, k - 1).push(g.meta(u, k - 1))
    } else {
        metas_to(g, u, callee, k - 1)
    }
}

/// Metadata of all calls from `caller` to `callee` (empty when `caller` is unknown).
pub open spec fn calls_between(g: CallGraph, caller: u128, callee: u128) -> Seq<(usize, CallType, Seq<(int, Seq<char>)>)> {
    if g.index_of(caller) >= 0 {
        metas_to(g, g.index_of(caller), callee, g.succ()[g.index_of(caller)].len() as int)
    } else {
        Seq::empty()
    }
}

/// The edge as plain values: caller, callee, call-site line, call type, argument names.
pub open spec fn call_edge_view(e: CallGraphEdge) -> (u128, u128, (usize, CallType, Seq<(int, Seq<char>)>)) {
    (e.from, e.to, meta_view(e.call_site, e.call_type, e.argument_names@))
}


/// The calls out of function `u`, as (caller id, callee id, metadata), in list order.
pub open spec fn edge_row(g: CallGraph, u: int) -> Seq<(u128, u128, (usize, CallType, Seq<(int, Seq<char>)>))> {
    Seq::new(g.succ()[u].len(), |k: int| (g.index_to_id@[u], g.index_to_id@[g.succ()[u][k] as int], g.meta(u, k)))
}

/// The calls out of every function, by function index.
pub open spec fn edge_rows(g: CallGraph) -> Seq<Seq<(u128, u128, (usize, CallType, Seq<(int, Seq<char>)>))>> {
    Seq::new(g.index_to_id@.len(), |u: int| edge_row(g, u))
}

/// All calls of the graph: function by function, each in the order of its outgoing list.
pub open spec fn all_call_edges(g: CallGraph) -> Seq<(u128, u128, (usize, CallType, Seq<(int, Seq<char>)>))> {
    edge_rows(g).flatten_alt()
}

/// The argument at `i` of the first of `ms` that records one.
pub open spec fn first_argument(ms: Seq<(usize, CallType, Seq<(int, Seq<char>)>)>, i: int) -> Option<Seq<char>>
    decreases ms.len(),
{
    if ms.len() == 0 {
        None
    } else if arg_lookup(ms[0].2, i) is Some {
        arg_lookup(ms[0].2, i)
    } else {
        first_argument(ms.drop_first(), i)
    }
}

impl CallGraph {
    /// Number of functions.
    pub fn function_count(&self) -> (r: usize)
        ensures
            r == self.index_to_id@.len(),
    {
        self.index_to_id.len()
    }

    /// Number of call edges.
    pub fn call_edge_count(&self) -> (r: usize)
        requires
            total_len(self.succ()) <= usize::MAX,
        ensures
            r == total_len(self.succ()),
    {
        let mut total: usize = 0;
        let mut i: usize = 0;
        while i < self.success_list.len()
            invariant
                i <= self.success_list@.len(),
                total == total_len(self.succ().take(i as int)),
                total_len(self.succ()) <= usize::MAX,
            decreases self.success_list.len() - i,
        {
            proof {
                assert(self.succ().take(i as int + 1).drop_last() =~= self.succ().take(i as int));
                lemma_total_len_prefix(self.succ(), i as int + 1);
            }
            total = total + self.success_list[i].len();
            i = i + 1;
        }
        proof {
            assert(self.succ().take(i as int) =~= self.succ());
        }
        total
    }

    /// Id of the first function named `name`.
    pub fn id_by_name(&self, name: &str) -> (r: Option<u128>)
        requires
            self.wf(),
        ensures
            r == (if first_named(self.names@, name@) >= 0 {
                Some(self.index_to_id@[first_named(self.names@, name@)])
            } else {
                None::<u128>
            }),
    {
        let mut i: usize = 0;
        proof {
            assert(self.names@.skip(0) =~= self.names@);
        }
        while i < self.names.len()
            invariant
                self.wf(),
                i <= self.names@.len(),
                first_named(self.names@, name@) == (if first_named(self.names@.skip(i as int), name@) >= 0 {
                    first_named(self.names@.skip(i as int), name@) + i
                } else {
                    -1
                }),
            decreases self.names.len() - i,
        {
            if str_eq(self.names[i].as_str(), name) {
                return Some(self.index_to_id[i]);
            }
            proof {
                assert(self.names@.skip(i as int).drop_first() =~= self.names@.skip(i as int + 1));
            }
            i = i + 1;
        }
        None
    }

    /// Index of `function`, if it is in the graph.
    fn lookup(&self, function: u128) -> (r: Option<usize>)
        requires
            self.wf(),
        ensures
            match r {
                Some(i) => self.index_of(function) == i as int && i < self.index_to_id@.len(),
                None => self.index_of(function) == -1,
            },
    {
        match self.id_to_index.get(&function) {
            Some(i) => Some(*i as usize),
            None => None,
        }
    }

    /// Name of `function`.
    pub fn name(&self, function: u128) -> (r: Option<&str>)
        requires
            self.wf(),
        ensures
            match r {
                Some(s) => self.index_of(function) >= 0 && s@ == self.names@[self.index_of(function)]@,
                None => self.index_of(function) < 0,
            },
    {
        match self.lookup(function) {
            Some(i) => Some(self.names[i].as_str()),
            None => None,
        }
    }

    /// Ids of the functions at `idxs`.
    fn ids_at(&self, idxs: &Vec<u32>) -> (r: Vec<u128>)
        requires
            self.wf(),
            forall|k: int| 0 <= k < idxs@.len() ==> (#[trigger] idxs@[k] as int) < self.index_to_id@.len(),
        ensures
            r@ == idxs@.map_values(|c: u32| self.index_to_id@[c as int]),
    {
        let mut r: Vec<u128> = Vec::new();
        let mut k: usize = 0;
        while k < idxs.len()
            invariant
                self.wf(),
                forall|j: int| 0 <= j < idxs@.len() ==> (#[trigger] idxs@[j] as int) < self.index_to_id@.len(),
                k <= idxs@.len(),
                r@ == idxs@.take(k as int).map_values(|c: u32| self.index_to_id@[c as int]),
            decreases idxs.len() - k,
        {
            r.push(self.index_to_id[idxs[k] as usize]);
            proof {
                assert(r@ =~= idxs@.take(k as int + 1).map_values(|c: u32| self.index_to_id@[c as int]));
            }
            k = k + 1;
        }
        proof {
            assert(idxs@.take(k as int) =~= idxs@);
        }
        r
    }

    /// Callee ids of `function`, one per call, in call order.
    pub fn callees(&self, function: u128) -> (r: Vec<u128>)
        requires
            self.wf(),
        ensures
            r@ == (if self.index_of(function) >= 0 {
                self.succ()[self.index_of(function)].map_values(|c: u32| self.index_to_id@[c as int])
            } else {
                Seq::<u128>::empty()
            }),
    {
        match self.lookup(function) {
            Some(i) => {
                proof {
                    assert(self.succ()[i as int] == self.success_list@[i as int]@);
                }
                self.ids_at(&self.success_list[i])
            },
            None => Vec::new(),
        }
    }

    /// Caller ids of `function`, one per call, in call order.
    pub fn callers(&self, function: u128) -> (r: Vec<u128>)
        requires
            self.wf(),
        ensures
            r@ == (if self.index_of(function) >= 0 {
                self.pred()[self.index_of(function)].map_values(|c: u32| self.index_to_id@[c as int])
            } else {
                Seq::<u128>::empty()
            }),
    {
        match self.lookup(function) {
            Some(i) => {
                proof {
                    assert(self.pred()[i as int] == self.precursor_list@[i as int]@);
                }
                self.ids_at(&self.precursor_list[i])
            },
            None => Vec::new(),
        }
    }

    /// Formal parameter names of `function` (empty when unknown).
    pub fn parameter_names(&self, function: u128) -> (r: &[String])
        requires
            self.wf(),
        ensures
            r@ == (if self.index_of(function) >= 0 {
                self.parameters@[self.index_of(function)]@
            } else {
                Seq::<String>::empty()
            }),
    {
        match self.lookup(function) {
            Some(i) => self.parameters[i].as_slice(),
            None => {
                let r: &[String] = &[];
                assert(r@ =~= Seq::<String>::empty());
                r
            },
        }
    }

    /// Parameter name at `index` of `function`.
    pub fn parameter_at(&self, function: u128, index: usize) -> (r: Option<&str>)
        requires
            self.wf(),
        ensures
            match r {
                Some(s) => self.index_of(function) >= 0 && index < self.parameters@[self.index_of(function)]@.len()
                    && s@ == self.parameters@[self.index_of(function)]@[index as int]@,
                None => self.index_of(function) < 0 || index >= self.parameters@[self.index_of(function)]@.len(),
            },
    {
        let params = self.parameter_names(function);
        if index < params.len() {
            Some(params[index].as_str())
        } else {
            None
        }
    }

    /// Call edges from `caller` to `callee`, in call order, with their site metadata.
    pub fn call_edges_between(&self, caller: u128, callee: u128) -> (r: Vec<CallGraphEdge>)
        requires
            self.wf(),
        ensures
            r@.len() == calls_between(*self, caller, callee).len(),
            forall|k: int| 0 <= k < r@.len() ==> #[trigger] call_edge_view(r@[k]) == (caller, callee, calls_between(*self, caller, callee)[k]),
    {
        let from = match self.lookup(caller) {
            Some(i) => i,
            None => {
                return Vec::new();
            },
        };
        let mut edges: Vec<CallGraphEdge> = Vec::new();
        let mut pos: usize = 0;
        while pos < self.success_list[from].len()
            invariant
                self.wf(),
                self.index_of(caller) == from as int,
                (from as int) < self.index_to_id@.len(),
                pos <= self.succ()[from as int].len(),
                edges@.len() == metas_to(*self, from as int, callee, pos as int).len(),
                forall|k: int| 0 <= k < edges@.len() ==> #[trigger] call_edge_view(edges@[k]) == (caller, callee, metas_to(*self, from as int, callee, pos as int)[k]),
            decreases self.success_list@[from as int]@.len() - pos,
        {
            proof {
                assert(self.succ()[from as int] == self.success_list@[from as int]@);
            }
            let to_idx = self.success_list[from][pos];
            let to_id = self.index_to_id[to_idx as usize];
            if to_id == callee {
                proof {
                    assert(self.call_edge_meta@[from as int]@.len() == self.success_list@[from as int]@.len());
                }
                let meta = &self.call_edge_meta[from][pos];
                let ghost e0 = edges@;
                edges.push(CallGraphEdge {
                    from: caller,
                    to: callee,
                    call_site: meta.call_site,
                    call_type: meta.call_type,
                    argument_names: copy_entries(&meta.argument_names),
                });
                proof {
                    let target = metas_to(*self, from as int, callee, pos as int + 1);
                    assert forall|k: int| 0 <= k < edges@.len() implies #[trigger] call_edge_view(edges@[k]) == (caller, callee, target[k]) by {
                        if k < e0.len() {
                            assert(edges@[k] == e0[k]);
                        }
                    }
                }
            }
            pos = pos + 1;
        }
        edges
    }

    /// The record of the function at index `i`.
    pub open spec fn node_matches(&self, i: int, node: CallGraphNode) -> bool {
        &&& node.id == self.index_to_id@[i]
        &&& node.name@ == self.names@[i]@
        &&& node.qualified_name is None
        &&& node.file_path@ == self.file_paths@[i]@
        &&& node.start_line == self.line_numbers@[i]
        &&& string_seq(node.parameters@) == string_seq(self.parameters@[i]@)
    }

    /// Every function as a record, keyed by id.
    pub fn nodes(&self) -> (r: HashMap<u128, CallGraphNode>)
        requires
            self.wf(),
        ensures
            forall|id: u128| r@.contains_key(id) <==> self.index_of(id) >= 0,
            forall|id: u128| #[trigger] r@.contains_key(id) ==> self.node_matches(self.index_of(id), r@[id]),
    {
        let n = self.index_to_id.len();
        let mut nodes: HashMap<u128, CallGraphNode> = HashMap::new();
        let mut i: usize = 0;
        while i < n
            invariant
                self.wf(),
                n == self.index_to_id@.len(),
                i <= n,
                forall|id: u128| nodes@.contains_key(id) <==> (0 <= self.index_of(id) < i),
                forall|id: u128| #[trigger] nodes@.contains_key(id) ==> self.node_matches(self.index_of(id), nodes@[id]),
            decreases n - i,
        {
            let id = self.index_to_id[i];
            let node = CallGraphNode {
                id,
                name: self.names[i].clone(),
                qualified_name: None,
                file_path: self.file_paths[i].clone(),
                start_line: self.line_numbers[i],
                parameters: copy_strings(&self.parameters[i]),
            };
            proof {
                assert(self.id_to_index@.contains_key(self.index_to_id@[i as int]));
                assert(self.index_of(id) == i);
            }
            nodes.insert(id, node);
            i = i + 1;
        }
        nodes
    }

    /// Every call edge as a record: callers in index order, each caller's calls in the order
    /// of its outgoing list.
    pub fn edges(&self) -> (r: Vec<CallGraphEdge>)
        requires
            self.wf(),
        ensures
            r@.map_values(|e: CallGraphEdge| call_edge_view(e)) == all_call_edges(*self),
    {
        let n = self.index_to_id.len();
        let mut edges: Vec<CallGraphEdge> = Vec::new();
        let mut from: usize = 0;
        while from < n
            invariant
                self.wf(),
                n == self.index_to_id@.len(),
                from <= n,
                edges@.map_values(|e: CallGraphEdge| call_edge_view(e)) == edge_rows(*self).take(from as int).flatten_alt(),
            decreases n - from,
        {
            let ghost before = edges@.map_values(|e: CallGraphEdge| call_edge_view(e));
            let from_id = self.index_to_id[from];
            let mut pos: usize = 0;
            proof {
                assert(self.call_edge_meta@[from as int]@.len() == self.success_list@[from as int]@.len());
                assert(self.succ()[from as int] == self.success_list@[from as int]@);
            }
            while pos < self.success_list[from].len()
                invariant
                    self.wf(),
                    n == self.index_to_id@.len(),
                    from < n,
                    from_id == self.index_to_id@[from as int],
                    pos <= self.succ()[from as int].len(),
                    self.succ()[from as int] == self.success_list@[from as int]@,
                    self.call_edge_meta@[from as int]@.len() == self.success_list@[from as int]@.len(),
                    edges@.map_values(|e: CallGraphEdge| call_edge_view(e)) == before + edge_row(*self, from as int).take(pos as int),
                decreases self.success_list@[from as int]@.len() - pos,
            {
                let to_idx = self.success_list[from][pos];
                let to_id = self.index_to_id[to_idx as usize];
                let meta = &self.call_edge_meta[from][pos];
                let ghost e0 = edges@;
                edges.push(CallGraphEdge {
                    from: from_id,
                    to: to_id,
                    call_site: meta.call_site,
                    call_type: meta.call_type,
                    argument_names: copy_entries(&meta.argument_names),
                });
                proof {
                    assert(edges@.map_values(|e: CallGraphEdge| call_edge_view(e)) =~= e0.map_values(|e: CallGraphEdge| call_edge_view(e)).push(call_edge_view(edges@[e0.len() as int])));
                    assert(edge_row(*self, from as int).take(pos as int + 1) =~= edge_row(*self, from as int).take(pos as int).push(edge_row(*self, from as int)[pos as int]));
                    assert(edges@.map_values(|e: CallGraphEdge| call_edge_view(e)) =~= before + edge_row(*self, from as int).take(pos as int + 1));
                }
                pos = pos + 1;
            }
            proof {
                assert(edge_row(*self, from as int).take(pos as int) =~= edge_row(*self, from as int));
                let rows = edge_rows(*self);
                assert(rows.take(from as int + 1).drop_last() =~= rows.take(from as int));
                assert(rows.take(from as int + 1).last() == edge_row(*self, from as int));
            }
            from = from + 1;
        }
        proof {
            assert(edge_rows(*self).take(n as int) =~= edge_rows(*self));
        }
        edges
    }

    /// Argument name passed at a call from `caller` to `callee` for parameter `param_index`:
    /// the first such call that records one.
    pub fn argument_at_call(&self, caller: u128, callee: u128, param_index: usize) -> (r: Option<String>)
        requires
            self.wf(),
        ensures
            match r {
                Some(s) => first_argument(calls_between(*self, caller, callee), param_index as int) == Some(s@),
                None => first_argument(calls_between(*self, caller, callee), param_index as int) is None,
            },
    {
        let edges = self.call_edges_between(caller, callee);
        let ghost ms = calls_between(*self, caller, callee);
        let mut k: usize = 0;
        proof {
            assert(ms.skip(0) =~= ms);
        }
        while k < edges.len()
            invariant
                ms == calls_between(*self, caller, callee),
                edges@.len() == ms.len(),
                forall|j: int| 0 <= j < edges@.len() ==> #[trigger] call_edge_view(edges@[j]) == (caller, callee, ms[j]),
                k <= edges@.len(),
                first_argument(ms, param_index as int) == first_argument(ms.skip(k as int), param_index as int),
            decreases edges.len() - k,
        {
            proof {
                assert(call_edge_view(edges@[k as int]) == (caller, callee, ms[k as int]));
                assert(entry_views(edges@[k as int].argument_names@) == ms[k as int].2);
                assert(ms.skip(k as int)[0] == ms[k as int]);
            }
            match lookup_argument(&edges[k].argument_names, param_index) {
                Some(a) => {
                    return Some(a);
                },
                None => {},
            }
            proof {
                assert(ms.skip(k as int).drop_first() =~= ms.skip(k as int + 1));
            }
            k = k + 1;
        }
        None
    }

    /// All function ids, by index.
    pub fn function_ids(&self) -> (r: &[u128])
        ensures
            r@ == self.index_to_id@,
    {
        self.index_to_id.as_slice()
    }
}

proof fn lemma_total_len_prefix(s: Seq<Seq<u32>>, i: int)
    requires
        0 <= i <= s.len(),
    ensures
        total_len(s.take(i)) <= total_len(s),
    decreases s.len() - i,
{
    if i < s.len() {
        lemma_total_len_prefix(s, i + 1);
        assert(s.take(i + 1).drop_last() =~= s.take(i));
    } else {
        assert(s.take(i) =~= s);
    }
}


/// Occurrences of `c` in `s`.
pub open spec fn occ(s: Seq<u32>, c: u32) -> nat
    decreases s.len(),
{
    if s.len() == 0 {
        0
    } else {
        (if s[0] == c { 1nat } else { 0nat }) + occ(s.drop_first(), c)
    }
}

/// Calls into `c` from the first `m` functions that are not `done`.
pub open spec fn pending(succ: Seq<Seq<u32>>, done: Seq<bool>, c: u32, m: int) -> nat
    decreases m,
{
    if m <= 0 {
        0
    } else {
        pending(succ, done, c, m - 1) + if done[m - 1] { 0nat } else { occ(succ[m - 1], c) }
    }
}

proof fn lemma_occ_contains(s: Seq<u32>, c: u32)
    ensures
        (occ(s, c) > 0) <==> s.contains(c),
    decreases s.len(),
{
    if s.len() > 0 {
        lemma_occ_contains(s.drop_first(), c);
        if s.drop_first().contains(c) {
            let j = choose|j: int| 0 <= j < s.drop_first().len() && s.drop_first()[j] == c;
            assert(s[j + 1] == c);
        }
        if s.contains(c) && s[0] != c {
            let j = choose|j: int| 0 <= j < s.len() && s[j] == c;
            assert(s.drop_first()[j - 1] == c);
        }
    }
}

proof fn lemma_pending_done(succ: Seq<Seq<u32>>, done: Seq<bool>, c: u32, m: int, u: int)
    requires
        0 <= u < m,
        m <= done.len(),
        !done[u],
    ensures
        pending(succ, done.update(u, true), c, m) + occ(succ[u], c) == pending(succ, done, c, m),
    decreases m,
{
    if m - 1 > u {
        lemma_pending_done(succ, done, c, m - 1, u);
    } else {
        lemma_pending_same(succ, done, done.update(u, true), c, m - 1);
    }
}

proof fn lemma_pending_same(succ: Seq<Seq<u32>>, d1: Seq<bool>, d2: Seq<bool>, c: u32, m: int)
    requires
        forall|j: int| 0 <= j < m ==> d1[j] == d2[j],
    ensures
        pending(succ, d1, c, m) == pending(succ, d2, c, m),
    decreases m,
{
    if m > 0 {
        lemma_pending_same(succ, d1, d2, c, m - 1);
    }
}

proof fn lemma_pending_zero(succ: Seq<Seq<u32>>, done: Seq<bool>, c: u32, m: int)
    requires
        m <= done.len(),
    ensures
        pending(succ, done, c, m) == 0 <==> forall|u: int| 0 <= u < m && !done[u] ==> !(#[trigger] succ[u]).contains(c),
    decreases m,
{
    if m > 0 {
        lemma_pending_zero(succ, done, c, m - 1);
        lemma_occ_contains(succ[m - 1], c);
    }
}

/// Some nonempty set of functions (`rem`) has every member called by a member: the calls
/// contain a cycle.
pub open spec fn caller_closed(succ: Seq<Seq<u32>>, rem: Seq<bool>) -> bool {
    &&& rem.len() == succ.len()
    &&& exists|c: int| 0 <= c < rem.len() && rem[c]
    &&& forall|c: int| 0 <= c < rem.len() && #[trigger] rem[c] ==> exists|u: int| 0 <= u < rem.len() && rem[u] && succ[u].contains(c as u32)
}

pub open spec fn has_call_cycle(succ: Seq<Seq<u32>>) -> bool {
    exists|rem: Seq<bool>| #[trigger] caller_closed(succ, rem)
}

/// `ord` lists every function once, each after all of its callers.
pub open spec fn is_topological(succ: Seq<Seq<u32>>, ord: Seq<int>) -> bool {
    &&& ord.len() == succ.len()
    &&& forall|p: int| 0 <= p < ord.len() ==> 0 <= #[trigger] ord[p] < succ.len()
    &&& forall|p: int, q: int| 0 <= p < q < ord.len() ==> ord[p] != ord[q]
    &&& forall|p: int, q: int| 0 <= p < ord.len() && 0 <= q < ord.len() && #[trigger] succ[ord[p]].contains(ord[q] as u32) ==> p < q
}

/// Errors of a topological order.
#[derive(Debug, Clone, Copy, PartialEq, Eq, Structural)]
pub enum TopologicalOrderError {
    /// Some functions call each other in a cycle, so they cannot be ordered.
    CyclesOrDisconnected,
}

/// A topological order rules out a cycle of calls: the first member of a caller-closed set
/// in the order would need a caller before it inside the set.
pub proof fn lemma_topological_acyclic(succ: Seq<Seq<u32>>, ord: Seq<int>)
    requires
        is_topological(succ, ord),
        succ.len() <= u32::MAX,
    ensures
        !has_call_cycle(succ),
{
    if has_call_cycle(succ) {
        let rem = choose|rem: Seq<bool>| #[trigger] caller_closed(succ, rem);
        let n = succ.len() as int;
        // position of each function in the order
        assert forall|c: int| 0 <= c < n implies #[trigger] placed(ord, c) by {
            lemma_perm_covers(ord, n, c);
        }
        let c0 = choose|c: int| 0 <= c < n && rem[c];
        assert(placed(ord, c0));
        let p0 = choose|p: int| 0 <= p < ord.len() && #[trigger] ord[p] == c0;
        lemma_first_in_order(succ, ord, rem, p0);
    }
}

/// `c` occurs in `ord`.
pub open spec fn placed(ord: Seq<int>, c: int) -> bool {
    exists|q: int| 0 <= q < ord.len() && #[trigger] ord[q] == c
}

/// A duplicate-free sequence of `n` values in `0..n` contains every value.
proof fn lemma_perm_covers(ord: Seq<int>, n: int, c: int)
    requires
        ord.len() == n,
        forall|p: int| 0 <= p < ord.len() ==> 0 <= #[trigger] ord[p] < n,
        forall|p: int, q: int| 0 <= p < q < ord.len() ==> ord[p] != ord[q],
        0 <= c < n,
    ensures
        placed(ord, c),
{
    if !placed(ord, c) {
        let s = ord.to_set();
        let full = Set::new(|x: int| 0 <= x < n);
        assert(s.subset_of(full.remove(c)));
        vstd::set_lib::lemma_int_range(0, n);
        assert(full =~= vstd::set_lib::set_int_range(0, n));
        ord.unique_seq_to_set();
        vstd::set_lib::lemma_len_subset(s, full.remove(c));
    }
}

/// No function of a caller-closed set comes at or before position `p`: its caller in the
/// set would have to come earlier still.
proof fn lemma_first_in_order(succ: Seq<Seq<u32>>, ord: Seq<int>, rem: Seq<bool>, p: int)
    requires
        is_topological(succ, ord),
        caller_closed(succ, rem),
        forall|c: int| 0 <= c < succ.len() ==> #[trigger] placed(ord, c),
        0 <= p < ord.len(),
        succ.len() <= u32::MAX,
    ensures
        !rem[ord[p]],
    decreases p,
{
    let c = ord[p];
    if rem[c] {
        let u = choose|u: int| 0 <= u < rem.len() && rem[u] && succ[u].contains(c as u32);
        assert(placed(ord, u));
        let q = choose|q: int| 0 <= q < ord.len() && #[trigger] ord[q] == u;
        assert(succ[ord[q]].contains(ord[p] as u32));
        assert(q < p);
        lemma_first_in_order(succ, ord, rem, q);
    }
}


proof fn lemma_occ_push(s: Seq<u32>, x: u32, c: u32)
    ensures
        occ(s.push(x), c) == occ(s, c) + if x == c { 1nat } else { 0nat },
    decreases s.len(),
{
    if s.len() > 0 {
        assert(s.push(x).drop_first() =~= s.drop_first().push(x));
        assert(s.push(x)[0] == s[0]);
        lemma_occ_push(s.drop_first(), x, c);
        assert(occ(s.push(x), c) == (if s[0] == c { 1nat } else { 0nat }) + occ(s.drop_first().push(x), c));
    } else {
        assert(s.push(x).drop_first() =~= Seq::<u32>::empty());
        assert(occ(Seq::<u32>::empty(), c) == 0);
        assert(occ(s.push(x), c) == (if x == c { 1nat } else { 0nat }) + occ(Seq::<u32>::empty(), c));
    }
}

proof fn lemma_occ_le(s: Seq<u32>, c: u32)
    ensures
        occ(s, c) <= s.len(),
    decreases s.len(),
{
    if s.len() > 0 {
        lemma_occ_le(s.drop_first(), c);
    }
}

proof fn lemma_pending_le(succ: Seq<Seq<u32>>, done: Seq<bool>, c: u32, m: int)
    requires
        0 <= m <= succ.len(),
    ensures
        pending(succ, done, c, m) <= total_len(succ.take(m)),
    decreases m,
{
    if m > 0 {
        lemma_pending_le(succ, done, c, m - 1);
        lemma_occ_le(succ[m - 1], c);
        assert(succ.take(m).drop_last() =~= succ.take(m - 1));
    }
}

proof fn lemma_pending_partial(succ: Seq<Seq<u32>>, done: Seq<bool>, c: u32, u: int, k: int)
    requires
        0 <= u < succ.len(),
        0 <= k < succ[u].len(),
        !done[u],
    ensures
        pending(succ, done, c, u) + occ(succ[u].take(k + 1), c) == pending(succ, done, c, u) + occ(succ[u].take(k), c) + if succ[u][k] == c { 1nat } else { 0nat },
{
    assert(succ[u].take(k + 1) =~= succ[u].take(k).push(succ[u][k]));
    lemma_occ_push(succ[u].take(k), succ[u][k], c);
}

proof fn lemma_occ_prefix(s: Seq<u32>, k: int, c: u32)
    requires
        0 <= k <= s.len(),
    ensures
        occ(s.take(k), c) <= occ(s, c),
    decreases s.len() - k,
{
    if k < s.len() {
        lemma_occ_prefix(s, k + 1, c);
        assert(s.take(k + 1) =~= s.take(k).push(s[k]));
        lemma_occ_push(s.take(k), s[k], c);
    } else {
        assert(s.take(k) =~= s);
    }
}

proof fn lemma_order_push(ord: Seq<int>, pos: Seq<int>, done: Seq<bool>, n: int, u: int)
    requires
        order_ok(ord, pos, done, n),
        0 <= u < n,
        !done[u],
    ensures
        order_ok(ord.push(u), pos.update(u, ord.len() as int), done.update(u, true), n),
{
    let o2 = ord.push(u);
    let p2 = pos.update(u, ord.len() as int);
    let d2 = done.update(u, true);
    assert forall|p: int| 0 <= p < o2.len() implies 0 <= #[trigger] o2[p] < n && d2[o2[p]] && p2[o2[p]] == p by {
        if p < ord.len() {
            assert(o2[p] == ord[p]);
            assert(ord[p] != u);
        }
    }
    assert forall|c: int| 0 <= c < n && #[trigger] d2[c] implies 0 <= p2[c] < o2.len() && o2[p2[c]] == c by {
        if c != u {
            assert(done[c]);
        }
    }
}

/// Fewer placed functions than functions: one is not done.
proof fn lemma_some_left(ord: Seq<int>, pos: Seq<int>, done: Seq<bool>, n: int)
    requires
        order_ok(ord, pos, done, n),
        ord.len() != n,
    ensures
        exists|c: int| 0 <= c < n && !done[c],
{
    if forall|c: int| 0 <= c < n ==> done[c] {
        let full = vstd::set_lib::set_int_range(0, n);
        vstd::set_lib::lemma_int_range(0, n);
        assert(full.subset_of(ord.to_set())) by {
            assert forall|c: int| full.contains(c) implies ord.to_set().contains(c) by {
                assert(done[c]);
                assert(ord[pos[c]] == c);
            }
        }
        assert(ord.to_set().subset_of(full)) by {
            assert forall|c: int| ord.to_set().contains(c) implies full.contains(c) by {
                let p = choose|p: int| 0 <= p < ord.len() && ord[p] == c;
                assert(0 <= ord[p] < n);
            }
        }
        assert(ord.no_duplicates()) by {
            assert forall|a: int, b: int| 0 <= a < ord.len() && 0 <= b < ord.len() && a != b implies ord[a] != ord[b] by {
                assert(pos[ord[a]] == a && pos[ord[b]] == b);
            }
        }
        ord.unique_seq_to_set();
        vstd::seq_lib::seq_to_set_is_finite(ord);
        vstd::set_lib::lemma_len_subset(full, ord.to_set());
        vstd::set_lib::lemma_len_subset(ord.to_set(), full);
    }
}

/// Positions in `ord` of the functions marked `done`, and nothing else.
pub open spec fn order_ok(ord: Seq<int>, pos: Seq<int>, done: Seq<bool>, n: int) -> bool {
    &&& done.len() == n
    &&& pos.len() == n
    &&& forall|p: int| 0 <= p < ord.len() ==> 0 <= #[trigger] ord[p] < n && done[ord[p]] && pos[ord[p]] == p
    &&& forall|c: int| 0 <= c < n && #[trigger] done[c] ==> 0 <= pos[c] < ord.len() && ord[pos[c]] == c
}

/// Queue bookkeeping: waiting functions are not done, have no pending call, and occur
/// once; every function not done and without pending call waits.
pub open spec fn queue_ok(q: Seq<u32>, done: Seq<bool>, deg: Seq<usize>, n: int) -> bool {
    &&& forall|k: int| 0 <= k < q.len() ==> (#[trigger] q[k] as int) < n && !done[q[k] as int] && deg[q[k] as int] == 0
    &&& q.no_duplicates()
    &&& forall|c: int| 0 <= c < n && !done[c] && #[trigger] deg[c] == 0 ==> q.contains(c as u32)
}

/// Nothing is done yet.
pub open spec fn none_done(n: nat) -> Seq<bool> {
    Seq::new(n, |i: int| false)
}

impl CallGraph {
    /// Number of calls into each function.
    fn in_degrees(&self) -> (deg: Vec<usize>)
        requires
            self.wf(),
            total_len(self.succ()) <= usize::MAX,
        ensures
            deg@.len() == self.succ().len(),
            forall|c: int| 0 <= c < self.succ().len() ==> #[trigger] deg@[c] == pending(self.succ(), none_done(self.succ().len()), c as u32, self.succ().len() as int),
    {
        let ghost sg = self.succ();
        let n = self.index_to_id.len();
        let ghost none = none_done(n as nat);
        let mut deg: Vec<usize> = Vec::new();
        let mut i: usize = 0;
        while i < n
            invariant
                i <= n,
                deg@.len() == i,
                forall|c: int| 0 <= c < i ==> #[trigger] deg@[c] == 0,
            decreases n - i,
        {
            deg.push(0);
            i = i + 1;
        }
        let mut u: usize = 0;
        while u < n
            invariant
                self.wf(),
                sg == self.succ(),
                n == sg.len(),
                none == none_done(n as nat),
                total_len(sg) <= usize::MAX,
                u <= n,
                deg@.len() == n,
                forall|c: int| 0 <= c < n ==> #[trigger] deg@[c] == pending(sg, none, c as u32, u as int),
            decreases n - u,
        {
            proof {
                assert(sg[u as int] == self.success_list@[u as int]@);
                assert(sg[u as int].take(0) =~= Seq::<u32>::empty());
            }
            let mut k: usize = 0;
            while k < self.success_list[u].len()
                invariant
                    self.wf(),
                    sg == self.succ(),
                    n == sg.len(),
                    none == none_done(n as nat),
                    total_len(sg) <= usize::MAX,
                    u < n,
                    sg[u as int] == self.success_list@[u as int]@,
                    k <= sg[u as int].len(),
                    deg@.len() == n,
                    forall|c: int| 0 <= c < n ==> #[trigger] deg@[c] == pending(sg, none, c as u32, u as int) + occ(sg[u as int].take(k as int), c as u32),
                decreases sg[u as int].len() - k,
            {
                let c = self.success_list[u][k];
                proof {
                    assert(sg[u as int][k as int] == c);
                    assert((c as int) < n);
                    lemma_pending_partial(sg, none, c, u as int, k as int);
                    lemma_pending_le(sg, none, c, u as int + 1);
                    assert(!none[u as int]);
                    assert(pending(sg, none, c, u as int + 1) == pending(sg, none, c, u as int) + occ(sg[u as int], c));
                    lemma_occ_prefix(sg[u as int], k as int + 1, c);
                    lemma_total_len_prefix(sg, u as int + 1);
                }
                let d = deg[c as usize];
                deg.set(c as usize, d + 1);
                proof {
                    assert forall|x: int| 0 <= x < n implies #[trigger] deg@[x] == pending(sg, none, x as u32, u as int) + occ(sg[u as int].take(k as int + 1), x as u32) by {
                        lemma_pending_partial(sg, none, x as u32, u as int, k as int);
                        if x != c as int {
                            assert((x as u32) != c);
                        }
                    }
                }
                k = k + 1;
            }
            proof {
                assert(sg[u as int].take(k as int) =~= sg[u as int]);
                assert(!none[u as int]);
            }
            u = u + 1;
        }
        deg
    }

    /// Marks `u` done and releases its callees: each call into a function is taken off
    /// its count, and a function whose count reaches zero is queued.
    fn release_callees(&self, u: usize, deg: &mut Vec<usize>, queue: &mut VecDeque<u32>, Ghost(done): Ghost<Seq<bool>>)
        requires
            self.wf(),
            (u as int) < self.succ().len(),
            done.len() == self.succ().len(),
            done[u as int],
            forall|j: int| 0 <= j < self.succ()[u as int].len() ==> !done[#[trigger] self.succ()[u as int][j] as int],
            old(deg)@.len() == self.succ().len(),
            forall|x: int| 0 <= x < self.succ().len() ==> #[trigger] old(deg)@[x] == pending(self.succ(), done, x as u32, self.succ().len() as int) + occ(self.succ()[u as int], x as u32),
            queue_ok(old(queue)@, done, old(deg)@, self.succ().len() as int),
        ensures
            final(deg)@.len() == self.succ().len(),
            forall|x: int| 0 <= x < self.succ().len() ==> #[trigger] final(deg)@[x] == pending(self.succ(), done, x as u32, self.succ().len() as int),
            queue_ok(final(queue)@, done, final(deg)@, self.succ().len() as int),
    {
        let ghost sg = self.succ();
        let ghost n = sg.len() as int;
        proof {
            assert(sg[u as int] == self.success_list@[u as int]@);
            assert(sg[u as int].skip(0) =~= sg[u as int]);
        }
        let mut k: usize = 0;
        while k < self.success_list[u].len()
            invariant
                self.wf(),
                sg == self.succ(),
                n == sg.len(),
                (u as int) < n,
                done.len() == n,
                sg[u as int] == self.success_list@[u as int]@,
                forall|j: int| 0 <= j < sg[u as int].len() ==> !done[#[trigger] sg[u as int][j] as int],
                k <= sg[u as int].len(),
                deg@.len() == n,
                forall|x: int| 0 <= x < n ==> #[trigger] deg@[x] == pending(sg, done, x as u32, n) + occ(sg[u as int].skip(k as int), x as u32),
                queue_ok(queue@, done, deg@, n),
            decreases sg[u as int].len() - k,
        {
            let c = self.success_list[u][k];
            let ghost q1 = queue@;
            let ghost deg0 = deg@;
            proof {
                assert(sg[u as int][k as int] == c);
                assert((c as int) < n);
                assert(sg[u as int].skip(k as int)[0] == c);
                assert(sg[u as int].skip(k as int).drop_first() =~= sg[u as int].skip(k as int + 1));
                assert(deg@[c as int] >= 1);
                assert(!done[c as int]);
            }
            let nd = deg[c as usize].saturating_sub(1);
            deg.set(c as usize, nd);
            proof {
                assert forall|x: int| 0 <= x < n implies #[trigger] deg@[x] == pending(sg, done, x as u32, n) + occ(sg[u as int].skip(k as int + 1), x as u32) by {
                    if x != c as int {
                        assert((x as u32) != c);
                        assert(deg@[x] == deg0[x]);
                    }
                }
                assert(!q1.contains(c)) by {
                    if q1.contains(c) {
                        let j = choose|j: int| 0 <= j < q1.len() && q1[j] == c;
                        assert(deg0[q1[j] as int] == 0);
                    }
                }
            }
            if nd == 0 {
                queue.push_back(c);
                proof {
                    assert forall|x: int| 0 <= x < queue@.len() implies (#[trigger] queue@[x] as int) < n && !done[queue@[x] as int] && deg@[queue@[x] as int] == 0 by {
                        if x < q1.len() {
                            assert(queue@[x] == q1[x]);
                            assert(q1[x] != c);
                            assert(deg@[q1[x] as int] == deg0[q1[x] as int]);
                        }
                    }
                    assert forall|x: int| 0 <= x < n && !done[x] && #[trigger] deg@[x] == 0 implies queue@.contains(x as u32) by {
                        if x != c as int {
                            assert(deg@[x] == deg0[x]);
                            let j = choose|j: int| 0 <= j < q1.len() && q1[j] == x as u32;
                            assert(queue@[j] == x as u32);
                        } else {
                            assert(queue@[queue@.len() - 1] == c);
                        }
                    }
                }
            } else {
                proof {
                    assert forall|x: int| 0 <= x < queue@.len() implies (#[trigger] queue@[x] as int) < n && !done[queue@[x] as int] && deg@[queue@[x] as int] == 0 by {
                        assert(queue@[x] != c);
                        assert(deg@[q1[x] as int] == deg0[q1[x] as int]);
                    }
                    assert forall|x: int| 0 <= x < n && !done[x] && #[trigger] deg@[x] == 0 implies queue@.contains(x as u32) by {
                        assert(x != c as int);
                        assert(deg@[x] == deg0[x]);
                    }
                }
            }
            k = k + 1;
        }
        proof {
            assert(sg[u as int].skip(k as int) =~= Seq::<u32>::empty());
        }
    }

    /// A topological order of the functions: every function after all of its callers;
    /// fails exactly when calls form a cycle.
    #[verifier::rlimit(40)]
    pub fn topological_order(&self) -> (r: Result<Vec<u128>, TopologicalOrderError>)
        requires
            self.wf(),
            total_len(self.succ()) <= usize::MAX,
        ensures
            match r {
                Ok(order) => is_topological(self.succ(), order@.map_values(|id: u128| self.index_of(id))),
                Err(_) => has_call_cycle(self.succ()),
            },
            r is Ok <==> !has_call_cycle(self.succ()),
    {
        let ghost sg = self.succ();
        let n = self.index_to_id.len();
        let mut deg = self.in_degrees();
        let mut queue: VecDeque<u32> = VecDeque::new();
        let mut c: usize = 0;
        while c < n
            invariant
                n == sg.len(),
                n <= u32::MAX,
                c <= n,
                deg@.len() == n,
                forall|x: int| 0 <= x < queue@.len() ==> (#[trigger] queue@[x] as int) < c && deg@[queue@[x] as int] == 0,
                forall|a: int, b: int| 0 <= a < b < queue@.len() ==> queue@[a] < queue@[b],
                forall|x: int| 0 <= x < c && #[trigger] deg@[x] == 0 ==> queue@.contains(x as u32),
            decreases n - c,
        {
            if deg[c] == 0 {
                let ghost q0 = queue@;
                queue.push_back(c as u32);
                proof {
                    assert forall|x: int| 0 <= x < c + 1 && #[trigger] deg@[x] == 0 implies queue@.contains(x as u32) by {
                        if x < c {
                            let j = choose|j: int| 0 <= j < q0.len() && q0[j] == x as u32;
                            assert(queue@[j] == x as u32);
                        } else {
                            assert(queue@[queue@.len() - 1] == x as u32);
                        }
                    }
                }
            }
            c = c + 1;
        }
        let ghost none = none_done(n as nat);
        proof {
            assert(queue@.no_duplicates()) by {
                assert forall|a: int, b: int| 0 <= a < queue@.len() && 0 <= b < queue@.len() && a != b implies queue@[a] != queue@[b] by {
                    if a < b {
                        assert(queue@[a] < queue@[b]);
                    } else {
                        assert(queue@[b] < queue@[a]);
                    }
                }
            }
            assert(queue_ok(queue@, none, deg@, n as int));
        }
        let mut result: Vec<u128> = Vec::new();
        let ghost mut done: Seq<bool> = none;
        let ghost mut ord: Seq<int> = Seq::empty();
        let ghost mut pos: Seq<int> = Seq::new(n as nat, |i: int| 0);
        while queue.len() > 0
            invariant
                self.wf(),
                sg == self.succ(),
                n == sg.len(),
                n <= u32::MAX,
                deg@.len() == n,
                forall|x: int| 0 <= x < n ==> #[trigger] deg@[x] == pending(sg, done, x as u32, n as int),
                queue_ok(queue@, done, deg@, n as int),
                order_ok(ord, pos, done, n as int),
                result@.len() == ord.len(),
                forall|p: int| 0 <= p < ord.len() ==> #[trigger] result@[p] == self.index_to_id@[ord[p]],
                forall|p: int, q: int| 0 <= p < ord.len() && 0 <= q < ord.len() && #[trigger] sg[ord[p]].contains(ord[q] as u32) ==> p < q,
                forall|w: int, x: int| 0 <= w < n && 0 <= x < n && done[w] && #[trigger] sg[x].contains(w as u32) ==> done[x],
            decreases count_false(done),
        {
            let ghost q0 = queue@;
            let ghost d0 = done;
            let uu = queue.pop_front().unwrap();
            let u = uu as usize;
            proof {
                assert forall|a: int, k: int| 0 <= a < sg.len() && 0 <= k < sg[a].len() implies (#[trigger] sg[a][k] as int) < sg.len() by {}
                lemma_pop_step(sg, q0, d0, deg@, ord, pos, u as int);
                done = d0.update(u as int, true);
                pos = pos.update(u as int, ord.len() as int);
                ord = ord.push(u as int);
            }
            result.push(self.index_to_id[u]);
            proof {
                assert(queue@ =~= q0.drop_first());
                assert forall|p: int| 0 <= p < ord.len() implies #[trigger] result@[p] == self.index_to_id@[ord[p]] by {}
            }
            self.release_callees(u, &mut deg, &mut queue, Ghost(done));
        }
        if result.len() == n {
            proof {
                let view = result@.map_values(|id: u128| self.index_of(id));
                assert forall|p: int| 0 <= p < view.len() implies #[trigger] view[p] == ord[p] by {
                    assert(result@[p] == self.index_to_id@[ord[p]]);
                }
                assert(view =~= ord);
                assert(is_topological(sg, ord)) by {
                    assert forall|p: int, q: int| 0 <= p < q < ord.len() implies ord[p] != ord[q] by {
                        assert(pos[ord[p]] == p && pos[ord[q]] == q);
                    }
                }
                lemma_topological_acyclic(sg, ord);
            }
            Ok(result)
        } else {
            proof {
                lemma_stuck_cycle(sg, deg@, queue@, ord, pos, done, n as int);
            }
            Err(TopologicalOrderError::CyclesOrDisconnected)
        }
    }
}

/// Popping `u` from the queue and placing it keeps the order bookkeeping, and `u` calls
/// neither itself nor a placed function.
proof fn lemma_pop_step(sg: Seq<Seq<u32>>, q0: Seq<u32>, d0: Seq<bool>, deg: Seq<usize>, ord: Seq<int>, pos: Seq<int>, u: int)
    requires
        sg.len() <= u32::MAX,
        forall|a: int, k: int| 0 <= a < sg.len() && 0 <= k < sg[a].len() ==> (#[trigger] sg[a][k] as int) < sg.len(),
        deg.len() == sg.len(),
        forall|x: int| 0 <= x < sg.len() ==> #[trigger] deg[x] == pending(sg, d0, x as u32, sg.len() as int),
        queue_ok(q0, d0, deg, sg.len() as int),
        order_ok(ord, pos, d0, sg.len() as int),
        forall|p: int, q: int| 0 <= p < ord.len() && 0 <= q < ord.len() && #[trigger] sg[ord[p]].contains(ord[q] as u32) ==> p < q,
        forall|w: int, x: int| 0 <= w < sg.len() && 0 <= x < sg.len() && d0[w] && #[trigger] sg[x].contains(w as u32) ==> d0[x],
        q0.len() > 0,
        u == q0[0] as int,
    ensures
        ({
            let n = sg.len() as int;
            let done = d0.update(u, true);
            let ord2 = ord.push(u);
            let pos2 = pos.update(u, ord.len() as int);
            &&& 0 <= u < n
            &&& forall|x: int| 0 <= x < n ==> #[trigger] deg[x] == pending(sg, done, x as u32, n) + occ(sg[u], x as u32)
            &&& queue_ok(q0.drop_first(), done, deg, n)
            &&& order_ok(ord2, pos2, done, n)
            &&& forall|p: int, q: int| 0 <= p < ord2.len() && 0 <= q < ord2.len() && #[trigger] sg[ord2[p]].contains(ord2[q] as u32) ==> p < q
            &&& forall|w: int, x: int| 0 <= w < n && 0 <= x < n && done[w] && #[trigger] sg[x].contains(w as u32) ==> done[x]
            &&& forall|j: int| 0 <= j < sg[u].len() ==> !done[#[trigger] sg[u][j] as int]
            &&& done[u]
            &&& count_false(done) < count_false(d0)
        }),
{
    let n = sg.len() as int;
    let uu = q0[0];
    let done = d0.update(u, true);
    assert(!d0[u] && deg[u] == 0);
    lemma_pending_zero(sg, d0, uu, n);
    assert forall|x: int| 0 <= x < n implies #[trigger] deg[x] == pending(sg, done, x as u32, n) + occ(sg[u], x as u32) by {
        lemma_pending_done(sg, d0, x as u32, n, u);
    }
    let q = q0.drop_first();
    assert forall|k: int| 0 <= k < q.len() implies (#[trigger] q[k] as int) < n && !done[q[k] as int] && deg[q[k] as int] == 0 by {
        assert(q[k] == q0[k + 1]);
        assert(q0[k + 1] != q0[0]);
    }
    assert forall|c: int| 0 <= c < n && !done[c] && #[trigger] deg[c] == 0 implies q.contains(c as u32) by {
        assert(c != u);
        let j = choose|j: int| 0 <= j < q0.len() && q0[j] == c as u32;
        assert(j != 0);
        assert(q[j - 1] == c as u32);
    }
    lemma_order_push(ord, pos, d0, n, u);
    let ord2 = ord.push(u);
    assert forall|j: int| 0 <= j < sg[u].len() implies !done[#[trigger] sg[u][j] as int] by {
        let w = sg[u][j] as int;
        assert(sg[u].contains(w as u32));
        if w == u {
            assert(!sg[u].contains(uu));
        } else if d0[w] {
            assert(d0[u]);
        }
    }
    assert forall|p: int, q: int| 0 <= p < ord2.len() && 0 <= q < ord2.len() && #[trigger] sg[ord2[p]].contains(ord2[q] as u32) implies p < q by {
        if q == ord.len() {
            if p == ord.len() {
                assert(!sg[u].contains(uu));
            }
        } else {
            assert(ord2[q] == ord[q]);
            assert(d0[ord[q]]);
            if p == ord.len() {
                assert(d0[u]);
            } else {
                assert(ord2[p] == ord[p]);
            }
        }
    }
    assert forall|w: int, x: int| 0 <= w < n && 0 <= x < n && done[w] && #[trigger] sg[x].contains(w as u32) implies done[x] by {
        if w == u {
            if !d0[x] && x != u {
                assert(!sg[x].contains(uu));
            }
        } else {
            assert(d0[w]);
        }
    }
    lemma_count_false_update(d0, u);
}

/// When the queue ran dry before every function was placed, the functions left over form a
/// caller-closed set.
proof fn lemma_stuck_cycle(sg: Seq<Seq<u32>>, deg: Seq<usize>, queue: Seq<u32>, ord: Seq<int>, pos: Seq<int>, done: Seq<bool>, n: int)
    requires
        n == sg.len(),
        n <= u32::MAX,
        deg.len() == n,
        forall|x: int| 0 <= x < n ==> #[trigger] deg[x] == pending(sg, done, x as u32, n),
        queue_ok(queue, done, deg, n),
        queue.len() == 0,
        order_ok(ord, pos, done, n),
        ord.len() != n,
    ensures
        has_call_cycle(sg),
{
    let rem = Seq::new(n as nat, |c: int| !done[c]);
    lemma_some_left(ord, pos, done, n);
    let c0 = choose|c: int| 0 <= c < n && !done[c];
    assert(rem[c0]);
    assert forall|c: int| 0 <= c < rem.len() && #[trigger] rem[c] implies exists|x: int| 0 <= x < rem.len() && rem[x] && sg[x].contains(c as u32) by {
        if deg[c] == 0 {
            assert(queue.contains(c as u32));
        }
        lemma_pending_zero(sg, done, c as u32, n);
        let x = choose|x: int| 0 <= x < n && !done[x] && (#[trigger] sg[x]).contains(c as u32);
        assert(rem[x]);
    }
    assert(caller_closed(sg, rem));
}


/// The call relation on function indices.
pub open spec fn calls_rel(succ: Seq<Seq<u32>>) -> spec_fn(int, int) -> bool {
    |a: int, b: int| 0 <= a < succ.len() && 0 <= b < succ.len() && succ[a].contains(b as u32)
}

/// Index `v` occurs in one of the components.
pub open spec fn in_some_comp(comps: Seq<Seq<u32>>, v: int) -> bool {
    exists|c: int, k: int| 0 <= c < comps.len() && 0 <= k < comps[c].len() && #[trigger] comps[c][k] as int == v
}

/// `comps` partitions `0..n` into the strongly connected components of `succ`: every index
/// occurs exactly once, and two indices share a component exactly when each reaches the other.
pub open spec fn is_scc_partition(succ: Seq<Seq<u32>>, comps: Seq<Seq<u32>>) -> bool {
    let n = succ.len() as int;
    &&& forall|c: int, k: int| 0 <= c < comps.len() && 0 <= k < comps[c].len() ==> (#[trigger] comps[c][k] as int) < n
    &&& forall|v: int| 0 <= v < n ==> #[trigger] in_some_comp(comps, v)
    &&& forall|c1: int, k1: int, c2: int, k2: int|
        0 <= c1 < comps.len() && 0 <= k1 < comps[c1].len() && 0 <= c2 < comps.len() && 0 <= k2 < comps[c2].len()
            && #[trigger] comps[c1][k1] == #[trigger] comps[c2][k2] ==> c1 == c2 && k1 == k2
    &&& forall|c: int, k1: int, k2: int| 0 <= c < comps.len() && 0 <= k1 < comps[c].len() && 0 <= k2 < comps[c].len()
        ==> reach(calls_rel(succ), #[trigger] comps[c][k1] as int, #[trigger] comps[c][k2] as int)
    &&& forall|c1: int, k1: int, c2: int, k2: int|
        0 <= c1 < comps.len() && 0 <= k1 < comps[c1].len() && 0 <= c2 < comps.len() && 0 <= k2 < comps[c2].len()
            && reach(calls_rel(succ), #[trigger] comps[c1][k1] as int, #[trigger] comps[c2][k2] as int)
            && reach(calls_rel(succ), comps[c2][k2] as int, comps[c1][k1] as int) ==> c1 == c2
}

/// The components are listed callee-first: a call from one component into another puts the
/// callee's component earlier.
pub open spec fn reverse_topological(succ: Seq<Seq<u32>>, comps: Seq<Seq<u32>>) -> bool {
    forall|c1: int, k1: int, c2: int, k2: int|
        0 <= c1 < comps.len() && 0 <= k1 < comps[c1].len() && 0 <= c2 < comps.len() && 0 <= k2 < comps[c2].len() && c1 != c2
            && (calls_rel(succ))(#[trigger] comps[c1][k1] as int, #[trigger] comps[c2][k2] as int) ==> c2 < c1
}

/// Strongly connected components of the graph on `0..n` whose outgoing lists are `succ`
/// (petgraph `algo::tarjan_scc` on a `DiGraph` with node `i` added `i`-th): a partition of
/// the indices into non-empty classes of mutually reachable nodes, listed in postorder
/// (reverse topological order, as the function's documentation states); the order of
/// indices inside a component is not stated.
#[verifier::external_body]
pub(crate) fn strongly_connected(succ: &Vec<Vec<u32>>) -> (r: Vec<Vec<u32>>)
    requires
        succ@.len() < u32::MAX,
        total_len(lists(succ@)) < u32::MAX,
        forall|u: int, k: int| 0 <= u < succ@.len() && 0 <= k < succ@[u]@.len() ==> (#[trigger] succ@[u]@[k] as int) < succ@.len(),
    ensures
        is_scc_partition(lists(succ@), lists(r@)),
        forall|c: int| 0 <= c < r@.len() ==> (#[trigger] r@[c])@.len() > 0,
        reverse_topological(lists(succ@), lists(r@)),
{
    let mut g = petgraph::graph::DiGraph::<(), ()>::new();
    let nodes: Vec<petgraph::graph::NodeIndex> = succ.iter().map(|_| g.add_node(())).collect();
    for (u, callees) in succ.iter().enumerate() {
        for &v in callees {
            g.add_edge(nodes[u], nodes[v as usize], ());
        }
    }
    petgraph::algo::tarjan_scc(&g).into_iter().map(|c| c.into_iter().map(|x| x.index() as u32).collect()).collect()
}

proof fn lemma_mutual_on_cycle(rel: spec_fn(int, int) -> bool, v: int, w: int)
    requires
        v != w,
        reach(rel, v, w),
        reach(rel, w, v),
    ensures
        on_cycle(rel, v),
{
    let p = choose|p: Seq<int>| #[trigger] is_walk(rel, p) && p[0] == v && p.last() == w;
    let q = choose|q: Seq<int>| #[trigger] is_walk(rel, q) && q[0] == w && q.last() == v;
    let t = p + q.drop_first();
    assert(p.len() >= 2);
    assert(q.len() >= 2);
    assert forall|i: int| 0 <= i < t.len() - 1 implies #[trigger] rel(t[i], t[i + 1]) by {
        if i < p.len() - 1 {
            assert(t[i] == p[i] && t[i + 1] == p[i + 1]);
        } else if i == p.len() - 1 {
            assert(t[i] == w && t[i + 1] == q[1]);
            assert(rel(q[0], q[1]));
        } else {
            let j = i - p.len() + 1;
            assert(t[i] == q[j] && t[i + 1] == q[j + 1]);
            assert(rel(q[j], q[j + 1]));
        }
    }
    assert(is_walk(rel, t));
    assert(t.last() == v);
}

proof fn lemma_self_loop_on_cycle(rel: spec_fn(int, int) -> bool, v: int)
    requires
        rel(v, v),
    ensures
        on_cycle(rel, v),
{
    let t = seq![v, v];
    assert(is_walk(rel, t));
}

/// A node on a cycle either calls itself or calls a different node that reaches it back.
proof fn lemma_on_cycle_split(rel: spec_fn(int, int) -> bool, v: int)
    requires
        on_cycle(rel, v),
    ensures
        rel(v, v) || exists|x: int| x != v && #[trigger] rel(v, x) && reach(rel, x, v) && reach(rel, v, x),
{
    let p = choose|p: Seq<int>| #[trigger] is_walk(rel, p) && p.len() >= 2 && p[0] == v && p.last() == v;
    let x = p[1];
    let i = 0int;
    assert(rel(p[i], p[i + 1]));
    if x != v {
        lemma_walk_suffix(rel, p, 1);
        let s = p.subrange(1, p.len() as int);
        assert(s[0] == x && s.last() == v);
        assert(is_walk(rel, seq![v, x]));
        assert(seq![v, x][0] == v && seq![v, x].last() == x);
        assert(reach(rel, v, x));
        assert(reach(rel, x, v));
    }
}

impl CallGraph {
    /// Whether `u` calls itself.
    fn calls_itself(&self, u: usize) -> (r: bool)
        requires
            self.wf(),
            u < self.index_to_id@.len(),
        ensures
            r == self.succ()[u as int].contains(u as u32),
    {
        proof {
            assert(self.succ()[u as int] == self.success_list@[u as int]@);
        }
        let mut k: usize = 0;
        while k < self.success_list[u].len()
            invariant
                self.wf(),
                u < self.index_to_id@.len(),
                self.succ()[u as int] == self.success_list@[u as int]@,
                k <= self.success_list@[u as int]@.len(),
                forall|j: int| 0 <= j < k ==> self.success_list@[u as int]@[j] != u as u32,
            decreases self.success_list@[u as int]@.len() - k,
        {
            if self.success_list[u][k] == u as u32 {
                return true;
            }
            k = k + 1;
        }
        false
    }

    /// Functions taking part in recursion: those in a strongly connected component of more
    /// than one function, and those calling themselves; exactly the functions on a cycle of
    /// calls.
    pub fn recursive_functions(&self) -> (r: HashSet<u128>)
        requires
            self.wf(),
            self.index_to_id@.len() < u32::MAX,
            total_len(self.succ()) < u32::MAX,
        ensures
            forall|id: u128| r@.contains(id) <==> self.index_of(id) >= 0 && on_cycle(calls_rel(self.succ()), self.index_of(id)),
    {
        let ghost sg = self.succ();
        let ghost rel = calls_rel(sg);
        proof {
            assert forall|u: int, k: int| 0 <= u < self.success_list@.len() && 0 <= k < self.success_list@[u]@.len() implies (#[trigger] self.success_list@[u]@[k] as int) < self.success_list@.len() by {
                assert(sg[u] == self.success_list@[u]@);
                assert(sg[u][k] == self.success_list@[u]@[k]);
            }
        }
        let comps = strongly_connected(&self.success_list);
        let ghost cs = lists(comps@);
        let mut recursive: HashSet<u128> = HashSet::new();
        let mut c: usize = 0;
        while c < comps.len()
            invariant
                self.wf(),
                sg == self.succ(),
                rel == calls_rel(sg),
                cs == lists(comps@),
                is_scc_partition(sg, cs),
                c <= comps@.len(),
                forall|id: u128| #[trigger] recursive@.contains(id) ==> self.index_of(id) >= 0 && on_cycle(rel, self.index_of(id)),
                forall|c2: int, k: int| 0 <= c2 < c && 0 <= k < cs[c2].len() && on_cycle(rel, cs[c2][k] as int) ==> recursive@.contains(#[trigger] self.index_to_id@[cs[c2][k] as int]),
            decreases comps.len() - c,
        {
            let comp = &comps[c];
            let ghost r0 = recursive@;
            proof {
                assert(cs[c as int] == comp@);
            }
            if comp.len() > 1 {
                let mut k: usize = 0;
                while k < comp.len()
                    invariant
                        self.wf(),
                        sg == self.succ(),
                        rel == calls_rel(sg),
                        cs == lists(comps@),
                        is_scc_partition(sg, cs),
                        c < comps@.len(),
                        cs[c as int] == comp@,
                        comp@.len() > 1,
                        k <= comp@.len(),
                        r0.subset_of(recursive@),
                        forall|id: u128| #[trigger] recursive@.contains(id) ==> self.index_of(id) >= 0 && on_cycle(rel, self.index_of(id)),
                        forall|j: int| 0 <= j < k ==> recursive@.contains(#[trigger] self.index_to_id@[comp@[j] as int]),
                    decreases comp.len() - k,
                {
                    let v = comp[k];
                    proof {
                        let other: int = if k == 0 { 1 } else { 0 };
                        let w = comp@[other];
                        assert((v as int) < sg.len());
                        assert(cs[c as int][k as int] == v && cs[c as int][other] == w);
                        assert(v != w);
                        assert(reach(rel, v as int, w as int));
                        assert(reach(rel, w as int, v as int));
                        lemma_mutual_on_cycle(rel, v as int, w as int);
                        assert(self.index_of(self.index_to_id@[v as int]) == v as int);
                    }
                    recursive.insert(self.index_to_id[v as usize]);
                    k = k + 1;
                }
                proof {
                    assert forall|c2: int, k2: int| 0 <= c2 < c + 1 && 0 <= k2 < cs[c2].len() && on_cycle(rel, cs[c2][k2] as int) implies recursive@.contains(#[trigger] self.index_to_id@[cs[c2][k2] as int]) by {
                        if c2 < c {
                            assert(r0.contains(self.index_to_id@[cs[c2][k2] as int]));
                        }
                    }
                }
            } else if comp.len() == 1 {
                let v = comp[0];
                proof {
                    assert(cs[c as int][0] == v);
                    assert((v as int) < sg.len());
                }
                if self.calls_itself(v as usize) {
                    proof {
                        assert(rel(v as int, v as int));
                        lemma_self_loop_on_cycle(rel, v as int);
                        assert(self.index_of(self.index_to_id@[v as int]) == v as int);
                    }
                    recursive.insert(self.index_to_id[v as usize]);
                }
                proof {
                    assert forall|c2: int, k2: int| 0 <= c2 < c + 1 && 0 <= k2 < cs[c2].len() && on_cycle(rel, cs[c2][k2] as int) implies recursive@.contains(#[trigger] self.index_to_id@[cs[c2][k2] as int]) by {
                        if c2 < c {
                            assert(r0.contains(self.index_to_id@[cs[c2][k2] as int]));
                        } else {
                            assert(k2 == 0);
                            lemma_on_cycle_split(rel, v as int);
                            if !rel(v as int, v as int) {
                                let x = choose|x: int| x != v as int && #[trigger] rel(v as int, x) && reach(rel, x, v as int) && reach(rel, v as int, x);
                                assert(0 <= x < sg.len());
                                assert(in_some_comp(cs, x));
                                let (cx, kx) = choose|cx: int, kx: int| 0 <= cx < cs.len() && 0 <= kx < cs[cx].len() && #[trigger] cs[cx][kx] as int == x;
                                assert(reach(rel, cs[c as int][0] as int, cs[cx][kx] as int));
                                assert(cx == c as int);
                            }
                        }
                    }
                }
            } else {
                proof {
                    assert forall|c2: int, k2: int| 0 <= c2 < c + 1 && 0 <= k2 < cs[c2].len() && on_cycle(rel, cs[c2][k2] as int) implies recursive@.contains(#[trigger] self.index_to_id@[cs[c2][k2] as int]) by {
                        if c2 < c {
                            assert(r0.contains(self.index_to_id@[cs[c2][k2] as int]));
                        }
                    }
                }
            }
            c = c + 1;
        }
        proof {
            assert forall|id: u128| self.index_of(id) >= 0 && on_cycle(rel, self.index_of(id)) implies recursive@.contains(id) by {
                let v = self.index_of(id);
                assert(in_some_comp(cs, v));
                let (cv, kv) = choose|cv: int, kv: int| 0 <= cv < cs.len() && 0 <= kv < cs[cv].len() && #[trigger] cs[cv][kv] as int == v;
                assert(self.index_to_id@[v] == id);
                assert(recursive@.contains(self.index_to_id@[cs[cv][kv] as int]));
            }
        }
        recursive
    }
}

} // verus!
