//! Control flow graph representation and queries.

use vstd::prelude::*;
use vstd::string::*;
use crate::paths::{lemma_count_false_mono, extends_to_simple_path, lemma_walk_push, lemma_walk_prefix, lemma_walk_suffix, closed_under, count_false, cycle_reachable, is_simple_path, is_walk, lemma_closed_contains_reach, lemma_count_false_update, lemma_nodup_bounded_len, lemma_rank_decreases_along_walk, lemma_reach_refl, lemma_reach_step, lemma_reach_trans, on_cycle, reach};
use crate::text::{chars_of, chars_eq, chars_contain, chars_slice, push_all, string_from_chars};

verus! {

/// Dense per-function identifier for a basic block (0..num_blocks).
#[derive(Debug, Clone, Copy, PartialEq, Eq, Structural, Hash, PartialOrd, Ord)]
pub struct BlockId(pub u32);

impl BlockId {
    /// Construct from a dense index.
    pub fn new(id: u32) -> (r: Self)
        ensures
            r.0 == id,
    {
        BlockId(id)
    }
}

/// High-level statement categories for CFG/PDG analysis.
#[derive(Debug, Clone, Copy, PartialEq, Eq, Structural)]
pub enum StatementKind {
    /// General expression.
    Expression,
    /// Assignment / mutation.
    Assignment,
    /// Variable declaration (`let`, etc.).
    Declaration,
    /// Function or method call.
    FunctionCall,
    /// Return.
    Return,
    /// Branch predicate (if/match condition).
    Branch,
    /// Unstructured jump (break/continue/goto).
    Jump,
}

/// Classification of control-flow edges.
#[derive(Debug, Clone, Copy, PartialEq, Eq, Structural)]
pub enum CfgEdgeType {
    /// Sequential fall-through.
    Next,
    /// Conditional true branch.
    IfTrue,
    /// Conditional false branch.
    IfFalse,
    /// Back-edge or unstructured jump.
    Jump,
    /// Return to function exit.
    Return,
    /// Exception handler edge.
    Exception,
}

/// Directed edge in the CFG.
#[derive(Debug, Clone, Copy, PartialEq, Eq, Structural)]
pub struct CfgEdge {
    /// Source block.
    pub from: BlockId,
    /// Target block.
    pub to: BlockId,
    /// Edge classification.
    pub edge_type: CfgEdgeType,
}

/// Successor ids of `u`, in edge order.
pub open spec fn succ_of(edges: Seq<CfgEdge>, u: u32) -> Seq<u32>
    decreases edges.len(),
{
    if edges.len() == 0 {
        Seq::empty()
    } else {
        let rest = succ_of(edges.drop_last(), u);
        if edges.last().from.0 == u {
            rest.push(edges.last().to.0)
        } else {
            rest
        }
    }
}

/// Predecessor ids of `u`, in edge order.
pub open spec fn pred_of(edges: Seq<CfgEdge>, u: u32) -> Seq<u32>
    decreases edges.len(),
{
    if edges.len() == 0 {
        Seq::empty()
    } else {
        let rest = pred_of(edges.drop_last(), u);
        if edges.last().to.0 == u {
            rest.push(edges.last().from.0)
        } else {
            rest
        }
    }
}

/// There is an edge `a -> b`.
pub open spec fn has_edge(edges: Seq<CfgEdge>, a: int, b: int) -> bool {
    exists|i: int| 0 <= i < edges.len() && #[trigger] edges[i].from.0 == a && edges[i].to.0 == b
}

/// The edge relation of a CFG as a relation on integers.
pub open spec fn cfg_rel(edges: Seq<CfgEdge>) -> spec_fn(int, int) -> bool {
    |a: int, b: int| has_edge(edges, a, b)
}

/// Block ids as integers.
pub open spec fn ids(s: Seq<BlockId>) -> Seq<int> {
    s.map_values(|b: BlockId| b.0 as int)
}

/// No two edges join the same pair of blocks.
pub open spec fn edges_unique(edges: Seq<CfgEdge>) -> bool {
    forall|i: int, j: int| 0 <= i < j < edges.len() ==> !(#[trigger] edges[i].from == #[trigger] edges[j].from && edges[i].to == edges[j].to)
}

proof fn lemma_succ_of_nodup(edges: Seq<CfgEdge>, u: u32)
    requires
        edges_unique(edges),
    ensures
        succ_of(edges, u).no_duplicates(),
    decreases edges.len(),
{
    if edges.len() > 0 {
        let init = edges.drop_last();
        let last = edges.last();
        assert forall|i: int, j: int| 0 <= i < j < init.len() implies !(#[trigger] init[i].from == #[trigger] init[j].from && init[i].to == init[j].to) by {
            assert(init[i] == edges[i] && init[j] == edges[j]);
        }
        lemma_succ_of_nodup(init, u);
        let r = succ_of(init, u);
        if last.from.0 == u {
            lemma_succ_of_contains(init, u, last.to.0);
            if r.contains(last.to.0) {
                let k = choose|k: int| 0 <= k < init.len() && #[trigger] init[k].from.0 == u as int && init[k].to.0 == last.to.0 as int;
                assert(edges[k] == init[k]);
                let lj = edges.len() - 1;
                assert(edges[k].from == edges[lj].from && edges[k].to == edges[lj].to);
            }
            assert forall|a: int, b: int| 0 <= a < b < r.push(last.to.0).len() implies r.push(last.to.0)[a] != r.push(last.to.0)[b] by {
                if b == r.len() {
                    assert(r.contains(r[a]));
                }
            }
        }
    }
}

pub proof fn lemma_succ_of_contains(edges: Seq<CfgEdge>, u: u32, v: u32)
    ensures
        succ_of(edges, u).contains(v) <==> has_edge(edges, u as int, v as int),
    decreases edges.len(),
{
    if edges.len() > 0 {
        let init = edges.drop_last();
        let last = edges.last();
        lemma_succ_of_contains(init, u, v);
        let r = succ_of(init, u);
        if last.from.0 == u {
            assert(succ_of(edges, u) == r.push(last.to.0));
            if r.contains(v) {
                let k = choose|k: int| 0 <= k < r.len() && r[k] == v;
                assert(r.push(last.to.0)[k] == v);
            }
            if last.to.0 == v {
                assert(r.push(last.to.0)[r.len() as int] == v);
                assert(edges[edges.len() - 1].from.0 == u);
            }
            if r.push(last.to.0).contains(v) {
                let k = choose|k: int| 0 <= k < r.len() + 1 && r.push(last.to.0)[k] == v;
                if k < r.len() {
                    assert(r[k] == v);
                }
            }
        } else {
            assert(succ_of(edges, u) == r);
        }
        if has_edge(edges, u as int, v as int) {
            let i = choose|i: int| 0 <= i < edges.len() && #[trigger] edges[i].from.0 == u && edges[i].to.0 == v;
            if i < edges.len() - 1 {
                assert(init[i] == edges[i]);
                assert(has_edge(init, u as int, v as int));
            }
        }
        if has_edge(init, u as int, v as int) {
            let i = choose|i: int| 0 <= i < init.len() && #[trigger] init[i].from.0 == u && init[i].to.0 == v;
            assert(edges[i] == init[i]);
        }
    }
}

pub proof fn lemma_pred_of_contains(edges: Seq<CfgEdge>, u: u32, v: u32)
    ensures
        pred_of(edges, u).contains(v) <==> has_edge(edges, v as int, u as int),
    decreases edges.len(),
{
    if edges.len() > 0 {
        let init = edges.drop_last();
        let last = edges.last();
        lemma_pred_of_contains(init, u, v);
        let r = pred_of(init, u);
        if last.to.0 == u {
            assert(pred_of(edges, u) == r.push(last.from.0));
            if r.contains(v) {
                let k = choose|k: int| 0 <= k < r.len() && r[k] == v;
                assert(r.push(last.from.0)[k] == v);
            }
            if last.from.0 == v {
                assert(r.push(last.from.0)[r.len() as int] == v);
                assert(edges[edges.len() - 1].to.0 == u);
            }
            if r.push(last.from.0).contains(v) {
                let k = choose|k: int| 0 <= k < r.len() + 1 && r.push(last.from.0)[k] == v;
                if k < r.len() {
                    assert(r[k] == v);
                }
            }
        } else {
            assert(pred_of(edges, u) == r);
        }
        if has_edge(edges, v as int, u as int) {
            let i = choose|i: int| 0 <= i < edges.len() && #[trigger] edges[i].from.0 == v && edges[i].to.0 == u;
            if i < edges.len() - 1 {
                assert(init[i] == edges[i]);
                assert(has_edge(init, v as int, u as int));
            }
        }
        if has_edge(init, v as int, u as int) {
            let i = choose|i: int| 0 <= i < init.len() && #[trigger] init[i].from.0 == v && init[i].to.0 == u;
            assert(edges[i] == init[i]);
        }
    }
}

/// Successors of `u` computed by one scan of `edges`.
pub fn successors_in(edges: &Vec<CfgEdge>, u: BlockId) -> (r: Vec<BlockId>)
    ensures
        r@.map_values(|b: BlockId| b.0) == succ_of(edges@, u.0),
{
    let mut r: Vec<BlockId> = Vec::new();
    let mut i: usize = 0;
    while i < edges.len()
        invariant
            i <= edges.len(),
            r@.map_values(|b: BlockId| b.0) == succ_of(edges@.take(i as int), u.0),
        decreases edges.len() - i,
    {
        assert(edges@.take(i as int + 1).drop_last() =~= edges@.take(i as int));
        if edges[i].from.0 == u.0 {
            r.push(edges[i].to);
        }
        i = i + 1;
        assert(r@.map_values(|b: BlockId| b.0) =~= succ_of(edges@.take(i as int), u.0));
    }
    assert(edges@.take(i as int) =~= edges@);
    r
}

/// Predecessors of `u` computed by one scan of `edges`.
pub fn predecessors_in(edges: &Vec<CfgEdge>, u: BlockId) -> (r: Vec<BlockId>)
    ensures
        r@.map_values(|b: BlockId| b.0) == pred_of(edges@, u.0),
{
    let mut r: Vec<BlockId> = Vec::new();
    let mut i: usize = 0;
    while i < edges.len()
        invariant
            i <= edges.len(),
            r@.map_values(|b: BlockId| b.0) == pred_of(edges@.take(i as int), u.0),
        decreases edges.len() - i,
    {
        assert(edges@.take(i as int + 1).drop_last() =~= edges@.take(i as int));
        if edges[i].to.0 == u.0 {
            r.push(edges[i].from);
        }
        i = i + 1;
        assert(r@.map_values(|b: BlockId| b.0) =~= pred_of(edges@.take(i as int), u.0));
    }
    assert(edges@.take(i as int) =~= edges@);
    r
}


/// A variable definition site on a CFG statement.
#[derive(Debug, Clone, PartialEq, Eq, Hash)]
pub enum DefVar {
    /// Simple local / parameter name.
    Local(String),
    /// Field assignment target `receiver.member`.
    Field {
        /// Base local (`order`, `this`, ...).
        receiver: String,
        /// Member name (`status`).
        member: String,
    },
}

/// Canonical name of a definition: the local name, or `receiver.member`.
pub open spec fn def_name(d: DefVar) -> Seq<char> {
    match d {
        DefVar::Local(s) => s@,
        DefVar::Field { receiver, member } => receiver@ + seq!['.'] + member@,
    }
}

impl DefVar {
    /// Construct a local definition.
    pub fn local(name: &str) -> (r: Self)
        ensures
            r matches DefVar::Local(s) && s@ == name@,
    {
        DefVar::Local(String::from_str(name))
    }

    /// Canonical name for data-flow / PDG (`obj.field` or local name).
    pub fn name(&self) -> (r: String)
        ensures
            r@ == def_name(*self),
    {
        match self {
            DefVar::Local(s) => s.clone(),
            DefVar::Field { receiver, member } => {
                let mut v = chars_of(receiver.as_str());
                v.push('.');
                let m = chars_of(member.as_str());
                push_all(&mut v, m.as_slice());
                string_from_chars(v.as_slice())
            },
        }
    }

    /// True when this definition matches `name` (exact `name()` equality).
    pub fn defines_name(&self, name: &str) -> (r: bool)
        ensures
            r == (def_name(*self) == name@),
    {
        let target = chars_of(name);
        match self {
            DefVar::Local(s) => {
                let c = chars_of(s.as_str());
                let r = chars_eq(c.as_slice(), target.as_slice());
                assert(c@ == s@);
                r
            },
            DefVar::Field { receiver, member } => {
                let mut v = chars_of(receiver.as_str());
                v.push('.');
                let m = chars_of(member.as_str());
                push_all(&mut v, m.as_slice());
                assert(v@ =~= receiver@ + seq!['.'] + member@);
                chars_eq(v.as_slice(), target.as_slice())
            },
        }
    }

    /// Receiver local for a field definition, if any.
    pub fn field_receiver(&self) -> (r: Option<&str>)
        ensures
            match *self {
                DefVar::Field { receiver, .. } => r is Some && r->0@ == receiver@,
                DefVar::Local(_) => r is None,
            },
    {
        match self {
            DefVar::Field { receiver, .. } => Some(receiver.as_str()),
            _ => None,
        }
    }
}

/// Index of the last `c` in `s`, or -1.
pub open spec fn last_index_of(s: Seq<char>, c: char) -> int
    decreases s.len(),
{
    if s.len() == 0 {
        -1
    } else if s.last() == c {
        s.len() - 1
    } else {
        last_index_of(s.drop_last(), c)
    }
}

pub proof fn lemma_last_index_of(s: Seq<char>, c: char)
    ensures
        -1 <= last_index_of(s, c) < s.len(),
        last_index_of(s, c) >= 0 ==> s[last_index_of(s, c)] == c,
        forall|j: int| last_index_of(s, c) < j < s.len() ==> s[j] != c,
    decreases s.len(),
{
    if s.len() > 0 && s.last() != c {
        lemma_last_index_of(s.drop_last(), c);
        assert forall|j: int| last_index_of(s, c) < j < s.len() implies s[j] != c by {
            if j < s.len() - 1 {
                assert(s.drop_last()[j] == s[j]);
            }
        }
    }
}

pub(crate) fn last_index_of_exec(s: &[char], c: char) -> (r: Option<usize>)
    ensures
        match r {
            Some(k) => k as int == last_index_of(s@, c),
            None => last_index_of(s@, c) == -1,
        },
{
    let mut i: usize = s.len();
    assert(s@.take(i as int) =~= s@);
    while i > 0
        invariant
            i <= s@.len(),
            last_index_of(s@, c) == last_index_of(s@.take(i as int), c),
        decreases i,
    {
        assert(s@.take(i as int).drop_last() =~= s@.take(i as int - 1));
        if s[i - 1] == c {
            return Some(i - 1);
        }
        i = i - 1;
    }
    None
}

/// How a serialized definition name decodes: `receiver.member` (split at the last
/// `.`, both sides non-empty and free of `(`) or a plain local.
pub open spec fn wire_def_is_field(s: Seq<char>) -> bool {
    let k = last_index_of(s, '.');
    &&& k > 0
    &&& k < s.len() - 1
    &&& !s.subrange(0, k).contains('(')
    &&& !s.subrange(k + 1, s.len() as int).contains('(')
}

/// A definition that its serialized name describes without loss: a local name holds no
/// `.`; a field has a non-empty receiver and a non-empty member without `.`, and neither
/// part holds `(`.
pub open spec fn wire_safe(d: DefVar) -> bool {
    match d {
        DefVar::Local(s) => !s@.contains('.'),
        DefVar::Field { receiver, member } => receiver@.len() > 0 && member@.len() > 0 && !member@.contains('.')
            && !receiver@.contains('(') && !member@.contains('('),
    }
}

/// Serializing a definition by its name and decoding that name gives the definition back:
/// a local decodes as a local of the same name, and a field splits at its last `.` into its
/// own receiver and member.
pub proof fn lemma_def_var_wire_round_trip(d: DefVar)
    requires
        wire_safe(d),
    ensures
        d is Local ==> !wire_def_is_field(def_name(d)),
        d matches DefVar::Field { receiver, member } ==> wire_def_is_field(def_name(d))
            && def_name(d).subrange(0, last_index_of(def_name(d), '.')) == receiver@
            && def_name(d).subrange(last_index_of(def_name(d), '.') + 1, def_name(d).len() as int) == member@,
{
    let s = def_name(d);
    lemma_last_index_of(s, '.');
    let k = last_index_of(s, '.');
    match d {
        DefVar::Local(x) => {
            if k >= 0 {
                assert(s[k] == '.');
                assert(x@.contains('.'));
            }
        },
        DefVar::Field { receiver, member } => {
            let rl = receiver@.len() as int;
            assert(s[rl] == '.');
            if k < rl {
                assert(s[rl] != '.');
            }
            if k > rl {
                assert(s[k] == '.');
                assert(member@[k - rl - 1] == s[k]);
                assert(member@.contains('.'));
            }
            assert(k == rl);
            assert(s.subrange(0, k) =~= receiver@);
            assert(s.subrange(k + 1, s.len() as int) =~= member@);
        },
    }
}

/// Decode a definition from its serialized name.
pub fn def_var_from_wire(s: String) -> (r: DefVar)
    ensures
        wire_def_is_field(s@) ==> (r matches DefVar::Field { receiver, member } && receiver@
            == s@.subrange(0, last_index_of(s@, '.')) && member@ == s@.subrange(
            last_index_of(s@, '.') + 1,
            s@.len() as int,
        )),
        !wire_def_is_field(s@) ==> r == DefVar::Local(s),
{
    let chars = chars_of(s.as_str());
    proof {
        lemma_last_index_of(s@, '.');
    }
    match last_index_of_exec(chars.as_slice(), '.') {
        Some(k) => {
            let receiver = chars_slice(chars.as_slice(), 0, k);
            let member = chars_slice(chars.as_slice(), k + 1, chars.len());
            if k > 0 && k + 1 < chars.len() && !chars_contain(receiver.as_slice(), '(')
                && !chars_contain(member.as_slice(), '(') {
                return DefVar::Field {
                    receiver: string_from_chars(receiver.as_slice()),
                    member: string_from_chars(member.as_slice()),
                };
            }
            DefVar::Local(s)
        },
        None => DefVar::Local(s),
    }
}

/// A single statement in a basic block.
#[derive(Debug, Clone)]
pub struct Statement {
    /// Statement classification.
    pub kind: StatementKind,
    /// Source line (1-based).
    pub line: usize,
    /// Source text.
    pub text: String,
    /// Variables defined by this statement.
    pub defined_vars: Vec<DefVar>,
    /// Variables used by this statement.
    pub used_vars: Vec<String>,
}

impl Statement {
    /// True when this statement defines `name` (local or `obj.field`).
    pub fn defines(&self, name: &str) -> (r: bool)
        ensures
            r == exists|i: int| 0 <= i < self.defined_vars@.len() && def_name(
                #[trigger] self.defined_vars@[i],
            ) == name@,
    {
        let mut i: usize = 0;
        while i < self.defined_vars.len()
            invariant
                i <= self.defined_vars@.len(),
                forall|k: int| 0 <= k < i ==> def_name(#[trigger] self.defined_vars@[k]) != name@,
            decreases self.defined_vars.len() - i,
        {
            if self.defined_vars[i].defines_name(name) {
                return true;
            }
            i = i + 1;
        }
        false
    }
}

/// A sequence of statements with no internal branches.
#[derive(Debug, Clone)]
pub struct BasicBlock {
    /// Block id.
    pub id: BlockId,
    /// Statements in this block.
    pub statements: Vec<Statement>,
    /// First source line (1-based).
    pub start_line: usize,
    /// Last source line (1-based).
    pub end_line: usize,
}


pub proof fn lemma_succ_of_absent(edges: Seq<CfgEdge>, u: u32)
    requires
        forall|i: int| 0 <= i < edges.len() ==> (#[trigger] edges[i]).from.0 != u,
    ensures
        succ_of(edges, u) == Seq::<u32>::empty(),
    decreases edges.len(),
{
    if edges.len() > 0 {
        let init = edges.drop_last();
        assert forall|i: int| 0 <= i < init.len() implies (#[trigger] init[i]).from.0 != u by {
            assert(init[i] == edges[i]);
        }
        lemma_succ_of_absent(init, u);
    }
}

pub proof fn lemma_pred_of_absent(edges: Seq<CfgEdge>, u: u32)
    requires
        forall|i: int| 0 <= i < edges.len() ==> (#[trigger] edges[i]).to.0 != u,
    ensures
        pred_of(edges, u) == Seq::<u32>::empty(),
    decreases edges.len(),
{
    if edges.len() > 0 {
        let init = edges.drop_last();
        assert forall|i: int| 0 <= i < init.len() implies (#[trigger] init[i]).to.0 != u by {
            assert(init[i] == edges[i]);
        }
        lemma_pred_of_absent(init, u);
    }
}

/// Position of the first block with id `id`, or -1.
pub open spec fn block_index(blocks: Seq<BasicBlock>, id: BlockId) -> int
    decreases blocks.len(),
{
    if blocks.len() == 0 {
        -1
    } else if block_index(blocks.drop_last(), id) >= 0 {
        block_index(blocks.drop_last(), id)
    } else if blocks.last().id == id {
        blocks.len() - 1
    } else {
        -1
    }
}

/// A control-flow graph for a single function body.
#[derive(Debug, Clone)]
pub struct ControlFlowGraph {
    /// Basic blocks (one per id).
    pub blocks: Vec<BasicBlock>,
    /// Directed edges between blocks.
    pub edges: Vec<CfgEdge>,
    /// Entry block id.
    pub entry: BlockId,
    /// Exit block ids (returns, implicit fall-through exits).
    pub exits: Vec<BlockId>,
    /// Successor lists indexed by block id (derived from `edges`; see [`Self::wf`]).
    pub succ: Vec<Vec<BlockId>>,
    /// Predecessor lists indexed by block id (derived from `edges`; see [`Self::wf`]).
    pub pred: Vec<Vec<BlockId>>,
}

impl ControlFlowGraph {
    /// The adjacency caches agree with `edges` and every id is below the cache bound.
    pub open spec fn wf(&self) -> bool {
        &&& self.succ@.len() == self.pred@.len()
        &&& self.succ@.len() <= u32::MAX
        &&& self.entry.0 < self.succ@.len()
        &&& forall|i: int|
            0 <= i < self.edges@.len() ==> (#[trigger] self.edges@[i]).from.0 < self.succ@.len()
                && self.edges@[i].to.0 < self.succ@.len()
        &&& forall|u: int|
            0 <= u < self.succ@.len() ==> ids(#[trigger] self.succ@[u]@) == succ_of(
                self.edges@,
                u as u32,
            ).map_values(|x: u32| x as int)
        &&& forall|u: int|
            0 <= u < self.pred@.len() ==> ids(#[trigger] self.pred@[u]@) == pred_of(
                self.edges@,
                u as u32,
            ).map_values(|x: u32| x as int)
    }

    /// Exclusive upper bound on the ids that occur in the graph.
    pub open spec fn id_bound(&self) -> nat {
        self.succ@.len()
    }

    /// The edge relation.
    pub open spec fn rel(&self) -> spec_fn(int, int) -> bool {
        cfg_rel(self.edges@)
    }

    pub proof fn lemma_wf_bounds(&self)
        requires
            self.wf(),
        ensures
            self.entry.0 < self.id_bound(),
            self.id_bound() <= u32::MAX,
            forall|a: int, b: int| has_edge(self.edges@, a, b) ==> 0 <= a < self.id_bound() && 0 <= b < self.id_bound(),
    {
        assert forall|a: int, b: int| has_edge(self.edges@, a, b) implies 0 <= a < self.id_bound() && 0 <= b < self.id_bound() by {
            let i = choose|i: int| 0 <= i < self.edges@.len() && #[trigger] self.edges@[i].from.0 == a && self.edges@[i].to.0 == b;
            assert(self.edges@[i].from.0 < self.succ@.len());
        }
    }

    /// Create an empty CFG with a fresh entry block.
    pub fn new() -> (r: Self)
        ensures
            r.wf(),
            r.entry.0 == 0,
            r.edges@.len() == 0,
            r.exits@.len() == 0,
            r.blocks@.len() == 1,
            r.blocks@[0].id.0 == 0,
            r.blocks@[0].statements@.len() == 0,
            r.blocks@[0].start_line == 0,
            r.blocks@[0].end_line == 0,
    {
        let entry = BlockId(0);
        let mut blocks: Vec<BasicBlock> = Vec::new();
        blocks.push(BasicBlock { id: entry, statements: Vec::new(), start_line: 0, end_line: 0 });
        let mut succ: Vec<Vec<BlockId>> = Vec::new();
        succ.push(Vec::new());
        let mut pred: Vec<Vec<BlockId>> = Vec::new();
        pred.push(Vec::new());
        let r = ControlFlowGraph { blocks, edges: Vec::new(), entry, exits: Vec::new(), succ, pred };
        proof {
            assert forall|u: int| 0 <= u < r.succ@.len() implies ids(#[trigger] r.succ@[u]@) == succ_of(
                r.edges@,
                u as u32,
            ).map_values(|x: u32| x as int) by {
                assert(ids(r.succ@[u]@) =~= Seq::<int>::empty());
                assert(succ_of(r.edges@, u as u32).map_values(|x: u32| x as int) =~= Seq::<int>::empty());
            }
            assert forall|u: int| 0 <= u < r.pred@.len() implies ids(#[trigger] r.pred@[u]@) == pred_of(
                r.edges@,
                u as u32,
            ).map_values(|x: u32| x as int) by {
                assert(ids(r.pred@[u]@) =~= Seq::<int>::empty());
                assert(pred_of(r.edges@, u as u32).map_values(|x: u32| x as int) =~= Seq::<int>::empty());
            }
        }
        r
    }

    /// Insert a basic block (replacing a block with the same id).
    pub fn add_block(&mut self, block: BasicBlock)
        requires
            old(self).wf(),
        ensures
            final(self).wf(),
            final(self).edges == old(self).edges,
            final(self).entry == old(self).entry,
            final(self).exits == old(self).exits,
            block_index(old(self).blocks@, block.id) >= 0 ==> final(self).blocks@ == old(self).blocks@.update(
                block_index(old(self).blocks@, block.id),
                block,
            ),
            block_index(old(self).blocks@, block.id) < 0 ==> final(self).blocks@ == old(self).blocks@.push(block),
    {
        let mut i: usize = 0;
        while i < self.blocks.len()
            invariant
                i <= self.blocks@.len(),
                *self == *old(self),
                self.wf(),
                block_index(self.blocks@.take(i as int), block.id) == -1,
            decreases self.blocks.len() - i,
        {
            assert(self.blocks@.take(i as int + 1).drop_last() =~= self.blocks@.take(i as int));
            if self.blocks[i].id == block.id {
                proof {
                    self.lemma_block_index_prefix(block.id, i as int);
                }
                self.blocks.set(i, block);
                assert(self.succ == old(self).succ && self.pred == old(self).pred && self.edges == old(self).edges);
                assert(self.wf());
                return;
            }
            i = i + 1;
        }
        assert(self.blocks@.take(i as int) =~= self.blocks@);
        self.blocks.push(block);
    }

    proof fn lemma_block_index_prefix(&self, id: BlockId, i: int)
        requires
            0 <= i < self.blocks@.len(),
            block_index(self.blocks@.take(i), id) == -1,
            self.blocks@[i].id == id,
        ensures
            block_index(self.blocks@, id) == i,
    {
        let s = self.blocks@;
        assert(s.take(i + 1).drop_last() =~= s.take(i));
        assert(block_index(s.take(i + 1), id) == i);
        Self::lemma_block_index_extend(s, id, i + 1);
    }

    proof fn lemma_block_index_extend(s: Seq<BasicBlock>, id: BlockId, k: int)
        requires
            0 < k <= s.len(),
            block_index(s.take(k), id) >= 0,
        ensures
            block_index(s, id) == block_index(s.take(k), id),
        decreases s.len() - k,
    {
        if k < s.len() {
            assert(s.take(k + 1).drop_last() =~= s.take(k));
            Self::lemma_block_index_extend(s, id, k + 1);
        } else {
            assert(s.take(k) =~= s);
        }
    }

    /// Grow both caches so that `id` is a valid index.
    fn grow_caches(&mut self, id: u32)
        requires
            old(self).wf(),
            id < u32::MAX,
        ensures
            final(self).wf(),
            final(self).edges == old(self).edges,
            final(self).blocks == old(self).blocks,
            final(self).entry == old(self).entry,
            final(self).exits == old(self).exits,
            id < final(self).id_bound(),
            final(self).id_bound() >= old(self).id_bound(),
    {
        let need = id as usize + 1;
        while self.succ.len() < need
            invariant
                self.wf(),
                self.edges == old(self).edges,
                self.blocks == old(self).blocks,
                self.entry == old(self).entry,
                self.exits == old(self).exits,
                need <= u32::MAX,
                self.succ@.len() >= old(self).succ@.len(),
            decreases need - self.succ.len(),
        {
            let ghost n = self.succ@.len();
            proof {
                assert forall|i: int| 0 <= i < self.edges@.len() implies (#[trigger] self.edges@[i]).from.0 != n as u32 by {}
                assert forall|i: int| 0 <= i < self.edges@.len() implies (#[trigger] self.edges@[i]).to.0 != n as u32 by {}
                lemma_succ_of_absent(self.edges@, n as u32);
                lemma_pred_of_absent(self.edges@, n as u32);
            }
            self.succ.push(Vec::new());
            self.pred.push(Vec::new());
            proof {
                assert(ids(self.succ@[n as int]@) =~= succ_of(self.edges@, n as u32).map_values(|x: u32| x as int));
                assert(ids(self.pred@[n as int]@) =~= pred_of(self.edges@, n as u32).map_values(|x: u32| x as int));
            }
        }
    }

    /// Add a directed edge.
    pub fn add_edge(&mut self, from: BlockId, to: BlockId, edge_type: CfgEdgeType)
        requires
            old(self).wf(),
            from.0 < u32::MAX,
            to.0 < u32::MAX,
        ensures
            final(self).wf(),
            final(self).edges@ == old(self).edges@.push(CfgEdge { from, to, edge_type }),
            final(self).blocks == old(self).blocks,
            final(self).entry == old(self).entry,
            final(self).exits == old(self).exits,
    {
        self.grow_caches(from.0);
        self.grow_caches(to.0);
        let ghost old_edges = self.edges@;
        let e = CfgEdge { from, to, edge_type };
        self.edges.push(e);
        let f = from.0 as usize;
        let t = to.0 as usize;
        let ghost old_succ = self.succ@;
        let ghost old_pred = self.pred@;
        assert(ids(old_succ[f as int]@) == succ_of(old_edges, f as u32).map_values(|x: u32| x as int));
        assert(ids(old_pred[t as int]@) == pred_of(old_edges, t as u32).map_values(|x: u32| x as int));
        self.succ[f].push(to);
        self.pred[t].push(from);
        proof {
            assert(self.edges@.drop_last() =~= old_edges);
            assert(self.edges@.last() == e);
            assert(succ_of(self.edges@, from.0) == succ_of(old_edges, from.0).push(to.0));
            assert(pred_of(self.edges@, to.0) == pred_of(old_edges, to.0).push(from.0));
            assert(self.succ@[f as int]@ == old_succ[f as int]@.push(to));
            assert(self.pred@[t as int]@ == old_pred[t as int]@.push(from));
            assert forall|u: int| 0 <= u < self.succ@.len() implies ids(#[trigger] self.succ@[u]@) == succ_of(
                self.edges@,
                u as u32,
            ).map_values(|x: u32| x as int) by {
                if u == f {
                    assert(ids(self.succ@[u]@) =~= ids(old_succ[u]@).push(to.0 as int));
                    assert(succ_of(self.edges@, u as u32).map_values(|x: u32| x as int) =~= succ_of(old_edges, u as u32).map_values(|x: u32| x as int).push(to.0 as int));
                } else {
                    assert(succ_of(self.edges@, u as u32) == succ_of(old_edges, u as u32));
                }
            }
            assert forall|u: int| 0 <= u < self.pred@.len() implies ids(#[trigger] self.pred@[u]@) == pred_of(
                self.edges@,
                u as u32,
            ).map_values(|x: u32| x as int) by {
                if u == t {
                    assert(ids(self.pred@[u]@) =~= ids(old_pred[u]@).push(from.0 as int));
                    assert(pred_of(self.edges@, u as u32).map_values(|x: u32| x as int) =~= pred_of(old_edges, u as u32).map_values(|x: u32| x as int).push(from.0 as int));
                } else {
                    assert(pred_of(self.edges@, u as u32) == pred_of(old_edges, u as u32));
                }
            }
            assert forall|i: int| 0 <= i < self.edges@.len() implies (#[trigger] self.edges@[i]).from.0 < self.succ@.len()
                && self.edges@[i].to.0 < self.succ@.len() by {
                if i < old_edges.len() {
                    assert(self.edges@[i] == old_edges[i]);
                }
            }
        }
    }

    /// Predecessor block ids for `block_id`, in edge order.
    pub fn predecessors(&self, block_id: BlockId) -> (r: &[BlockId])
        requires
            self.wf(),
        ensures
            ids(r@) == pred_of(self.edges@, block_id.0).map_values(|x: u32| x as int),
    {
        if (block_id.0 as usize) < self.pred.len() {
            self.pred[block_id.0 as usize].as_slice()
        } else {
            proof {
                assert forall|i: int| 0 <= i < self.edges@.len() implies (#[trigger] self.edges@[i]).to.0 != block_id.0 by {}
                lemma_pred_of_absent(self.edges@, block_id.0);
            }
            let r: &[BlockId] = &[];
            assert(ids(r@) =~= pred_of(self.edges@, block_id.0).map_values(|x: u32| x as int));
            r
        }
    }

    /// Successor block ids for `block_id`, in edge order.
    pub fn successors(&self, block_id: BlockId) -> (r: &[BlockId])
        requires
            self.wf(),
        ensures
            ids(r@) == succ_of(self.edges@, block_id.0).map_values(|x: u32| x as int),
    {
        if (block_id.0 as usize) < self.succ.len() {
            self.succ[block_id.0 as usize].as_slice()
        } else {
            proof {
                assert forall|i: int| 0 <= i < self.edges@.len() implies (#[trigger] self.edges@[i]).from.0 != block_id.0 by {}
                lemma_succ_of_absent(self.edges@, block_id.0);
            }
            let r: &[BlockId] = &[];
            assert(ids(r@) =~= succ_of(self.edges@, block_id.0).map_values(|x: u32| x as int));
            r
        }
    }

    /// Everything reachable from an in-bound id stays in bound.
    pub proof fn lemma_reach_in_bound(&self, a: int, v: int)
        requires
            self.wf(),
            0 <= a < self.id_bound(),
            reach(self.rel(), a, v),
        ensures
            0 <= v < self.id_bound(),
    {
        self.lemma_wf_bounds();
        let s = vstd::set_lib::set_int_range(0, self.id_bound() as int);
        assert forall|x: int, y: int| s.contains(x) && #[trigger] (self.rel())(x, y) implies s.contains(y) by {
            assert(has_edge(self.edges@, x, y));
        }
        lemma_closed_contains_reach(self.rel(), s, a, v);
    }

    /// Depth-first marking of the blocks reachable from the entry block.
    pub(crate) fn reachable_marks(&self) -> (res: (Vec<BlockId>, Vec<bool>))
        requires
            self.wf(),
        ensures
            res.1@.len() == self.id_bound(),
            forall|v: int| 0 <= v < self.id_bound() ==> (res.1@[v] <==> reach(self.rel(), self.entry.0 as int, v)),
            forall|b: BlockId| res.0@.contains(b) <==> reach(self.rel(), self.entry.0 as int, b.0 as int),
            res.0@.no_duplicates(),
    {
        proof {
            self.lemma_wf_bounds();
        }
        let n = self.succ.len();
        let ghost rel = self.rel();
        let ghost entry = self.entry.0 as int;
        let mut visited: Vec<bool> = vec![false; n];
        let mut stack: Vec<BlockId> = Vec::new();
        stack.push(self.entry);
        let mut out: Vec<BlockId> = Vec::new();
        proof {
            lemma_reach_refl(rel, entry);
            assert(ids(stack@)[0] == entry);
        }
        while stack.len() > 0
            invariant
                self.wf(),
                rel == self.rel(),
                entry == self.entry.0 as int,
                n == self.id_bound(),
                visited@.len() == n,
                forall|v: int| 0 <= v < n && #[trigger] visited@[v] ==> reach(rel, entry, v),
                forall|k: int| 0 <= k < stack@.len() ==> (#[trigger] stack@[k]).0 < n && reach(rel, entry, stack@[k].0 as int),
                forall|b: BlockId| out@.contains(b) <==> (b.0 < n && visited@[b.0 as int]),
                out@.no_duplicates(),
                visited@[entry] || ids(stack@).contains(entry),
                forall|u: int, w: int|
                    0 <= u < n && visited@[u] && #[trigger] has_edge(self.edges@, u, w) ==> visited@[w] || ids(stack@).contains(w),
            decreases count_false(visited@), stack@.len(),
        {
            let ghost old_stack = stack@;
            let block = stack.pop().unwrap();
            proof {
                assert(stack@ == old_stack.drop_last());
                assert(block == old_stack.last());
                assert(old_stack[old_stack.len() - 1] == block);
                assert forall|w: int| ids(old_stack).contains(w) && w != block.0 as int implies ids(stack@).contains(w) by {
                    let k = choose|k: int| 0 <= k < ids(old_stack).len() && ids(old_stack)[k] == w;
                    assert(ids(stack@)[k] == w);
                }
            }
            let b = block.0 as usize;
            if visited[b] {
                continue;
            }
            let ghost old_visited = visited@;
            proof {
                lemma_count_false_update(visited@, b as int);
            }
            visited.set(b, true);
            proof {
                assert forall|c: BlockId| out@.push(block).contains(c) <==> (c.0 < n && visited@[c.0 as int]) by {
                    if c == block {
                        assert(out@.push(block)[out@.len() as int] == block);
                    }
                    if out@.push(block).contains(c) && c != block {
                        let k = choose|k: int| 0 <= k < out@.push(block).len() && out@.push(block)[k] == c;
                        assert(out@[k] == c);
                        assert(out@.contains(c));
                    }
                    if c != block && out@.contains(c) {
                        let k = choose|k: int| 0 <= k < out@.len() && out@[k] == c;
                        assert(out@.push(block)[k] == c);
                    }
                    if c != block {
                        assert(c.0 != block.0);
                    }
                }
                assert(!out@.contains(block));
            }
            out.push(block);
            let succs = self.successors(block);
            proof {
                assert forall|w: int| has_edge(self.edges@, b as int, w) implies ids(succs@).contains(w) by {
                    self.lemma_wf_bounds();
                    lemma_succ_of_contains(self.edges@, block.0, w as u32);
                    let sq = succ_of(self.edges@, block.0);
                    let k = choose|k: int| 0 <= k < sq.len() && sq[k] == w as u32;
                    assert(ids(succs@)[k] == sq.map_values(|x: u32| x as int)[k]);
                }
                assert forall|k: int| 0 <= k < succs@.len() implies (#[trigger] succs@[k]).0 < n
                    && has_edge(self.edges@, b as int, succs@[k].0 as int) by {
                    let sq = succ_of(self.edges@, block.0);
                    assert(ids(succs@).len() == sq.map_values(|x: u32| x as int).len());
                    assert(ids(succs@)[k] == sq.map_values(|x: u32| x as int)[k]);
                    assert(sq.contains(sq[k]));
                    lemma_succ_of_contains(self.edges@, block.0, sq[k]);
                }
            }
            let mut j: usize = 0;
            let ghost mid_stack = stack@;
            while j < succs.len()
                invariant
                    self.wf(),
                    rel == self.rel(),
                    entry == self.entry.0 as int,
                    n == self.id_bound(),
                    visited@.len() == n,
                    visited@[b as int],
                    b < n,
                    reach(rel, entry, b as int),
                    j <= succs@.len(),
                    forall|k: int| 0 <= k < succs@.len() ==> (#[trigger] succs@[k]).0 < n
                        && has_edge(self.edges@, b as int, succs@[k].0 as int),
                    stack@.len() >= mid_stack.len(),
                    stack@.take(mid_stack.len() as int) == mid_stack,
                    forall|k: int| 0 <= k < stack@.len() ==> (#[trigger] stack@[k]).0 < n && reach(rel, entry, stack@[k].0 as int),
                    forall|k: int| 0 <= k < j ==> visited@[(#[trigger] succs@[k]).0 as int] || ids(stack@).contains(succs@[k].0 as int),
                decreases succs.len() - j,
            {
                let sb = succs[j];
                if !visited[sb.0 as usize] {
                    let ghost before = stack@;
                    stack.push(sb);
                    proof {
                        assert(ids(stack@)[before.len() as int] == sb.0 as int);
                        assert(cfg_rel(self.edges@)(b as int, sb.0 as int));
                        lemma_reach_step(rel, entry, b as int, sb.0 as int);
                        assert(stack@.take(mid_stack.len() as int) =~= before.take(mid_stack.len() as int));
                        assert forall|k: int| 0 <= k < j implies visited@[(#[trigger] succs@[k]).0 as int] || ids(stack@).contains(succs@[k].0 as int) by {
                            if !visited@[succs@[k].0 as int] {
                                let w = succs@[k].0 as int;
                                let q = choose|q: int| 0 <= q < ids(before).len() && ids(before)[q] == w;
                                assert(ids(stack@)[q] == w);
                            }
                        }
                    }
                }
                j = j + 1;
            }
            proof {
                assert forall|w: int| ids(stack@).contains(w) <== ids(mid_stack).contains(w) by {
                    if ids(mid_stack).contains(w) {
                        let q = choose|q: int| 0 <= q < ids(mid_stack).len() && ids(mid_stack)[q] == w;
                        assert(stack@[q] == mid_stack[q]);
                        assert(ids(stack@)[q] == w);
                    }
                }
                assert forall|u: int, w: int|
                    0 <= u < n && visited@[u] && #[trigger] has_edge(self.edges@, u, w) implies visited@[w] || ids(stack@).contains(w) by {
                    if u == b as int {
                        assert(ids(succs@).contains(w));
                        let k = choose|k: int| 0 <= k < ids(succs@).len() && ids(succs@)[k] == w;
                        assert(succs@[k].0 as int == w);
                    } else {
                        assert(old_visited[u]);
                        if !visited@[w] {
                            assert(!old_visited[w] || w == b as int);
                        }
                    }
                }
                if !visited@[entry] {
                    assert(ids(old_stack).contains(entry));
                }
                assert forall|v: int| 0 <= v < n && #[trigger] visited@[v] implies reach(rel, entry, v) by {
                    if v != b as int {
                        assert(old_visited[v]);
                    }
                }
            }
        }
        proof {
            let s = Set::new(|v: int| 0 <= v < n && visited@[v]);
            assert(visited@[entry]);
            assert forall|x: int, y: int| s.contains(x) && #[trigger] rel(x, y) implies s.contains(y) by {
                assert(has_edge(self.edges@, x, y));
                self.lemma_wf_bounds();
            }
            assert forall|v: int| 0 <= v < n implies (visited@[v] <==> reach(rel, entry, v)) by {
                if reach(rel, entry, v) {
                    lemma_closed_contains_reach(rel, s, entry, v);
                }
            }
            assert forall|c: BlockId| out@.contains(c) <==> reach(rel, entry, c.0 as int) by {
                if reach(rel, entry, c.0 as int) {
                    self.lemma_reach_in_bound(entry, c.0 as int);
                }
            }
        }
        (out, visited)
    }

    /// Blocks reachable from the entry block (each listed once).
    pub fn reachable_blocks(&self) -> (r: Vec<BlockId>)
        requires
            self.wf(),
        ensures
            forall|b: BlockId| r@.contains(b) <==> reach(self.rel(), self.entry.0 as int, b.0 as int),
            r@.no_duplicates(),
    {
        let (r, _) = self.reachable_marks();
        r
    }

    /// Every id that occurs in the graph (entry and edge endpoints) is below `u32::MAX`.
    pub open spec fn ids_in_range(&self) -> bool {
        &&& self.entry.0 < u32::MAX
        &&& forall|i: int|
            0 <= i < self.edges@.len() ==> (#[trigger] self.edges@[i]).from.0 < u32::MAX && self.edges@[i].to.0
                < u32::MAX
    }

    /// Rebuild cached adjacency lists from `edges`.
    pub fn rebuild_adjacency(&mut self)
        requires
            old(self).ids_in_range(),
        ensures
            final(self).wf(),
            final(self).blocks == old(self).blocks,
            final(self).edges == old(self).edges,
            final(self).entry == old(self).entry,
            final(self).exits == old(self).exits,
    {
        let mut bound: u32 = self.entry.0 + 1;
        let mut i: usize = 0;
        while i < self.edges.len()
            invariant
                self.ids_in_range(),
                i <= self.edges@.len(),
                self.entry.0 < bound,
                bound <= u32::MAX,
                forall|k: int| 0 <= k < i ==> (#[trigger] self.edges@[k]).from.0 < bound && self.edges@[k].to.0 < bound,
            decreases self.edges.len() - i,
        {
            let e = self.edges[i];
            if e.from.0 >= bound {
                bound = e.from.0 + 1;
            }
            if e.to.0 >= bound {
                bound = e.to.0 + 1;
            }
            i = i + 1;
        }
        let n = bound as usize;
        let mut succ: Vec<Vec<BlockId>> = Vec::new();
        let mut pred: Vec<Vec<BlockId>> = Vec::new();
        while succ.len() < n
            invariant
                succ@.len() == pred@.len(),
                succ@.len() <= n,
                forall|u: int| 0 <= u < succ@.len() ==> (#[trigger] succ@[u])@.len() == 0,
                forall|u: int| 0 <= u < pred@.len() ==> (#[trigger] pred@[u])@.len() == 0,
            decreases n - succ.len(),
        {
            succ.push(Vec::new());
            pred.push(Vec::new());
        }
        let mut i: usize = 0;
        while i < self.edges.len()
            invariant
                i <= self.edges@.len(),
                succ@.len() == n,
                pred@.len() == n,
                n <= u32::MAX,
                forall|k: int| 0 <= k < self.edges@.len() ==> (#[trigger] self.edges@[k]).from.0 < n && self.edges@[k].to.0 < n,
                forall|u: int| 0 <= u < n ==> ids(#[trigger] succ@[u]@) == succ_of(self.edges@.take(i as int), u as u32).map_values(|x: u32| x as int),
                forall|u: int| 0 <= u < n ==> ids(#[trigger] pred@[u]@) == pred_of(self.edges@.take(i as int), u as u32).map_values(|x: u32| x as int),
            decreases self.edges.len() - i,
        {
            let e = self.edges[i];
            let ghost old_succ = succ@;
            let ghost old_pred = pred@;
            proof {
                assert forall|u: int| 0 <= u < n implies ids(old_succ[u]@) == succ_of(self.edges@.take(i as int), u as u32).map_values(|x: u32| x as int) by {
                    assert(ids(succ@[u]@) == succ_of(self.edges@.take(i as int), u as u32).map_values(|x: u32| x as int));
                }
                assert forall|u: int| 0 <= u < n implies ids(old_pred[u]@) == pred_of(self.edges@.take(i as int), u as u32).map_values(|x: u32| x as int) by {
                    assert(ids(pred@[u]@) == pred_of(self.edges@.take(i as int), u as u32).map_values(|x: u32| x as int));
                }
            }
            let f = e.from.0 as usize;
            let t = e.to.0 as usize;
            succ[f].push(e.to);
            pred[t].push(e.from);
            proof {
                let pre = self.edges@.take(i as int);
                let post = self.edges@.take(i as int + 1);
                assert(post.drop_last() =~= pre);
                assert(post.last() == e);
                assert forall|u: int| 0 <= u < n implies ids(#[trigger] succ@[u]@) == succ_of(post, u as u32).map_values(|x: u32| x as int) by {
                    assert(ids(old_succ[u]@) == succ_of(pre, u as u32).map_values(|x: u32| x as int));
                    if u == f {
                        assert(ids(succ@[u]@) =~= ids(old_succ[u]@).push(e.to.0 as int));
                        assert(succ_of(post, u as u32).map_values(|x: u32| x as int) =~= succ_of(pre, u as u32).map_values(|x: u32| x as int).push(e.to.0 as int));
                    } else {
                        assert(succ@[u] == old_succ[u]);
                        assert(u as u32 == u);
                        assert(e.from.0 != u as u32);
                        assert(succ_of(post, u as u32) == succ_of(pre, u as u32));
                    }
                }
                assert forall|u: int| 0 <= u < n implies ids(#[trigger] pred@[u]@) == pred_of(post, u as u32).map_values(|x: u32| x as int) by {
                    assert(ids(old_pred[u]@) == pred_of(pre, u as u32).map_values(|x: u32| x as int));
                    if u == t {
                        assert(ids(pred@[u]@) =~= ids(old_pred[u]@).push(e.from.0 as int));
                        assert(pred_of(post, u as u32).map_values(|x: u32| x as int) =~= pred_of(pre, u as u32).map_values(|x: u32| x as int).push(e.from.0 as int));
                    } else {
                        assert(pred@[u] == old_pred[u]);
                        assert(u as u32 == u);
                        assert(e.to.0 != u as u32);
                        assert(pred_of(post, u as u32) == pred_of(pre, u as u32));
                    }
                }
            }
            i = i + 1;
        }
        assert(self.edges@.take(i as int) =~= self.edges@);
        self.succ = succ;
        self.pred = pred;
    }

    /// Remove blocks not reachable from entry (dead code after return, etc.).
    pub fn prune_unreachable_blocks(&mut self)
        requires
            old(self).wf(),
        ensures
            final(self).wf(),
            final(self).entry == old(self).entry,
            final(self).blocks@ == old(self).blocks@.filter(
                |b: BasicBlock| reach(old(self).rel(), old(self).entry.0 as int, b.id.0 as int),
            ),
            final(self).edges@ == old(self).edges@.filter(
                |e: CfgEdge|
                    reach(old(self).rel(), old(self).entry.0 as int, e.from.0 as int) && reach(
                        old(self).rel(),
                        old(self).entry.0 as int,
                        e.to.0 as int,
                    ),
            ),
            final(self).exits@ == old(self).exits@.filter(
                |b: BlockId| reach(old(self).rel(), old(self).entry.0 as int, b.0 as int),
            ),
    {
        let (_, marks) = self.reachable_marks();
        let n = marks.len();
        let ghost rel = self.rel();
        let ghost entry = self.entry.0 as int;
        let ghost keep_b = |b: BasicBlock| reach(rel, entry, b.id.0 as int);
        let ghost keep_e = |e: CfgEdge| reach(rel, entry, e.from.0 as int) && reach(rel, entry, e.to.0 as int);
        let ghost keep_x = |b: BlockId| reach(rel, entry, b.0 as int);
        proof {
            self.lemma_wf_bounds();
            assert forall|v: int| reach(rel, entry, v) implies 0 <= v < n by {
                self.lemma_reach_in_bound(entry, v);
            }
        }
        // blocks
        let mut rest: Vec<BasicBlock> = Vec::new();
        std::mem::swap(&mut rest, &mut self.blocks);
        let total = rest.len();
        let ghost orig = rest@;
        assert(orig.take(0) =~= Seq::<BasicBlock>::empty());
        proof { reveal(Seq::filter); }
        let mut kept: Vec<BasicBlock> = Vec::new();
        let mut i: usize = 0;
        while rest.len() > 0
            invariant
                marks@.len() == n,
                forall|v: int| 0 <= v < n ==> (marks@[v] <==> reach(rel, entry, v)),
                forall|v: int| reach(rel, entry, v) ==> 0 <= v < n,
                i + rest@.len() == orig.len(),
                rest@ == orig.subrange(i as int, orig.len() as int),
                kept@ == orig.take(i as int).filter(keep_b),
                keep_b == (|b: BasicBlock| reach(rel, entry, b.id.0 as int)),
                orig.len() == total,
            decreases rest.len(),
        {
            let b = rest.remove(0);
            let ghost prev = kept@;
            proof {
                reveal(Seq::filter);
                assert(orig.take(i as int + 1).drop_last() =~= orig.take(i as int));
                assert(orig.take(i as int + 1).last() == orig[i as int]);
                assert(b == orig[i as int]);
                assert(orig.take(i as int + 1).filter(keep_b) == (if keep_b(b) { prev.push(b) } else { prev }));
            }
            let id = b.id.0 as usize;
            assert(keep_b(b) == reach(rel, entry, b.id.0 as int));
            if id < n && marks[id] {
                kept.push(b);
            }
            assert(kept@ == orig.take(i as int + 1).filter(keep_b));
            i = i + 1;
            proof {
                assert(rest@ =~= orig.subrange(i as int, orig.len() as int));
            }
        }
        assert(orig.take(i as int) =~= orig);
        self.blocks = kept;
        // edges
        let mut ne: Vec<CfgEdge> = Vec::new();
        let mut i: usize = 0;
        proof { reveal(Seq::filter); assert(self.edges@.take(0) =~= Seq::<CfgEdge>::empty()); }
        while i < self.edges.len()
            invariant
                marks@.len() == n,
                forall|v: int| 0 <= v < n ==> (marks@[v] <==> reach(rel, entry, v)),
                forall|v: int| reach(rel, entry, v) ==> 0 <= v < n,
                i <= self.edges@.len(),
                self.edges@.len() == old(self).edges@.len(),
                self.edges == old(self).edges,
                ne@ == self.edges@.take(i as int).filter(keep_e),
                keep_e == (|e: CfgEdge| reach(rel, entry, e.from.0 as int) && reach(rel, entry, e.to.0 as int)),
            decreases self.edges.len() - i,
        {
            let e = self.edges[i];
            proof {
                reveal(Seq::filter);
                assert(self.edges@.take(i as int + 1).drop_last() =~= self.edges@.take(i as int));
                assert(self.edges@.take(i as int + 1).last() == e);
                assert(self.edges@.take(i as int + 1).filter(keep_e) == (if keep_e(e) { ne@.push(e) } else { ne@ }));
            }
            let f = e.from.0 as usize;
            let t = e.to.0 as usize;
            assert(keep_e(e) == (reach(rel, entry, e.from.0 as int) && reach(rel, entry, e.to.0 as int)));
            if f < n && t < n && marks[f] && marks[t] {
                ne.push(e);
            }
            assert(ne@ == self.edges@.take(i as int + 1).filter(keep_e));
            i = i + 1;
        }
        assert(self.edges@.take(i as int) =~= self.edges@);
        // exits
        let mut nx: Vec<BlockId> = Vec::new();
        let mut i: usize = 0;
        proof { reveal(Seq::filter); assert(self.exits@.take(0) =~= Seq::<BlockId>::empty()); }
        while i < self.exits.len()
            invariant
                marks@.len() == n,
                forall|v: int| 0 <= v < n ==> (marks@[v] <==> reach(rel, entry, v)),
                forall|v: int| reach(rel, entry, v) ==> 0 <= v < n,
                i <= self.exits@.len(),
                self.exits == old(self).exits,
                nx@ == self.exits@.take(i as int).filter(keep_x),
                keep_x == (|b: BlockId| reach(rel, entry, b.0 as int)),
            decreases self.exits.len() - i,
        {
            let x = self.exits[i];
            proof {
                reveal(Seq::filter);
                assert(self.exits@.take(i as int + 1).drop_last() =~= self.exits@.take(i as int));
                assert(self.exits@.take(i as int + 1).last() == x);
                assert(self.exits@.take(i as int + 1).filter(keep_x) == (if keep_x(x) { nx@.push(x) } else { nx@ }));
            }
            let xi = x.0 as usize;
            assert(keep_x(x) == reach(rel, entry, x.0 as int));
            if xi < n && marks[xi] {
                nx.push(x);
            }
            assert(nx@ == self.exits@.take(i as int + 1).filter(keep_x));
            i = i + 1;
        }
        assert(self.exits@.take(i as int) =~= self.exits@);
        proof {
            self.lemma_wf_bounds();
            lemma_reach_refl(rel, entry);
            assert forall|k: int| 0 <= k < ne@.len() implies (#[trigger] ne@[k]).from.0 < u32::MAX && ne@[k].to.0 < u32::MAX by {
                assert(ne@.contains(ne@[k]));
                old(self).edges@.lemma_filter_contains_rev(keep_e, ne@[k]);
                let q = choose|q: int| 0 <= q < old(self).edges@.len() && old(self).edges@[q] == ne@[k];
            }
        }
        self.edges = ne;
        self.exits = nx;
        self.rebuild_adjacency();
    }

    /// All simple paths from `from` to `to` (acyclic path enumeration, depth-first).
    pub fn find_paths(&self, from: BlockId, to: BlockId) -> (r: Vec<Vec<BlockId>>)
        requires
            self.wf(),
        ensures
            forall|k: int|
                0 <= k < r@.len() ==> is_simple_path(self.rel(), ids((#[trigger] r@[k])@), from.0 as int, to.0 as int),
            forall|p: Seq<int>|
                is_simple_path(self.rel(), p, from.0 as int, to.0 as int) ==> exists|k: int|
                    0 <= k < r@.len() && ids((#[trigger] r@[k])@) == p,
            edges_unique(self.edges@) ==> forall|a: int, b: int| 0 <= a < b < r@.len() ==> ids((#[trigger] r@[a])@) != ids((#[trigger] r@[b])@),
    {
        let n = self.succ.len();
        let ghost rel = self.rel();
        proof {
            self.lemma_wf_bounds();
        }
        if (from.0 as usize) >= n {
            let mut r: Vec<Vec<BlockId>> = Vec::new();
            proof {
                assert forall|p: Seq<int>| is_simple_path(rel, p, from.0 as int, to.0 as int) implies p =~= seq![from.0 as int] by {
                    if p.len() >= 2 {
                        let i = 0int;
                        assert(rel(p[i], p[i + 1]));
                        assert(has_edge(self.edges@, p[0], p[1]));
                    }
                }
            }
            if from == to {
                let mut one: Vec<BlockId> = Vec::new();
                one.push(from);
                proof {
                    assert(ids(one@) =~= seq![from.0 as int]);
                    assert(is_walk(rel, ids(one@)));
                }
                r.push(one);
                assert(ids(r@[0]@) =~= seq![from.0 as int]);
            }
            return r;
        }
        let mut paths: Vec<Vec<BlockId>> = Vec::new();
        let mut current_path: Vec<BlockId> = Vec::new();
        current_path.push(from);
        let mut visited: Vec<bool> = vec![false; n];
        proof {
            assert(ids(current_path@) =~= seq![from.0 as int]);
            assert(is_walk(rel, ids(current_path@)));
            assert(ids(current_path@).drop_last() =~= Seq::<int>::empty());
        }
        self.dfs_paths(from, to, &mut current_path, &mut visited, &mut paths, Ghost(from.0 as int));
        proof {
            assert forall|p: Seq<int>| is_simple_path(rel, p, from.0 as int, to.0 as int) implies extends_to_simple_path(
                rel, p, ids(current_path@), from.0 as int, to.0 as int) by {
                assert(p.take(1) =~= seq![p[0]]);
                assert(ids(current_path@) =~= seq![from.0 as int]);
            }
        }
        paths
    }

    fn dfs_paths(
        &self,
        current: BlockId,
        target: BlockId,
        path: &mut Vec<BlockId>,
        visited: &mut Vec<bool>,
        paths: &mut Vec<Vec<BlockId>>,
        Ghost(start): Ghost<int>,
    )
        requires
            self.wf(),
            old(visited)@.len() == self.id_bound(),
            current.0 < self.id_bound(),
            is_simple_path(self.rel(), ids(old(path)@), start, current.0 as int),
            forall|k: int| 0 <= k < old(path)@.len() ==> (#[trigger] old(path)@[k]).0 < self.id_bound(),
            forall|v: int|
                0 <= v < self.id_bound() ==> (#[trigger] old(visited)@[v] <==> ids(old(path)@).drop_last().contains(v)),
        ensures
            final(path)@ == old(path)@,
            final(visited)@ == old(visited)@,
            final(paths)@.len() >= old(paths)@.len(),
            final(paths)@.take(old(paths)@.len() as int) == old(paths)@,
            forall|k: int|
                old(paths)@.len() <= k < final(paths)@.len() ==> extends_to_simple_path(
                    self.rel(),
                    ids((#[trigger] final(paths)@[k])@),
                    ids(old(path)@),
                    start,
                    target.0 as int,
                ),
            forall|q: Seq<int>|
                extends_to_simple_path(self.rel(), q, ids(old(path)@), start, target.0 as int) ==> exists|k: int|
                    old(paths)@.len() <= k < final(paths)@.len() && ids((#[trigger] final(paths)@[k])@) == q,
            edges_unique(self.edges@) ==> forall|a: int, b: int| old(paths)@.len() <= a < b < final(paths)@.len()
                ==> ids((#[trigger] final(paths)@[a])@) != ids((#[trigger] final(paths)@[b])@),
        decreases self.id_bound() - old(path)@.len(),
    {
        let ghost rel = self.rel();
        let ghost p0 = path@;
        let ghost ip0 = ids(p0);
        let ghost l0 = paths@.len();
        let ghost n = self.id_bound();
        proof {
            lemma_nodup_bounded_len(ip0, n as int);
        }
        if current == target {
            let mut copy: Vec<BlockId> = Vec::new();
            let mut i: usize = 0;
            while i < path.len()
                invariant
                    i <= path@.len(),
                    copy@ == path@.take(i as int),
                decreases path.len() - i,
            {
                copy.push(path[i]);
                i = i + 1;
                assert(copy@ =~= path@.take(i as int));
            }
            assert(path@.take(i as int) =~= path@);
            paths.push(copy);
            proof {
                assert(ip0.take(ip0.len() as int) =~= ip0);
                assert forall|q: Seq<int>| extends_to_simple_path(rel, q, ip0, start, target.0 as int) implies exists|k: int|
                    l0 <= k < paths@.len() && ids((#[trigger] paths@[k])@) == q by {
                    if q.len() > ip0.len() {
                        assert(q[ip0.len() - 1] == ip0[ip0.len() - 1]);
                        assert(q[ip0.len() - 1] == q[q.len() - 1]);
                    }
                    assert(q =~= ip0);
                    assert(ids(paths@[l0 as int]@) == q);
                }
                assert(paths@.take(l0 as int) =~= old(paths)@);
            }
            return;
        }
        let c = current.0 as usize;
        visited.set(c, true);
        let ghost v1 = visited@;
        let succs = self.successors(current);
        proof {
            assert forall|k: int| 0 <= k < succs@.len() implies (#[trigger] succs@[k]).0 < n
                && has_edge(self.edges@, c as int, succs@[k].0 as int) by {
                let sq = succ_of(self.edges@, current.0);
                assert(ids(succs@).len() == sq.map_values(|x: u32| x as int).len());
                assert(ids(succs@)[k] == sq.map_values(|x: u32| x as int)[k]);
                assert(sq.contains(sq[k]));
                lemma_succ_of_contains(self.edges@, current.0, sq[k]);
            }
            assert forall|v: int| 0 <= v < n implies (v1[v] <==> ip0.contains(v)) by {
                if v == c as int {
                    assert(ip0[ip0.len() - 1] == v);
                } else if ip0.contains(v) {
                    let k = choose|k: int| 0 <= k < ip0.len() && ip0[k] == v;
                    assert(k != ip0.len() - 1);
                    assert(ip0.drop_last()[k] == v);
                } else if ip0.drop_last().contains(v) {
                    let k = choose|k: int| 0 <= k < ip0.drop_last().len() && ip0.drop_last()[k] == v;
                    assert(ip0[k] == v);
                }
            }
        }
        let mut j: usize = 0;
        while j < succs.len()
            invariant
                self.wf(),
                rel == self.rel(),
                n == self.id_bound(),
                current != target,
                c == current.0,
                p0 == old(path)@,
                ip0 == ids(p0),
                l0 == old(paths)@.len(),
                path@ == p0,
                visited@ == v1,
                v1.len() == n,
                forall|v: int| 0 <= v < n ==> (v1[v] <==> ip0.contains(v)),
                is_simple_path(rel, ip0, start, current.0 as int),
                forall|k: int| 0 <= k < p0.len() ==> (#[trigger] p0[k]).0 < n,
                ip0.len() <= n,
                j <= succs@.len(),
                forall|k: int| 0 <= k < succs@.len() ==> (#[trigger] succs@[k]).0 < n
                    && has_edge(self.edges@, c as int, succs@[k].0 as int),
                paths@.len() >= l0,
                paths@.take(l0 as int) == old(paths)@,
                forall|k: int|
                    l0 <= k < paths@.len() ==> extends_to_simple_path(
                        rel,
                        ids((#[trigger] paths@[k])@),
                        ip0,
                        start,
                        target.0 as int,
                    ),
                forall|q: Seq<int>|
                    extends_to_simple_path(rel, q, ip0, start, target.0 as int) && q.len() > ip0.len()
                        && ids(succs@.take(j as int)).contains(#[trigger] q[ip0.len() as int]) ==> exists|k: int|
                        l0 <= k < paths@.len() && ids((#[trigger] paths@[k])@) == q,
                ids(succs@) == succ_of(self.edges@, current.0).map_values(|x: u32| x as int),
                forall|k: int| l0 <= k < paths@.len() ==> ids((#[trigger] paths@[k])@).len() > ip0.len()
                    && ids(succs@.take(j as int)).contains(ids(paths@[k]@)[ip0.len() as int]),
                edges_unique(self.edges@) ==> forall|a: int, b: int| l0 <= a < b < paths@.len()
                    ==> ids((#[trigger] paths@[a])@) != ids((#[trigger] paths@[b])@),
            decreases succs.len() - j,
        {
            let s = succs[j];
            let ghost before = paths@;
            let ghost lb = paths@.len();
            if !visited[s.0 as usize] {
                let ghost ip1 = ip0.push(s.0 as int);
                path.push(s);
                proof {
                    assert(ids(path@) =~= ip1);
                    assert(rel(ip0.last(), s.0 as int));
                    lemma_walk_push(rel, ip0, s.0 as int);
                    assert(!ip0.contains(s.0 as int));
                    assert(ip1.no_duplicates());
                    assert forall|v: int| 0 <= v < n implies (#[trigger] visited@[v] <==> ids(path@).drop_last().contains(v)) by {
                        assert(ids(path@).drop_last() =~= ip0);
                    }
                    assert forall|k: int| 0 <= k < path@.len() implies (#[trigger] path@[k]).0 < n by {
                        if k < p0.len() {
                            assert(path@[k] == p0[k]);
                        }
                    }
                    lemma_nodup_bounded_len(ip1, n as int);
                }
                self.dfs_paths(s, target, path, visited, paths, Ghost(start));
                let _ = path.pop();
                proof {
                    if edges_unique(self.edges@) {
                        assert(forall|a: int, b: int| lb <= a < b < paths@.len() ==> ids((#[trigger] paths@[a])@) != ids((#[trigger] paths@[b])@));
                    }
                }
                proof {
                    assert(path@ =~= p0);
                    assert forall|k: int|
                        l0 <= k < paths@.len() implies extends_to_simple_path(
                            rel,
                            ids((#[trigger] paths@[k])@),
                            ip0,
                            start,
                            target.0 as int,
                        ) by {
                        if k < lb {
                            assert(paths@[k] == before[k]);
                        } else {
                            let q = ids(paths@[k]@);
                            assert(q.take(ip1.len() as int) == ip1);
                            assert(q.take(ip0.len() as int) =~= ip1.take(ip0.len() as int));
                            assert(ip1.take(ip0.len() as int) =~= ip0);
                        }
                    }
                }
            }
            proof {
                assert(paths@.take(l0 as int) =~= before.take(l0 as int));
                assert forall|q: Seq<int>|
                    extends_to_simple_path(rel, q, ip0, start, target.0 as int) && q.len() > ip0.len()
                        && ids(succs@.take(j as int + 1)).contains(#[trigger] q[ip0.len() as int]) implies exists|k: int|
                        l0 <= k < paths@.len() && ids((#[trigger] paths@[k])@) == q by {
                    let x = q[ip0.len() as int];
                    let tj = ids(succs@.take(j as int + 1));
                    let m = choose|m: int| 0 <= m < tj.len() && #[trigger] tj[m] == x;
                    if m < j {
                        assert(ids(succs@.take(j as int))[m] == x);
                        let k = choose|k: int| l0 <= k < before.len() && ids((#[trigger] before[k])@) == q;
                        assert(paths@[k] == before[k]);
                    } else {
                        assert(x == s.0 as int);
                        if v1[x] {
                            assert(ip0.contains(x));
                            let t = choose|t: int| 0 <= t < ip0.len() && ip0[t] == x;
                            assert(q[t] == ip0[t]);
                            assert(false);
                        } else {
                            let ip1 = ip0.push(s.0 as int);
                            assert(q.take(ip1.len() as int) =~= ip1);
                            assert(extends_to_simple_path(rel, q, ip1, start, target.0 as int));
                        }
                    }
                }
            }
            proof {
                let tj = ids(succs@.take(j as int));
                let tj1 = ids(succs@.take(j as int + 1));
                let x = s.0 as int;
                assert(tj1 =~= tj.push(x));
                assert forall|k: int| l0 <= k < paths@.len() implies ids((#[trigger] paths@[k])@).len() > ip0.len()
                    && tj1.contains(ids(paths@[k]@)[ip0.len() as int]) by {
                    let q = ids(paths@[k]@);
                    if k < lb {
                        assert(paths@[k] == before[k]);
                        let m = choose|m: int| 0 <= m < tj.len() && tj[m] == q[ip0.len() as int];
                        assert(tj1[m] == tj[m]);
                    } else {
                        let ip1 = ip0.push(x);
                        assert(extends_to_simple_path(rel, q, ip1, start, target.0 as int));
                        assert(q.take(ip1.len() as int) == ip1);
                        assert(q[ip0.len() as int] == q.take(ip1.len() as int)[ip0.len() as int]);
                        assert(tj1[j as int] == x);
                    }
                }
                if edges_unique(self.edges@) {
                    lemma_succ_of_nodup(self.edges@, current.0);
                    let sq = succ_of(self.edges@, current.0);
                    assert forall|a: int, b: int| l0 <= a < b < paths@.len() implies ids((#[trigger] paths@[a])@) != ids((#[trigger] paths@[b])@) by {
                        if b >= lb && a < lb {
                            let qa = ids(paths@[a]@);
                            let qb = ids(paths@[b]@);
                            assert(paths@[a] == before[a]);
                            let m = choose|m: int| 0 <= m < tj.len() && tj[m] == qa[ip0.len() as int];
                            let ip1 = ip0.push(x);
                            assert(qb.take(ip1.len() as int) == ip1);
                            assert(qb[ip0.len() as int] == qb.take(ip1.len() as int)[ip0.len() as int]);
                            assert(ids(succs@)[m] == sq.map_values(|x: u32| x as int)[m]);
                            assert(ids(succs@)[j as int] == sq.map_values(|x: u32| x as int)[j as int]);
                            assert(tj[m] == ids(succs@)[m]);
                            assert(ids(succs@) == sq.map_values(|x: u32| x as int));
                            assert(ids(succs@).len() == succs@.len());
                            assert(sq.map_values(|x: u32| x as int).len() == sq.len());
                            assert(sq.len() == succs@.len());
                            assert(sq.map_values(|x: u32| x as int)[m] == sq[m] as int);
                            assert(sq.map_values(|x: u32| x as int)[j as int] == sq[j as int] as int);
                            assert(ids(succs@)[j as int] == x);
                            if qa == qb {
                                assert(sq[m] == sq[j as int]);
                            }
                        } else if b < lb {
                            assert(paths@[a] == before[a] && paths@[b] == before[b]);
                        } else {
                            assert(lb <= a);
                        }
                    }
                }
            }
            j = j + 1;
        }
        visited.set(c, false);
        proof {
            assert(visited@ =~= old(visited)@) by {
                assert forall|v: int| 0 <= v < n implies visited@[v] == old(visited)@[v] by {
                    if v == c as int {
                        assert(!ip0.drop_last().contains(v)) by {
                            if ip0.drop_last().contains(v) {
                                let k = choose|k: int| 0 <= k < ip0.drop_last().len() && ip0.drop_last()[k] == v;
                                assert(ip0[k] == ip0[ip0.len() - 1]);
                            }
                        }
                    }
                }
            }
            assert(succs@.take(j as int) =~= succs@);
            assert forall|q: Seq<int>| extends_to_simple_path(rel, q, ip0, start, target.0 as int) implies exists|k: int|
                l0 <= k < paths@.len() && ids((#[trigger] paths@[k])@) == q by {
                if q.len() == ip0.len() {
                    assert(q =~= ip0);
                    assert(false);
                }
                let x = q[ip0.len() as int];
                let i = ip0.len() - 1;
                assert(q[i] == ip0[i]);
                assert(rel(q[i], q[i + 1]));
                lemma_succ_of_contains(self.edges@, current.0, x as u32);
                let sq = succ_of(self.edges@, current.0);
                let m = choose|m: int| 0 <= m < sq.len() && sq[m] == x as u32;
                assert(ids(succs@)[m] == x);
            }
        }
    }

    /// Depth-first search state: finished ("black") nodes only reach finished nodes,
    /// with strictly smaller finishing ranks.
    pub open spec fn cycle_search_inv(
        &self,
        visited: Seq<bool>,
        rec: Seq<bool>,
        fin: Seq<int>,
        clock: int,
    ) -> bool {
        let n = self.id_bound() as int;
        &&& visited.len() == n
        &&& rec.len() == n
        &&& fin.len() == n
        &&& forall|v: int| 0 <= v < n && #[trigger] rec[v] ==> visited[v]
        &&& forall|x: int|
            0 <= x < n && #[trigger] visited[x] && !rec[x] ==> fin[x] < clock && forall|y: int|
                #[trigger] has_edge(self.edges@, x, y) ==> 0 <= y < n && visited[y] && !rec[y] && fin[y] < fin[x]
    }

    /// Returns true when the CFG contains a cycle reachable from entry.
    pub fn has_cycle(&self) -> (r: bool)
        requires
            self.wf(),
        ensures
            r == cycle_reachable(self.rel(), self.entry.0 as int),
    {
        let n = self.succ.len();
        let ghost rel = self.rel();
        let ghost entry = self.entry.0 as int;
        let mut visited: Vec<bool> = vec![false; n];
        let mut rec_stack: Vec<bool> = vec![false; n];
        let ghost fin0 = Seq::new(n as nat, |i: int| 0int);
        proof {
            self.lemma_wf_bounds();
        }
        let (found, Ghost(st)) = Self::dfs_cycle(
            self,
            self.entry,
            &mut visited,
            &mut rec_stack,
            Ghost(Seq::<int>::empty()),
            Ghost((fin0, 0int)),
        );
        if found {
            return true;
        }
        proof {
            let fin = st.0;
            let black = Set::new(|v: int| 0 <= v < n && visited@[v] && !rec_stack@[v]);
            assert(black.contains(entry));
            assert forall|x: int, y: int| black.contains(x) && #[trigger] rel(x, y) implies black.contains(y) by {
                assert(has_edge(self.edges@, x, y));
            }
            if cycle_reachable(rel, entry) {
                let c = choose|c: int| reach(rel, entry, c) && #[trigger] on_cycle(rel, c);
                let p = choose|p: Seq<int>| #[trigger] is_walk(rel, p) && p.len() >= 2 && p[0] == c && p.last() == c;
                let rank = |v: int| fin[v];
                assert forall|i: int| 0 <= i < p.len() - 1 implies rank(#[trigger] p[i]) > rank(p[i + 1]) by {
                    lemma_walk_prefix(rel, p, i + 1);
                    assert(p.take(i + 1)[0] == c && p.take(i + 1).last() == p[i]);
                    assert(reach(rel, c, p[i]));
                    lemma_reach_trans(rel, entry, c, p[i]);
                    lemma_closed_contains_reach(rel, black, entry, p[i]);
                    assert(rel(p[i], p[i + 1]));
                    assert(has_edge(self.edges@, p[i], p[i + 1]));
                }
                lemma_rank_decreases_along_walk(rel, rank, p, p.len() - 1);
                assert(false);
            }
        }
        false
    }

    fn dfs_cycle(
        cfg: &ControlFlowGraph,
        node: BlockId,
        visited: &mut Vec<bool>,
        rec_stack: &mut Vec<bool>,
        Ghost(path): Ghost<Seq<int>>,
        Ghost(st): Ghost<(Seq<int>, int)>,
    ) -> (res: (bool, Ghost<(Seq<int>, int)>))
        requires
            cfg.wf(),
            node.0 < cfg.id_bound(),
            cfg.cycle_search_inv(old(visited)@, old(rec_stack)@, st.0, st.1),
            !old(visited)@[node.0 as int],
            forall|v: int| 0 <= v < cfg.id_bound() ==> (#[trigger] old(rec_stack)@[v] <==> path.contains(v)),
            path.no_duplicates(),
            (path.len() == 0 && node == cfg.entry) || (is_walk(cfg.rel(), path) && path[0] == cfg.entry.0 as int
                && has_edge(cfg.edges@, path.last(), node.0 as int)),
        ensures
            res.0 ==> cycle_reachable(cfg.rel(), cfg.entry.0 as int),
            !res.0 ==> {
                &&& cfg.cycle_search_inv(final(visited)@, final(rec_stack)@, res.1@.0, res.1@.1)
                &&& final(rec_stack)@ == old(rec_stack)@
                &&& final(visited)@[node.0 as int]
                &&& forall|v: int| 0 <= v < cfg.id_bound() && #[trigger] old(visited)@[v] ==> final(visited)@[v]
            },
        decreases count_false(old(visited)@),
    {
        let ghost rel = cfg.rel();
        let ghost n = cfg.id_bound() as int;
        let ghost entry = cfg.entry.0 as int;
        let b = node.0 as usize;
        let ghost v_in = visited@;
        proof {
            lemma_count_false_update(visited@, b as int);
            assert(old(rec_stack)@[b as int] ==> old(visited)@[b as int]);
        }
        visited.set(b, true);
        rec_stack.set(b, true);
        let ghost gp = path.push(b as int);
        proof {
            if path.len() == 0 {
                assert(gp =~= seq![entry]);
                assert(is_walk(rel, gp));
            } else {
                assert(rel(path.last(), b as int));
                lemma_walk_push(rel, path, b as int);
            }
            assert(gp[0] == entry);
            assert(!path.contains(b as int));
            assert(gp.no_duplicates());
            assert forall|v: int| 0 <= v < n implies (#[trigger] rec_stack@[v] <==> gp.contains(v)) by {
                if v == b as int {
                    assert(gp[gp.len() - 1] == v);
                } else {
                    if gp.contains(v) {
                        let k = choose|k: int| 0 <= k < gp.len() && gp[k] == v;
                        assert(path[k] == v);
                    }
                    if path.contains(v) {
                        let k = choose|k: int| 0 <= k < path.len() && path[k] == v;
                        assert(gp[k] == v);
                    }
                }
            }
        }
        let succs = cfg.successors(node);
        proof {
            cfg.lemma_wf_bounds();
            assert forall|k: int| 0 <= k < succs@.len() implies (#[trigger] succs@[k]).0 < n
                && has_edge(cfg.edges@, b as int, succs@[k].0 as int) by {
                let sq = succ_of(cfg.edges@, node.0);
                assert(ids(succs@).len() == sq.map_values(|x: u32| x as int).len());
                assert(ids(succs@)[k] == sq.map_values(|x: u32| x as int)[k]);
                assert(sq.contains(sq[k]));
                lemma_succ_of_contains(cfg.edges@, node.0, sq[k]);
            }
        }
        let ghost mut fin = st.0;
        let ghost mut clock = st.1;
        let ghost v1 = visited@;
        let ghost r1 = rec_stack@;
        let mut j: usize = 0;
        while j < succs.len()
            invariant
                cfg.wf(),
                rel == cfg.rel(),
                n == cfg.id_bound(),
                entry == cfg.entry.0 as int,
                b == node.0,
                b < n,
                j <= succs@.len(),
                forall|k: int| 0 <= k < succs@.len() ==> (#[trigger] succs@[k]).0 < n
                    && has_edge(cfg.edges@, b as int, succs@[k].0 as int),
                visited@.len() == n,
                rec_stack@ == r1,
                r1.len() == n,
                r1[b as int],
                visited@[b as int],
                forall|v: int| 0 <= v < n && #[trigger] v1[v] ==> visited@[v],
                forall|v: int| 0 <= v < n && #[trigger] v_in[v] ==> v1[v],
                v1.len() == n,
                v_in == old(visited)@,
                count_false(v1) < count_false(v_in),
                forall|v: int| 0 <= v < n ==> (#[trigger] r1[v] <==> gp.contains(v)),
                is_walk(rel, gp),
                gp[0] == entry,
                gp.last() == b as int,
                gp.no_duplicates(),
                fin.len() == n,
                forall|v: int| 0 <= v < n && #[trigger] rec_stack@[v] ==> visited@[v],
                forall|x: int|
                    0 <= x < n && #[trigger] visited@[x] && !rec_stack@[x] ==> fin[x] < clock && forall|y: int|
                        #[trigger] has_edge(cfg.edges@, x, y) ==> 0 <= y < n && visited@[y] && !rec_stack@[y] && fin[y] < fin[x],
                forall|k: int| 0 <= k < j ==> visited@[(#[trigger] succs@[k]).0 as int] && !rec_stack@[succs@[k].0 as int],
            decreases succs.len() - j,
        {
            let s = succs[j];
            let si = s.0 as usize;
            if !visited[si] {
                let ghost vb = visited@;
                proof {
                    lemma_count_false_mono(v1, vb);
                }
                let (found, Ghost(st2)) = Self::dfs_cycle(cfg, s, visited, rec_stack, Ghost(gp), Ghost((fin, clock)));
                if found {
                    return (true, Ghost(st2));
                }
                proof {
                    fin = st2.0;
                    clock = st2.1;
                    assert forall|k: int| 0 <= k < j + 1 implies visited@[(#[trigger] succs@[k]).0 as int] && !rec_stack@[succs@[k].0 as int] by {
                        if k < j {
                            assert(vb[succs@[k].0 as int]);
                        }
                    }
                }
            } else if rec_stack[si] {
                proof {
                    let x = si as int;
                    assert(gp.contains(x));
                    let k = choose|k: int| 0 <= k < gp.len() && gp[k] == x;
                    lemma_walk_prefix(rel, gp, k + 1);
                    assert(gp.take(k + 1)[0] == entry && gp.take(k + 1).last() == x);
                    assert(reach(rel, entry, x));
                    lemma_walk_suffix(rel, gp, k);
                    let tail = gp.subrange(k, gp.len() as int);
                    assert(tail.last() == b as int);
                    assert(rel(tail.last(), x));
                    lemma_walk_push(rel, tail, x);
                    let cyc = tail.push(x);
                    assert(cyc[0] == x && cyc.last() == x && cyc.len() >= 2);
                    assert(is_walk(rel, cyc));
                    assert(on_cycle(rel, x));
                }
                return (true, Ghost((fin, clock)));
            }
            j = j + 1;
        }
        rec_stack.set(b, false);
        proof {
            let old_fin = fin;
            let old_clock = clock;
            fin = fin.update(b as int, clock);
            clock = clock + 1;
            assert forall|v: int| 0 <= v < n implies (#[trigger] rec_stack@[v] <==> path.contains(v)) by {
                if v != b as int {
                    assert(gp.contains(v) ==> path.contains(v)) by {
                        if gp.contains(v) {
                            let k = choose|k: int| 0 <= k < gp.len() && gp[k] == v;
                            assert(path[k] == v);
                        }
                    }
                    assert(path.contains(v) ==> gp.contains(v)) by {
                        if path.contains(v) {
                            let k = choose|k: int| 0 <= k < path.len() && path[k] == v;
                            assert(gp[k] == v);
                        }
                    }
                }
            }
            assert(rec_stack@ =~= old(rec_stack)@);
            assert forall|y: int| #[trigger] has_edge(cfg.edges@, b as int, y) implies 0 <= y < n && visited@[y] && !rec_stack@[y] && fin[y] < fin[b as int] by {
                lemma_succ_of_contains(cfg.edges@, node.0, y as u32);
                let sq = succ_of(cfg.edges@, node.0);
                let m = choose|m: int| 0 <= m < sq.len() && sq[m] == y as u32;
                assert(ids(succs@).len() == sq.map_values(|x: u32| x as int).len());
                assert(ids(succs@)[m] == y);
                assert(visited@[succs@[m].0 as int]);
            }
            assert(cfg.cycle_search_inv(visited@, rec_stack@, fin, clock));
        }
        (false, Ghost((fin, clock)))
    }
}

} // verus!
