//! Complexity classification of functions by their cyclomatic complexity.

use vstd::prelude::*;
use crate::callgraph::{find_property, prop_value};
use crate::text::{chars_of, parse_usize_text, unsigned_text};

verus! {

/// Complexity level classification.
#[derive(Debug, Clone, Copy, PartialEq, Eq, Structural, PartialOrd, Ord, Hash)]
pub enum ComplexityLevel {
    /// Cyclomatic <= 5
    Low,
    /// Cyclomatic 6-10
    Medium,
    /// Cyclomatic 11-20
    High,
    /// Cyclomatic > 20
    Critical,
}

/// The level of a cyclomatic complexity.
pub open spec fn level_of(cyclomatic: int) -> ComplexityLevel {
    if cyclomatic <= 5 {
        ComplexityLevel::Low
    } else if cyclomatic <= 10 {
        ComplexityLevel::Medium
    } else if cyclomatic <= 20 {
        ComplexityLevel::High
    } else {
        ComplexityLevel::Critical
    }
}

/// Classify cyclomatic complexity into a level.
pub fn classify_complexity(cyclomatic: usize) -> (r: ComplexityLevel)
    ensures
        r == level_of(cyclomatic as int),
{
    if cyclomatic <= 5 {
        ComplexityLevel::Low
    } else if cyclomatic <= 10 {
        ComplexityLevel::Medium
    } else if cyclomatic <= 20 {
        ComplexityLevel::High
    } else {
        ComplexityLevel::Critical
    }
}

/// Levels never decrease as complexity grows.
pub proof fn lemma_level_monotone(a: int, b: int)
    requires
        a <= b,
    ensures
        level_rank(level_of(a)) <= level_rank(level_of(b)),
{
}

/// Rank of a level, `Low` first.
pub open spec fn level_rank(l: ComplexityLevel) -> int {
    match l {
        ComplexityLevel::Low => 0,
        ComplexityLevel::Medium => 1,
        ComplexityLevel::High => 2,
        ComplexityLevel::Critical => 3,
    }
}

/// A function node of the code graph with its properties (`cyclomatic`, `cognitive`,
/// `loc`, ...), keys distinct.
pub struct FunctionNode {
    pub id: u128,
    pub name: String,
    pub properties: Vec<(String, String)>,
}

/// Per-function complexity record.
pub struct FunctionComplexity {
    /// Function node.
    pub node: FunctionNode,
    /// Cyclomatic complexity.
    pub cyclomatic: usize,
    /// Cognitive complexity.
    pub cognitive: usize,
    /// Lines of code.
    pub loc: usize,
    /// Classification.
    pub level: ComplexityLevel,
}

/// Aggregate complexity report (the average is `total_cyclomatic / functions.len()`).
pub struct ComplexityReport {
    /// Per-function complexity, most complex first (ties keep the input order).
    pub functions: Vec<FunctionComplexity>,
    /// Number of functions at each level: `Low`, `Medium`, `High`, `Critical`.
    pub by_level: [usize; 4],
    /// Sum of the cyclomatic complexities.
    pub total_cyclomatic: usize,
    /// Maximum cyclomatic complexity (0 when there is no function).
    pub max_cyclomatic: usize,
}

/// A property read as an unsigned number, if it is one.
pub open spec fn number_prop(props: Seq<(String, String)>, key: Seq<char>) -> Option<usize> {
    match prop_value(props, key) {
        Some(v) => match unsigned_text(v) {
            Some(n) => if n <= usize::MAX { Some(n as usize) } else { None },
            None => None,
        },
        None => None,
    }
}

pub open spec fn cyclomatic_key() -> Seq<char> {
    seq!['c', 'y', 'c', 'l', 'o', 'm', 'a', 't', 'i', 'c']
}

pub open spec fn cognitive_key() -> Seq<char> {
    seq!['c', 'o', 'g', 'n', 'i', 't', 'i', 'v', 'e']
}

pub open spec fn loc_key() -> Seq<char> {
    seq!['l', 'o', 'c']
}

/// Metrics of a node: cyclomatic (default 1), cognitive (default the cyclomatic) and lines
/// of code (default 0).
pub open spec fn metrics_of(props: Seq<(String, String)>) -> (usize, usize, usize) {
    let cyc = match number_prop(props, cyclomatic_key()) {
        Some(v) => v,
        None => 1,
    };
    let cog = match number_prop(props, cognitive_key()) {
        Some(v) => v,
        None => cyc,
    };
    let loc = match number_prop(props, loc_key()) {
        Some(v) => v,
        None => 0,
    };
    (cyc, cog, loc)
}

/// Cyclomatic complexity of each node, in input order.
pub open spec fn cyclomatics(nodes: Seq<FunctionNode>) -> Seq<int> {
    nodes.map_values(|f: FunctionNode| metrics_of(f.properties@).0 as int)
}

/// `i` placed after every position of `sorted` whose key is not smaller.
pub open spec fn insert_desc(keys: Seq<int>, sorted: Seq<int>, i: int) -> Seq<int>
    decreases sorted.len(),
{
    if sorted.len() == 0 || keys[sorted.last()] >= keys[i] {
        sorted.push(i)
    } else {
        insert_desc(keys, sorted.drop_last(), i).push(sorted.last())
    }
}

/// Positions `0..m` ordered by decreasing key, equal keys in position order.
pub open spec fn order_desc(keys: Seq<int>, m: int) -> Seq<int>
    decreases m,
{
    if m <= 0 {
        Seq::empty()
    } else {
        insert_desc(keys, order_desc(keys, m - 1), m - 1)
    }
}

/// Sum of the first `m` keys.
pub open spec fn key_sum(keys: Seq<int>, m: int) -> int
    decreases m,
{
    if m <= 0 {
        0
    } else {
        key_sum(keys, m - 1) + keys[m - 1]
    }
}

/// Largest of the first `m` keys (0 when `m` is 0).
pub open spec fn key_max(keys: Seq<int>, m: int) -> int
    decreases m,
{
    if m <= 0 {
        0
    } else if keys[m - 1] > key_max(keys, m - 1) {
        keys[m - 1]
    } else {
        key_max(keys, m - 1)
    }
}

/// Number of the first `m` keys whose level has rank `r`.
pub open spec fn level_count(keys: Seq<int>, m: int, r: int) -> int
    decreases m,
{
    if m <= 0 {
        0
    } else {
        level_count(keys, m - 1, r) + if level_rank(level_of(keys[m - 1])) == r { 1int } else { 0int }
    }
}

/// The record holds node `f` (by id and name) with its metrics and level.
pub open spec fn record_of(c: FunctionComplexity, f: FunctionNode) -> bool {
    let (cyc, cog, loc) = metrics_of(f.properties@);
    &&& c.node.id == f.id
    &&& c.node.name@ == f.name@
    &&& c.node.properties@.map_values(|p: (String, String)| (p.0@, p.1@)) == f.properties@.map_values(|p: (String, String)| (p.0@, p.1@))
    &&& c.cyclomatic == cyc
    &&& c.cognitive == cog
    &&& c.loc == loc
    &&& c.level == level_of(cyc as int)
}

/// A numeric property of the node, if present and a number.
fn read_number(props: &Vec<(String, String)>, key: &str) -> (r: Option<usize>)
    ensures
        r == number_prop(props@, key@),
{
    match find_property(props, key) {
        Some(v) => {
            let c = chars_of(v.as_str());
            parse_usize_text(c.as_slice())
        },
        None => None,
    }
}

/// A copy of the properties.
fn copy_props(props: &Vec<(String, String)>) -> (r: Vec<(String, String)>)
    ensures
        r@.map_values(|p: (String, String)| (p.0@, p.1@)) == props@.map_values(|p: (String, String)| (p.0@, p.1@)),
{
    let mut r: Vec<(String, String)> = Vec::new();
    let mut i: usize = 0;
    while i < props.len()
        invariant
            i <= props@.len(),
            r@.len() == i,
            forall|t: int| 0 <= t < i ==> (#[trigger] r@[t]).0@ == props@[t].0@ && r@[t].1@ == props@[t].1@,
        decreases props.len() - i,
    {
        r.push((props[i].0.clone(), props[i].1.clone()));
        i = i + 1;
    }
    proof {
        assert(r@.map_values(|p: (String, String)| (p.0@, p.1@)) =~= props@.map_values(|p: (String, String)| (p.0@, p.1@)));
    }
    r
}

/// The complexity record of one node.
fn measure(f: &FunctionNode) -> (r: FunctionComplexity)
    ensures
        record_of(r, *f),
{
    let k1 = "cyclomatic";
    let k2 = "cognitive";
    let k3 = "loc";
    proof {
        reveal_strlit("cyclomatic");
        reveal_strlit("cognitive");
        reveal_strlit("loc");
        assert(k1@ =~= cyclomatic_key());
        assert(k2@ =~= cognitive_key());
        assert(k3@ =~= loc_key());
    }
    let cyclomatic = match read_number(&f.properties, k1) {
        Some(v) => v,
        None => 1,
    };
    let cognitive = match read_number(&f.properties, k2) {
        Some(v) => v,
        None => cyclomatic,
    };
    let loc = match read_number(&f.properties, k3) {
        Some(v) => v,
        None => 0,
    };
    let level = classify_complexity(cyclomatic);
    FunctionComplexity {
        node: FunctionNode { id: f.id, name: f.name.clone(), properties: copy_props(&f.properties) },
        cyclomatic,
        cognitive,
        loc,
        level,
    }
}

/// Analyze complexity from function records.
pub struct ComplexityAnalyzer;


/// Records in `sorted` hold the nodes at positions `pos` of `fs`.
pub open spec fn holds_nodes(sorted: Seq<FunctionComplexity>, pos: Seq<int>, fs: Seq<FunctionNode>) -> bool {
    &&& sorted.len() == pos.len()
    &&& forall|p: int| 0 <= p < sorted.len() ==> 0 <= #[trigger] pos[p] < fs.len() && record_of(sorted[p], fs[pos[p]])
}

/// Insert `x` (the record of node `i`) after the records whose cyclomatic complexity is not
/// smaller.
fn insert_record(sorted: &mut Vec<FunctionComplexity>, x: FunctionComplexity, Ghost(pos): Ghost<Seq<int>>, Ghost(fs): Ghost<Seq<FunctionNode>>, Ghost(i): Ghost<int>)
    requires
        holds_nodes(old(sorted)@, pos, fs),
        0 <= i < fs.len(),
        record_of(x, fs[i]),
    ensures
        holds_nodes(final(sorted)@, insert_desc(cyclomatics(fs), pos, i), fs),
    decreases old(sorted)@.len(),
{
    let ghost keys = cyclomatics(fs);
    let n = sorted.len();
    proof {
        if n > 0 {
            assert(keys[pos[n - 1]] == sorted@[n - 1].cyclomatic as int);
        }
        assert(keys[i] == x.cyclomatic as int);
    }
    if n == 0 || sorted[n - 1].cyclomatic >= x.cyclomatic {
        let ghost s0 = sorted@;
        sorted.push(x);
        proof {
            let np = pos.push(i);
            assert forall|p: int| 0 <= p < sorted@.len() implies 0 <= #[trigger] np[p] < fs.len() && record_of(sorted@[p], fs[np[p]]) by {
                if p < s0.len() {
                    assert(sorted@[p] == s0[p]);
                }
            }
        }
    } else {
        let last = sorted.pop().unwrap();
        let ghost s0 = sorted@;
        proof {
            assert forall|p: int| 0 <= p < s0.len() implies 0 <= #[trigger] pos.drop_last()[p] < fs.len() && record_of(s0[p], fs[pos.drop_last()[p]]) by {
                assert(pos.drop_last()[p] == pos[p]);
            }
        }
        insert_record(sorted, x, Ghost(pos.drop_last()), Ghost(fs), Ghost(i));
        let ghost s1 = sorted@;
        sorted.push(last);
        proof {
            let np = insert_desc(keys, pos.drop_last(), i).push(pos.last());
            assert(np == insert_desc(keys, pos, i));
            assert forall|p: int| 0 <= p < sorted@.len() implies 0 <= #[trigger] np[p] < fs.len() && record_of(sorted@[p], fs[np[p]]) by {
                if p < s1.len() {
                    assert(sorted@[p] == s1[p]);
                }
            }
        }
    }
}

proof fn lemma_key_sum_mono(keys: Seq<int>, m: int, n: int)
    requires
        0 <= m <= n <= keys.len(),
        forall|k: int| 0 <= k < keys.len() ==> keys[k] >= 0,
    ensures
        key_sum(keys, m) <= key_sum(keys, n),
    decreases n - m,
{
    if m < n {
        lemma_key_sum_mono(keys, m, n - 1);
    }
}

impl ComplexityAnalyzer {
    /// Complexity report of the function nodes: a record per node (most complex first, ties
    /// in input order), the count per level, the total and the maximum cyclomatic
    /// complexity.
    pub fn analyze(functions: &Vec<FunctionNode>) -> (r: ComplexityReport)
        requires
            key_sum(cyclomatics(functions@), functions@.len() as int) <= usize::MAX,
        ensures
            holds_nodes(r.functions@, order_desc(cyclomatics(functions@), functions@.len() as int), functions@),
            forall|k: int| 0 <= k < 4 ==> r.by_level@[k] == level_count(cyclomatics(functions@), functions@.len() as int, k),
            r.total_cyclomatic == key_sum(cyclomatics(functions@), functions@.len() as int),
            r.max_cyclomatic == key_max(cyclomatics(functions@), functions@.len() as int),
    {
        let ghost fs = functions@;
        let ghost keys = cyclomatics(fs);
        let n = functions.len();
        let mut sorted: Vec<FunctionComplexity> = Vec::new();
        let mut low: usize = 0;
        let mut medium: usize = 0;
        let mut high: usize = 0;
        let mut critical: usize = 0;
        let mut total: usize = 0;
        let mut max: usize = 0;
        let mut i: usize = 0;
        while i < n
            invariant
                fs == functions@,
                keys == cyclomatics(fs),
                n == fs.len(),
                key_sum(keys, n as int) <= usize::MAX,
                i <= n,
                holds_nodes(sorted@, order_desc(keys, i as int), fs),
                low == level_count(keys, i as int, 0),
                medium == level_count(keys, i as int, 1),
                high == level_count(keys, i as int, 2),
                critical == level_count(keys, i as int, 3),
                low + medium + high + critical == i,
                total == key_sum(keys, i as int),
                max == key_max(keys, i as int),
            decreases n - i,
        {
            let rec = measure(&functions[i]);
            let c = rec.cyclomatic;
            proof {
                assert(keys[i as int] == c as int);
                assert forall|k: int| 0 <= k < keys.len() implies keys[k] >= 0 by {}
                lemma_key_sum_mono(keys, i as int + 1, n as int);
            }
            match rec.level {
                ComplexityLevel::Low => {
                    low = low + 1;
                },
                ComplexityLevel::Medium => {
                    medium = medium + 1;
                },
                ComplexityLevel::High => {
                    high = high + 1;
                },
                ComplexityLevel::Critical => {
                    critical = critical + 1;
                },
            }
            total = total + c;
            if c > max {
                max = c;
            }
            insert_record(&mut sorted, rec, Ghost(order_desc(keys, i as int)), Ghost(fs), Ghost(i as int));
            i = i + 1;
        }
        ComplexityReport { functions: sorted, by_level: [low, medium, high, critical], total_cyclomatic: total, max_cyclomatic: max }
    }

    /// Functions whose cyclomatic complexity exceeds `threshold`, most complex first.
    pub fn find_above_threshold(functions: &Vec<FunctionNode>, threshold: usize) -> (r: Vec<FunctionComplexity>)
        requires
            key_sum(cyclomatics(functions@), functions@.len() as int) <= usize::MAX,
        ensures
            holds_nodes(r@, above(cyclomatics(functions@), order_desc(cyclomatics(functions@), functions@.len() as int), threshold as int, functions@.len() as int), functions@),
    {
        let report = Self::analyze(functions);
        let ghost fs = functions@;
        let ghost keys = cyclomatics(fs);
        let ghost order = order_desc(keys, fs.len() as int);
        proof {
            lemma_order_desc_len(keys, fs.len() as int);
        }
        let mut kept: Vec<FunctionComplexity> = Vec::new();
        let mut k: usize = 0;
        while k < report.functions.len()
            invariant
                fs == functions@,
                keys == cyclomatics(fs),
                order == order_desc(keys, fs.len() as int),
                order.len() == fs.len(),
                holds_nodes(report.functions@, order, fs),
                k <= report.functions@.len(),
                holds_nodes(kept@, above(keys, order, threshold as int, k as int), fs),
            decreases report.functions.len() - k,
        {
            let f = &report.functions[k];
            proof {
                assert(record_of(*f, fs[order[k as int]]));
                assert(keys[order[k as int]] == f.cyclomatic as int);
            }
            if f.cyclomatic > threshold {
                let ghost k0 = kept@;
                kept.push(copy_record(f, Ghost(fs[order[k as int]])));
                proof {
                    let np = above(keys, order, threshold as int, k as int + 1);
                    assert(np == above(keys, order, threshold as int, k as int).push(order[k as int]));
                    assert forall|p: int| 0 <= p < kept@.len() implies 0 <= #[trigger] np[p] < fs.len() && record_of(kept@[p], fs[np[p]]) by {
                        if p < k0.len() {
                            assert(kept@[p] == k0[p]);
                        }
                    }
                }
            }
            k = k + 1;
        }
        kept
    }
}

/// Positions among the first `m` of `order` whose key exceeds `t`, in order.
pub open spec fn above(keys: Seq<int>, order: Seq<int>, t: int, m: int) -> Seq<int>
    decreases m,
{
    if m <= 0 {
        Seq::empty()
    } else if keys[order[m - 1]] > t {
        above(keys, order, t, m - 1).push(order[m - 1])
    } else {
        above(keys, order, t, m - 1)
    }
}

proof fn lemma_insert_desc_len(keys: Seq<int>, sorted: Seq<int>, i: int)
    ensures
        insert_desc(keys, sorted, i).len() == sorted.len() + 1,
    decreases sorted.len(),
{
    if sorted.len() > 0 && keys[sorted.last()] < keys[i] {
        lemma_insert_desc_len(keys, sorted.drop_last(), i);
    }
}

proof fn lemma_order_desc_len(keys: Seq<int>, m: int)
    requires
        m >= 0,
    ensures
        order_desc(keys, m).len() == m,
    decreases m,
{
    if m > 0 {
        lemma_order_desc_len(keys, m - 1);
        lemma_insert_desc_len(keys, order_desc(keys, m - 1), m - 1);
    }
}

/// A copy of a record of node `f`.
fn copy_record(c: &FunctionComplexity, Ghost(f): Ghost<FunctionNode>) -> (r: FunctionComplexity)
    requires
        record_of(*c, f),
    ensures
        record_of(r, f),
{
    FunctionComplexity {
        node: FunctionNode { id: c.node.id, name: c.node.name.clone(), properties: copy_props(&c.node.properties) },
        cyclomatic: c.cyclomatic,
        cognitive: c.cognitive,
        loc: c.loc,
        level: c.level,
    }
}


/// Every record of a report reads its metrics from the node's properties: the cyclomatic
/// complexity is the `cyclomatic` property (1 when it is missing or not a number), the
/// cognitive score the `cognitive` property (the cyclomatic complexity when missing or not
/// a number), and the line count the `loc` property (0 when missing or not a number).
pub proof fn lemma_record_metric_defaults(c: FunctionComplexity, f: FunctionNode)
    requires
        record_of(c, f),
    ensures
        number_prop(f.properties@, cyclomatic_key()) matches Some(v) ==> c.cyclomatic == v,
        number_prop(f.properties@, cyclomatic_key()) is None ==> c.cyclomatic == 1,
        number_prop(f.properties@, cognitive_key()) matches Some(v) ==> c.cognitive == v,
        number_prop(f.properties@, cognitive_key()) is None ==> c.cognitive == c.cyclomatic,
        number_prop(f.properties@, loc_key()) matches Some(v) ==> c.loc == v,
        number_prop(f.properties@, loc_key()) is None ==> c.loc == 0,
{
}

/// In a report, a function without a readable `cognitive` property has a cognitive score
/// equal to its cyclomatic complexity.
pub proof fn lemma_report_cognitive_default(sorted: Seq<FunctionComplexity>, pos: Seq<int>, fs: Seq<FunctionNode>, p: int)
    requires
        holds_nodes(sorted, pos, fs),
        0 <= p < sorted.len(),
        number_prop(fs[pos[p]].properties@, cognitive_key()) is None,
    ensures
        sorted[p].cognitive == sorted[p].cyclomatic,
{
    lemma_record_metric_defaults(sorted[p], fs[pos[p]]);
}

} // verus!
