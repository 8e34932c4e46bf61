//! Code-property-graph export: scope filtering, the exported graph and XML escaping.

use vstd::prelude::*;
use crate::text::{chars_of, find_from, find_sub, push_all, string_from_chars};
use crate::paths::lemma_push_contains;

verus! {

/// Export format.
#[derive(Debug, Clone, Copy, PartialEq, Eq, Structural)]
pub enum CpgExportFormat {
    /// GraphML XML.
    GraphMl,
    /// Neo4j-ish GraphSON (simplified JSON graph).
    GraphSon,
}

/// Scope filter for export.
#[derive(Debug, Clone)]
pub struct CpgExportScope {
    /// If set, keep nodes whose `file_path` contains this substring.
    pub path_contains: Option<String>,
    /// Include CFG NEXT + PDG FLOW from archive when present.
    pub include_l_proc: bool,
    /// Include field-write sites as annotated nodes when index present.
    pub include_field_writes: bool,
}

impl Default for CpgExportScope {
    fn default() -> (r: Self)
        ensures
            r.path_contains is None,
            !r.include_l_proc,
            !r.include_field_writes,
    {
        CpgExportScope { path_contains: None, include_l_proc: false, include_field_writes: false }
    }
}

/// `needle` occurs in `s`.
pub open spec fn contains_text(s: Seq<char>, needle: Seq<char>) -> bool {
    find_from(s, needle, 0) >= 0
}

/// A node's file passes the scope: no filter, or a file path containing the filter text.
pub open spec fn path_in_scope(filter: Option<Seq<char>>, file: Option<Seq<char>>) -> bool {
    match (filter, file) {
        (None, _) => true,
        (Some(needle), Some(p)) => contains_text(p, needle),
        (Some(_), None) => false,
    }
}

/// Whether a node's file passes the export scope.
pub fn path_ok(scope: &CpgExportScope, file: Option<&str>) -> (r: bool)
    ensures
        r == path_in_scope(
            match scope.path_contains { Some(s) => Some(s@), None => None },
            match file { Some(f) => Some(f@), None => None },
        ),
{
    match (&scope.path_contains, file) {
        (None, _) => true,
        (Some(needle), Some(p)) => {
            let pc = chars_of(p);
            let nc = chars_of(needle.as_str());
            find_sub(pc.as_slice(), nc.as_slice()).is_some()
        },
        (Some(_), None) => false,
    }
}

/// XML text for one character.
pub open spec fn xml_char(c: char) -> Seq<char> {
    if c == '&' {
        seq!['&', 'a', 'm', 'p', ';']
    } else if c == '<' {
        seq!['&', 'l', 't', ';']
    } else if c == '>' {
        seq!['&', 'g', 't', ';']
    } else if c == '"' {
        seq!['&', 'q', 'u', 'o', 't', ';']
    } else {
        seq![c]
    }
}

/// `s` with `&`, `<`, `>` and `"` written as XML entities.
pub open spec fn xml_escaped(s: Seq<char>) -> Seq<char>
    decreases s.len(),
{
    if s.len() == 0 {
        Seq::empty()
    } else {
        xml_escaped(s.drop_last()) + xml_char(s.last())
    }
}

/// XML text read back: the four entities become their characters again.
pub open spec fn xml_unescaped(t: Seq<char>) -> Seq<char>
    decreases t.len(),
{
    if t.len() == 0 {
        Seq::empty()
    } else if t.len() >= 5 && t.take(5) == seq!['&', 'a', 'm', 'p', ';'] {
        seq!['&'] + xml_unescaped(t.skip(5))
    } else if t.len() >= 4 && t.take(4) == seq!['&', 'l', 't', ';'] {
        seq!['<'] + xml_unescaped(t.skip(4))
    } else if t.len() >= 4 && t.take(4) == seq!['&', 'g', 't', ';'] {
        seq!['>'] + xml_unescaped(t.skip(4))
    } else if t.len() >= 6 && t.take(6) == seq!['&', 'q', 'u', 'o', 't', ';'] {
        seq!['"'] + xml_unescaped(t.skip(6))
    } else {
        seq![t[0]] + xml_unescaped(t.skip(1))
    }
}

proof fn lemma_escaped_concat(a: Seq<char>, b: Seq<char>)
    ensures
        xml_escaped(a + b) == xml_escaped(a) + xml_escaped(b),
    decreases b.len(),
{
    if b.len() == 0 {
        assert(a + b =~= a);
        assert(xml_escaped(a) + xml_escaped(b) =~= xml_escaped(a));
    } else {
        lemma_escaped_concat(a, b.drop_last());
        assert((a + b).drop_last() =~= a + b.drop_last());
        assert((a + b).last() == b.last());
        assert(xml_escaped(a + b) =~= xml_escaped(a) + xml_escaped(b.drop_last()) + xml_char(b.last()));
    }
}

proof fn lemma_unescape_char(c: char, rest: Seq<char>)
    ensures
        xml_unescaped(xml_char(c) + rest) == seq![c] + xml_unescaped(rest),
{
    let t = xml_char(c) + rest;
    if c == '&' {
        assert(t.take(5) =~= seq!['&', 'a', 'm', 'p', ';']);
        assert(t.skip(5) =~= rest);
    } else if c == '<' {
        assert(t[1] == 'l');
        assert(t.len() >= 5 ==> t.take(5) != seq!['&', 'a', 'm', 'p', ';']) by {
            if t.len() >= 5 { assert(t.take(5)[1] == t[1]); }
        }
        assert(t.take(4) =~= seq!['&', 'l', 't', ';']);
        assert(t.skip(4) =~= rest);
    } else if c == '>' {
        assert(t[1] == 'g');
        assert(t.len() >= 5 ==> t.take(5) != seq!['&', 'a', 'm', 'p', ';']) by {
            if t.len() >= 5 { assert(t.take(5)[1] == t[1]); }
        }
        assert(t.take(4) != seq!['&', 'l', 't', ';']) by {
            assert(t.take(4)[1] == 'g');
        }
        assert(t.take(4) =~= seq!['&', 'g', 't', ';']);
        assert(t.skip(4) =~= rest);
    } else if c == '"' {
        assert(t.take(5) != seq!['&', 'a', 'm', 'p', ';']) by {
            assert(t.take(5)[1] == 'q');
        }
        assert(t.take(4) != seq!['&', 'l', 't', ';']) by {
            assert(t.take(4)[1] == 'q');
        }
        assert(t.take(4) != seq!['&', 'g', 't', ';']) by {
            assert(t.take(4)[1] == 'q');
        }
        assert(t.take(6) =~= seq!['&', 'q', 'u', 'o', 't', ';']);
        assert(t.skip(6) =~= rest);
    } else {
        assert(t[0] == c);
        assert(t.len() >= 5 ==> t.take(5) != seq!['&', 'a', 'm', 'p', ';']) by {
            if t.len() >= 5 { assert(t.take(5)[0] == c); }
        }
        assert(t.len() >= 4 ==> t.take(4) != seq!['&', 'l', 't', ';']) by {
            if t.len() >= 4 { assert(t.take(4)[0] == c); }
        }
        assert(t.len() >= 4 ==> t.take(4) != seq!['&', 'g', 't', ';']) by {
            if t.len() >= 4 { assert(t.take(4)[0] == c); }
        }
        assert(t.len() >= 6 ==> t.take(6) != seq!['&', 'q', 'u', 'o', 't', ';']) by {
            if t.len() >= 6 { assert(t.take(6)[0] == c); }
        }
        assert(t.skip(1) =~= rest);
    }
}

/// Escaping keeps no raw `<`, `>` or `"`, and reading the entities back gives the text again.
pub proof fn lemma_xml_escape_round_trip(s: Seq<char>)
    ensures
        xml_unescaped(xml_escaped(s)) == s,
        !xml_escaped(s).contains('<'),
        !xml_escaped(s).contains('>'),
        !xml_escaped(s).contains('"'),
    decreases s.len(),
{
    if s.len() > 0 {
        let rest = s.drop_first();
        lemma_xml_escape_round_trip(rest);
        assert(s =~= seq![s[0]] + rest);
        lemma_escaped_concat(seq![s[0]], rest);
        assert(xml_escaped(seq![s[0]]) =~= xml_char(s[0])) by {
            let one = seq![s[0]];
            assert(one.drop_last() =~= Seq::<char>::empty());
            assert(one.last() == s[0]);
            assert(xml_escaped(one) == xml_escaped(one.drop_last()) + xml_char(one.last()));
            assert(xml_escaped(Seq::<char>::empty()) =~= Seq::<char>::empty());
            assert(Seq::<char>::empty() + xml_char(s[0]) =~= xml_char(s[0]));
        }
        lemma_unescape_char(s[0], xml_escaped(rest));
        let t = xml_escaped(s);
        assert(t =~= xml_char(s[0]) + xml_escaped(rest));
        assert forall|c: char| (c == '<' || c == '>' || c == '"') implies !t.contains(c) by {
            if t.contains(c) {
                let k = choose|k: int| 0 <= k < t.len() && t[k] == c;
                let l = xml_char(s[0]).len();
                if k >= l {
                    assert(xml_escaped(rest)[k - l] == c);
                }
            }
        }
    }
}

/// Entity `k` of the escape order: `&amp;`, `&lt;`, `&gt;`, `&quot;` for `k` from 1 to 4.
pub open spec fn entity(k: int) -> Seq<char> {
    if k == 1 {
        seq!['&', 'a', 'm', 'p', ';']
    } else if k == 2 {
        seq!['&', 'l', 't', ';']
    } else if k == 3 {
        seq!['&', 'g', 't', ';']
    } else {
        seq!['&', 'q', 'u', 'o', 't', ';']
    }
}

/// Character `k` of the escape order: `&`, `<`, `>`, `"` for `k` from 1 to 4.
pub open spec fn entity_char(k: int) -> char {
    if k == 1 { '&' } else if k == 2 { '<' } else if k == 3 { '>' } else { '"' }
}

/// Text of `c` when the first `k` characters of the escape order are escaped.
pub open spec fn char_escaped_upto(c: char, k: int) -> Seq<char> {
    if 1 <= k && c == '&' {
        entity(1)
    } else if 2 <= k && c == '<' {
        entity(2)
    } else if 3 <= k && c == '>' {
        entity(3)
    } else if 4 <= k && c == '"' {
        entity(4)
    } else {
        seq![c]
    }
}

/// `s` with the first `k` characters of the escape order escaped.
pub open spec fn escaped_upto(s: Seq<char>, k: int) -> Seq<char>
    decreases s.len(),
{
    if s.len() == 0 {
        Seq::empty()
    } else {
        char_escaped_upto(s[0], k) + escaped_upto(s.drop_first(), k)
    }
}

/// Every occurrence of `pat` replaced by `rep`, scanning from the left (std `str::replace`).
pub open spec fn replace_all(t: Seq<char>, pat: Seq<char>, rep: Seq<char>) -> Seq<char>
    decreases t.len(),
{
    if t.len() == 0 || pat.len() == 0 {
        t
    } else if t.len() >= pat.len() && t.take(pat.len() as int) == pat {
        rep + replace_all(t.skip(pat.len() as int), pat, rep)
    } else {
        seq![t[0]] + replace_all(t.skip(1), pat, rep)
    }
}

proof fn lemma_replace_skip_char(c: char, rest: Seq<char>, pat: Seq<char>, rep: Seq<char>)
    requires
        pat.len() > 0,
        pat[0] != c,
    ensures
        replace_all(seq![c] + rest, pat, rep) == seq![c] + replace_all(rest, pat, rep),
{
    let t = seq![c] + rest;
    if t.len() >= pat.len() {
        assert(t.take(pat.len() as int)[0] == c);
    }
    assert(t.skip(1) =~= rest);
    assert(t[0] == c);
}

proof fn lemma_replace_skip_seq(a: Seq<char>, rest: Seq<char>, pat: Seq<char>, rep: Seq<char>)
    requires
        pat.len() > 0,
        forall|i: int| 0 <= i < a.len() ==> a[i] != pat[0],
    ensures
        replace_all(a + rest, pat, rep) == a + replace_all(rest, pat, rep),
    decreases a.len(),
{
    if a.len() > 0 {
        lemma_replace_skip_seq(a.drop_first(), rest, pat, rep);
        assert(a + rest =~= seq![a[0]] + (a.drop_first() + rest));
        lemma_replace_skip_char(a[0], a.drop_first() + rest, pat, rep);
        assert(a =~= seq![a[0]] + a.drop_first());
        assert(seq![a[0]] + (a.drop_first() + replace_all(rest, pat, rep)) =~= a + replace_all(rest, pat, rep));
    } else {
        assert(a + rest =~= rest);
        assert(a + replace_all(rest, pat, rep) =~= replace_all(rest, pat, rep));
    }
}

/// Replacing entity `k` in text escaped up to `k` gives the text escaped up to `k - 1`.
proof fn lemma_replace_entity(s: Seq<char>, k: int)
    requires
        1 <= k <= 4,
    ensures
        replace_all(escaped_upto(s, k), entity(k), seq![entity_char(k)]) == escaped_upto(s, k - 1),
    decreases s.len(),
{
    let pat = entity(k);
    let rep = seq![entity_char(k)];
    if s.len() > 0 {
        let c = s[0];
        let rest = escaped_upto(s.drop_first(), k);
        lemma_replace_entity(s.drop_first(), k);
        let a = char_escaped_upto(c, k);
        if a == pat {
            let t = a + rest;
            assert(t.take(pat.len() as int) =~= pat);
            assert(t.skip(pat.len() as int) =~= rest);
            assert(c == entity_char(k));
            assert(char_escaped_upto(c, k - 1) == rep);
        } else if a[0] == '&' {
            // another entity: its first character can start a match only if the entities agree
            let t = a + rest;
            if t.len() >= pat.len() {
                assert(t.take(pat.len() as int)[1] == a[1]);
                assert(a[1] != pat[1]);
            }
            assert(t.skip(1) =~= a.drop_first() + rest);
            assert forall|i: int| 0 <= i < a.drop_first().len() implies a.drop_first()[i] != pat[0] by {}
            lemma_replace_skip_seq(a.drop_first(), rest, pat, rep);
            assert(char_escaped_upto(c, k - 1) == a);
            assert(seq![a[0]] + (a.drop_first() + replace_all(rest, pat, rep)) =~= a + replace_all(rest, pat, rep));
        } else {
            assert(a == seq![c]);
            lemma_replace_skip_char(c, rest, pat, rep);
            assert(char_escaped_upto(c, k - 1) == a);
        }
    }
}

proof fn lemma_escaped_upto_four(s: Seq<char>)
    ensures
        escaped_upto(s, 4) == xml_escaped(s),
    decreases s.len(),
{
    if s.len() > 0 {
        lemma_escaped_upto_four(s.drop_first());
        lemma_escaped_concat(seq![s[0]], s.drop_first());
        assert(s =~= seq![s[0]] + s.drop_first());
        assert(xml_escaped(seq![s[0]]) =~= xml_char(s[0])) by {
            let one = seq![s[0]];
            assert(one.drop_last() =~= Seq::<char>::empty());
            assert(xml_escaped(one) == xml_escaped(one.drop_last()) + xml_char(one.last()));
            assert(Seq::<char>::empty() + xml_char(s[0]) =~= xml_char(s[0]));
        }
        assert(char_escaped_upto(s[0], 4) == xml_char(s[0]));
    }
}

proof fn lemma_escaped_upto_zero(s: Seq<char>)
    ensures
        escaped_upto(s, 0) == s,
    decreases s.len(),
{
    if s.len() > 0 {
        lemma_escaped_upto_zero(s.drop_first());
        assert(s =~= seq![s[0]] + s.drop_first());
    }
}

/// Replacing `&quot;`, `&gt;`, `&lt;` and then `&amp;` by their characters in escaped text
/// gives the text back: `&` is escaped first, so no entity is produced twice.
pub proof fn lemma_xml_unescape_by_replacement(s: Seq<char>)
    ensures
        replace_all(replace_all(replace_all(replace_all(xml_escaped(s), entity(4), seq!['"']), entity(3), seq!['>']),
            entity(2), seq!['<']), entity(1), seq!['&']) == s,
{
    lemma_escaped_upto_four(s);
    lemma_replace_entity(s, 4);
    lemma_replace_entity(s, 3);
    lemma_replace_entity(s, 2);
    lemma_replace_entity(s, 1);
    lemma_escaped_upto_zero(s);
}

/// Escape the XML special characters of `s`.
pub fn xml_escape(s: &str) -> (r: String)
    ensures
        r@ == xml_escaped(s@),
{
    let c = chars_of(s);
    let mut out: Vec<char> = Vec::new();
    let mut i: usize = 0;
    while i < c.len()
        invariant
            i <= c@.len(),
            out@ == xml_escaped(c@.take(i as int)),
        decreases c.len() - i,
    {
        proof {
            assert(c@.take(i as int + 1).drop_last() =~= c@.take(i as int));
            assert(c@.take(i as int + 1).last() == c@[i as int]);
        }
        let ch = c[i];
        if ch == '&' {
            let e = vec!['&', 'a', 'm', 'p', ';'];
            push_all(&mut out, e.as_slice());
        } else if ch == '<' {
            let e = vec!['&', 'l', 't', ';'];
            push_all(&mut out, e.as_slice());
        } else if ch == '>' {
            let e = vec!['&', 'g', 't', ';'];
            push_all(&mut out, e.as_slice());
        } else if ch == '"' {
            let e = vec!['&', 'q', 'u', 'o', 't', ';'];
            push_all(&mut out, e.as_slice());
        } else {
            out.push(ch);
        }
        proof {
            assert(out@ =~= xml_escaped(c@.take(i as int + 1)));
        }
        i = i + 1;
    }
    proof {
        assert(c@.take(i as int) =~= c@);
    }
    string_from_chars(out.as_slice())
}


/// Kind of a repository symbol offered for export.
#[derive(Debug, Clone, Copy, PartialEq, Eq, Structural)]
pub enum SymbolKind {
    Function,
    Class,
    Struct,
    Interface,
    Variable,
    /// Any kind that is not exported.
    Other,
}

/// A repository symbol offered for export.
#[derive(Debug, Clone)]
pub struct ExportNode {
    /// Node id.
    pub id: u128,
    /// Node kind.
    pub kind: SymbolKind,
    /// Source file, when known.
    pub file_path: Option<String>,
}

/// Kind of a repository relation offered for export.
#[derive(Debug, Clone, Copy, PartialEq, Eq, Structural)]
pub enum RelationKind {
    Calls,
    Contains,
    Extends,
    Implements,
    Uses,
    Modifies,
    /// Any kind that is not exported.
    Other,
}

/// A repository relation offered for export.
#[derive(Debug, Clone, Copy, PartialEq, Eq, Structural)]
pub struct ExportEdge {
    /// Source node id.
    pub from: u128,
    /// Target node id.
    pub to: u128,
    /// Relation kind.
    pub kind: RelationKind,
}

/// A data dependence of an archived function, with the source lines of its two statements.
#[derive(Debug, Clone, Copy, PartialEq, Eq, Structural)]
pub struct FlowDep {
    /// Function whose dependence graph holds the dependence.
    pub function_id: u128,
    /// Whether the dependence is a flow (def-use) dependence.
    pub flow: bool,
    /// Line of the defining statement.
    pub from_line: usize,
    /// Line of the using statement.
    pub to_line: usize,
}

/// A node of the exported graph.
#[derive(Debug, Clone, Copy, PartialEq, Eq, Structural)]
pub enum GraphNode {
    /// The symbol at this index of the offered nodes.
    Symbol(usize),
    /// A statement of a function, named by the function and its line.
    Statement(u128, usize),
    /// The field write at this index of the offered writes.
    FieldWrite(usize),
}

/// An endpoint of an exported edge.
#[derive(Debug, Clone, Copy, PartialEq, Eq, Structural)]
pub enum NodeRef {
    /// A symbol by id.
    Symbol(u128),
    /// A statement of a function, named by the function and its line.
    Statement(u128, usize),
    /// The field write at this index of the offered writes.
    FieldWrite(usize),
}

/// What an exported edge stands for.
#[derive(Debug, Clone, Copy, PartialEq, Eq, Structural)]
pub enum EdgeLabel {
    /// The relation at this index of the offered edges.
    Relation(usize),
    /// The flow dependence at this index of the offered dependences.
    DataFlow(usize),
    /// A function writes a field.
    WritesField,
}

/// An exported edge; edges are numbered from 1 in the order they are emitted.
#[derive(Debug, Clone, Copy, PartialEq, Eq, Structural)]
pub struct GraphEdge {
    pub number: usize,
    pub label: EdgeLabel,
    pub from: NodeRef,
    pub to: NodeRef,
}

/// The exported graph.
#[derive(Debug, Clone)]
pub struct ExportGraph {
    pub nodes: Vec<GraphNode>,
    pub edges: Vec<GraphEdge>,
}

/// The scope's path filter as text.
pub open spec fn scope_filter(scope: CpgExportScope) -> Option<Seq<char>> {
    match scope.path_contains {
        Some(s) => Some(s@),
        None => None,
    }
}

/// The file of a node as text.
pub open spec fn file_view(f: Option<String>) -> Option<Seq<char>> {
    match f {
        Some(s) => Some(s@),
        None => None,
    }
}

/// Functions, classes, structs, interfaces and variables are exported.
pub open spec fn exported_symbol(k: SymbolKind) -> bool {
    !(k is Other)
}

/// Calls, containment, inheritance, implementation, use and modification are exported.
pub open spec fn exported_relation(k: RelationKind) -> bool {
    !(k is Other)
}

/// A node is kept: an exported kind whose file passes the path filter.
pub open spec fn node_kept(n: ExportNode, f: Option<Seq<char>>) -> bool {
    exported_symbol(n.kind) && path_in_scope(f, file_view(n.file_path))
}

/// Some kept node has id `id`.
pub open spec fn id_kept(nodes: Seq<ExportNode>, f: Option<Seq<char>>, id: u128) -> bool {
    exists|i: int| 0 <= i < nodes.len() && #[trigger] node_kept(nodes[i], f) && nodes[i].id == id
}

/// The kept nodes, as symbol nodes, in the order offered.
pub open spec fn symbol_nodes(nodes: Seq<ExportNode>, f: Option<Seq<char>>) -> Seq<GraphNode>
    decreases nodes.len(),
{
    if nodes.len() == 0 {
        Seq::empty()
    } else {
        let rest = symbol_nodes(nodes.drop_last(), f);
        if node_kept(nodes.last(), f) {
            rest.push(GraphNode::Symbol((nodes.len() - 1) as usize))
        } else {
            rest
        }
    }
}

/// The relations of an exported kind between kept nodes, numbered in the order offered.
pub open spec fn relation_edges(nodes: Seq<ExportNode>, f: Option<Seq<char>>, edges: Seq<ExportEdge>) -> Seq<GraphEdge>
    decreases edges.len(),
{
    if edges.len() == 0 {
        Seq::empty()
    } else {
        let rest = relation_edges(nodes, f, edges.drop_last());
        let e = edges.last();
        if exported_relation(e.kind) && id_kept(nodes, f, e.from) && id_kept(nodes, f, e.to) {
            rest.push(GraphEdge {
                number: (rest.len() + 1) as usize,
                label: EdgeLabel::Relation((edges.len() - 1) as usize),
                from: NodeRef::Symbol(e.from),
                to: NodeRef::Symbol(e.to),
            })
        } else {
            rest
        }
    }
}

/// `ns` with `x` added at the end unless it is already there.
pub open spec fn ensure_node(ns: Seq<GraphNode>, x: GraphNode) -> Seq<GraphNode> {
    if ns.contains(x) {
        ns
    } else {
        ns.push(x)
    }
}

/// The graph `g` after the flow dependences `deps` of kept functions: each adds its two
/// statements (once each) and a numbered data-flow edge between them.
pub open spec fn with_flows(
    nodes: Seq<ExportNode>,
    f: Option<Seq<char>>,
    g: (Seq<GraphNode>, Seq<GraphEdge>),
    deps: Seq<FlowDep>,
) -> (Seq<GraphNode>, Seq<GraphEdge>)
    decreases deps.len(),
{
    if deps.len() == 0 {
        g
    } else {
        let h = with_flows(nodes, f, g, deps.drop_last());
        let d = deps.last();
        if d.flow && id_kept(nodes, f, d.function_id) {
            let a = GraphNode::Statement(d.function_id, d.from_line);
            let b = GraphNode::Statement(d.function_id, d.to_line);
            (ensure_node(ensure_node(h.0, a), b), h.1.push(GraphEdge {
                number: (h.1.len() + 1) as usize,
                label: EdgeLabel::DataFlow((deps.len() - 1) as usize),
                from: NodeRef::Statement(d.function_id, d.from_line),
                to: NodeRef::Statement(d.function_id, d.to_line),
            }))
        } else {
            h
        }
    }
}

/// The graph `g` after the field writes whose files pass the filter: each adds its write
/// node and a numbered edge from its function.
pub open spec fn with_writes(
    f: Option<Seq<char>>,
    g: (Seq<GraphNode>, Seq<GraphEdge>),
    writes: Seq<(u128, String)>,
) -> (Seq<GraphNode>, Seq<GraphEdge>)
    decreases writes.len(),
{
    if writes.len() == 0 {
        g
    } else {
        let h = with_writes(f, g, writes.drop_last());
        let w = writes.last();
        let i = (writes.len() - 1) as usize;
        if path_in_scope(f, Some(w.1@)) {
            (h.0.push(GraphNode::FieldWrite(i)), h.1.push(GraphEdge {
                number: (h.1.len() + 1) as usize,
                label: EdgeLabel::WritesField,
                from: NodeRef::Symbol(w.0),
                to: NodeRef::FieldWrite(i),
            }))
        } else {
            h
        }
    }
}

/// The exported graph: kept symbols and relations, then (when the scope asks for them)
/// flow dependences of kept functions, then field writes in scope.
pub open spec fn export_graph(
    nodes: Seq<ExportNode>,
    edges: Seq<ExportEdge>,
    deps: Seq<FlowDep>,
    writes: Seq<(u128, String)>,
    scope: CpgExportScope,
) -> (Seq<GraphNode>, Seq<GraphEdge>) {
    let f = scope_filter(scope);
    let g0 = (symbol_nodes(nodes, f), relation_edges(nodes, f, edges));
    let g1 = if scope.include_l_proc { with_flows(nodes, f, g0, deps) } else { g0 };
    if scope.include_field_writes { with_writes(f, g1, writes) } else { g1 }
}

/// An edge endpoint is among the exported nodes `ns`: a symbol through some offered node of
/// that id, a statement or a field write as itself.
pub open spec fn endpoint_present(offered: Seq<ExportNode>, ns: Seq<GraphNode>, r: NodeRef) -> bool {
    match r {
        NodeRef::Symbol(id) => exists|i: int| 0 <= i < offered.len() && offered[i].id == id && #[trigger] ns.contains(GraphNode::Symbol(i as usize)),
        NodeRef::Statement(fid, line) => ns.contains(GraphNode::Statement(fid, line)),
        NodeRef::FieldWrite(i) => ns.contains(GraphNode::FieldWrite(i)),
    }
}

/// Every edge ends at an exported node, and starts at one unless it is a field write (whose
/// source is the writing function, exported or not).
pub open spec fn edges_grounded(offered: Seq<ExportNode>, ns: Seq<GraphNode>, es: Seq<GraphEdge>) -> bool {
    forall|k: int| 0 <= k < es.len() ==> endpoint_present(offered, ns, (#[trigger] es[k]).to)
        && (!(es[k].label is WritesField) ==> endpoint_present(offered, ns, es[k].from))
}

proof fn lemma_symbol_nodes_contain(nodes: Seq<ExportNode>, f: Option<Seq<char>>, i: int)
    requires
        0 <= i < nodes.len(),
        node_kept(nodes[i], f),
    ensures
        symbol_nodes(nodes, f).contains(GraphNode::Symbol(i as usize)),
    decreases nodes.len(),
{
    let rest = symbol_nodes(nodes.drop_last(), f);
    if i == nodes.len() - 1 {
        assert(symbol_nodes(nodes, f).last() == GraphNode::Symbol(i as usize));
    } else {
        assert(nodes.drop_last()[i] == nodes[i]);
        lemma_symbol_nodes_contain(nodes.drop_last(), f, i);
        lemma_push_contains(rest, GraphNode::Symbol((nodes.len() - 1) as usize), GraphNode::Symbol(i as usize));
    }
}

proof fn lemma_relations_grounded(nodes: Seq<ExportNode>, f: Option<Seq<char>>, edges: Seq<ExportEdge>)
    ensures
        edges_grounded(nodes, symbol_nodes(nodes, f), relation_edges(nodes, f, edges)),
        forall|k: int| 0 <= k < relation_edges(nodes, f, edges).len() ==> (#[trigger] relation_edges(nodes, f, edges)[k]).label is Relation,
    decreases edges.len(),
{
    let ns = symbol_nodes(nodes, f);
    if edges.len() > 0 {
        lemma_relations_grounded(nodes, f, edges.drop_last());
        let e = edges.last();
        if exported_relation(e.kind) && id_kept(nodes, f, e.from) && id_kept(nodes, f, e.to) {
            let i = choose|i: int| 0 <= i < nodes.len() && #[trigger] node_kept(nodes[i], f) && nodes[i].id == e.from;
            let j = choose|j: int| 0 <= j < nodes.len() && #[trigger] node_kept(nodes[j], f) && nodes[j].id == e.to;
            lemma_symbol_nodes_contain(nodes, f, i);
            lemma_symbol_nodes_contain(nodes, f, j);
            assert(endpoint_present(nodes, ns, NodeRef::Symbol(e.from)));
            assert(endpoint_present(nodes, ns, NodeRef::Symbol(e.to)));
        }
    }
}

proof fn lemma_present_grows(offered: Seq<ExportNode>, ns: Seq<GraphNode>, ns2: Seq<GraphNode>, r: NodeRef)
    requires
        endpoint_present(offered, ns, r),
        forall|x: GraphNode| ns.contains(x) ==> #[trigger] ns2.contains(x),
    ensures
        endpoint_present(offered, ns2, r),
{
    match r {
        NodeRef::Symbol(id) => {
            let i = choose|i: int| 0 <= i < offered.len() && offered[i].id == id && #[trigger] ns.contains(GraphNode::Symbol(i as usize));
            assert(ns2.contains(GraphNode::Symbol(i as usize)));
        },
        _ => {},
    }
}

proof fn lemma_ensure_node(ns: Seq<GraphNode>, x: GraphNode)
    ensures
        ensure_node(ns, x).contains(x),
        forall|y: GraphNode| ns.contains(y) ==> #[trigger] ensure_node(ns, x).contains(y),
{
    assert forall|y: GraphNode| ns.contains(y) implies #[trigger] ensure_node(ns, x).contains(y) by {
        lemma_push_contains(ns, x, y);
    }
    lemma_push_contains(ns, x, x);
}

proof fn lemma_flows_grounded(nodes: Seq<ExportNode>, f: Option<Seq<char>>, g: (Seq<GraphNode>, Seq<GraphEdge>), deps: Seq<FlowDep>)
    requires
        edges_grounded(nodes, g.0, g.1),
    ensures
        edges_grounded(nodes, with_flows(nodes, f, g, deps).0, with_flows(nodes, f, g, deps).1),
        forall|x: GraphNode| g.0.contains(x) ==> #[trigger] with_flows(nodes, f, g, deps).0.contains(x),
    decreases deps.len(),
{
    if deps.len() > 0 {
        lemma_flows_grounded(nodes, f, g, deps.drop_last());
        let h = with_flows(nodes, f, g, deps.drop_last());
        let d = deps.last();
        if d.flow && id_kept(nodes, f, d.function_id) {
            let a = GraphNode::Statement(d.function_id, d.from_line);
            let b = GraphNode::Statement(d.function_id, d.to_line);
            let n1 = ensure_node(h.0, a);
            let n2 = ensure_node(n1, b);
            lemma_ensure_node(h.0, a);
            lemma_ensure_node(n1, b);
            let r = with_flows(nodes, f, g, deps);
            assert(r.0 == n2);
            assert forall|k: int| 0 <= k < r.1.len() implies endpoint_present(nodes, r.0, (#[trigger] r.1[k]).to)
                && (!(r.1[k].label is WritesField) ==> endpoint_present(nodes, r.0, r.1[k].from)) by {
                if k < h.1.len() {
                    assert(r.1[k] == h.1[k]);
                    lemma_present_grows(nodes, h.0, r.0, h.1[k].to);
                    if !(h.1[k].label is WritesField) {
                        lemma_present_grows(nodes, h.0, r.0, h.1[k].from);
                    }
                }
            }
        }
    }
}

proof fn lemma_writes_grounded(nodes: Seq<ExportNode>, f: Option<Seq<char>>, g: (Seq<GraphNode>, Seq<GraphEdge>), writes: Seq<(u128, String)>)
    requires
        edges_grounded(nodes, g.0, g.1),
    ensures
        edges_grounded(nodes, with_writes(f, g, writes).0, with_writes(f, g, writes).1),
    decreases writes.len(),
{
    if writes.len() > 0 {
        lemma_writes_grounded(nodes, f, g, writes.drop_last());
        let h = with_writes(f, g, writes.drop_last());
        let w = writes.last();
        let i = (writes.len() - 1) as usize;
        if path_in_scope(f, Some(w.1@)) {
            let r = with_writes(f, g, writes);
            assert forall|x: GraphNode| h.0.contains(x) implies #[trigger] r.0.contains(x) by {
                lemma_push_contains(h.0, GraphNode::FieldWrite(i), x);
            }
            lemma_push_contains(h.0, GraphNode::FieldWrite(i), GraphNode::FieldWrite(i));
            assert forall|k: int| 0 <= k < r.1.len() implies endpoint_present(nodes, r.0, (#[trigger] r.1[k]).to)
                && (!(r.1[k].label is WritesField) ==> endpoint_present(nodes, r.0, r.1[k].from)) by {
                if k < h.1.len() {
                    assert(r.1[k] == h.1[k]);
                    lemma_present_grows(nodes, h.0, r.0, h.1[k].to);
                    if !(h.1[k].label is WritesField) {
                        lemma_present_grows(nodes, h.0, r.0, h.1[k].from);
                    }
                }
            }
        }
    }
}

/// The exported graph has no dangling edge: every edge ends at an exported node, and every
/// edge other than a field write also starts at one.
pub proof fn lemma_export_grounded(
    nodes: Seq<ExportNode>,
    edges: Seq<ExportEdge>,
    deps: Seq<FlowDep>,
    writes: Seq<(u128, String)>,
    scope: CpgExportScope,
)
    ensures
        edges_grounded(nodes, export_graph(nodes, edges, deps, writes, scope).0, export_graph(nodes, edges, deps, writes, scope).1),
{
    let f = scope_filter(scope);
    let g0 = (symbol_nodes(nodes, f), relation_edges(nodes, f, edges));
    lemma_relations_grounded(nodes, f, edges);
    lemma_flows_grounded(nodes, f, g0, deps);
    let g1 = if scope.include_l_proc { with_flows(nodes, f, g0, deps) } else { g0 };
    lemma_writes_grounded(nodes, f, g1, writes);
}

fn contains_node(ns: &Vec<GraphNode>, x: GraphNode) -> (r: bool)
    ensures
        r == ns@.contains(x),
{
    let mut i: usize = 0;
    while i < ns.len()
        invariant
            i <= ns@.len(),
            forall|j: int| 0 <= j < i ==> ns@[j] != x,
        decreases ns.len() - i,
    {
        if ns[i] == x {
            return true;
        }
        i = i + 1;
    }
    false
}

fn contains_id(ids: &Vec<u128>, x: u128) -> (r: bool)
    ensures
        r == ids@.contains(x),
{
    let mut i: usize = 0;
    while i < ids.len()
        invariant
            i <= ids@.len(),
            forall|j: int| 0 <= j < i ==> ids@[j] != x,
        decreases ids.len() - i,
    {
        if ids[i] == x {
            return true;
        }
        i = i + 1;
    }
    false
}

fn file_ref(f: &Option<String>) -> (r: Option<&str>)
    ensures
        match r {
            Some(s) => file_view(*f) == Some(s@),
            None => file_view(*f) is None,
        },
{
    match f {
        Some(s) => Some(s.as_str()),
        None => None,
    }
}

/// Collect the exported graph: symbols of an exported kind whose file passes the scope,
/// exported relations between them, then the flow dependences of kept functions (when the
/// scope includes procedure-level data) and the field writes in scope (when it includes
/// them). `deps` lists the archived data dependences; `writes` lists each field write as
/// its function and its file.
pub fn collect_export_graph(
    nodes: &Vec<ExportNode>,
    edges: &Vec<ExportEdge>,
    deps: &Vec<FlowDep>,
    writes: &Vec<(u128, String)>,
    scope: &CpgExportScope,
) -> (r: ExportGraph)
    requires
        edges@.len() + deps@.len() + writes@.len() <= usize::MAX,
    ensures
        (r.nodes@, r.edges@) == export_graph(nodes@, edges@, deps@, writes@, *scope),
{
    let ghost f = scope_filter(*scope);
    let mut out: Vec<GraphNode> = Vec::new();
    let mut kept: Vec<u128> = Vec::new();
    let mut i: usize = 0;
    while i < nodes.len()
        invariant
            f == scope_filter(*scope),
            i <= nodes@.len(),
            out@ == symbol_nodes(nodes@.take(i as int), f),
            forall|x: u128| #[trigger] kept@.contains(x) <==> exists|j: int| 0 <= j < i && #[trigger] node_kept(nodes@[j], f) && nodes@[j].id == x,
        decreases nodes.len() - i,
    {
        proof {
            assert(nodes@.take(i as int + 1).drop_last() =~= nodes@.take(i as int));
            assert(nodes@.take(i as int + 1).last() == nodes@[i as int]);
        }
        let n = &nodes[i];
        let keep = !matches!(n.kind, SymbolKind::Other) && path_ok(scope, file_ref(&n.file_path));
        let ghost old_kept = kept@;
        if keep {
            out.push(GraphNode::Symbol(i));
            kept.push(n.id);
        }
        proof {
            assert(keep == node_kept(nodes@[i as int], f));
            assert forall|x: u128| #[trigger] kept@.contains(x) <==> exists|j: int| 0 <= j < i + 1 && #[trigger] node_kept(nodes@[j], f) && nodes@[j].id == x by {
                if keep {
                    lemma_push_contains(old_kept, nodes@[i as int].id, x);
                }
                if exists|j: int| 0 <= j < i + 1 && #[trigger] node_kept(nodes@[j], f) && nodes@[j].id == x {
                    let j = choose|j: int| 0 <= j < i + 1 && #[trigger] node_kept(nodes@[j], f) && nodes@[j].id == x;
                    if j < i {
                        assert(old_kept.contains(x));
                    }
                }
                if old_kept.contains(x) {
                    let j = choose|j: int| 0 <= j < i && #[trigger] node_kept(nodes@[j], f) && nodes@[j].id == x;
                    assert(0 <= j < i + 1);
                }
            }
        }
        i = i + 1;
    }
    proof {
        assert(nodes@.take(i as int) =~= nodes@);
    }
    let mut es: Vec<GraphEdge> = Vec::new();
    let mut k: usize = 0;
    while k < edges.len()
        invariant
            f == scope_filter(*scope),
            k <= edges@.len(),
            edges@.len() + deps@.len() + writes@.len() <= usize::MAX,
            es@ == relation_edges(nodes@, f, edges@.take(k as int)),
            es@.len() <= k,
            forall|x: u128| #[trigger] kept@.contains(x) <==> id_kept(nodes@, f, x),
        decreases edges.len() - k,
    {
        proof {
            assert(edges@.take(k as int + 1).drop_last() =~= edges@.take(k as int));
            assert(edges@.take(k as int + 1).last() == edges@[k as int]);
        }
        let e = edges[k];
        if !matches!(e.kind, RelationKind::Other) && contains_id(&kept, e.from) && contains_id(&kept, e.to) {
            let num = es.len() + 1;
            es.push(GraphEdge { number: num, label: EdgeLabel::Relation(k), from: NodeRef::Symbol(e.from), to: NodeRef::Symbol(e.to) });
        }
        k = k + 1;
    }
    proof {
        assert(edges@.take(k as int) =~= edges@);
    }
    if scope.include_l_proc {
        let mut j: usize = 0;
        while j < deps.len()
            invariant
                f == scope_filter(*scope),
                j <= deps@.len(),
                edges@.len() + deps@.len() + writes@.len() <= usize::MAX,
                es@.len() <= edges@.len() + j,
                (out@, es@) == with_flows(nodes@, f, (symbol_nodes(nodes@, f), relation_edges(nodes@, f, edges@)), deps@.take(j as int)),
                forall|x: u128| #[trigger] kept@.contains(x) <==> id_kept(nodes@, f, x),
            decreases deps.len() - j,
        {
            proof {
                assert(deps@.take(j as int + 1).drop_last() =~= deps@.take(j as int));
                assert(deps@.take(j as int + 1).last() == deps@[j as int]);
            }
            let d = deps[j];
            if d.flow && contains_id(&kept, d.function_id) {
                let a = GraphNode::Statement(d.function_id, d.from_line);
                let b = GraphNode::Statement(d.function_id, d.to_line);
                if !contains_node(&out, a) {
                    out.push(a);
                }
                if !contains_node(&out, b) {
                    out.push(b);
                }
                let num = es.len() + 1;
                es.push(GraphEdge {
                    number: num,
                    label: EdgeLabel::DataFlow(j),
                    from: NodeRef::Statement(d.function_id, d.from_line),
                    to: NodeRef::Statement(d.function_id, d.to_line),
                });
            }
            j = j + 1;
        }
        proof {
            assert(deps@.take(j as int) =~= deps@);
        }
    }
    let ghost g1 = (out@, es@);
    proof {
        let g0 = (symbol_nodes(nodes@, f), relation_edges(nodes@, f, edges@));
        assert(g1 == (if scope.include_l_proc { with_flows(nodes@, f, g0, deps@) } else { g0 }));
    }
    if scope.include_field_writes {
        let mut w: usize = 0;
        while w < writes.len()
            invariant
                f == scope_filter(*scope),
                w <= writes@.len(),
                edges@.len() + deps@.len() + writes@.len() <= usize::MAX,
                es@.len() <= edges@.len() + deps@.len() + w,
                (out@, es@) == with_writes(f, g1, writes@.take(w as int)),
            decreases writes.len() - w,
        {
            proof {
                assert(writes@.take(w as int + 1).drop_last() =~= writes@.take(w as int));
                assert(writes@.take(w as int + 1).last() == writes@[w as int]);
            }
            let site = &writes[w];
            if path_ok(scope, Some(site.1.as_str())) {
                out.push(GraphNode::FieldWrite(w));
                let num = es.len() + 1;
                es.push(GraphEdge { number: num, label: EdgeLabel::WritesField, from: NodeRef::Symbol(site.0), to: NodeRef::FieldWrite(w) });
            }
            w = w + 1;
        }
        proof {
            assert(writes@.take(w as int) =~= writes@);
        }
    }
    ExportGraph { nodes: out, edges: es }
}

} // verus!
