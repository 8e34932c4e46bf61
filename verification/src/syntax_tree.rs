//! A parsed syntax tree held as plain values: node kinds, the field each node hangs
//! under in its parent, byte spans into the source, and child lists.

use vstd::prelude::*;
use crate::blast_engine_snapshot::{utf8_string, utf8_text_of};
use crate::text::str_eq;

verus! {

/// One node of a syntax tree.
pub struct SyntaxNode {
    /// Grammar kind of the node (`identifier`, `let_declaration`, ...).
    pub kind: String,
    /// Field name under which the node hangs in its parent, if any.
    pub field: Option<String>,
    /// Named (grammar-level) node rather than anonymous punctuation.
    pub named: bool,
    /// Inclusive start byte offset in the source.
    pub start_byte: usize,
    /// Exclusive end byte offset in the source.
    pub end_byte: usize,
    /// Zero-based line of the first byte.
    pub start_row: usize,
    /// Zero-based line of the last byte.
    pub end_row: usize,
    /// Indices of the children, in source order.
    pub children: Vec<usize>,
}

/// A syntax tree: nodes stored so that every child comes after its parent.
pub struct SyntaxTree {
    /// All nodes of the tree.
    pub nodes: Vec<SyntaxNode>,
    /// Index of the root node.
    pub root: usize,
}

/// `c` is a proper child index of `n`: after `n` and inside the tree.
pub open spec fn valid_kid(t: SyntaxTree, n: int, c: int) -> bool {
    n < c < t.nodes@.len()
}

/// Every child of `n` is a proper child index.
pub open spec fn kids_ok(t: SyntaxTree, n: int) -> bool {
    forall|j: int| 0 <= j < t.nodes@[n].children@.len() ==> valid_kid(t, n, #[trigger] t.nodes@[n].children@[j] as int)
}

/// Node `i` is well formed against a source of `src_len` bytes.
pub open spec fn node_ok(t: SyntaxTree, i: int, src_len: nat) -> bool {
    &&& t.nodes@[i].start_byte <= t.nodes@[i].end_byte <= src_len
    &&& kids_ok(t, i)
}

impl SyntaxTree {
    /// Well-formed tree over a source of `src_len` bytes: the root is a node, spans lie
    /// inside the source, children follow their parents, and depths fit in a `usize`.
    pub open spec fn wf(self, src_len: nat) -> bool {
        &&& self.root < self.nodes@.len()
        &&& self.nodes@.len() + 4096 <= usize::MAX
        &&& forall|i: int| 0 <= i < self.nodes@.len() ==> #[trigger] node_ok(self, i, src_len)
    }
}

/// Kind of node `n`.
pub open spec fn kind_at(t: SyntaxTree, n: int) -> Seq<char> {
    t.nodes@[n].kind@
}

/// Children of node `n`.
pub open spec fn kids_of(t: SyntaxTree, n: int) -> Seq<usize> {
    t.nodes@[n].children@
}

/// Node `c` hangs under the field `name`.
pub open spec fn has_field(t: SyntaxTree, c: int, name: Seq<char>) -> bool {
    match t.nodes@[c].field {
        Some(f) => f@ == name,
        None => false,
    }
}

/// First child of `n`, from position `k` on, that hangs under the field `name`.
pub open spec fn field_child_from(t: SyntaxTree, n: int, name: Seq<char>, k: int) -> Option<int>
    decreases kids_of(t, n).len() - k,
{
    if k < 0 || k >= kids_of(t, n).len() {
        None
    } else {
        let c = kids_of(t, n)[k] as int;
        if valid_kid(t, n, c) && has_field(t, c, name) {
            Some(c)
        } else {
            field_child_from(t, n, name, k + 1)
        }
    }
}

/// First child of `n` under the field `name`.
pub open spec fn field_child(t: SyntaxTree, n: int, name: Seq<char>) -> Option<int> {
    field_child_from(t, n, name, 0)
}

/// The first of two lookups that found something.
pub open spec fn orf(a: Option<int>, b: Option<int>) -> Option<int> {
    if a is Some {
        a
    } else {
        b
    }
}

/// An exec index option read as an integer option.
pub open spec fn opt_int(o: Option<usize>) -> Option<int> {
    match o {
        Some(x) => Some(x as int),
        None => None,
    }
}

/// Source text of node `n`, when its bytes are valid UTF-8.
pub open spec fn node_text(t: SyntaxTree, src: Seq<u8>, n: int) -> Option<Seq<char>> {
    utf8_text_of(src.subrange(t.nodes@[n].start_byte as int, t.nodes@[n].end_byte as int))
}

/// First child of `n` under the field `name`.
pub fn child_by_field(t: &SyntaxTree, n: usize, name: &str) -> (r: Option<usize>)
    requires
        n < t.nodes@.len(),
        kids_ok(*t, n as int),
    ensures
        opt_int(r) == field_child(*t, n as int, name@),
        r matches Some(c) ==> valid_kid(*t, n as int, c as int),
{
    let kids = &t.nodes[n].children;
    let mut i: usize = 0;
    while i < kids.len()
        invariant
            n < t.nodes@.len(),
            kids_ok(*t, n as int),
            kids@ == kids_of(*t, n as int),
            i <= kids@.len(),
            field_child(*t, n as int, name@) == field_child_from(*t, n as int, name@, i as int),
        decreases kids@.len() - i,
    {
        let c = kids[i];
        assert(valid_kid(*t, n as int, kids@[i as int] as int));
        let hit = match &t.nodes[c].field {
            Some(f) => str_eq(f.as_str(), name),
            None => false,
        };
        if hit {
            return Some(c);
        }
        i = i + 1;
    }
    None
}

/// Source text of node `n`, when its bytes are valid UTF-8.
pub fn text_of_node(t: &SyntaxTree, src: &[u8], n: usize) -> (r: Option<String>)
    requires
        t.wf(src@.len()),
        n < t.nodes@.len(),
    ensures
        match r {
            Some(s) => node_text(*t, src@, n as int) == Some(s@),
            None => node_text(*t, src@, n as int) is None,
        },
{
    assert(node_ok(*t, n as int, src@.len()));
    let bytes = vstd::slice::slice_subrange(src, t.nodes[n].start_byte, t.nodes[n].end_byte);
    utf8_string(bytes)
}

} // verus!
