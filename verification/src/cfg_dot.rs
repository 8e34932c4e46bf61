//! Graphviz DOT rendering of a control-flow graph.

use vstd::prelude::*;
use crate::cfg::{BasicBlock, CfgEdge, CfgEdgeType, ControlFlowGraph, Statement};
use crate::text::{chars_of, decimal, decimal_chars, push_all, string_from_chars};

verus! {

/// `s` with every `"` written as `\"`.
pub open spec fn escape_quotes(s: Seq<char>) -> Seq<char>
    decreases s.len(),
{
    if s.len() == 0 {
        s
    } else {
        escape_quotes(s.drop_last()) + (if s.last() == '"' { seq!['\\', '"'] } else { seq![s.last()] })
    }
}

/// `s` with every line break written as `\n`.
pub open spec fn escape_newlines(s: Seq<char>) -> Seq<char>
    decreases s.len(),
{
    if s.len() == 0 {
        s
    } else {
        escape_newlines(s.drop_last()) + (if s.last() == '\n' { seq!['\\', 'n'] } else { seq![s.last()] })
    }
}

/// Quote-escaped statement texts joined by `\n`.
pub open spec fn joined_texts(stmts: Seq<Statement>) -> Seq<char>
    decreases stmts.len(),
{
    if stmts.len() == 0 {
        Seq::empty()
    } else if stmts.len() == 1 {
        escape_quotes(stmts[0].text@)
    } else {
        joined_texts(stmts.drop_last()) + seq!['\\', 'n'] + escape_quotes(stmts.last().text@)
    }
}

/// Label of a block: its statements, or `block <id>` when it has none to show.
pub open spec fn block_label(b: BasicBlock) -> Seq<char> {
    let l = joined_texts(b.statements@);
    escape_newlines(if l.len() == 0 { seq!['b', 'l', 'o', 'c', 'k', ' '] + decimal(b.id.0 as nat) } else { l })
}

/// DOT line of a block.
pub open spec fn block_line(b: BasicBlock) -> Seq<char> {
    seq![' ', ' ', '"'] + decimal(b.id.0 as nat) + seq!['"', ' ', '[', 'l', 'a', 'b', 'e', 'l', '=', '"'] + block_label(b) + seq![
        '"',
        ']',
        ';',
        '\n',
    ]
}

/// DOT attributes of an edge kind.
pub open spec fn edge_style(t: CfgEdgeType) -> Seq<char> {
    match t {
        CfgEdgeType::IfTrue => seq![' ', '[', 'l', 'a', 'b', 'e', 'l', '=', '"', 'T', '"', ']'],
        CfgEdgeType::IfFalse => seq![' ', '[', 'l', 'a', 'b', 'e', 'l', '=', '"', 'F', '"', ']'],
        CfgEdgeType::Jump => seq![' ', '[', 'l', 'a', 'b', 'e', 'l', '=', '"', 'j', 'u', 'm', 'p', '"', ' ', 's', 't', 'y', 'l', 'e', '=', 'd', 'a', 's', 'h', 'e', 'd', ']'],
        CfgEdgeType::Return => seq![' ', '[', 'l', 'a', 'b', 'e', 'l', '=', '"', 'r', 'e', 't', 'u', 'r', 'n', '"', ' ', 'c', 'o', 'l', 'o', 'r', '=', 'r', 'e', 'd', ']'],
        CfgEdgeType::Exception => seq![' ', '[', 'l', 'a', 'b', 'e', 'l', '=', '"', 'e', 'x', 'c', 'e', 'p', 't', '"', ' ', 'c', 'o', 'l', 'o', 'r', '=', 'o', 'r', 'a', 'n', 'g', 'e', ']'],
        CfgEdgeType::Next => Seq::empty(),
    }
}

/// DOT line of an edge.
pub open spec fn edge_line(e: CfgEdge) -> Seq<char> {
    seq![' ', ' ', '"'] + decimal(e.from.0 as nat) + seq!['"', ' ', '-', '>', ' ', '"'] + decimal(e.to.0 as nat) + seq!['"'] + edge_style(
        e.edge_type,
    ) + seq![';', '\n']
}

/// Lines of all blocks, in order.
pub open spec fn block_lines(bs: Seq<BasicBlock>) -> Seq<char>
    decreases bs.len(),
{
    if bs.len() == 0 {
        Seq::empty()
    } else {
        block_lines(bs.drop_last()) + block_line(bs.last())
    }
}

/// Lines of all edges, in order.
pub open spec fn edge_lines(es: Seq<CfgEdge>) -> Seq<char>
    decreases es.len(),
{
    if es.len() == 0 {
        Seq::empty()
    } else {
        edge_lines(es.drop_last()) + edge_line(es.last())
    }
}

/// The DOT text of a graph: header, one line per block, one line per edge, footer.
pub open spec fn dot_text(blocks: Seq<BasicBlock>, edges: Seq<CfgEdge>) -> Seq<char> {
    seq!['d', 'i', 'g', 'r', 'a', 'p', 'h', ' ', 'C', 'F', 'G', ' ', '{', '\n'] + block_lines(blocks) + edge_lines(edges) + seq!['}', '\n']
}

fn escape_quotes_of(s: &[char], out: &mut Vec<char>)
    ensures
        final(out)@ == old(out)@ + escape_quotes(s@),
{
    let ghost o = out@;
    let mut i: usize = 0;
    while i < s.len()
        invariant
            i <= s@.len(),
            out@ == o + escape_quotes(s@.take(i as int)),
        decreases s.len() - i,
    {
        proof {
            assert(s@.take(i as int + 1).drop_last() =~= s@.take(i as int));
            assert(s@.take(i as int + 1).last() == s@[i as int]);
        }
        if s[i] == '"' {
            out.push('\\');
            out.push('"');
        } else {
            out.push(s[i]);
        }
        i = i + 1;
        proof {
            assert(out@ =~= o + escape_quotes(s@.take(i as int)));
        }
    }
    proof {
        assert(s@.take(i as int) =~= s@);
    }
}

fn escape_newlines_of(s: &[char], out: &mut Vec<char>)
    ensures
        final(out)@ == old(out)@ + escape_newlines(s@),
{
    let ghost o = out@;
    let mut i: usize = 0;
    while i < s.len()
        invariant
            i <= s@.len(),
            out@ == o + escape_newlines(s@.take(i as int)),
        decreases s.len() - i,
    {
        proof {
            assert(s@.take(i as int + 1).drop_last() =~= s@.take(i as int));
            assert(s@.take(i as int + 1).last() == s@[i as int]);
        }
        if s[i] == '\n' {
            out.push('\\');
            out.push('n');
        } else {
            out.push(s[i]);
        }
        i = i + 1;
        proof {
            assert(out@ =~= o + escape_newlines(s@.take(i as int)));
        }
    }
    proof {
        assert(s@.take(i as int) =~= s@);
    }
}

fn push_block_line(b: &BasicBlock, out: &mut Vec<char>)
    ensures
        final(out)@ == old(out)@ + block_line(*b),
{
    let ghost o = out@;
    let mut label: Vec<char> = Vec::new();
    let mut k: usize = 0;
    while k < b.statements.len()
        invariant
            k <= b.statements@.len(),
            label@ == joined_texts(b.statements@.take(k as int)),
        decreases b.statements.len() - k,
    {
        proof {
            assert(b.statements@.take(k as int + 1).drop_last() =~= b.statements@.take(k as int));
            assert(b.statements@.take(k as int + 1).last() == b.statements@[k as int]);
        }
        if k > 0 {
            label.push('\\');
            label.push('n');
        }
        let t = chars_of(b.statements[k].text.as_str());
        escape_quotes_of(t.as_slice(), &mut label);
        k = k + 1;
        proof {
            if k == 1 {
                assert(b.statements@.take(1)[0] == b.statements@[0]);
                assert(label@ =~= joined_texts(b.statements@.take(k as int)));
            } else {
                assert(label@ =~= joined_texts(b.statements@.take(k as int)));
            }
        }
    }
    proof {
        assert(b.statements@.take(k as int) =~= b.statements@);
    }
    let base = if label.len() == 0 {
        let mut d = vec!['b', 'l', 'o', 'c', 'k', ' '];
        let n = decimal_chars(b.id.0 as usize);
        push_all(&mut d, n.as_slice());
        d
    } else {
        label
    };
    out.push(' ');
    out.push(' ');
    out.push('"');
    let idc = decimal_chars(b.id.0 as usize);
    push_all(out, idc.as_slice());
    let mid = vec!['"', ' ', '[', 'l', 'a', 'b', 'e', 'l', '=', '"'];
    push_all(out, mid.as_slice());
    escape_newlines_of(base.as_slice(), out);
    out.push('"');
    out.push(']');
    out.push(';');
    out.push('\n');
    proof {
        assert(out@ =~= o + block_line(*b));
    }
}

fn push_edge_line(e: &CfgEdge, out: &mut Vec<char>)
    ensures
        final(out)@ == old(out)@ + edge_line(*e),
{
    let ghost o = out@;
    out.push(' ');
    out.push(' ');
    out.push('"');
    let f = decimal_chars(e.from.0 as usize);
    push_all(out, f.as_slice());
    let arrow = vec!['"', ' ', '-', '>', ' ', '"'];
    push_all(out, arrow.as_slice());
    let t = decimal_chars(e.to.0 as usize);
    push_all(out, t.as_slice());
    out.push('"');
    let style: Vec<char> = match e.edge_type {
        CfgEdgeType::IfTrue => vec![' ', '[', 'l', 'a', 'b', 'e', 'l', '=', '"', 'T', '"', ']'],
        CfgEdgeType::IfFalse => vec![' ', '[', 'l', 'a', 'b', 'e', 'l', '=', '"', 'F', '"', ']'],
        CfgEdgeType::Jump => vec![' ', '[', 'l', 'a', 'b', 'e', 'l', '=', '"', 'j', 'u', 'm', 'p', '"', ' ', 's', 't', 'y', 'l', 'e', '=', 'd', 'a', 's', 'h', 'e', 'd', ']'],
        CfgEdgeType::Return => vec![' ', '[', 'l', 'a', 'b', 'e', 'l', '=', '"', 'r', 'e', 't', 'u', 'r', 'n', '"', ' ', 'c', 'o', 'l', 'o', 'r', '=', 'r', 'e', 'd', ']'],
        CfgEdgeType::Exception => vec![' ', '[', 'l', 'a', 'b', 'e', 'l', '=', '"', 'e', 'x', 'c', 'e', 'p', 't', '"', ' ', 'c', 'o', 'l', 'o', 'r', '=', 'o', 'r', 'a', 'n', 'g', 'e', ']'],
        CfgEdgeType::Next => Vec::new(),
    };
    proof {
        assert(style@ =~= edge_style(e.edge_type));
    }
    push_all(out, style.as_slice());
    out.push(';');
    out.push('\n');
    proof {
        assert(out@ =~= o + edge_line(*e));
    }
}

impl ControlFlowGraph {
    /// Render the graph in Graphviz DOT form: one node line per block (labelled with
    /// its statements) and one edge line per edge.
    pub fn to_dot(&self) -> (r: String)
        ensures
            r@ == dot_text(self.blocks@, self.edges@),
    {
        let mut out = vec!['d', 'i', 'g', 'r', 'a', 'p', 'h', ' ', 'C', 'F', 'G', ' ', '{', '\n'];
        let ghost head = out@;
        let mut i: usize = 0;
        while i < self.blocks.len()
            invariant
                i <= self.blocks@.len(),
                out@ == head + block_lines(self.blocks@.take(i as int)),
            decreases self.blocks.len() - i,
        {
            proof {
                assert(self.blocks@.take(i as int + 1).drop_last() =~= self.blocks@.take(i as int));
                assert(self.blocks@.take(i as int + 1).last() == self.blocks@[i as int]);
            }
            push_block_line(&self.blocks[i], &mut out);
            i = i + 1;
            proof {
                assert(out@ =~= head + block_lines(self.blocks@.take(i as int)));
            }
        }
        proof {
            assert(self.blocks@.take(i as int) =~= self.blocks@);
        }
        let ghost mid = out@;
        let mut k: usize = 0;
        while k < self.edges.len()
            invariant
                k <= self.edges@.len(),
                out@ == mid + edge_lines(self.edges@.take(k as int)),
            decreases self.edges.len() - k,
        {
            proof {
                assert(self.edges@.take(k as int + 1).drop_last() =~= self.edges@.take(k as int));
                assert(self.edges@.take(k as int + 1).last() == self.edges@[k as int]);
            }
            push_edge_line(&self.edges[k], &mut out);
            k = k + 1;
            proof {
                assert(out@ =~= mid + edge_lines(self.edges@.take(k as int)));
            }
        }
        proof {
            assert(self.edges@.take(k as int) =~= self.edges@);
        }
        out.push('}');
        out.push('\n');
        proof {
            assert(out@ =~= dot_text(self.blocks@, self.edges@));
        }
        string_from_chars(out.as_slice())
    }
}

} // verus!
