//! Syntax-kind tests used while building control-flow graphs from syntax trees.

use vstd::prelude::*;
use crate::text::str_eq;

verus! {

/// Byte span of a function body in a parsed source file.
#[derive(Debug, Clone, Copy)]
pub struct FunctionLocation {
    /// Inclusive start byte offset in the source buffer.
    pub start_byte: usize,
    /// Exclusive end byte offset in the source buffer.
    pub end_byte: usize,
}

/// Syntax kinds that hold a block of statements.
pub open spec fn block_like_kind(kind: Seq<char>) -> bool {
    kind == "block"@ || kind == "statement_block"@ || kind == "statement_list"@ || kind == "compound_statement"@
        || kind == "source_file"@ || kind == "function_body"@ || kind == "block_expression"@
}

/// A syntax kind that holds a block of statements.
pub fn is_block_like(kind: &str) -> (r: bool)
    ensures
        r == block_like_kind(kind@),
{
    str_eq(kind, "block") || str_eq(kind, "statement_block") || str_eq(kind, "statement_list") || str_eq(
        kind,
        "compound_statement",
    ) || str_eq(kind, "source_file") || str_eq(kind, "function_body") || str_eq(kind, "block_expression")
}

/// Condition texts that are constantly false.
pub open spec fn constant_false_text(text: Seq<char>) -> bool {
    text == "false"@ || text == "False"@ || text == "0"@
}

/// Condition texts that are constantly true.
pub open spec fn constant_true_text(text: Seq<char>) -> bool {
    text == "true"@ || text == "True"@ || text == "1"@
}

/// The condition text is a constant false.
pub fn is_constant_false(text: &str) -> (r: bool)
    ensures
        r == constant_false_text(text@),
{
    str_eq(text, "false") || str_eq(text, "False") || str_eq(text, "0")
}

/// The condition text is a constant true.
pub fn is_constant_true(text: &str) -> (r: bool)
    ensures
        r == constant_true_text(text@),
{
    str_eq(text, "true") || str_eq(text, "True") || str_eq(text, "1")
}

} // verus!
