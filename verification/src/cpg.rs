//! Code-property-graph query records and the archive location under a repository.

use vstd::prelude::*;
use crate::text::{chars_of, push_all, string_from_chars};

verus! {

/// Snapshot of hybrid CPG readiness for a repository.
#[derive(Debug, Clone)]
pub struct CpgStatus {
    /// Schema version for JSON consumers.
    pub schema_version: u32,
    /// Absolute path checked for the CFG/PDG archive.
    pub archive_path: String,
    /// Whether the CFG/PDG archive exists and loads.
    pub archive_present: bool,
    /// Functions with archived CFG/PDG (0 if archive missing).
    pub function_count: usize,
    /// Graph digest recorded in the archive header, if any.
    pub graph_digest: Option<String>,
    /// Whether the field-write mutation index is present.
    pub field_write_index_present: bool,
    /// Number of indexed field writes (0 if missing).
    pub field_write_count: usize,
    /// Whether AST skeleton archive is present.
    pub ast_skeleton_present: bool,
    /// Functions with AST skeletons.
    pub ast_skeleton_count: usize,
}

/// Repository-level function summary joined with procedure-level availability.
#[derive(Debug, Clone)]
pub struct CpgFunctionInfo {
    /// Schema version for JSON consumers.
    pub schema_version: u32,
    /// Function node id.
    pub id: String,
    /// Simple name.
    pub name: String,
    /// Qualified name when known.
    pub qualified_name: Option<String>,
    /// Source file.
    pub file_path: Option<String>,
    /// Start line.
    pub start_line: Option<usize>,
    /// Whether a CFG/PDG archive record exists for this function.
    pub has_l_proc: bool,
    /// Constructor flag from extract metadata.
    pub is_constructor: bool,
}

/// One CALL edge neighbor.
#[derive(Debug, Clone)]
pub struct CpgCallEdge {
    /// Callee or caller id.
    pub id: String,
    /// Neighbor name.
    pub name: String,
    /// Direction relative to the queried symbol.
    pub direction: String,
}

/// CALL neighborhood for a function.
#[derive(Debug, Clone)]
pub struct CpgCallsInfo {
    /// Schema version for JSON consumers.
    pub schema_version: u32,
    /// Queried function id.
    pub function_id: String,
    /// Queried function name.
    pub function_name: String,
    /// Outgoing and incoming CALL edges.
    pub edges: Vec<CpgCallEdge>,
}

/// Result of a field-mutation query.
#[derive(Debug, Clone)]
pub struct CpgMutationsResult {
    /// Schema version for JSON consumers.
    pub schema_version: u32,
    /// Queried type name.
    pub target_type: String,
    /// Whether writes inside constructors were left out.
    pub exclude_ctors: bool,
    /// Queried member, if any.
    pub member: Option<String>,
    /// Whether writes with an unresolved receiver were kept.
    pub include_unresolved: bool,
    /// Matching writes.
    pub mutations: Vec<CpgMutationHit>,
}

/// One field write.
#[derive(Debug, Clone)]
pub struct CpgMutationHit {
    /// Source file.
    pub file: String,
    /// 1-based line.
    pub line: usize,
    /// Source text of the write.
    pub code: String,
    /// Written member.
    pub member: String,
    /// Enclosing function.
    pub function: String,
    /// Whether the enclosing function is a constructor.
    pub is_constructor: bool,
    /// Local variable holding the receiver, if known.
    pub receiver_local: Option<String>,
    /// Type of the receiver, if known.
    pub receiver_type: Option<String>,
    /// Kind of write.
    pub kind: String,
}

/// Direction of a data slice.
#[derive(Debug, Clone, Copy, PartialEq, Eq, Structural)]
pub enum SliceDirection {
    /// What the criterion affects.
    Forward,
    /// What affects the criterion.
    Backward,
}

/// Arguments of a data-flow query.
#[derive(Debug, Clone)]
pub struct CpgFlowsArgs {
    /// Repository root.
    pub repo_root: String,
    /// Source file.
    pub file: String,
    /// 1-based line of the criterion.
    pub line: usize,
    /// Variable of the criterion.
    pub variable: String,
    /// Enclosing function.
    pub function: String,
    /// Language override.
    pub language: Option<String>,
    /// Slice direction.
    pub direction: SliceDirection,
    /// Follow aliases.
    pub with_alias: bool,
}

/// One line of a data-flow slice.
#[derive(Debug, Clone)]
pub struct CpgFlowStep {
    /// 1-based line.
    pub line: usize,
    /// Source text of the line.
    pub code: String,
}

/// `part` appended to the relative path `base` (a separator is added unless `base` is
/// empty or already ends with one).
pub open spec fn path_join(base: Seq<char>, part: Seq<char>) -> Seq<char> {
    if base.len() == 0 || base.last() == '/' {
        base + part
    } else {
        base + seq!['/'] + part
    }
}

fn path_join_of(base: &Vec<char>, part: &[char]) -> (r: Vec<char>)
    ensures
        r@ == path_join(base@, part@),
{
    let mut out: Vec<char> = Vec::new();
    push_all(&mut out, base.as_slice());
    if base.len() > 0 && base[base.len() - 1] != '/' {
        out.push('/');
    }
    push_all(&mut out, part);
    out
}

/// File name of the CFG/PDG archive.
pub open spec fn archive_file_name() -> Seq<char> {
    seq!['c', 'f', 'g', '_', 'p', 'd', 'g', '.', 'a', 'r', 'c', 'h', 'i', 'v', 'e', '.', 'b', 'i', 'n']
}

/// Default archive path under a repo root: `<root>/.rgctl/analysis/cfg_pdg.archive.bin`.
pub fn archive_path(repo_root: &str) -> (r: String)
    ensures
        r@ == path_join(
            path_join(path_join(repo_root@, seq!['.', 'r', 'g', 'c', 't', 'l']), seq!['a', 'n', 'a', 'l', 'y', 's', 'i', 's']),
            archive_file_name(),
        ),
{
    let root = chars_of(repo_root);
    let a = vec!['.', 'r', 'g', 'c', 't', 'l'];
    let b = vec!['a', 'n', 'a', 'l', 'y', 's', 'i', 's'];
    let c = vec!['c', 'f', 'g', '_', 'p', 'd', 'g', '.', 'a', 'r', 'c', 'h', 'i', 'v', 'e', '.', 'b', 'i', 'n'];
    proof {
        assert(a@ =~= seq!['.', 'r', 'g', 'c', 't', 'l']);
        assert(b@ =~= seq!['a', 'n', 'a', 'l', 'y', 's', 'i', 's']);
        assert(c@ =~= archive_file_name());
    }
    let p1 = path_join_of(&root, a.as_slice());
    let p2 = path_join_of(&p1, b.as_slice());
    let p3 = path_join_of(&p2, c.as_slice());
    string_from_chars(p3.as_slice())
}

} // verus!
