//! Coarse syntax skeleton of functions: node roles and short labels.

use vstd::prelude::*;
use crate::text::{chars_of, chars_slice, str_eq, string_from_chars};
use crate::blast_engine_snapshot::{le_u32_at, le_u32_exec};
use crate::cfg_pdg_archive::u32_le;
use crate::syntax_tree::{SyntaxTree, kind_at, kids_of, kids_ok, node_ok, node_text, text_of_node, valid_kid};

verus! {

/// Coarse syntax role.
#[derive(Debug, Clone, Copy, PartialEq, Eq, Structural)]
pub enum AstSkeletonKind {
    /// Function / method / constructor.
    Function,
    /// Block / compound statement.
    Block,
    /// If / conditional.
    If,
    /// Loop (while/for/loop).
    Loop,
    /// Call / invocation.
    Call,
    /// Assignment.
    Assign,
    /// Declaration / let / local.
    Decl,
    /// Catch-all named construct.
    Other,
}

/// One skeleton node.
#[derive(Debug, Clone)]
pub struct AstSkeletonNode {
    /// Stable id within the function skeleton.
    pub id: u32,
    /// Parent id (`None` = function root).
    pub parent: Option<u32>,
    /// Kind.
    pub kind: AstSkeletonKind,
    /// 1-based start line.
    pub start_line: usize,
    /// 1-based end line.
    pub end_line: usize,
    /// Short label (truncated source).
    pub label: String,
}

/// Role of a syntax kind in the skeleton, if it has one.
pub open spec fn kind_role(k: Seq<char>) -> Option<AstSkeletonKind> {
    if k == "block"@ || k == "compound_statement"@ || k == "statement_block"@ || k == "body"@ {
        Some(AstSkeletonKind::Block)
    } else if k == "if_statement"@ || k == "if_expression"@ {
        Some(AstSkeletonKind::If)
    } else if k == "while_statement"@ || k == "while_expression"@ || k == "for_statement"@ || k == "for_expression"@
        || k == "loop_expression"@ || k == "do_statement"@ || k == "foreach_statement"@ {
        Some(AstSkeletonKind::Loop)
    } else if k == "call_expression"@ || k == "method_invocation"@ || k == "invocation_expression"@ || k
        == "function_call"@ {
        Some(AstSkeletonKind::Call)
    } else if k == "assignment_expression"@ || k == "assignment"@ || k == "assignment_statement"@ || k
        == "augmented_assignment"@ || k == "compound_assignment_expr"@ {
        Some(AstSkeletonKind::Assign)
    } else if k == "let_declaration"@ || k == "let_statement"@ || k == "local_variable_declaration"@ || k
        == "variable_declaration"@ || k == "short_var_declaration"@ || k == "declaration"@ {
        Some(AstSkeletonKind::Decl)
    } else {
        None
    }
}

/// Skeleton role of a syntax kind.
pub fn classify(kind: &str) -> (r: Option<AstSkeletonKind>)
    ensures
        r == kind_role(kind@),
{
    if str_eq(kind, "block") || str_eq(kind, "compound_statement") || str_eq(kind, "statement_block") || str_eq(kind, "body") {
        Some(AstSkeletonKind::Block)
    } else if str_eq(kind, "if_statement") || str_eq(kind, "if_expression") {
        Some(AstSkeletonKind::If)
    } else if str_eq(kind, "while_statement") || str_eq(kind, "while_expression") || str_eq(kind, "for_statement")
        || str_eq(kind, "for_expression") || str_eq(kind, "loop_expression") || str_eq(kind, "do_statement") || str_eq(
        kind,
        "foreach_statement",
    ) {
        Some(AstSkeletonKind::Loop)
    } else if str_eq(kind, "call_expression") || str_eq(kind, "method_invocation") || str_eq(kind, "invocation_expression")
        || str_eq(kind, "function_call") {
        Some(AstSkeletonKind::Call)
    } else if str_eq(kind, "assignment_expression") || str_eq(kind, "assignment") || str_eq(kind, "assignment_statement")
        || str_eq(kind, "augmented_assignment") || str_eq(kind, "compound_assignment_expr") {
        Some(AstSkeletonKind::Assign)
    } else if str_eq(kind, "let_declaration") || str_eq(kind, "let_statement") || str_eq(kind, "local_variable_declaration")
        || str_eq(kind, "variable_declaration") || str_eq(kind, "short_var_declaration") || str_eq(kind, "declaration") {
        Some(AstSkeletonKind::Decl)
    } else {
        None
    }
}

/// Unicode white space (the `White_Space` property that `char::is_whitespace` tests).
pub open spec fn is_white(c: char) -> bool {
    ||| c == ' '
    ||| ('\t' <= c <= '\r')
    ||| c == '\u{85}'
    ||| c == '\u{A0}'
    ||| c == '\u{1680}'
    ||| ('\u{2000}' <= c <= '\u{200A}')
    ||| c == '\u{2028}'
    ||| c == '\u{2029}'
    ||| c == '\u{202F}'
    ||| c == '\u{205F}'
    ||| c == '\u{3000}'
}

fn is_white_exec(c: char) -> (r: bool)
    ensures
        r == is_white(c),
{
    c == ' ' || ('\t' <= c && c <= '\r') || c == '\u{85}' || c == '\u{A0}' || c == '\u{1680}' || ('\u{2000}' <= c && c
        <= '\u{200A}') || c == '\u{2028}' || c == '\u{2029}' || c == '\u{202F}' || c == '\u{205F}' || c == '\u{3000}'
}

/// `s` without leading white space.
pub open spec fn trim_start(s: Seq<char>) -> Seq<char>
    decreases s.len(),
{
    if s.len() > 0 && is_white(s[0]) {
        trim_start(s.drop_first())
    } else {
        s
    }
}

/// `s` without trailing white space.
pub open spec fn trim_end(s: Seq<char>) -> Seq<char>
    decreases s.len(),
{
    if s.len() > 0 && is_white(s.last()) {
        trim_end(s.drop_last())
    } else {
        s
    }
}

/// First line of `s` (up to the first `\n`, without a `\r` just before it).
pub open spec fn first_line(s: Seq<char>) -> Seq<char> {
    let k = first_index_of(s, '\n');
    if k < 0 {
        s
    } else {
        let line = s.take(k);
        if line.len() > 0 && line.last() == '\r' {
            line.drop_last()
        } else {
            line
        }
    }
}

/// Index of the first `c` in `s`, or -1.
pub open spec fn first_index_of(s: Seq<char>, c: char) -> int
    decreases s.len(),
{
    if s.len() == 0 {
        -1
    } else if s[0] == c {
        0
    } else {
        let r = first_index_of(s.drop_first(), c);
        if r < 0 { -1 } else { r + 1 }
    }
}

/// A label: the trimmed first line, cut to 79 characters and an ellipsis when longer
/// than 80 characters.
pub open spec fn label_text(s: Seq<char>) -> Seq<char> {
    let one = trim_end(trim_start(first_line(s)));
    if one.len() > 80 {
        one.take(79).push('\u{2026}')
    } else {
        one
    }
}

proof fn lemma_first_index_of(s: Seq<char>, c: char, i: int)
    requires
        0 <= i <= s.len(),
        forall|j: int| 0 <= j < i ==> s[j] != c,
        i == s.len() || s[i] == c,
    ensures
        first_index_of(s, c) == (if i == s.len() { -1 } else { i }),
    decreases i,
{
    if i > 0 {
        lemma_first_index_of(s.drop_first(), c, i - 1);
    }
}

proof fn lemma_trim_start_skip(s: Seq<char>, i: int)
    requires
        0 <= i <= s.len(),
        forall|j: int| 0 <= j < i ==> is_white(#[trigger] s[j]),
    ensures
        trim_start(s) == trim_start(s.subrange(i, s.len() as int)),
    decreases i,
{
    if i > 0 {
        assert(s.drop_first().subrange(i - 1, s.drop_first().len() as int) =~= s.subrange(i, s.len() as int));
        lemma_trim_start_skip(s.drop_first(), i - 1);
    } else {
        assert(s.subrange(0, s.len() as int) =~= s);
    }
}

proof fn lemma_trim_end_cut(s: Seq<char>, j: int)
    requires
        0 <= j <= s.len(),
        forall|k: int| j <= k < s.len() ==> is_white(#[trigger] s[k]),
    ensures
        trim_end(s) == trim_end(s.take(j)),
    decreases s.len() - j,
{
    if j < s.len() {
        assert(s.drop_last().take(j) =~= s.take(j));
        lemma_trim_end_cut(s.drop_last(), j);
    } else {
        assert(s.take(j) =~= s);
    }
}

/// Short label for a skeleton node from its source text.
pub fn truncate_label(s: &str) -> (r: String)
    ensures
        r@ == label_text(s@),
{
    let c = chars_of(s);
    let n = c.len();
    let mut k: usize = 0;
    while k < n && c[k] != '\n'
        invariant
            n == c@.len(),
            k <= n,
            forall|j: int| 0 <= j < k ==> c@[j] != '\n',
        decreases n - k,
    {
        k = k + 1;
    }
    proof {
        lemma_first_index_of(c@, '\n', k as int);
    }
    let mut end = k;
    if k < n && k > 0 && c[k - 1] == '\r' {
        end = k - 1;
    }
    let line = chars_slice(c.as_slice(), 0, end);
    proof {
        if k < n {
            if k > 0 {
                assert(c@.take(k as int).drop_last() =~= c@.take(k as int - 1));
            }
            assert(line@ =~= first_line(s@));
        } else {
            assert(line@ =~= c@);
        }
    }
    let m = line.len();
    let mut a: usize = 0;
    while a < m && is_white_exec(line[a])
        invariant
            m == line@.len(),
            a <= m,
            forall|j: int| 0 <= j < a ==> is_white(#[trigger] line@[j]),
        decreases m - a,
    {
        a = a + 1;
    }
    proof {
        lemma_trim_start_skip(line@, a as int);
    }
    let t = chars_slice(line.as_slice(), a, m);
    proof {
        if a < m {
            assert(!is_white(t@[0]));
        }
        assert(trim_start(t@) == t@);
    }
    let mut b: usize = t.len();
    while b > 0 && is_white_exec(t[b - 1])
        invariant
            b <= t@.len(),
            forall|j: int| b <= j < t@.len() ==> is_white(#[trigger] t@[j]),
        decreases b,
    {
        b = b - 1;
    }
    proof {
        lemma_trim_end_cut(t@, b as int);
    }
    let one = chars_slice(t.as_slice(), 0, b);
    proof {
        if b > 0 {
            assert(one@.last() == t@[b - 1]);
        }
        assert(trim_end(one@) == one@);
        assert(one@ == trim_end(trim_start(first_line(s@))));
    }
    if one.len() > 80 {
        let mut cut = chars_slice(one.as_slice(), 0, 79);
        cut.push('\u{2026}');
        proof {
            assert(cut@ =~= one@.take(79).push('\u{2026}'));
        }
        string_from_chars(cut.as_slice())
    } else {
        string_from_chars(one.as_slice())
    }
}


/// One skeleton node as plain values: id, parent, kind, lines and label.
pub type SkelEntry = (u32, Option<u32>, AstSkeletonKind, usize, usize, Seq<char>);

/// A skeleton node read as plain values.
pub open spec fn entry_view(x: AstSkeletonNode) -> SkelEntry {
    (x.id, x.parent, x.kind, x.start_line, x.end_line, x.label@)
}

/// Skeleton nodes read as plain values.
pub open spec fn entries_view(v: Seq<AstSkeletonNode>) -> Seq<SkelEntry> {
    v.map_values(|x: AstSkeletonNode| entry_view(x))
}

/// Text of node `n`, or nothing when its bytes are not UTF-8.
pub open spec fn text_or_empty(t: SyntaxTree, src: Seq<u8>, n: int) -> Seq<char> {
    match node_text(t, src, n) {
        Some(s) => s,
        None => Seq::empty(),
    }
}

/// Line numbers of every node fit a `usize` once made one-based.
pub open spec fn rows_fit(t: SyntaxTree) -> bool {
    forall|i: int| 0 <= i < t.nodes@.len() ==> (#[trigger] t.nodes@[i]).start_row < usize::MAX && t.nodes@[i].end_row
        < usize::MAX
}

/// Skeleton nodes emitted for the subtree of `n`, in pre-order, under `parent`, numbered
/// from `next`: a node with a skeleton role is emitted and becomes the parent of what lies
/// below it.
pub open spec fn skeleton_of(t: SyntaxTree, src: Seq<u8>, n: int, parent: u32, next: int) -> Seq<SkelEntry>
    decreases t.nodes@.len() - n, 1nat, 0int,
{
    match kind_role(kind_at(t, n)) {
        Some(k) => seq![
            (
                next as u32,
                Some(parent),
                k,
                (t.nodes@[n].start_row + 1) as usize,
                (t.nodes@[n].end_row + 1) as usize,
                label_text(text_or_empty(t, src, n)),
            ),
        ] + skeleton_kids(t, src, n, 0, next as u32, next + 1),
        None => skeleton_kids(t, src, n, 0, parent, next),
    }
}

/// Skeleton nodes emitted for the children of `n` from position `k` on.
pub open spec fn skeleton_kids(t: SyntaxTree, src: Seq<u8>, n: int, k: int, parent: u32, next: int) -> Seq<SkelEntry>
    decreases t.nodes@.len() - n, 0nat, kids_of(t, n).len() - k,
{
    if k < 0 || k >= kids_of(t, n).len() {
        Seq::empty()
    } else {
        let c = kids_of(t, n)[k] as int;
        if valid_kid(t, n, c) {
            let a = skeleton_of(t, src, c, parent, next);
            a + skeleton_kids(t, src, n, k + 1, parent, next + a.len())
        } else {
            skeleton_kids(t, src, n, k + 1, parent, next)
        }
    }
}

/// Label of node `n`.
fn node_label(t: &SyntaxTree, src: &[u8], n: usize) -> (r: String)
    requires
        t.wf(src@.len()),
        n < t.nodes@.len(),
    ensures
        r@ == label_text(text_or_empty(*t, src@, n as int)),
{
    match text_of_node(t, src, n) {
        Some(s) => truncate_label(s.as_str()),
        None => {
            proof {
                reveal_strlit("");
            }
            truncate_label("")
        },
    }
}

/// Emit the skeleton of the subtree of `n` under `parent`, numbering from `next_id`.
fn walk_skeleton(
    t: &SyntaxTree,
    src: &[u8],
    n: usize,
    parent: u32,
    out: &mut Vec<AstSkeletonNode>,
    next_id: &mut u32,
)
    requires
        t.wf(src@.len()),
        rows_fit(*t),
        n < t.nodes@.len(),
        *old(next_id) + skeleton_of(*t, src@, n as int, parent, *old(next_id) as int).len() <= u32::MAX,
    ensures
        entries_view(final(out)@) == entries_view(old(out)@) + skeleton_of(*t, src@, n as int, parent, *old(next_id) as int),
        *final(next_id) == *old(next_id) + skeleton_of(*t, src@, n as int, parent, *old(next_id) as int).len(),
    decreases t.nodes@.len() - n, 1nat, 0int,
{
    assert(node_ok(*t, n as int, src@.len()));
    let ghost out0 = out@;
    let ghost id0 = *next_id as int;
    let role = classify(t.nodes[n].kind.as_str());
    let child_parent = match role {
        Some(k) => {
            let id = *next_id;
            *next_id = *next_id + 1;
            let label = node_label(t, src, n);
            assert(t.nodes@[n as int].start_row < usize::MAX);
            out.push(
                AstSkeletonNode {
                    id,
                    parent: Some(parent),
                    kind: k,
                    start_line: t.nodes[n].start_row + 1,
                    end_line: t.nodes[n].end_row + 1,
                    label,
                },
            );
            assert(entries_view(out@) =~= entries_view(out0) + skeleton_of(*t, src@, n as int, parent, id0).take(1));
            id
        },
        None => parent,
    };
    let ghost base = entries_view(out@);
    let ghost start = *next_id as int;
    let ghost rest = skeleton_kids(*t, src@, n as int, 0, child_parent, start);
    assert(skeleton_of(*t, src@, n as int, parent, id0) =~= entries_view(out@).skip(out0.len() as int) + rest);
    let kids = &t.nodes[n].children;
    let mut i: usize = 0;
    while i < kids.len()
        invariant
            t.wf(src@.len()),
            rows_fit(*t),
            n < t.nodes@.len(),
            kids_ok(*t, n as int),
            kids@ == kids_of(*t, n as int),
            i <= kids@.len(),
            rest == skeleton_kids(*t, src@, n as int, 0, child_parent, start),
            entries_view(out@) + skeleton_kids(*t, src@, n as int, i as int, child_parent, *next_id as int) == base
                + rest,
            *next_id as int + skeleton_kids(*t, src@, n as int, i as int, child_parent, *next_id as int).len()
                == start + rest.len(),
            start + rest.len() <= u32::MAX,
        decreases kids@.len() - i,
    {
        let c = kids[i];
        assert(valid_kid(*t, n as int, kids@[i as int] as int));
        let ghost before = entries_view(out@);
        let ghost nid = *next_id as int;
        let ghost a = skeleton_of(*t, src@, c as int, child_parent, nid);
        let ghost tail = skeleton_kids(*t, src@, n as int, i + 1, child_parent, nid + a.len());
        assert(skeleton_kids(*t, src@, n as int, i as int, child_parent, nid) == a + tail);
        walk_skeleton(t, src, c, child_parent, out, next_id);
        assert(entries_view(out@) + tail =~= before + (a + tail));
        i = i + 1;
    }
    assert(skeleton_kids(*t, src@, n as int, i as int, child_parent, *next_id as int) =~= Seq::<SkelEntry>::empty());
    assert(entries_view(out@) =~= entries_view(out0) + skeleton_of(*t, src@, n as int, parent, id0));
}


/// Format version of skeleton archives.
pub const AST_SKELETON_VERSION: u32 = 1;

/// Per-function skeleton.
pub struct AstSkeletonRecord {
    /// Function id when known.
    pub function_id: Option<u128>,
    /// Function name.
    pub function_name: String,
    /// Source path.
    pub file_path: String,
    /// Skeleton nodes.
    pub nodes: Vec<AstSkeletonNode>,
}

/// Archive of skeletons.
pub struct AstSkeletonArchive {
    /// Format version.
    pub version: u32,
    /// Optional graph digest.
    pub graph_digest: Option<String>,
    /// Per-function records.
    pub records: Vec<AstSkeletonRecord>,
}

/// Skeleton of the function node `func` of `tree`: the function itself as node 0, labelled
/// by its text (or by `function_name` when that text is not UTF-8), then the skeleton of its
/// subtree numbered from 1.
pub open spec fn function_skeleton(t: SyntaxTree, src: Seq<u8>, func: int, function_name: Seq<char>) -> Seq<SkelEntry> {
    let label = match node_text(t, src, func) {
        Some(s) => s,
        None => function_name,
    };
    seq![
        (
            0u32,
            None,
            AstSkeletonKind::Function,
            (t.nodes@[func].start_row + 1) as usize,
            (t.nodes@[func].end_row + 1) as usize,
            label_text(label),
        ),
    ] + skeleton_of(t, src, func, 0, 1)
}

/// Build the skeleton record of the function node `func`.
pub fn build_function_skeleton(
    tree: &SyntaxTree,
    source: &[u8],
    func: usize,
    function_name: &str,
    file_path: &str,
    function_id: Option<u128>,
) -> (r: AstSkeletonRecord)
    requires
        tree.wf(source@.len()),
        rows_fit(*tree),
        func < tree.nodes@.len(),
        1 + skeleton_of(*tree, source@, func as int, 0, 1).len() <= u32::MAX,
    ensures
        r.function_id == function_id,
        r.function_name@ == function_name@,
        r.file_path@ == file_path@,
        entries_view(r.nodes@) == function_skeleton(*tree, source@, func as int, function_name@),
{
    assert(node_ok(*tree, func as int, source@.len()));
    let label = match text_of_node(tree, source, func) {
        Some(s) => truncate_label(s.as_str()),
        None => truncate_label(function_name),
    };
    let mut nodes: Vec<AstSkeletonNode> = Vec::new();
    nodes.push(
        AstSkeletonNode {
            id: 0,
            parent: None,
            kind: AstSkeletonKind::Function,
            start_line: tree.nodes[func].start_row + 1,
            end_line: tree.nodes[func].end_row + 1,
            label,
        },
    );
    let mut next_id: u32 = 1;
    let ghost first = entries_view(nodes@);
    walk_skeleton(tree, source, func, 0, &mut nodes, &mut next_id);
    assert(entries_view(nodes@) =~= function_skeleton(*tree, source@, func as int, function_name@));
    AstSkeletonRecord {
        function_id,
        function_name: String::from_str(function_name),
        file_path: String::from_str(file_path),
        nodes,
    }
}

/// Leading bytes of a skeleton archive file: `RBAS`.
pub open spec fn skeleton_magic() -> Seq<u8> {
    seq![0x52u8, 0x42u8, 0x41u8, 0x53u8]
}

/// Why a skeleton archive image was refused.
#[derive(Debug, Clone, Copy, PartialEq, Eq, Structural)]
pub enum SkeletonArchiveError {
    /// Shorter than the header, or not starting with `RBAS`.
    InvalidMagic,
    /// A format version other than the supported one.
    UnsupportedVersion { version: u32 },
}

/// Header of a skeleton archive file: magic, then the version in little-endian order.
pub fn skeleton_archive_header() -> (r: Vec<u8>)
    ensures
        r@ == skeleton_magic() + u32_le(AST_SKELETON_VERSION),
{
    let r: Vec<u8> = vec![0x52u8, 0x42u8, 0x41u8, 0x53u8, 1u8, 0u8, 0u8, 0u8];
    assert(((1u32 & 0xff) as u8 == 1u8) && (((1u32 >> 8u32) & 0xff) as u8 == 0u8) && (((1u32 >> 16u32) & 0xff) as u8
        == 0u8) && (((1u32 >> 24u32) & 0xff) as u8 == 0u8)) by (bit_vector);
    assert(r@ =~= skeleton_magic() + u32_le(AST_SKELETON_VERSION));
    r
}

/// Offset of the serialized archive in a skeleton archive image: after the magic and a
/// supported version.
pub fn skeleton_payload_start(b: &[u8]) -> (r: Result<usize, SkeletonArchiveError>)
    ensures
        (b@.len() < 8 || b@.subrange(0, 4) != skeleton_magic()) ==> r == Err::<usize, SkeletonArchiveError>(
            SkeletonArchiveError::InvalidMagic,
        ),
        b@.len() >= 8 && b@.subrange(0, 4) == skeleton_magic() && le_u32_at(b@, 4) != AST_SKELETON_VERSION ==> r
            == Err::<usize, SkeletonArchiveError>(
            SkeletonArchiveError::UnsupportedVersion { version: le_u32_at(b@, 4) },
        ),
        b@.len() >= 8 && b@.subrange(0, 4) == skeleton_magic() && le_u32_at(b@, 4) == AST_SKELETON_VERSION ==> r == Ok::<
            usize,
            SkeletonArchiveError,
        >(8),
{
    if b.len() < 8 {
        return Err(SkeletonArchiveError::InvalidMagic);
    }
    if !(b[0] == 0x52 && b[1] == 0x42 && b[2] == 0x41 && b[3] == 0x53) {
        proof {
            if b@.subrange(0, 4) == skeleton_magic() {
                assert(b@.subrange(0, 4)[0] == b@[0]);
                assert(b@.subrange(0, 4)[1] == b@[1]);
                assert(b@.subrange(0, 4)[2] == b@[2]);
                assert(b@.subrange(0, 4)[3] == b@[3]);
            }
        }
        return Err(SkeletonArchiveError::InvalidMagic);
    }
    proof {
        assert(b@.subrange(0, 4) =~= skeleton_magic());
    }
    let version = le_u32_exec(b, 4);
    if version != AST_SKELETON_VERSION {
        return Err(SkeletonArchiveError::UnsupportedVersion { version });
    }
    Ok(8)
}


/// Entries numbered from `next` in order, each under a parent numbered before it.
pub open spec fn numbered_from(s: Seq<SkelEntry>, next: int) -> bool {
    forall|i: int|
        0 <= i < s.len() ==> (#[trigger] s[i]).0 as int == next + i && (s[i].1 matches Some(p) && (p as int) < next + i)
}

proof fn lemma_skeleton_of_numbered(t: SyntaxTree, src: Seq<u8>, n: int, parent: u32, next: int)
    requires
        parent < next,
        next + skeleton_of(t, src, n, parent, next).len() <= u32::MAX,
    ensures
        numbered_from(skeleton_of(t, src, n, parent, next), next),
    decreases t.nodes@.len() - n, 1nat, 0int,
{
    let s = skeleton_of(t, src, n, parent, next);
    match kind_role(kind_at(t, n)) {
        Some(k) => {
            let rest = skeleton_kids(t, src, n, 0, next as u32, next + 1);
            assert((next as u32) as int == next);
            lemma_skeleton_kids_numbered(t, src, n, 0, next as u32, next + 1);
            assert forall|i: int| 0 <= i < s.len() implies (#[trigger] s[i]).0 as int == next + i && (s[i].1 matches Some(
                p,
            ) && (p as int) < next + i) by {
                if i > 0 {
                    assert(s[i] == rest[i - 1]);
                }
            }
        },
        None => {
            lemma_skeleton_kids_numbered(t, src, n, 0, parent, next);
        },
    }
}

proof fn lemma_skeleton_kids_numbered(t: SyntaxTree, src: Seq<u8>, n: int, k: int, parent: u32, next: int)
    requires
        parent < next,
        next + skeleton_kids(t, src, n, k, parent, next).len() <= u32::MAX,
    ensures
        numbered_from(skeleton_kids(t, src, n, k, parent, next), next),
    decreases t.nodes@.len() - n, 0nat, kids_of(t, n).len() - k,
{
    if k >= 0 && k < kids_of(t, n).len() {
        let c = kids_of(t, n)[k] as int;
        if valid_kid(t, n, c) {
            let a = skeleton_of(t, src, c, parent, next);
            let rest = skeleton_kids(t, src, n, k + 1, parent, next + a.len());
            let s = skeleton_kids(t, src, n, k, parent, next);
            assert(s == a + rest);
            lemma_skeleton_of_numbered(t, src, c, parent, next);
            lemma_skeleton_kids_numbered(t, src, n, k + 1, parent, next + a.len());
            assert forall|i: int| 0 <= i < s.len() implies (#[trigger] s[i]).0 as int == next + i && (s[i].1 matches Some(
                p,
            ) && (p as int) < next + i) by {
                if i < a.len() {
                    assert(s[i] == a[i]);
                } else {
                    assert(s[i] == rest[i - a.len()]);
                }
            }
        } else {
            lemma_skeleton_kids_numbered(t, src, n, k + 1, parent, next);
        }
    }
}

/// Skeleton nodes are numbered 0, 1, 2, ... in order; the function node is the only one
/// without a parent, and every other node's parent is numbered before it.
pub proof fn lemma_skeleton_numbering(t: SyntaxTree, src: Seq<u8>, func: int, function_name: Seq<char>)
    requires
        1 + skeleton_of(t, src, func, 0, 1).len() <= u32::MAX,
    ensures
        forall|i: int|
            0 <= i < function_skeleton(t, src, func, function_name).len() ==> (#[trigger] function_skeleton(
                t,
                src,
                func,
                function_name,
            )[i]).0 as int == i,
        function_skeleton(t, src, func, function_name)[0].1 is None,
        forall|i: int|
            1 <= i < function_skeleton(t, src, func, function_name).len() ==> ((#[trigger] function_skeleton(
                t,
                src,
                func,
                function_name,
            )[i]).1 matches Some(p) && (p as int) < i),
{
    let s = function_skeleton(t, src, func, function_name);
    let rest = skeleton_of(t, src, func, 0, 1);
    lemma_skeleton_of_numbered(t, src, func, 0, 1);
    assert forall|i: int| 1 <= i < s.len() implies (#[trigger] s[i]).0 as int == i && (s[i].1 matches Some(p) && (p
        as int) < i) by {
        assert(s[i] == rest[i - 1]);
    }
}

} // verus!
