//! Syntax-kind tests used by definition/use extraction.

use vstd::prelude::*;
use crate::cfg::DefVar;
use crate::syntax_tree::{
    SyntaxTree, valid_kid, kind_at, kids_of, field_child, orf, node_text, opt_int, child_by_field,
    text_of_node, kids_ok, node_ok,
};
use crate::text::{str_eq, chars_of, string_from_chars};

verus! {

/// Syntax kinds of field accesses.
pub open spec fn field_access_kind(kind: Seq<char>) -> bool {
    kind == "field_access"@ || kind == "field_expression"@ || kind == "member_expression"@
        || kind == "member_access_expression"@ || kind == "selector_expression"@ || kind == "attribute"@
}

/// A field-access syntax kind.
pub fn is_field_access_kind(kind: &str) -> (r: bool)
    ensures
        r == field_access_kind(kind@),
{
    str_eq(kind, "field_access") || str_eq(kind, "field_expression") || str_eq(kind, "member_expression") || str_eq(
        kind,
        "member_access_expression",
    ) || str_eq(kind, "selector_expression") || str_eq(kind, "attribute")
}

/// Syntax kinds of patterns that bind names.
pub open spec fn binding_pattern_kind(kind: Seq<char>) -> bool {
    kind == "identifier"@ || kind == "shorthand_field_identifier"@ || kind == "tuple_pattern"@
        || kind == "tuple_struct_pattern"@ || kind == "struct_pattern"@ || kind == "pattern"@ || kind == "list_pattern"@
        || kind == "attribute"@ || kind == "rest_pattern"@ || kind == "wildcard_pattern"@
}

/// A pattern syntax kind that binds names.
pub fn is_binding_pattern(kind: &str) -> (r: bool)
    ensures
        r == binding_pattern_kind(kind@),
{
    str_eq(kind, "identifier") || str_eq(kind, "shorthand_field_identifier") || str_eq(kind, "tuple_pattern")
        || str_eq(kind, "tuple_struct_pattern") || str_eq(kind, "struct_pattern") || str_eq(kind, "pattern")
        || str_eq(kind, "list_pattern") || str_eq(kind, "attribute") || str_eq(kind, "rest_pattern") || str_eq(
        kind,
        "wildcard_pattern",
    )
}


/// Depth past which the walk stops descending.
pub const AST_WALK_MAX_DEPTH: usize = 2048;

/// A definition as plain values: the receiver or local name, and the member for a field.
pub type DefKey = (Seq<char>, Option<Seq<char>>);

/// Definitions and uses found by a walk.
pub type DefUse = (Set<DefKey>, Set<Seq<char>>);

/// A definition read as plain values.
pub open spec fn def_key(d: DefVar) -> DefKey {
    match d {
        DefVar::Local(s) => (s@, None),
        DefVar::Field { receiver, member } => (receiver@, Some(member@)),
    }
}

/// Canonical name of a definition key: the local name, or `receiver.member`.
pub open spec fn key_name(k: DefKey) -> Seq<char> {
    match k.1 {
        Some(m) => k.0 + seq!['.'] + m,
        None => k.0,
    }
}

/// The definition keys held in a list.
pub open spec fn dkeys(v: Seq<DefVar>) -> Set<DefKey> {
    Set::new(|k: DefKey| exists|i: int| 0 <= i < v.len() && def_key(v[i]) == k)
}

/// No two definitions in the list have the same key.
pub open spec fn dkeys_unique(v: Seq<DefVar>) -> bool {
    forall|i: int, j: int| 0 <= i < j < v.len() ==> def_key(v[i]) != def_key(v[j])
}

/// The names held in a list of strings.
pub open spec fn ukeys(v: Seq<String>) -> Set<Seq<char>> {
    Set::new(|s: Seq<char>| exists|i: int| 0 <= i < v.len() && v[i]@ == s)
}

/// No two strings in the list are equal.
pub open spec fn ukeys_unique(v: Seq<String>) -> bool {
    forall|i: int, j: int| 0 <= i < j < v.len() ==> v[i]@ != v[j]@
}

/// Nothing found.
pub open spec fn du_empty() -> DefUse {
    (Set::empty(), Set::empty())
}

/// Definitions only.
pub open spec fn defs_only(s: Set<DefKey>) -> DefUse {
    (s, Set::empty())
}

/// Both findings together.
pub open spec fn du_union(a: DefUse, b: DefUse) -> DefUse {
    (a.0 + b.0, a.1 + b.1)
}

/// Decreasing measure of the walk depth.
pub open spec fn fuel(d: int) -> nat {
    if d < 2050 {
        (2050 - d) as nat
    } else {
        0
    }
}

/// Leading `$` signs removed.
pub open spec fn strip_dollars(s: Seq<char>) -> Seq<char>
    decreases s.len(),
{
    if s.len() > 0 && s[0] == '$' {
        strip_dollars(s.drop_first())
    } else {
        s
    }
}

/// Kinds of patterns whose children are patterns.
pub open spec fn compound_pattern_kind(k: Seq<char>) -> bool {
    k == "tuple_pattern"@ || k == "tuple_struct_pattern"@ || k == "struct_pattern"@ || k == "pattern"@
        || k == "list_pattern"@ || k == "attribute"@ || k == "rest_pattern"@
}

/// Identifier kinds that name variables.
pub open spec fn binding_name_kind(k: Seq<char>) -> bool {
    k == "identifier"@ || k == "shorthand_field_identifier"@ || k == "variable_name"@
}

/// Identifier kinds of every sort.
pub open spec fn identifier_kind(k: Seq<char>) -> bool {
    binding_name_kind(k) || k == "field_identifier"@ || k == "type_identifier"@
}

/// Assignment kinds whose left side is defined and right side used.
pub open spec fn assignment_kind(k: Seq<char>) -> bool {
    k == "assignment_expression"@ || k == "augmented_assignment_expression"@ || k == "compound_assignment_expr"@
        || k == "assignment"@ || k == "short_var_declaration"@ || k == "assignment_statement"@
}

/// Local declaration kinds whose children are declarators.
pub open spec fn local_decl_kind(k: Seq<char>) -> bool {
    k == "variable_declaration"@ || k == "local_declaration_statement"@ || k == "local_variable_declaration"@
        || k == "lexical_declaration"@ || k == "variable_declaration_list"@
}

/// C declarator kinds that wrap an inner declarator.
pub open spec fn wrapping_declarator_kind(k: Seq<char>) -> bool {
    k == "pointer_declarator"@ || k == "function_declarator"@ || k == "array_declarator"@
        || k == "parenthesized_declarator"@
}

/// The field-name child of a field access.
pub open spec fn access_field(t: SyntaxTree, n: int) -> Option<int> {
    orf(
        field_child(t, n, "field"@),
        orf(field_child(t, n, "property"@), orf(field_child(t, n, "attribute"@), field_child(t, n, "name"@))),
    )
}

/// The object child of a field access, as its definition reads it.
pub open spec fn access_object(t: SyntaxTree, n: int) -> Option<int> {
    orf(
        field_child(t, n, "object"@),
        orf(
            field_child(t, n, "operand"@),
            orf(field_child(t, n, "argument"@), orf(field_child(t, n, "value"@), field_child(t, n, "expression"@))),
        ),
    )
}

/// The base child of a field access whose uses are collected.
pub open spec fn access_base(t: SyntaxTree, n: int) -> Option<int> {
    orf(
        field_child(t, n, "object"@),
        orf(field_child(t, n, "argument"@), orf(field_child(t, n, "value"@), field_child(t, n, "expression"@))),
    )
}

/// The definition a field access names: `receiver.member` when both parts read, else
/// the whole text as a local.
pub open spec fn access_def(t: SyntaxTree, src: Seq<u8>, n: int) -> Option<DefKey> {
    match (access_object(t, n), access_field(t, n)) {
        (Some(o), Some(f)) => match (node_text(t, src, o), node_text(t, src, f)) {
            (Some(a), Some(b)) => Some((a, Some(b))),
            _ => None,
        },
        _ => match node_text(t, src, n) {
            Some(s) => Some((s, None)),
            None => None,
        },
    }
}

/// An optional definition as a set.
pub open spec fn opt_set(o: Option<DefKey>) -> Set<DefKey> {
    match o {
        Some(k) => set![k],
        None => Set::empty(),
    }
}

/// Definitions named by a C declarator.
pub open spec fn declarator_defs(t: SyntaxTree, src: Seq<u8>, n: int) -> Set<DefKey>
    decreases t.nodes@.len() - n, 1nat, 0int,
{
    let k = kind_at(t, n);
    if k == "identifier"@ {
        match node_text(t, src, n) {
            Some(s) => set![(s, None)],
            None => Set::empty(),
        }
    } else if wrapping_declarator_kind(k) {
        match field_child(t, n, "declarator"@) {
            Some(x) => if valid_kid(t, n, x) {
                declarator_defs(t, src, x)
            } else {
                Set::empty()
            },
            None => Set::empty(),
        }
    } else {
        declarator_kids(t, src, n, 0)
    }
}

/// Definitions named by the named children of `n` from position `k` on.
pub open spec fn declarator_kids(t: SyntaxTree, src: Seq<u8>, n: int, k: int) -> Set<DefKey>
    decreases t.nodes@.len() - n, 0nat, kids_of(t, n).len() - k,
{
    if k < 0 || k >= kids_of(t, n).len() {
        Set::empty()
    } else {
        let c = kids_of(t, n)[k] as int;
        let rest = declarator_kids(t, src, n, k + 1);
        if valid_kid(t, n, c) && t.nodes@[c].named {
            declarator_defs(t, src, c) + rest
        } else {
            rest
        }
    }
}

/// Declarator definitions of an optional child of `p`.
pub open spec fn opt_declarator(t: SyntaxTree, src: Seq<u8>, p: int, x: Option<int>) -> Set<DefKey> {
    match x {
        Some(y) => if valid_kid(t, p, y) {
            declarator_defs(t, src, y)
        } else {
            Set::empty()
        },
        None => Set::empty(),
    }
}

/// How the children of a node are visited.
#[derive(PartialEq, Eq, Structural, Clone, Copy)]
pub enum ChildRule {
    /// Walk every child for uses.
    Walk,
    /// Every child is a pattern.
    Pattern,
    /// Walk the `range_clause` / `for_clause` children.
    ForClause,
    /// Go `var_spec` and `var_spec_list` children.
    VarDecl,
    /// Go `var_spec` children.
    VarList,
    /// Identifier and `expression_list` children of a Go `var_spec`.
    GoSpec,
    /// Named children are both defined and used.
    ExprList,
    /// `variable_declarator` children and nested declarations.
    LocalDecl,
    /// C `init_declarator` children.
    InitDecl,
}

/// Walk the optional child `x` of `p` for uses at depth `e`.
pub open spec fn opt_walk(t: SyntaxTree, src: Seq<u8>, p: int, x: Option<int>, e: int) -> DefUse
    decreases fuel(e), t.nodes@.len() - p, 0nat, 0int,
{
    match x {
        Some(y) => if valid_kid(t, p, y) {
            walk(t, src, y, false, e)
        } else {
            du_empty()
        },
        None => du_empty(),
    }
}

/// Pattern definitions of the optional child `x` of `p` at depth `e`.
pub open spec fn opt_pattern(t: SyntaxTree, src: Seq<u8>, p: int, x: Option<int>, e: int) -> Set<DefKey>
    decreases fuel(e), t.nodes@.len() - p, 0nat, 0int,
{
    match x {
        Some(y) => if valid_kid(t, p, y) {
            pattern_defs(t, src, y, e)
        } else {
            Set::empty()
        },
        None => Set::empty(),
    }
}

/// Findings of the children of `n` from position `k` on, visited by `rule` at depth `e`.
pub open spec fn kids_du(t: SyntaxTree, src: Seq<u8>, n: int, k: int, rule: ChildRule, e: int) -> DefUse
    decreases fuel(e), t.nodes@.len() - n, 0nat, kids_of(t, n).len() - k,
{
    if k < 0 || k >= kids_of(t, n).len() {
        du_empty()
    } else {
        let c = kids_of(t, n)[k] as int;
        let rest = kids_du(t, src, n, k + 1, rule, e);
        if valid_kid(t, n, c) {
            let ck = kind_at(t, c);
            let here = match rule {
                ChildRule::Walk => walk(t, src, c, false, e),
                ChildRule::Pattern => defs_only(pattern_defs(t, src, c, e)),
                ChildRule::ForClause => if ck == "range_clause"@ || ck == "for_clause"@ {
                    walk(t, src, c, false, e)
                } else {
                    du_empty()
                },
                ChildRule::VarDecl => if ck == "var_spec"@ {
                    go_var_spec(t, src, c, e)
                } else if ck == "var_spec_list"@ {
                    kids_du(t, src, c, 0, ChildRule::VarList, e)
                } else {
                    du_empty()
                },
                ChildRule::VarList => if ck == "var_spec"@ {
                    go_var_spec(t, src, c, e)
                } else {
                    du_empty()
                },
                ChildRule::GoSpec => if ck == "identifier"@ {
                    defs_only(pattern_defs(t, src, c, e))
                } else if ck == "expression_list"@ {
                    walk(t, src, c, false, e)
                } else {
                    du_empty()
                },
                ChildRule::ExprList => if t.nodes@[c].named {
                    du_union(defs_only(pattern_defs(t, src, c, e)), walk(t, src, c, false, e))
                } else {
                    du_empty()
                },
                ChildRule::LocalDecl => if ck == "variable_declarator"@ {
                    du_union(
                        defs_only(opt_pattern(t, src, c, field_child(t, c, "name"@), e)),
                        opt_walk(t, src, c, field_child(t, c, "value"@), e),
                    )
                } else if ck == "variable_declaration"@ || ck == "variable_declaration_list"@ {
                    walk(t, src, c, false, e)
                } else {
                    du_empty()
                },
                ChildRule::InitDecl => if ck == "init_declarator"@ {
                    du_union(
                        defs_only(opt_declarator(t, src, c, field_child(t, c, "declarator"@))),
                        opt_walk(t, src, c, field_child(t, c, "value"@), e),
                    )
                } else {
                    du_empty()
                },
            };
            du_union(here, rest)
        } else {
            rest
        }
    }
}

/// Findings of a Go `var_spec` visited at depth `e`.
pub open spec fn go_var_spec(t: SyntaxTree, src: Seq<u8>, s: int, e: int) -> DefUse
    decreases fuel(e), t.nodes@.len() - s, 1nat, 0int,
{
    du_union(
        defs_only(opt_pattern(t, src, s, field_child(t, s, "name"@), e + 1)),
        du_union(
            kids_du(t, src, s, 0, ChildRule::GoSpec, e + 1),
            opt_walk(t, src, s, orf(field_child(t, s, "value"@), field_child(t, s, "right"@)), e + 1),
        ),
    )
}

/// Findings of an assignment target `l` met at depth `d`.
pub open spec fn assign_target(t: SyntaxTree, src: Seq<u8>, l: int, d: int) -> DefUse
    decreases fuel(d), t.nodes@.len() - l, 4nat, 0int,
{
    if field_access_kind(kind_at(t, l)) {
        du_union(defs_only(opt_set(access_def(t, src, l))), opt_walk(t, src, l, access_base(t, l), d + 1))
    } else {
        defs_only(pattern_defs(t, src, l, d + 1))
    }
}

/// Assignment target of the optional child `x` of `p`.
pub open spec fn opt_target(t: SyntaxTree, src: Seq<u8>, p: int, x: Option<int>, d: int) -> DefUse
    decreases fuel(d), t.nodes@.len() - p, 0nat, 0int,
{
    match x {
        Some(y) => if valid_kid(t, p, y) {
            assign_target(t, src, y, d)
        } else {
            du_empty()
        },
        None => du_empty(),
    }
}

/// Definitions bound by the pattern `n` at depth `d`.
pub open spec fn pattern_defs(t: SyntaxTree, src: Seq<u8>, n: int, d: int) -> Set<DefKey>
    decreases fuel(d), t.nodes@.len() - n, 3nat, 0int,
{
    let k = kind_at(t, n);
    if k == "identifier"@ || k == "shorthand_field_identifier"@ {
        match node_text(t, src, n) {
            Some(s) => set![(s, None)],
            None => Set::empty(),
        }
    } else if compound_pattern_kind(k) {
        kids_du(t, src, n, 0, ChildRule::Pattern, d + 1).0
    } else {
        walk(t, src, n, true, d + 1).0
    }
}

/// Findings of an identifier-like node.
pub open spec fn identifier_du(t: SyntaxTree, src: Seq<u8>, n: int, is_def: bool) -> DefUse {
    if binding_name_kind(kind_at(t, n)) {
        match node_text(t, src, n) {
            Some(s) => if is_def {
                defs_only(set![(strip_dollars(s), None)])
            } else {
                (Set::empty(), set![strip_dollars(s)])
            },
            None => du_empty(),
        }
    } else {
        du_empty()
    }
}

/// Findings of a field access.
pub open spec fn access_du(t: SyntaxTree, src: Seq<u8>, n: int, is_def: bool, d: int) -> DefUse
    decreases fuel(d), t.nodes@.len() - n, 1nat, 0int,
{
    let base = opt_walk(t, src, n, access_base(t, n), d + 1);
    if is_def {
        du_union(defs_only(opt_set(access_def(t, src, n))), base)
    } else {
        let named: Set<Seq<char>> = match access_def(t, src, n) {
            Some(x) => set![key_name(x)],
            None => Set::empty(),
        };
        du_union(base, (Set::empty(), named))
    }
}

/// Definitions and uses found under node `n`, walked at depth `d`; `is_def` marks a node
/// in definition position.
pub open spec fn walk(t: SyntaxTree, src: Seq<u8>, n: int, is_def: bool, d: int) -> DefUse
    decreases fuel(d), t.nodes@.len() - n, 2nat, 0int,
{
    if d > 2048 {
        du_empty()
    } else {
        let k = kind_at(t, n);
        let e = d + 1;
        if k == "let_declaration"@ || k == "let_statement"@ {
            du_union(
                defs_only(opt_pattern(t, src, n, field_child(t, n, "pattern"@), e)),
                opt_walk(t, src, n, field_child(t, n, "value"@), e),
            )
        } else if assignment_kind(k) {
            du_union(
                opt_target(t, src, n, field_child(t, n, "left"@), d),
                opt_walk(t, src, n, field_child(t, n, "right"@), e),
            )
        } else if k == "augmented_assignment"@ {
            du_union(
                opt_target(t, src, n, field_child(t, n, "left"@), d),
                du_union(
                    opt_walk(t, src, n, field_child(t, n, "left"@), e),
                    opt_walk(t, src, n, field_child(t, n, "right"@), e),
                ),
            )
        } else if k == "for_statement"@ {
            du_union(
                defs_only(opt_pattern(t, src, n, field_child(t, n, "left"@), e)),
                du_union(
                    opt_walk(t, src, n, field_child(t, n, "initializer"@), e),
                    du_union(
                        opt_walk(t, src, n, field_child(t, n, "body"@), e),
                        kids_du(t, src, n, 0, ChildRule::ForClause, e),
                    ),
                ),
            )
        } else if k == "var_declaration"@ {
            kids_du(t, src, n, 0, ChildRule::VarDecl, e)
        } else if k == "range_clause"@ {
            du_union(
                defs_only(opt_pattern(t, src, n, field_child(t, n, "left"@), e)),
                opt_walk(t, src, n, field_child(t, n, "right"@), e),
            )
        } else if k == "expression_list"@ {
            kids_du(t, src, n, 0, ChildRule::ExprList, e)
        } else if k == "parameter_declaration"@ {
            defs_only(opt_pattern(t, src, n, field_child(t, n, "name"@), e))
        } else if local_decl_kind(k) {
            kids_du(t, src, n, 0, ChildRule::LocalDecl, e)
        } else if k == "variable_declarator"@ {
            du_union(
                defs_only(opt_pattern(t, src, n, field_child(t, n, "name"@), e)),
                opt_walk(t, src, n, field_child(t, n, "value"@), e),
            )
        } else if k == "declaration"@ {
            du_union(
                defs_only(opt_declarator(t, src, n, field_child(t, n, "declarator"@))),
                kids_du(t, src, n, 0, ChildRule::InitDecl, e),
            )
        } else if k == "init_declarator"@ {
            du_union(
                defs_only(opt_declarator(t, src, n, field_child(t, n, "declarator"@))),
                opt_walk(t, src, n, field_child(t, n, "value"@), e),
            )
        } else if field_access_kind(k) {
            access_du(t, src, n, is_def, d)
        } else if identifier_kind(k) {
            identifier_du(t, src, n, is_def)
        } else if k == "scoped_identifier"@ {
            if is_def {
                defs_only(opt_pattern(t, src, n, field_child(t, n, "name"@), e))
            } else {
                opt_walk(t, src, n, field_child(t, n, "name"@), e)
            }
        } else if is_def && binding_pattern_kind(k) {
            defs_only(pattern_defs(t, src, n, e))
        } else {
            kids_du(t, src, n, 0, ChildRule::Walk, e)
        }
    }
}


/// An assignment kind.
fn is_assignment_kind(k: &str) -> (r: bool)
    ensures
        r == assignment_kind(k@),
{
    str_eq(k, "assignment_expression") || str_eq(k, "augmented_assignment_expression") || str_eq(
        k,
        "compound_assignment_expr",
    ) || str_eq(k, "assignment") || str_eq(k, "short_var_declaration") || str_eq(k, "assignment_statement")
}

/// A local declaration kind.
fn is_local_decl_kind(k: &str) -> (r: bool)
    ensures
        r == local_decl_kind(k@),
{
    str_eq(k, "variable_declaration") || str_eq(k, "local_declaration_statement") || str_eq(
        k,
        "local_variable_declaration",
    ) || str_eq(k, "lexical_declaration") || str_eq(k, "variable_declaration_list")
}

/// An identifier kind that names a variable.
fn is_binding_name_kind(k: &str) -> (r: bool)
    ensures
        r == binding_name_kind(k@),
{
    str_eq(k, "identifier") || str_eq(k, "shorthand_field_identifier") || str_eq(k, "variable_name")
}

/// An identifier kind of any sort.
fn is_identifier_kind(k: &str) -> (r: bool)
    ensures
        r == identifier_kind(k@),
{
    is_binding_name_kind(k) || str_eq(k, "field_identifier") || str_eq(k, "type_identifier")
}

/// A pattern kind whose children are patterns.
fn is_compound_pattern_kind(k: &str) -> (r: bool)
    ensures
        r == compound_pattern_kind(k@),
{
    str_eq(k, "tuple_pattern") || str_eq(k, "tuple_struct_pattern") || str_eq(k, "struct_pattern") || str_eq(
        k,
        "pattern",
    ) || str_eq(k, "list_pattern") || str_eq(k, "attribute") || str_eq(k, "rest_pattern")
}

/// A C declarator kind that wraps an inner declarator.
fn is_wrapping_declarator_kind(k: &str) -> (r: bool)
    ensures
        r == wrapping_declarator_kind(k@),
{
    str_eq(k, "pointer_declarator") || str_eq(k, "function_declarator") || str_eq(k, "array_declarator")
        || str_eq(k, "parenthesized_declarator")
}

/// Two definitions with the same key.
fn same_def(a: &DefVar, b: &DefVar) -> (r: bool)
    ensures
        r == (def_key(*a) == def_key(*b)),
{
    match (a, b) {
        (DefVar::Local(x), DefVar::Local(y)) => str_eq(x.as_str(), y.as_str()),
        (DefVar::Field { receiver: r1, member: m1 }, DefVar::Field { receiver: r2, member: m2 }) => {
            str_eq(r1.as_str(), r2.as_str()) && str_eq(m1.as_str(), m2.as_str())
        },
        _ => false,
    }
}

/// Add a definition unless one with its key is present.
fn add_def(defs: &mut Vec<DefVar>, d: DefVar)
    requires
        dkeys_unique(old(defs)@),
    ensures
        dkeys(final(defs)@) == dkeys(old(defs)@).insert(def_key(d)),
        dkeys_unique(final(defs)@),
{
    let mut i: usize = 0;
    while i < defs.len()
        invariant
            i <= defs@.len(),
            defs@ == old(defs)@,
            dkeys_unique(old(defs)@),
            forall|j: int| 0 <= j < i ==> def_key(defs@[j]) != def_key(d),
        decreases defs@.len() - i,
    {
        if same_def(&defs[i], &d) {
            assert(dkeys(defs@) =~= dkeys(defs@).insert(def_key(d))) by {
                assert(dkeys(defs@).contains(def_key(defs@[i as int])));
            }
            return;
        }
        i = i + 1;
    }
    let ghost before = defs@;
    defs.push(d);
    assert(defs@[before.len() as int] == d);
    assert(dkeys(defs@) =~= dkeys(before).insert(def_key(d))) by {
        assert forall|k: DefKey| dkeys(before).insert(def_key(d)).contains(k) implies dkeys(defs@).contains(k) by {
            if k == def_key(d) {
                assert(def_key(defs@[before.len() as int]) == k);
            } else {
                let j = choose|j: int| 0 <= j < before.len() && def_key(before[j]) == k;
                assert(def_key(defs@[j]) == k);
            }
        }
        assert forall|k: DefKey| dkeys(defs@).contains(k) implies dkeys(before).insert(def_key(d)).contains(k) by {
            let j = choose|j: int| 0 <= j < defs@.len() && def_key(defs@[j]) == k;
            if j < before.len() {
                assert(def_key(before[j]) == k);
            }
        }
    }
}

/// Add a name unless it is present.
fn add_use(uses: &mut Vec<String>, s: String)
    requires
        ukeys_unique(old(uses)@),
    ensures
        ukeys(final(uses)@) == ukeys(old(uses)@).insert(s@),
        ukeys_unique(final(uses)@),
{
    let mut i: usize = 0;
    while i < uses.len()
        invariant
            i <= uses@.len(),
            uses@ == old(uses)@,
            ukeys_unique(old(uses)@),
            forall|j: int| 0 <= j < i ==> uses@[j]@ != s@,
        decreases uses@.len() - i,
    {
        if str_eq(uses[i].as_str(), s.as_str()) {
            assert(ukeys(uses@) =~= ukeys(uses@).insert(s@)) by {
                assert(ukeys(uses@).contains(uses@[i as int]@));
            }
            return;
        }
        i = i + 1;
    }
    let ghost before = uses@;
    let ghost sv = s@;
    uses.push(s);
    assert(uses@[before.len() as int]@ == sv);
    assert(ukeys(uses@) =~= ukeys(before).insert(sv)) by {
        assert forall|k: Seq<char>| ukeys(before).insert(sv).contains(k) implies ukeys(uses@).contains(k) by {
            if k == sv {
                assert(uses@[before.len() as int]@ == k);
            } else {
                let j = choose|j: int| 0 <= j < before.len() && before[j]@ == k;
                assert(uses@[j]@ == k);
            }
        }
        assert forall|k: Seq<char>| ukeys(uses@).contains(k) implies ukeys(before).insert(sv).contains(k) by {
            let j = choose|j: int| 0 <= j < uses@.len() && uses@[j]@ == k;
            if j < before.len() {
                assert(before[j]@ == k);
            }
        }
    }
}

/// Leading `$` signs removed.
fn strip_dollars_exec(s: &str) -> (r: String)
    ensures
        r@ == strip_dollars(s@),
{
    let cs = chars_of(s);
    let mut i: usize = 0;
    assert(cs@.skip(0) =~= cs@);
    while i < cs.len() && cs[i] == '$'
        invariant
            cs@ == s@,
            i <= cs@.len(),
            strip_dollars(s@) == strip_dollars(cs@.skip(i as int)),
        decreases cs@.len() - i,
    {
        assert(cs@.skip(i as int).drop_first() =~= cs@.skip(i as int + 1));
        i = i + 1;
    }
    let rest = vstd::slice::slice_subrange(cs.as_slice(), i, cs.len());
    assert(rest@ =~= cs@.skip(i as int));
    string_from_chars(rest)
}

/// The first of two index lookups that found something.
fn or_child(a: Option<usize>, b: Option<usize>) -> (r: Option<usize>)
    ensures
        opt_int(r) == orf(opt_int(a), opt_int(b)),
        a is Some ==> r == a,
        a is None ==> r == b,
{
    if a.is_some() {
        a
    } else {
        b
    }
}

/// The field-name child of a field access.
fn access_field_exec(t: &SyntaxTree, n: usize) -> (r: Option<usize>)
    requires
        n < t.nodes@.len(),
        kids_ok(*t, n as int),
    ensures
        opt_int(r) == access_field(*t, n as int),
        r matches Some(c) ==> valid_kid(*t, n as int, c as int),
{
    let a = child_by_field(t, n, "field");
    let b = child_by_field(t, n, "property");
    let c = child_by_field(t, n, "attribute");
    let d = child_by_field(t, n, "name");
    or_child(a, or_child(b, or_child(c, d)))
}

/// The object child of a field access, as its definition reads it.
fn access_object_exec(t: &SyntaxTree, n: usize) -> (r: Option<usize>)
    requires
        n < t.nodes@.len(),
        kids_ok(*t, n as int),
    ensures
        opt_int(r) == access_object(*t, n as int),
        r matches Some(c) ==> valid_kid(*t, n as int, c as int),
{
    let a = child_by_field(t, n, "object");
    let b = child_by_field(t, n, "operand");
    let c = child_by_field(t, n, "argument");
    let d = child_by_field(t, n, "value");
    let e = child_by_field(t, n, "expression");
    or_child(a, or_child(b, or_child(c, or_child(d, e))))
}

/// The base child of a field access whose uses are collected.
fn access_base_exec(t: &SyntaxTree, n: usize) -> (r: Option<usize>)
    requires
        n < t.nodes@.len(),
        kids_ok(*t, n as int),
    ensures
        opt_int(r) == access_base(*t, n as int),
        r matches Some(c) ==> valid_kid(*t, n as int, c as int),
{
    let a = child_by_field(t, n, "object");
    let b = child_by_field(t, n, "argument");
    let c = child_by_field(t, n, "value");
    let d = child_by_field(t, n, "expression");
    or_child(a, or_child(b, or_child(c, d)))
}

/// The definition a field access names.
fn access_def_exec(t: &SyntaxTree, src: &[u8], n: usize) -> (r: Option<DefVar>)
    requires
        t.wf(src@.len()),
        n < t.nodes@.len(),
    ensures
        match r {
            Some(x) => access_def(*t, src@, n as int) == Some(def_key(x)),
            None => access_def(*t, src@, n as int) is None,
        },
{
    assert(node_ok(*t, n as int, src@.len()));
    let obj = access_object_exec(t, n);
    let fld = access_field_exec(t, n);
    match (obj, fld) {
        (Some(o), Some(f)) => {
            let a = text_of_node(t, src, o);
            let b = text_of_node(t, src, f);
            match (a, b) {
                (Some(receiver), Some(member)) => Some(DefVar::Field { receiver, member }),
                _ => None,
            }
        },
        _ => match text_of_node(t, src, n) {
            Some(s) => Some(DefVar::Local(s)),
            None => None,
        },
    }
}


/// Add the definitions named by the C declarator `n`.
fn declarator_exec(t: &SyntaxTree, src: &[u8], n: usize, defs: &mut Vec<DefVar>)
    requires
        t.wf(src@.len()),
        n < t.nodes@.len(),
        dkeys_unique(old(defs)@),
    ensures
        dkeys(final(defs)@) == dkeys(old(defs)@) + declarator_defs(*t, src@, n as int),
        dkeys_unique(final(defs)@),
    decreases t.nodes@.len() - n, 1nat, 0int,
{
    assert(node_ok(*t, n as int, src@.len()));
    let k = t.nodes[n].kind.as_str();
    if str_eq(k, "identifier") {
        match text_of_node(t, src, n) {
            Some(s) => {
                add_def(defs, DefVar::Local(s));
            },
            None => {},
        }
    } else if is_wrapping_declarator_kind(k) {
        match child_by_field(t, n, "declarator") {
            Some(x) => {
                declarator_exec(t, src, x, defs);
            },
            None => {},
        }
    } else {
        let kids = &t.nodes[n].children;
        let mut i: usize = 0;
        while i < kids.len()
            invariant
                t.wf(src@.len()),
                n < t.nodes@.len(),
                kids_ok(*t, n as int),
                kids@ == kids_of(*t, n as int),
                i <= kids@.len(),
                !(kind_at(*t, n as int) == "identifier"@),
                !wrapping_declarator_kind(kind_at(*t, n as int)),
                dkeys(defs@) + declarator_kids(*t, src@, n as int, i as int) == dkeys(old(defs)@)
                    + declarator_kids(*t, src@, n as int, 0),
                dkeys_unique(defs@),
            decreases kids@.len() - i,
        {
            let c = kids[i];
            assert(valid_kid(*t, n as int, kids@[i as int] as int));
            let ghost before = defs@;
            if t.nodes[c].named {
                declarator_exec(t, src, c, defs);
            }
            assert(dkeys(defs@) + declarator_kids(*t, src@, n as int, i + 1) =~= dkeys(before) + declarator_kids(
                *t,
                src@,
                n as int,
                i as int,
            ));
            i = i + 1;
        }
        assert(declarator_kids(*t, src@, n as int, i as int) =~= Set::empty());
    }
}

/// Add the declarator definitions of the optional child `x` of `p`.
fn opt_declarator_exec(t: &SyntaxTree, src: &[u8], p: usize, x: Option<usize>, defs: &mut Vec<DefVar>)
    requires
        t.wf(src@.len()),
        p < t.nodes@.len(),
        x matches Some(y) ==> valid_kid(*t, p as int, y as int),
        dkeys_unique(old(defs)@),
    ensures
        dkeys(final(defs)@) == dkeys(old(defs)@) + opt_declarator(*t, src@, p as int, opt_int(x)),
        dkeys_unique(final(defs)@),
{
    match x {
        Some(y) => {
            declarator_exec(t, src, y, defs);
        },
        None => {
            assert(dkeys(defs@) =~= dkeys(defs@) + Set::<DefKey>::empty());
        },
    }
}

/// Walk the optional child `x` of `p` at depth `e`.
fn opt_walk_exec(
    t: &SyntaxTree,
    src: &[u8],
    p: usize,
    x: Option<usize>,
    e: usize,
    defs: &mut Vec<DefVar>,
    uses: &mut Vec<String>,
)
    requires
        t.wf(src@.len()),
        p < t.nodes@.len(),
        x matches Some(y) ==> valid_kid(*t, p as int, y as int),
        e <= 2052 + p,
        dkeys_unique(old(defs)@),
        ukeys_unique(old(uses)@),
    ensures
        dkeys(final(defs)@) == dkeys(old(defs)@) + opt_walk(*t, src@, p as int, opt_int(x), e as int).0,
        ukeys(final(uses)@) == ukeys(old(uses)@) + opt_walk(*t, src@, p as int, opt_int(x), e as int).1,
        dkeys_unique(final(defs)@),
        ukeys_unique(final(uses)@),
    decreases fuel(e as int), t.nodes@.len() - p, 0nat, 0int,
{
    match x {
        Some(y) => {
            walk_exec(t, src, y, false, e, defs, uses);
        },
        None => {
            assert(dkeys(defs@) =~= dkeys(defs@) + Set::<DefKey>::empty());
            assert(ukeys(uses@) =~= ukeys(uses@) + Set::<Seq<char>>::empty());
        },
    }
}

/// Add the pattern definitions of the optional child `x` of `p` at depth `e`.
fn opt_pattern_exec(t: &SyntaxTree, src: &[u8], p: usize, x: Option<usize>, e: usize, defs: &mut Vec<DefVar>)
    requires
        t.wf(src@.len()),
        p < t.nodes@.len(),
        x matches Some(y) ==> valid_kid(*t, p as int, y as int),
        e <= 2051 + p,
        dkeys_unique(old(defs)@),
    ensures
        dkeys(final(defs)@) == dkeys(old(defs)@) + opt_pattern(*t, src@, p as int, opt_int(x), e as int),
        dkeys_unique(final(defs)@),
    decreases fuel(e as int), t.nodes@.len() - p, 0nat, 0int,
{
    match x {
        Some(y) => {
            pattern_exec(t, src, y, e, defs);
        },
        None => {
            assert(dkeys(defs@) =~= dkeys(defs@) + Set::<DefKey>::empty());
        },
    }
}

/// Assignment target of the optional child `x` of `p`, met at depth `d`.
fn opt_target_exec(
    t: &SyntaxTree,
    src: &[u8],
    p: usize,
    x: Option<usize>,
    d: usize,
    defs: &mut Vec<DefVar>,
    uses: &mut Vec<String>,
)
    requires
        t.wf(src@.len()),
        p < t.nodes@.len(),
        x matches Some(y) ==> valid_kid(*t, p as int, y as int),
        d <= 2050 + p,
        dkeys_unique(old(defs)@),
        ukeys_unique(old(uses)@),
    ensures
        dkeys(final(defs)@) == dkeys(old(defs)@) + opt_target(*t, src@, p as int, opt_int(x), d as int).0,
        ukeys(final(uses)@) == ukeys(old(uses)@) + opt_target(*t, src@, p as int, opt_int(x), d as int).1,
        dkeys_unique(final(defs)@),
        ukeys_unique(final(uses)@),
    decreases fuel(d as int), t.nodes@.len() - p, 0nat, 0int,
{
    match x {
        Some(y) => {
            assign_target_exec(t, src, y, d, defs, uses);
        },
        None => {
            assert(dkeys(defs@) =~= dkeys(defs@) + Set::<DefKey>::empty());
            assert(ukeys(uses@) =~= ukeys(uses@) + Set::<Seq<char>>::empty());
        },
    }
}

/// Findings of an assignment target `l` met at depth `d`.
fn assign_target_exec(
    t: &SyntaxTree,
    src: &[u8],
    l: usize,
    d: usize,
    defs: &mut Vec<DefVar>,
    uses: &mut Vec<String>,
)
    requires
        t.wf(src@.len()),
        l < t.nodes@.len(),
        d <= 2049 + l,
        dkeys_unique(old(defs)@),
        ukeys_unique(old(uses)@),
    ensures
        dkeys(final(defs)@) == dkeys(old(defs)@) + assign_target(*t, src@, l as int, d as int).0,
        ukeys(final(uses)@) == ukeys(old(uses)@) + assign_target(*t, src@, l as int, d as int).1,
        dkeys_unique(final(defs)@),
        ukeys_unique(final(uses)@),
    decreases fuel(d as int), t.nodes@.len() - l, 4nat, 0int,
{
    assert(node_ok(*t, l as int, src@.len()));
    if is_field_access_kind(t.nodes[l].kind.as_str()) {
        let ghost d0 = defs@;
        match access_def_exec(t, src, l) {
            Some(x) => {
                add_def(defs, x);
            },
            None => {},
        }
        assert(dkeys(defs@) =~= dkeys(d0) + opt_set(access_def(*t, src@, l as int)));
        let b = access_base_exec(t, l);
        opt_walk_exec(t, src, l, b, d + 1, defs, uses);
    } else {
        pattern_exec(t, src, l, d + 1, defs);
        assert(ukeys(uses@) =~= ukeys(uses@) + Set::<Seq<char>>::empty());
    }
}

/// Findings of a field access at depth `d`.
fn access_exec(
    t: &SyntaxTree,
    src: &[u8],
    n: usize,
    is_def: bool,
    d: usize,
    defs: &mut Vec<DefVar>,
    uses: &mut Vec<String>,
)
    requires
        t.wf(src@.len()),
        n < t.nodes@.len(),
        d <= 2049 + n,
        dkeys_unique(old(defs)@),
        ukeys_unique(old(uses)@),
    ensures
        dkeys(final(defs)@) == dkeys(old(defs)@) + access_du(*t, src@, n as int, is_def, d as int).0,
        ukeys(final(uses)@) == ukeys(old(uses)@) + access_du(*t, src@, n as int, is_def, d as int).1,
        dkeys_unique(final(defs)@),
        ukeys_unique(final(uses)@),
    decreases fuel(d as int), t.nodes@.len() - n, 1nat, 0int,
{
    assert(node_ok(*t, n as int, src@.len()));
    let def = access_def_exec(t, src, n);
    let b = access_base_exec(t, n);
    if is_def {
        let ghost d0 = defs@;
        match def {
            Some(x) => {
                add_def(defs, x);
            },
            None => {},
        }
        assert(dkeys(defs@) =~= dkeys(d0) + opt_set(access_def(*t, src@, n as int)));
        opt_walk_exec(t, src, n, b, d + 1, defs, uses);
    } else {
        opt_walk_exec(t, src, n, b, d + 1, defs, uses);
        let ghost u0 = uses@;
        match def {
            Some(x) => {
                let name = x.name();
                add_use(uses, name);
            },
            None => {},
        }
        let ghost named: Set<Seq<char>> = match access_def(*t, src@, n as int) {
            Some(x) => set![key_name(x)],
            None => Set::empty(),
        };
        assert(ukeys(uses@) =~= ukeys(u0) + named);
        assert(dkeys(defs@) =~= dkeys(defs@) + Set::<DefKey>::empty());
    }
}

/// Add the definitions bound by the pattern `n` at depth `d`.
fn pattern_exec(t: &SyntaxTree, src: &[u8], n: usize, d: usize, defs: &mut Vec<DefVar>)
    requires
        t.wf(src@.len()),
        n < t.nodes@.len(),
        d <= 2050 + n,
        dkeys_unique(old(defs)@),
    ensures
        dkeys(final(defs)@) == dkeys(old(defs)@) + pattern_defs(*t, src@, n as int, d as int),
        dkeys_unique(final(defs)@),
    decreases fuel(d as int), t.nodes@.len() - n, 3nat, 0int,
{
    assert(node_ok(*t, n as int, src@.len()));
    let k = t.nodes[n].kind.as_str();
    if str_eq(k, "identifier") || str_eq(k, "shorthand_field_identifier") {
        match text_of_node(t, src, n) {
            Some(s) => {
                add_def(defs, DefVar::Local(s));
            },
            None => {
                assert(dkeys(defs@) =~= dkeys(defs@) + Set::<DefKey>::empty());
            },
        }
    } else {
        let mut scratch: Vec<String> = Vec::new();
        assert(ukeys_unique(scratch@));
        if is_compound_pattern_kind(k) {
            kids_exec(t, src, n, ChildRule::Pattern, d + 1, defs, &mut scratch);
        } else {
            walk_exec(t, src, n, true, d + 1, defs, &mut scratch);
        }
    }
}

/// Findings of a Go `var_spec` visited at depth `e`.
fn go_var_spec_exec(
    t: &SyntaxTree,
    src: &[u8],
    s: usize,
    e: usize,
    defs: &mut Vec<DefVar>,
    uses: &mut Vec<String>,
)
    requires
        t.wf(src@.len()),
        s < t.nodes@.len(),
        e <= 2050 + s,
        dkeys_unique(old(defs)@),
        ukeys_unique(old(uses)@),
    ensures
        dkeys(final(defs)@) == dkeys(old(defs)@) + go_var_spec(*t, src@, s as int, e as int).0,
        ukeys(final(uses)@) == ukeys(old(uses)@) + go_var_spec(*t, src@, s as int, e as int).1,
        dkeys_unique(final(defs)@),
        ukeys_unique(final(uses)@),
    decreases fuel(e as int), t.nodes@.len() - s, 1nat, 0int,
{
    assert(node_ok(*t, s as int, src@.len()));
    let ghost d0 = defs@;
    let ghost u0 = uses@;
    let name = child_by_field(t, s, "name");
    opt_pattern_exec(t, src, s, name, e + 1, defs);
    let ghost d1 = defs@;
    kids_exec(t, src, s, ChildRule::GoSpec, e + 1, defs, uses);
    let ghost d2 = defs@;
    let ghost u2 = uses@;
    let v = or_child(child_by_field(t, s, "value"), child_by_field(t, s, "right"));
    opt_walk_exec(t, src, s, v, e + 1, defs, uses);
    assert(dkeys(defs@) =~= dkeys(d0) + go_var_spec(*t, src@, s as int, e as int).0);
    assert(ukeys(uses@) =~= ukeys(u0) + go_var_spec(*t, src@, s as int, e as int).1);
}

/// Visit the children of `n` by `rule` at depth `e`.
fn kids_exec(
    t: &SyntaxTree,
    src: &[u8],
    n: usize,
    rule: ChildRule,
    e: usize,
    defs: &mut Vec<DefVar>,
    uses: &mut Vec<String>,
)
    requires
        t.wf(src@.len()),
        n < t.nodes@.len(),
        e <= 2051 + n,
        dkeys_unique(old(defs)@),
        ukeys_unique(old(uses)@),
    ensures
        dkeys(final(defs)@) == dkeys(old(defs)@) + kids_du(*t, src@, n as int, 0, rule, e as int).0,
        ukeys(final(uses)@) == ukeys(old(uses)@) + kids_du(*t, src@, n as int, 0, rule, e as int).1,
        dkeys_unique(final(defs)@),
        ukeys_unique(final(uses)@),
    decreases fuel(e as int), t.nodes@.len() - n, 0nat, 0int,
{
    assert(node_ok(*t, n as int, src@.len()));
    let kids = &t.nodes[n].children;
    let mut i: usize = 0;
    while i < kids.len()
        invariant
            t.wf(src@.len()),
            n < t.nodes@.len(),
            kids_ok(*t, n as int),
            kids@ == kids_of(*t, n as int),
            i <= kids@.len(),
            e <= 2051 + n,
            dkeys(defs@) + kids_du(*t, src@, n as int, i as int, rule, e as int).0 == dkeys(old(defs)@) + kids_du(
                *t,
                src@,
                n as int,
                0,
                rule,
                e as int,
            ).0,
            ukeys(uses@) + kids_du(*t, src@, n as int, i as int, rule, e as int).1 == ukeys(old(uses)@) + kids_du(
                *t,
                src@,
                n as int,
                0,
                rule,
                e as int,
            ).1,
            dkeys_unique(defs@),
            ukeys_unique(uses@),
        decreases kids@.len() - i,
    {
        let c = kids[i];
        assert(valid_kid(*t, n as int, kids@[i as int] as int));
        assert(node_ok(*t, c as int, src@.len()));
        let ghost d0 = defs@;
        let ghost u0 = uses@;
        let ck = t.nodes[c].kind.as_str();
        match rule {
            ChildRule::Walk => {
                walk_exec(t, src, c, false, e, defs, uses);
            },
            ChildRule::Pattern => {
                pattern_exec(t, src, c, e, defs);
            },
            ChildRule::ForClause => {
                if str_eq(ck, "range_clause") || str_eq(ck, "for_clause") {
                    walk_exec(t, src, c, false, e, defs, uses);
                }
            },
            ChildRule::VarDecl => {
                if str_eq(ck, "var_spec") {
                    go_var_spec_exec(t, src, c, e, defs, uses);
                } else if str_eq(ck, "var_spec_list") {
                    kids_exec(t, src, c, ChildRule::VarList, e, defs, uses);
                }
            },
            ChildRule::VarList => {
                if str_eq(ck, "var_spec") {
                    go_var_spec_exec(t, src, c, e, defs, uses);
                }
            },
            ChildRule::GoSpec => {
                if str_eq(ck, "identifier") {
                    pattern_exec(t, src, c, e, defs);
                } else if str_eq(ck, "expression_list") {
                    walk_exec(t, src, c, false, e, defs, uses);
                }
            },
            ChildRule::ExprList => {
                if t.nodes[c].named {
                    pattern_exec(t, src, c, e, defs);
                    walk_exec(t, src, c, false, e, defs, uses);
                }
            },
            ChildRule::LocalDecl => {
                if str_eq(ck, "variable_declarator") {
                    let nm = child_by_field(t, c, "name");
                    opt_pattern_exec(t, src, c, nm, e, defs);
                    let v = child_by_field(t, c, "value");
                    opt_walk_exec(t, src, c, v, e, defs, uses);
                } else if str_eq(ck, "variable_declaration") || str_eq(ck, "variable_declaration_list") {
                    walk_exec(t, src, c, false, e, defs, uses);
                }
            },
            ChildRule::InitDecl => {
                if str_eq(ck, "init_declarator") {
                    let dc = child_by_field(t, c, "declarator");
                    opt_declarator_exec(t, src, c, dc, defs);
                    let v = child_by_field(t, c, "value");
                    opt_walk_exec(t, src, c, v, e, defs, uses);
                }
            },
        }
        assert(dkeys(defs@) + kids_du(*t, src@, n as int, i + 1, rule, e as int).0 =~= dkeys(d0) + kids_du(
            *t,
            src@,
            n as int,
            i as int,
            rule,
            e as int,
        ).0);
        assert(ukeys(uses@) + kids_du(*t, src@, n as int, i + 1, rule, e as int).1 =~= ukeys(u0) + kids_du(
            *t,
            src@,
            n as int,
            i as int,
            rule,
            e as int,
        ).1);
        i = i + 1;
    }
}

/// Findings of an identifier-like node.
fn identifier_exec(
    t: &SyntaxTree,
    src: &[u8],
    n: usize,
    is_def: bool,
    defs: &mut Vec<DefVar>,
    uses: &mut Vec<String>,
)
    requires
        t.wf(src@.len()),
        n < t.nodes@.len(),
        dkeys_unique(old(defs)@),
        ukeys_unique(old(uses)@),
    ensures
        dkeys(final(defs)@) == dkeys(old(defs)@) + identifier_du(*t, src@, n as int, is_def).0,
        ukeys(final(uses)@) == ukeys(old(uses)@) + identifier_du(*t, src@, n as int, is_def).1,
        dkeys_unique(final(defs)@),
        ukeys_unique(final(uses)@),
{
    if is_binding_name_kind(t.nodes[n].kind.as_str()) {
        match text_of_node(t, src, n) {
            Some(s) => {
                let name = strip_dollars_exec(s.as_str());
                if is_def {
                    add_def(defs, DefVar::Local(name));
                    assert(ukeys(uses@) =~= ukeys(uses@) + Set::<Seq<char>>::empty());
                } else {
                    add_use(uses, name);
                    assert(dkeys(defs@) =~= dkeys(defs@) + Set::<DefKey>::empty());
                }
            },
            None => {
                assert(dkeys(defs@) =~= dkeys(defs@) + Set::<DefKey>::empty());
                assert(ukeys(uses@) =~= ukeys(uses@) + Set::<Seq<char>>::empty());
            },
        }
    } else {
        assert(dkeys(defs@) =~= dkeys(defs@) + Set::<DefKey>::empty());
        assert(ukeys(uses@) =~= ukeys(uses@) + Set::<Seq<char>>::empty());
    }
}


/// Add the definitions and uses found under node `n`, walked at depth `d`.
fn walk_exec(
    t: &SyntaxTree,
    src: &[u8],
    n: usize,
    is_def: bool,
    d: usize,
    defs: &mut Vec<DefVar>,
    uses: &mut Vec<String>,
)
    requires
        t.wf(src@.len()),
        n < t.nodes@.len(),
        d <= 2051 + n,
        dkeys_unique(old(defs)@),
        ukeys_unique(old(uses)@),
    ensures
        dkeys(final(defs)@) == dkeys(old(defs)@) + walk(*t, src@, n as int, is_def, d as int).0,
        ukeys(final(uses)@) == ukeys(old(uses)@) + walk(*t, src@, n as int, is_def, d as int).1,
        dkeys_unique(final(defs)@),
        ukeys_unique(final(uses)@),
    decreases fuel(d as int), t.nodes@.len() - n, 2nat, 0int,
{
    let ghost d0 = defs@;
    let ghost u0 = uses@;
    if d > AST_WALK_MAX_DEPTH {
        assert(dkeys(defs@) =~= dkeys(d0) + Set::<DefKey>::empty());
        assert(ukeys(uses@) =~= ukeys(u0) + Set::<Seq<char>>::empty());
        return;
    }
    assert(node_ok(*t, n as int, src@.len()));
    let e = d + 1;
    let k = t.nodes[n].kind.as_str();
    if str_eq(k, "let_declaration") || str_eq(k, "let_statement") {
        let p = child_by_field(t, n, "pattern");
        opt_pattern_exec(t, src, n, p, e, defs);
        let v = child_by_field(t, n, "value");
        opt_walk_exec(t, src, n, v, e, defs, uses);
    } else if is_assignment_kind(k) {
        let l = child_by_field(t, n, "left");
        opt_target_exec(t, src, n, l, d, defs, uses);
        let r = child_by_field(t, n, "right");
        opt_walk_exec(t, src, n, r, e, defs, uses);
    } else if str_eq(k, "augmented_assignment") {
        let l = child_by_field(t, n, "left");
        opt_target_exec(t, src, n, l, d, defs, uses);
        opt_walk_exec(t, src, n, l, e, defs, uses);
        let r = child_by_field(t, n, "right");
        opt_walk_exec(t, src, n, r, e, defs, uses);
    } else if str_eq(k, "for_statement") {
        let l = child_by_field(t, n, "left");
        opt_pattern_exec(t, src, n, l, e, defs);
        let init = child_by_field(t, n, "initializer");
        opt_walk_exec(t, src, n, init, e, defs, uses);
        let body = child_by_field(t, n, "body");
        opt_walk_exec(t, src, n, body, e, defs, uses);
        kids_exec(t, src, n, ChildRule::ForClause, e, defs, uses);
    } else if str_eq(k, "var_declaration") {
        kids_exec(t, src, n, ChildRule::VarDecl, e, defs, uses);
    } else if str_eq(k, "range_clause") {
        let l = child_by_field(t, n, "left");
        opt_pattern_exec(t, src, n, l, e, defs);
        let r = child_by_field(t, n, "right");
        opt_walk_exec(t, src, n, r, e, defs, uses);
    } else if str_eq(k, "expression_list") {
        kids_exec(t, src, n, ChildRule::ExprList, e, defs, uses);
    } else if str_eq(k, "parameter_declaration") {
        let nm = child_by_field(t, n, "name");
        opt_pattern_exec(t, src, n, nm, e, defs);
    } else if is_local_decl_kind(k) {
        kids_exec(t, src, n, ChildRule::LocalDecl, e, defs, uses);
    } else if str_eq(k, "variable_declarator") {
        let nm = child_by_field(t, n, "name");
        opt_pattern_exec(t, src, n, nm, e, defs);
        let v = child_by_field(t, n, "value");
        opt_walk_exec(t, src, n, v, e, defs, uses);
    } else if str_eq(k, "declaration") {
        let dc = child_by_field(t, n, "declarator");
        opt_declarator_exec(t, src, n, dc, defs);
        kids_exec(t, src, n, ChildRule::InitDecl, e, defs, uses);
    } else if str_eq(k, "init_declarator") {
        let dc = child_by_field(t, n, "declarator");
        opt_declarator_exec(t, src, n, dc, defs);
        let v = child_by_field(t, n, "value");
        opt_walk_exec(t, src, n, v, e, defs, uses);
    } else if is_field_access_kind(k) {
        access_exec(t, src, n, is_def, d, defs, uses);
    } else if is_identifier_kind(k) {
        identifier_exec(t, src, n, is_def, defs, uses);
    } else if str_eq(k, "scoped_identifier") {
        let nm = child_by_field(t, n, "name");
        if is_def {
            opt_pattern_exec(t, src, n, nm, e, defs);
        } else {
            opt_walk_exec(t, src, n, nm, e, defs, uses);
        }
    } else if is_def && is_binding_pattern(k) {
        pattern_exec(t, src, n, e, defs);
    } else {
        kids_exec(t, src, n, ChildRule::Walk, e, defs, uses);
    }
    assert(dkeys(defs@) =~= dkeys(d0) + walk(*t, src@, n as int, is_def, d as int).0);
    assert(ukeys(uses@) =~= ukeys(u0) + walk(*t, src@, n as int, is_def, d as int).1);
}

/// Definitions and uses under node `node`: each definition once by its key, each used
/// name once.
pub fn extract_def_use(tree: &SyntaxTree, node: usize, source: &[u8]) -> (r: (Vec<DefVar>, Vec<String>))
    requires
        tree.wf(source@.len()),
        node < tree.nodes@.len(),
    ensures
        dkeys(r.0@) == walk(*tree, source@, node as int, false, 0).0,
        ukeys(r.1@) == walk(*tree, source@, node as int, false, 0).1,
        dkeys_unique(r.0@),
        ukeys_unique(r.1@),
{
    let mut defs: Vec<DefVar> = Vec::new();
    let mut uses: Vec<String> = Vec::new();
    assert(dkeys(defs@) =~= Set::empty());
    assert(ukeys(uses@) =~= Set::empty());
    walk_exec(tree, source, node, false, 0, &mut defs, &mut uses);
    (defs, uses)
}

/// Every name used under node `node`, once each.
pub fn extract_used_variables(tree: &SyntaxTree, node: usize, source: &[u8]) -> (r: Vec<String>)
    requires
        tree.wf(source@.len()),
        node < tree.nodes@.len(),
    ensures
        ukeys(r@) == walk(*tree, source@, node as int, false, 0).1,
        ukeys_unique(r@),
{
    let (_, used) = extract_def_use(tree, node, source);
    used
}

} // verus!
