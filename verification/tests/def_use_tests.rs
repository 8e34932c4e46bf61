use rgctl_analysis::cfg::DefVar;
use rgctl_analysis::def_use::{extract_def_use, extract_used_variables};
use rgctl_analysis::syntax_tree::{SyntaxNode, SyntaxTree};

/// A syntax node described by hand: kind, field, named flag, text and children.
struct N {
    kind: &'static str,
    field: Option<&'static str>,
    named: bool,
    text: &'static str,
    kids: Vec<N>,
}

fn leaf(kind: &'static str, text: &'static str) -> N {
    N { kind, field: None, named: true, text, kids: Vec::new() }
}

fn tok(text: &'static str) -> N {
    N { kind: text, field: None, named: false, text, kids: Vec::new() }
}

fn node(kind: &'static str, text: &'static str, kids: Vec<N>) -> N {
    N { kind, field: None, named: true, text, kids }
}

fn at(field: &'static str, mut n: N) -> N {
    n.field = Some(field);
    n
}

fn push(src: &str, n: &N, nodes: &mut Vec<SyntaxNode>) -> usize {
    let start = src.find(n.text).expect("node text occurs in the source");
    let idx = nodes.len();
    nodes.push(SyntaxNode {
        kind: n.kind.to_string(),
        field: n.field.map(|f| f.to_string()),
        named: n.named,
        start_byte: start,
        end_byte: start + n.text.len(),
        start_row: src[..start].matches('\n').count(),
        end_row: src[..start + n.text.len()].matches('\n').count(),
        children: Vec::new(),
    });
    let mut kids = Vec::new();
    for k in &n.kids {
        kids.push(push(src, k, nodes));
    }
    nodes[idx].children = kids;
    idx
}

fn tree(src: &str, root: N) -> SyntaxTree {
    let mut nodes = Vec::new();
    let r = push(src, &root, &mut nodes);
    SyntaxTree { nodes, root: r }
}

fn defs_has(defs: &[DefVar], name: &str) -> bool {
    defs.iter().any(|d| d.defines_name(name))
}

fn uses_has(uses: &[String], name: &str) -> bool {
    uses.iter().any(|u| u == name)
}

#[test]
fn test_rust_let_def_use() {
    let source = "fn f(a: i32) { let x = a + 1; x }";
    let let_node = node(
        "let_declaration",
        "let x = a + 1;",
        vec![
            tok("let"),
            at("pattern", leaf("identifier", "x")),
            tok("="),
            at(
                "value",
                node(
                    "binary_expression",
                    "a + 1",
                    vec![at("left", leaf("identifier", "a")), tok("+"), at("right", leaf("integer_literal", "1"))],
                ),
            ),
            tok(";"),
        ],
    );
    let t = tree(source, let_node);
    let (defs, uses) = extract_def_use(&t, 0, source.as_bytes());
    assert!(defs_has(&defs, "x"));
    assert!(uses_has(&uses, "a"));
}

#[test]
fn test_python_assignment_def_use() {
    let source = "def f(a):\n    x = a + 1\n    return x\n";
    let assign = node(
        "assignment",
        "x = a + 1",
        vec![
            at("left", leaf("identifier", "x")),
            tok("="),
            at(
                "right",
                node(
                    "binary_operator",
                    "a + 1",
                    vec![at("left", leaf("identifier", "a")), tok("+"), at("right", leaf("integer", "1"))],
                ),
            ),
        ],
    );
    let t = tree(source, assign);
    let (defs, uses) = extract_def_use(&t, 0, source.as_bytes());
    assert!(defs_has(&defs, "x"));
    assert!(uses_has(&uses, "a"));
}

#[test]
fn test_identifier_use_only() {
    let source = "fn f() { x + y }";
    let root = node(
        "source_file",
        "fn f() { x + y }",
        vec![node(
            "function_item",
            "fn f() { x + y }",
            vec![
                tok("fn"),
                at("name", leaf("identifier", "f")),
                at("parameters", node("parameters", "()", vec![tok("("), tok(")")])),
                at(
                    "body",
                    node(
                        "block",
                        "{ x + y }",
                        vec![
                            tok("{"),
                            node(
                                "binary_expression",
                                "x + y",
                                vec![at("left", leaf("identifier", "x")), tok("+"), at("right", leaf("identifier", "y"))],
                            ),
                            tok("}"),
                        ],
                    ),
                ),
            ],
        )],
    );
    let t = tree(source, root);
    let uses = extract_used_variables(&t, t.root, source.as_bytes());
    assert!(uses_has(&uses, "x"));
    assert!(uses_has(&uses, "y"));
}

#[test]
fn test_go_short_var_and_range_def_use() {
    let source = "package demo\nfunc f(m map[string]int) {\n    x := 1\n    for k, v := range m {\n        use(k, v, x)\n    }\n}\n";
    let assign = node(
        "short_var_declaration",
        "x := 1",
        vec![
            at("left", node("expression_list", "x", vec![leaf("identifier", "x")])),
            tok(":="),
            at("right", node("expression_list", "1", vec![leaf("int_literal", "1")])),
        ],
    );
    let t = tree(source, assign);
    let (defs, _uses) = extract_def_use(&t, 0, source.as_bytes());
    assert!(defs_has(&defs, "x"));

    let for_node = node(
        "for_statement",
        "for k, v := range m {\n        use(k, v, x)\n    }",
        vec![
            tok("for"),
            node(
                "range_clause",
                "k, v := range m",
                vec![
                    at(
                        "left",
                        node("expression_list", "k, v", vec![leaf("identifier", "k"), tok(","), leaf("identifier", "v")]),
                    ),
                    tok(":="),
                    tok("range"),
                    at("right", leaf("identifier", "m")),
                ],
            ),
            at(
                "body",
                node(
                    "block",
                    "{\n        use(k, v, x)\n    }",
                    vec![
                        tok("{"),
                        node(
                            "call_expression",
                            "use(k, v, x)",
                            vec![
                                at("function", leaf("identifier", "use")),
                                at(
                                    "arguments",
                                    node(
                                        "argument_list",
                                        "(k, v, x)",
                                        vec![
                                            tok("("),
                                            leaf("identifier", "k"),
                                            tok(","),
                                            leaf("identifier", "v"),
                                            tok(","),
                                            leaf("identifier", "x"),
                                            tok(")"),
                                        ],
                                    ),
                                ),
                            ],
                        ),
                        tok("}"),
                    ],
                ),
            ),
        ],
    );
    let t = tree(source, for_node);
    let (for_defs, for_uses) = extract_def_use(&t, 0, source.as_bytes());
    assert!(defs_has(&for_defs, "k") || defs_has(&for_defs, "v"), "for defs: {for_defs:?}");
    assert!(uses_has(&for_uses, "m"));
}

#[test]
fn test_go_field_assignment_def_use() {
    let source = "package demo\nfunc Process(order *OrderDTO) {\n  order.Status = \"PROCESSED\"\n}\n";
    let assign = node(
        "assignment_statement",
        "order.Status = \"PROCESSED\"",
        vec![
            at(
                "left",
                node(
                    "expression_list",
                    "order.Status",
                    vec![node(
                        "selector_expression",
                        "order.Status",
                        vec![
                            at("operand", leaf("identifier", "order")),
                            tok("."),
                            at("field", leaf("field_identifier", "Status")),
                        ],
                    )],
                ),
            ),
            tok("="),
            at(
                "right",
                node(
                    "expression_list",
                    "\"PROCESSED\"",
                    vec![leaf("interpreted_string_literal", "\"PROCESSED\"")],
                ),
            ),
        ],
    );
    let t = tree(source, assign);
    let (defs, _uses) = extract_def_use(&t, 0, source.as_bytes());
    assert!(defs_has(&defs, "order.Status"), "defs should include order.Status, got {defs:?}");
}

#[test]
fn test_java_field_assignment_def_use() {
    let source = "class C { void m(OrderDTO order) { order.status = \"X\"; } }";
    let assign = node(
        "assignment_expression",
        "order.status = \"X\"",
        vec![
            at(
                "left",
                node(
                    "field_access",
                    "order.status",
                    vec![at("object", leaf("identifier", "order")), tok("."), at("field", leaf("identifier", "status"))],
                ),
            ),
            tok("="),
            at("right", leaf("string_literal", "\"X\"")),
        ],
    );
    let t = tree(source, assign);
    let (defs, uses) = extract_def_use(&t, 0, source.as_bytes());
    assert!(defs_has(&defs, "order.status"), "defs should include order.status, got {defs:?}");
    assert!(uses_has(&uses, "order"), "uses should include order, got {uses:?}");
}

#[test]
fn test_java_local_variable_declaration_def_use() {
    let source = "class C { void m(OrderDTO order) { OrderDTO other = order; } }";
    let decl = node(
        "local_variable_declaration",
        "OrderDTO other = order;",
        vec![
            at("type", leaf("type_identifier", "OrderDTO")),
            at(
                "declarator",
                node(
                    "variable_declarator",
                    "other = order",
                    vec![at("name", leaf("identifier", "other")), tok("="), at("value", leaf("identifier", "order"))],
                ),
            ),
            tok(";"),
        ],
    );
    let t = tree(source, decl);
    let (defs, uses) = extract_def_use(&t, 0, source.as_bytes());
    assert!(defs_has(&defs, "other"), "defs should include other, got {defs:?}");
    assert!(uses_has(&uses, "order"), "uses should include order, got {uses:?}");
    assert!(!uses_has(&uses, "other"), "declarator name must not be a use, got {uses:?}");
}

#[test]
fn deep_call_chain_def_use_does_not_overflow() {
    let depth = 3000;
    let mut source = String::from("int deep() { return s()");
    for _ in 0..depth {
        source.push_str("()");
    }
    source.push_str("; }");
    let s_at = source.find("s()").unwrap();
    let mut nodes: Vec<SyntaxNode> = Vec::new();
    for i in 0..depth {
        nodes.push(SyntaxNode {
            kind: "call_expression".to_string(),
            field: if i == 0 { None } else { Some("function".to_string()) },
            named: true,
            start_byte: s_at,
            end_byte: source.len() - 3,
            start_row: 0,
            end_row: 0,
            children: vec![i + 1, depth + 1 + i],
        });
    }
    nodes.push(SyntaxNode {
        kind: "identifier".to_string(),
        field: Some("function".to_string()),
        named: true,
        start_byte: s_at,
        end_byte: s_at + 1,
        start_row: 0,
        end_row: 0,
        children: Vec::new(),
    });
    for _ in 0..depth {
        nodes.push(SyntaxNode {
            kind: "argument_list".to_string(),
            field: Some("arguments".to_string()),
            named: true,
            start_byte: s_at + 1,
            end_byte: s_at + 3,
            start_row: 0,
            end_row: 0,
            children: Vec::new(),
        });
    }
    let t = SyntaxTree { nodes, root: 0 };
    let (defs, uses) = extract_def_use(&t, 0, source.as_bytes());
    assert!(defs.is_empty());
    assert!(!uses_has(&uses, "s"));
}

#[test]
fn walk_stops_below_the_depth_limit() {
    // `s` sits at depth 2048 under a chain of calls and is still read; one level
    // deeper it is not.
    for (depth, seen) in [(2048usize, true), (2049usize, false)] {
        let source = "s";
        let mut nodes: Vec<SyntaxNode> = Vec::new();
        for i in 0..depth {
            nodes.push(SyntaxNode {
                kind: "call_expression".to_string(),
                field: None,
                named: true,
                start_byte: 0,
                end_byte: 1,
                start_row: 0,
                end_row: 0,
                children: vec![i + 1],
            });
        }
        nodes.push(SyntaxNode {
            kind: "identifier".to_string(),
            field: None,
            named: true,
            start_byte: 0,
            end_byte: 1,
            start_row: 0,
            end_row: 0,
            children: Vec::new(),
        });
        let t = SyntaxTree { nodes, root: 0 };
        let uses = extract_used_variables(&t, 0, source.as_bytes());
        assert_eq!(uses_has(&uses, "s"), seen, "depth {depth}");
    }
}

#[test]
fn php_variable_names_lose_their_dollar() {
    let source = "$total = $price;";
    let assign = node(
        "assignment_expression",
        "$total = $price",
        vec![
            at("left", leaf("variable_name", "$total")),
            tok("="),
            at("right", leaf("variable_name", "$price")),
        ],
    );
    let t = tree(source, assign);
    let (defs, uses) = extract_def_use(&t, 0, source.as_bytes());
    assert_eq!(uses, vec!["price".to_string()]);
    assert_eq!(defs.len(), 1);
}

#[test]
fn c_declaration_defines_through_pointer_declarators() {
    let source = "int *p = q, n;";
    let decl = node(
        "declaration",
        "int *p = q, n;",
        vec![
            at("type", leaf("primitive_type", "int")),
            at(
                "declarator",
                node(
                    "init_declarator",
                    "*p = q",
                    vec![
                        at("declarator", node("pointer_declarator", "*p", vec![tok("*"), at("declarator", leaf("identifier", "p"))])),
                        tok("="),
                        at("value", leaf("identifier", "q")),
                    ],
                ),
            ),
            tok(","),
            at("declarator", leaf("identifier", "n")),
            tok(";"),
        ],
    );
    let t = tree(source, decl);
    let (defs, uses) = extract_def_use(&t, 0, source.as_bytes());
    assert!(defs_has(&defs, "p"));
    assert!(!defs_has(&defs, "n"));
    assert_eq!(uses, vec!["q".to_string()]);
}

#[test]
fn repeated_names_are_reported_once() {
    let source = "x + x";
    let expr = node(
        "binary_expression",
        "x + x",
        vec![at("left", leaf("identifier", "x")), tok("+"), at("right", leaf("identifier", "x"))],
    );
    let t = tree(source, expr);
    let (defs, uses) = extract_def_use(&t, 0, source.as_bytes());
    assert!(defs.is_empty());
    assert_eq!(uses, vec!["x".to_string()]);
}
