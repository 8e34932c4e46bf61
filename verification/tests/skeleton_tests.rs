use rgctl_analysis::ast_skeleton::{
    build_function_skeleton, skeleton_archive_header, skeleton_payload_start, AstSkeletonKind, SkeletonArchiveError,
};
use rgctl_analysis::syntax_tree::{SyntaxNode, SyntaxTree};

struct N {
    kind: &'static str,
    field: Option<&'static str>,
    named: bool,
    text: &'static str,
    kids: Vec<N>,
}

fn leaf(kind: &'static str, text: &'static str) -> N {
    N { kind, field: None, named: true, text, kids: Vec::new() }
}

fn tok(text: &'static str) -> N {
    N { kind: text, field: None, named: false, text, kids: Vec::new() }
}

fn node(kind: &'static str, text: &'static str, kids: Vec<N>) -> N {
    N { kind, field: None, named: true, text, kids }
}

fn at(field: &'static str, mut n: N) -> N {
    n.field = Some(field);
    n
}

fn push(src: &str, n: &N, nodes: &mut Vec<SyntaxNode>) -> usize {
    let start = src.find(n.text).expect("node text occurs in the source");
    let end = start + n.text.len();
    let idx = nodes.len();
    nodes.push(SyntaxNode {
        kind: n.kind.to_string(),
        field: n.field.map(|f| f.to_string()),
        named: n.named,
        start_byte: start,
        end_byte: end,
        start_row: src[..start].matches('\n').count(),
        end_row: src[..end].matches('\n').count(),
        children: Vec::new(),
    });
    let mut kids = Vec::new();
    for k in &n.kids {
        kids.push(push(src, k, nodes));
    }
    nodes[idx].children = kids;
    idx
}

fn tree(src: &str, root: N) -> SyntaxTree {
    let mut nodes = Vec::new();
    let r = push(src, &root, &mut nodes);
    SyntaxTree { nodes, root: r }
}

const JAVA_SRC: &str = "\npublic class C {\n  void m(int x) {\n    x = x + 1;\n    foo(x);\n  }\n}\n";

fn java_method() -> N {
    node(
        "method_declaration",
        "void m(int x) {\n    x = x + 1;\n    foo(x);\n  }",
        vec![
            at("type", leaf("void_type", "void")),
            at("name", leaf("identifier", "m")),
            at("parameters", node("formal_parameters", "(int x)", vec![tok("("), tok(")")])),
            at(
                "body",
                node(
                    "block",
                    "{\n    x = x + 1;\n    foo(x);\n  }",
                    vec![
                        tok("{"),
                        node(
                            "expression_statement",
                            "x = x + 1;",
                            vec![
                                node(
                                    "assignment_expression",
                                    "x = x + 1",
                                    vec![
                                        at("left", leaf("identifier", "x")),
                                        tok("="),
                                        at(
                                            "right",
                                            node(
                                                "binary_expression",
                                                "x + 1",
                                                vec![leaf("identifier", "x"), tok("+"), leaf("decimal_integer_literal", "1")],
                                            ),
                                        ),
                                    ],
                                ),
                                tok(";"),
                            ],
                        ),
                        node(
                            "expression_statement",
                            "foo(x);",
                            vec![
                                node(
                                    "method_invocation",
                                    "foo(x)",
                                    vec![
                                        at("name", leaf("identifier", "foo")),
                                        at("arguments", node("argument_list", "(x)", vec![tok("("), leaf("identifier", "x"), tok(")")])),
                                    ],
                                ),
                                tok(";"),
                            ],
                        ),
                        tok("}"),
                    ],
                ),
            ),
        ],
    )
}

#[test]
fn java_skeleton_has_assign() {
    let t = tree(JAVA_SRC, java_method());
    let rec = build_function_skeleton(&t, JAVA_SRC.as_bytes(), t.root, "m", "C.java", None);
    assert!(rec.nodes.iter().any(|n| n.kind == AstSkeletonKind::Assign));
    assert!(rec.nodes.iter().any(|n| n.kind == AstSkeletonKind::Call));
}

#[test]
fn skeleton_numbers_nodes_in_preorder_under_their_parents() {
    let t = tree(JAVA_SRC, java_method());
    let rec = build_function_skeleton(&t, JAVA_SRC.as_bytes(), t.root, "m", "C.java", Some(7));
    assert_eq!(rec.function_id, Some(7));
    assert_eq!(rec.function_name, "m");
    assert_eq!(rec.file_path, "C.java");
    let shape: Vec<(u32, Option<u32>, AstSkeletonKind, usize, usize)> =
        rec.nodes.iter().map(|n| (n.id, n.parent, n.kind, n.start_line, n.end_line)).collect();
    assert_eq!(
        shape,
        vec![
            (0, None, AstSkeletonKind::Function, 3, 6),
            (1, Some(0), AstSkeletonKind::Block, 3, 6),
            (2, Some(1), AstSkeletonKind::Assign, 4, 4),
            (3, Some(1), AstSkeletonKind::Call, 5, 5),
        ]
    );
    assert_eq!(rec.nodes[0].label, "void m(int x) {");
    assert_eq!(rec.nodes[2].label, "x = x + 1");
}

#[test]
fn skeleton_archive_framing() {
    let header = skeleton_archive_header();
    assert_eq!(header, b"RBAS\x01\x00\x00\x00".to_vec());
    let mut image = header.clone();
    image.extend_from_slice(b"payload");
    assert_eq!(skeleton_payload_start(&image), Ok(8));
    assert_eq!(skeleton_payload_start(b"RBAS\x01\x00\x00"), Err(SkeletonArchiveError::InvalidMagic));
    assert_eq!(skeleton_payload_start(b"RBSE\x01\x00\x00\x00"), Err(SkeletonArchiveError::InvalidMagic));
    assert_eq!(
        skeleton_payload_start(b"RBAS\x02\x00\x00\x00"),
        Err(SkeletonArchiveError::UnsupportedVersion { version: 2 })
    );
}
