use rgctl_analysis::cfg::{BasicBlock, BlockId, CfgEdgeType, ControlFlowGraph, DefVar, Statement, StatementKind, def_var_from_wire};

fn stmt(line: usize, text: &str) -> Statement {
    Statement {
        kind: StatementKind::Expression,
        line,
        text: text.into(),
        defined_vars: Vec::new(),
        used_vars: Vec::new(),
    }
}

fn linear_cfg() -> ControlFlowGraph {
    let mut cfg = ControlFlowGraph::new();
    let b1 = BlockId(1);
    let b2 = BlockId(2);
    let exit = BlockId(3);
    cfg.add_block(BasicBlock { id: b1, statements: vec![stmt(1, "a")], start_line: 1, end_line: 1 });
    cfg.add_block(BasicBlock { id: b2, statements: vec![stmt(2, "b")], start_line: 2, end_line: 2 });
    let entry = cfg.entry;
    cfg.add_edge(entry, b1, CfgEdgeType::Next);
    cfg.add_edge(b1, b2, CfgEdgeType::Next);
    cfg.add_edge(b2, exit, CfgEdgeType::Return);
    cfg.exits.push(exit);
    cfg
}

#[test]
fn test_predecessors_successors() {
    let cfg = linear_cfg();
    let b2 = cfg.blocks.iter().find(|b| b.statements.iter().any(|s| s.text == "b")).unwrap().id;
    let preds = cfg.predecessors(b2);
    assert_eq!(preds.len(), 1);
    assert_eq!(cfg.successors(preds[0]).len(), 1);
}

#[test]
fn test_find_paths() {
    let cfg = linear_cfg();
    let b2 = cfg.blocks.iter().find(|b| b.statements.iter().any(|s| s.text == "b")).unwrap().id;
    let exit = cfg.exits[0];
    let paths = cfg.find_paths(b2, exit);
    assert_eq!(paths.len(), 1);
    assert_eq!(paths[0].last(), Some(&exit));
}

#[test]
fn test_has_cycle_loop() {
    let mut cfg = ControlFlowGraph::new();
    let header = BlockId(1);
    let body = BlockId(2);
    cfg.add_block(BasicBlock { id: header, statements: vec![], start_line: 1, end_line: 1 });
    cfg.add_block(BasicBlock { id: body, statements: vec![], start_line: 2, end_line: 2 });
    let entry = cfg.entry;
    cfg.add_edge(entry, header, CfgEdgeType::Next);
    cfg.add_edge(header, body, CfgEdgeType::IfTrue);
    cfg.add_edge(body, header, CfgEdgeType::Jump);
    assert!(cfg.has_cycle());
}

#[test]
fn test_defines_name_field_no_alloc() {
    let def = DefVar::Field { receiver: "order".into(), member: "status".into() };
    assert!(def.defines_name("order.status"));
    assert!(!def.defines_name("order.id"));
}

#[test]
fn test_to_dot_contains_nodes() {
    let cfg = linear_cfg();
    let dot = cfg.to_dot();
    assert!(dot.contains("digraph CFG"));
    assert!(dot.contains("->"));
}

#[test]
fn to_dot_exact_text() {
    let mut cfg = ControlFlowGraph::new();
    cfg.add_block(BasicBlock { id: BlockId(1), statements: vec![stmt(1, "x = \"a\""), stmt(2, "y")], start_line: 1, end_line: 2 });
    let entry = cfg.entry;
    cfg.add_edge(entry, BlockId(1), CfgEdgeType::IfTrue);
    let dot = cfg.to_dot();
    assert_eq!(
        dot,
        "digraph CFG {\n  \"0\" [label=\"block 0\"];\n  \"1\" [label=\"x = \\\"a\\\"\\ny\"];\n  \"0\" -> \"1\" [label=\"T\"];\n}\n"
    );
}

#[test]
fn no_cycle_on_linear_graph() {
    let cfg = linear_cfg();
    assert!(!cfg.has_cycle());
}

#[test]
fn find_paths_counts_both_branches() {
    let mut cfg = ControlFlowGraph::new();
    let entry = cfg.entry;
    cfg.add_edge(entry, BlockId(1), CfgEdgeType::IfTrue);
    cfg.add_edge(entry, BlockId(2), CfgEdgeType::IfFalse);
    cfg.add_edge(BlockId(1), BlockId(3), CfgEdgeType::Next);
    cfg.add_edge(BlockId(2), BlockId(3), CfgEdgeType::Next);
    let paths = cfg.find_paths(entry, BlockId(3));
    assert_eq!(paths.len(), 2);
    for p in &paths {
        assert_eq!(p.first(), Some(&entry));
        assert_eq!(p.last(), Some(&BlockId(3)));
        assert_eq!(p.len(), 3);
    }
}

#[test]
fn reachable_blocks_skip_unreachable() {
    let mut cfg = linear_cfg();
    cfg.add_block(BasicBlock { id: BlockId(7), statements: vec![stmt(9, "dead")], start_line: 9, end_line: 9 });
    cfg.add_edge(BlockId(7), BlockId(2), CfgEdgeType::Next);
    let mut r = cfg.reachable_blocks();
    r.sort();
    assert_eq!(r, vec![BlockId(0), BlockId(1), BlockId(2), BlockId(3)]);
    cfg.prune_unreachable_blocks();
    assert!(cfg.blocks.iter().all(|b| b.id != BlockId(7)));
    assert_eq!(cfg.blocks.len(), 3);
}

#[test]
fn wire_names_decode_fields_and_locals() {
    assert_eq!(
        def_var_from_wire("order.status".to_string()),
        DefVar::Field { receiver: "order".into(), member: "status".into() }
    );
    assert_eq!(def_var_from_wire("count".to_string()), DefVar::Local("count".into()));
    assert_eq!(def_var_from_wire(".x".to_string()), DefVar::Local(".x".into()));
    assert_eq!(def_var_from_wire("a.b.c".to_string()), DefVar::Field { receiver: "a.b".into(), member: "c".into() });
}

#[test]
fn def_var_names() {
    let f = DefVar::Field { receiver: "order".into(), member: "status".into() };
    assert_eq!(f.name(), "order.status");
    assert_eq!(f.field_receiver(), Some("order"));
    let l = DefVar::local("x");
    assert_eq!(l.name(), "x");
    assert_eq!(l.field_receiver(), None);
    assert!(l.defines_name("x"));
}

#[test]
fn statement_defines() {
    let s = Statement {
        kind: StatementKind::Assignment,
        line: 1,
        text: "x = 1".into(),
        defined_vars: vec![DefVar::local("x")],
        used_vars: vec![],
    };
    assert!(s.defines("x"));
    assert!(!s.defines("y"));
}

#[test]
fn block_id_new_keeps_value() {
    assert_eq!(BlockId::new(5), BlockId(5));
}

#[test]
fn def_names_decode_back_to_their_definition() {
    let field = DefVar::Field { receiver: "order".into(), member: "status".into() };
    assert_eq!(def_var_from_wire(field.name()), field);
    let local = DefVar::Local("total".into());
    assert_eq!(def_var_from_wire(local.name()), local);
    let dotted = DefVar::Local("a.b".into());
    assert_eq!(def_var_from_wire(dotted.name()), DefVar::Field { receiver: "a".into(), member: "b".into() });
}
