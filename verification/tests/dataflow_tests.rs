use rgctl_analysis::cfg::{BasicBlock, BlockId, CfgEdgeType, ControlFlowGraph, Statement, StatementKind};
use rgctl_analysis::dataflow::{collect_block_definitions, compute_reaching_definitions, PdgNode, ReachingDefs};

fn stmt(line: usize, text: &str) -> Statement {
    Statement { kind: StatementKind::Assignment, line, text: text.into(), defined_vars: Vec::new(), used_vars: Vec::new() }
}

fn block(id: u32, texts: &[&str]) -> BasicBlock {
    BasicBlock {
        id: BlockId(id),
        statements: texts.iter().enumerate().map(|(i, t)| stmt(i + 1, t)).collect(),
        start_line: 1,
        end_line: texts.len(),
    }
}

fn node(id: u128, vars: &[&str]) -> Option<PdgNode> {
    Some(PdgNode { id, defined_vars: vars.iter().map(|v| v.to_string()).collect() })
}

fn vars_at(r: &ReachingDefs, ids: &[usize], var: &str) -> Vec<(u32, usize)> {
    ids.iter()
        .map(|&i| &r.definitions[i])
        .filter(|d| d.variable == var)
        .map(|d| (d.block.0, d.statement_index))
        .collect()
}

/// entry(0): x = 1 ; then(1): x = 2 ; else(2): x = 3 ; join(3): y = x ; tail(4): z = y
fn diamond() -> (ControlFlowGraph, Vec<Vec<Option<PdgNode>>>) {
    let mut cfg = ControlFlowGraph::new();
    cfg.add_block(block(0, &["let mut x = 1"]));
    cfg.add_block(block(1, &["x = 2"]));
    cfg.add_block(block(2, &["x = 3"]));
    cfg.add_block(block(3, &["let y = x"]));
    cfg.add_block(block(4, &["let _z = y"]));
    cfg.add_edge(BlockId(0), BlockId(1), CfgEdgeType::IfTrue);
    cfg.add_edge(BlockId(0), BlockId(2), CfgEdgeType::IfFalse);
    cfg.add_edge(BlockId(1), BlockId(3), CfgEdgeType::Next);
    cfg.add_edge(BlockId(2), BlockId(3), CfgEdgeType::Next);
    cfg.add_edge(BlockId(3), BlockId(4), CfgEdgeType::Next);
    let nodes = vec![
        vec![node(10, &["x"])],
        vec![node(11, &["x"])],
        vec![node(12, &["x"])],
        vec![node(13, &["y"])],
        vec![node(14, &["_z"])],
    ];
    (cfg, nodes)
}

#[test]
fn test_reaching_definitions_merge() {
    let (cfg, nodes) = diamond();
    let r = compute_reaching_definitions(&cfg, &nodes);
    let x_defs = vars_at(&r, &r.in_set[3], "x");
    assert_eq!(x_defs, vec![(1, 0), (2, 0)]);
    assert!(vars_at(&r, &r.in_set[3], "x").iter().all(|&(b, _)| b != 0), "entry definition is killed on both branches");
}

#[test]
fn test_reaching_definitions_diamond_merge() {
    let (cfg, nodes) = diamond();
    let r = compute_reaching_definitions(&cfg, &nodes);
    let x_defs = vars_at(&r, &r.in_set[4], "x");
    assert!(x_defs.len() >= 2, "diamond merge should see multiple reaching definitions for x");
    assert_eq!(vars_at(&r, &r.in_set[4], "y"), vec![(3, 0)]);
    assert!(r.in_set[0].is_empty());
}

#[test]
fn test_same_block_redefinition_masks_earlier_def() {
    let mut cfg = ControlFlowGraph::new();
    cfg.add_block(block(0, &["let mut x = 1", "x = 2"]));
    cfg.add_block(block(1, &["let _y = x"]));
    cfg.add_edge(BlockId(0), BlockId(1), CfgEdgeType::Next);
    let nodes = vec![vec![node(1, &["x"]), node(2, &["x"])], vec![node(3, &["_y"])]];
    let r = compute_reaching_definitions(&cfg, &nodes);
    let out_x = vars_at(&r, &r.out_set[0], "x");
    assert_eq!(out_x, vec![(0, 1)], "block with multiple assignments to x should gen only the last definition");
    assert_eq!(vars_at(&r, &r.in_set[1], "x"), vec![(0, 1)]);
}

#[test]
fn loop_back_edge_reaches_header() {
    // 0: i = 0 -> 1: header (no defs) -> 2: i = i + 1 -> back to 1
    let mut cfg = ControlFlowGraph::new();
    cfg.add_block(block(0, &["i = 0"]));
    cfg.add_block(block(1, &["while cond"]));
    cfg.add_block(block(2, &["i = i + 1"]));
    cfg.add_edge(BlockId(0), BlockId(1), CfgEdgeType::Next);
    cfg.add_edge(BlockId(1), BlockId(2), CfgEdgeType::IfTrue);
    cfg.add_edge(BlockId(2), BlockId(1), CfgEdgeType::Jump);
    let nodes = vec![vec![node(1, &["i"])], vec![None], vec![node(2, &["i"])]];
    let r = compute_reaching_definitions(&cfg, &nodes);
    assert_eq!(vars_at(&r, &r.in_set[1], "i"), vec![(0, 0), (2, 0)]);
    assert_eq!(vars_at(&r, &r.out_set[2], "i"), vec![(2, 0)]);
}

#[test]
fn collect_block_definitions_one_per_defined_variable() {
    let b = block(7, &["a, b = f()", "g()", "c = 1"]);
    let defs = collect_block_definitions(&b, &vec![node(1, &["a", "b"]), None, node(3, &["c"])]);
    let got: Vec<(String, u32, usize, u128)> =
        defs.iter().map(|d| (d.variable.clone(), d.block.0, d.statement_index, d.pdg_node)).collect();
    assert_eq!(
        got,
        vec![("a".to_string(), 7, 0, 1), ("b".to_string(), 7, 0, 1), ("c".to_string(), 7, 2, 3)]
    );
}
