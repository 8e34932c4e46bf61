use rgctl_analysis::cfg::{BasicBlock, BlockId, CfgEdgeType, ControlFlowGraph};
use rgctl_analysis::dominance::{DominatorTree, intersect_rpo, verify_idom_acyclic};

fn empty_block(id: BlockId) -> BasicBlock {
    BasicBlock { id, statements: Vec::new(), start_line: 0, end_line: 0 }
}

#[test]
fn diamond_join_idom_is_entry() {
    let mut cfg = ControlFlowGraph::new();
    let entry = cfg.entry;
    let left = BlockId(1);
    let right = BlockId(2);
    let join = BlockId(3);
    cfg.add_block(empty_block(left));
    cfg.add_block(empty_block(right));
    cfg.add_block(empty_block(join));
    cfg.add_edge(entry, left, CfgEdgeType::IfTrue);
    cfg.add_edge(entry, right, CfgEdgeType::IfFalse);
    cfg.add_edge(left, join, CfgEdgeType::Next);
    cfg.add_edge(right, join, CfgEdgeType::Next);

    let dom = DominatorTree::build(&cfg);
    assert_eq!(dom.idom[entry.0 as usize], Some(entry));
    assert_eq!(dom.idom[left.0 as usize], Some(entry));
    assert_eq!(dom.idom[right.0 as usize], Some(entry));
    assert_eq!(dom.idom[join.0 as usize], Some(entry));
    assert!(dom.dominates(entry, join));
    assert!(!dom.dominates(left, right));
    assert!(verify_idom_acyclic(&dom.idom));
}

fn loop_cfg() -> ControlFlowGraph {
    let mut cfg = ControlFlowGraph::new();
    let entry = cfg.entry;
    cfg.add_edge(entry, BlockId(1), CfgEdgeType::Next);
    cfg.add_edge(BlockId(1), BlockId(2), CfgEdgeType::IfTrue);
    cfg.add_edge(BlockId(2), BlockId(1), CfgEdgeType::Jump);
    cfg.add_edge(BlockId(1), BlockId(3), CfgEdgeType::IfFalse);
    cfg
}

#[test]
fn loop_header_dominates_body_and_exit() {
    let cfg = loop_cfg();
    let dom = DominatorTree::build(&cfg);
    assert_eq!(dom.idom[1], Some(BlockId(0)));
    assert_eq!(dom.idom[2], Some(BlockId(1)));
    assert_eq!(dom.idom[3], Some(BlockId(1)));
    for v in 0..4u32 {
        assert!(dom.dominates(cfg.entry, BlockId(v)));
    }
    assert!(!dom.dominates(BlockId(2), BlockId(3)));
    assert!(verify_idom_acyclic(&dom.idom));
    assert_eq!(dom.frontier(BlockId(2)), vec![BlockId(1)]);
    assert_eq!(dom.frontier(BlockId(1)), vec![BlockId(1)]);
    assert!(dom.frontier(BlockId(3)).is_empty());
    assert!(dom.frontier(BlockId(99)).is_empty());
}

#[test]
fn diamond_frontiers_hold_join() {
    let mut cfg = ControlFlowGraph::new();
    let entry = cfg.entry;
    cfg.add_edge(entry, BlockId(1), CfgEdgeType::IfTrue);
    cfg.add_edge(entry, BlockId(2), CfgEdgeType::IfFalse);
    cfg.add_edge(BlockId(1), BlockId(3), CfgEdgeType::Next);
    cfg.add_edge(BlockId(2), BlockId(3), CfgEdgeType::Next);
    let dom = DominatorTree::build(&cfg);
    assert_eq!(dom.frontier(BlockId(1)), vec![BlockId(3)]);
    assert_eq!(dom.frontier(BlockId(2)), vec![BlockId(3)]);
    assert!(dom.frontier(entry).is_empty());
}

#[test]
fn unreachable_blocks_have_no_idom() {
    let mut cfg = ControlFlowGraph::new();
    let entry = cfg.entry;
    cfg.add_edge(entry, BlockId(1), CfgEdgeType::Next);
    cfg.add_edge(BlockId(2), BlockId(1), CfgEdgeType::Next);
    let dom = DominatorTree::build(&cfg);
    assert_eq!(dom.idom[2], None);
    assert!(!dom.reachable[2]);
    assert!(!dom.dominates(BlockId(2), BlockId(1)));
    assert!(!dom.dominates(entry, BlockId(2)));
    let verified = DominatorTree::build_verified(&cfg);
    assert!(verified.is_ok());
}

#[test]
fn cyclic_parent_links_are_detected() {
    let links = vec![Some(BlockId(1)), Some(BlockId(0))];
    assert!(!verify_idom_acyclic(&links));
    let links = vec![Some(BlockId(0)), Some(BlockId(0)), None];
    assert!(verify_idom_acyclic(&links));
}

#[test]
fn intersect_finds_common_ancestor() {
    let tree = vec![0u32, 0, 1, 1, 2];
    assert_eq!(intersect_rpo(&tree, 4, 3), 1);
    assert_eq!(intersect_rpo(&tree, 2, 4), 2);
    assert_eq!(intersect_rpo(&tree, 4, 0), 0);
}

#[test]
fn dominance_follows_every_path_through_a_loop() {
    let mut cfg = ControlFlowGraph::new();
    cfg.add_block(empty_block(BlockId(1)));
    cfg.add_block(empty_block(BlockId(2)));
    cfg.add_block(empty_block(BlockId(3)));
    cfg.add_edge(BlockId(0), BlockId(1), CfgEdgeType::Next);
    cfg.add_edge(BlockId(1), BlockId(2), CfgEdgeType::Next);
    cfg.add_edge(BlockId(2), BlockId(3), CfgEdgeType::IfTrue);
    cfg.add_edge(BlockId(3), BlockId(2), CfgEdgeType::Jump);
    let dom = DominatorTree::build(&cfg);
    assert!(dom.dominates(BlockId(1), BlockId(2)));
    assert!(dom.dominates(BlockId(1), BlockId(3)));
    assert!(dom.dominates(BlockId(2), BlockId(3)));
    assert!(!dom.dominates(BlockId(3), BlockId(2)));
    assert!(dom.dominates(BlockId(2), BlockId(2)));
    assert!(!dom.dominates(BlockId(9), BlockId(2)));
    assert_eq!(dom.idom[1], Some(BlockId(0)));
    assert_eq!(dom.idom[2], Some(BlockId(1)));
    assert_eq!(dom.idom[3], Some(BlockId(2)));
    assert_eq!(dom.frontier(BlockId(3)), vec![BlockId(2)]);
    assert_eq!(dom.frontier(BlockId(2)), vec![BlockId(2)]);
}

#[test]
fn test_dominance_entry_dominates_all() {
    // if x > 0 { return x * 2; } 0 : entry -> then, entry -> join, then -> exit, join -> exit
    let mut cfg = ControlFlowGraph::new();
    for b in 1..4u32 {
        cfg.add_block(empty_block(BlockId(b)));
    }
    cfg.add_edge(BlockId(0), BlockId(1), CfgEdgeType::IfTrue);
    cfg.add_edge(BlockId(0), BlockId(2), CfgEdgeType::IfFalse);
    cfg.add_edge(BlockId(1), BlockId(3), CfgEdgeType::Return);
    cfg.add_edge(BlockId(2), BlockId(3), CfgEdgeType::Next);
    let dom = DominatorTree::build(&cfg);
    for (b, &r) in dom.reachable.iter().enumerate() {
        if r {
            assert!(dom.dominates(cfg.entry, BlockId(b as u32)));
        }
    }
    assert!(verify_idom_acyclic(&dom.idom));
}

#[test]
fn test_idom_acyclic_on_loop() {
    // let s; let i; while i < n { s += i; i += 1 } s
    let mut cfg = ControlFlowGraph::new();
    for b in 1..4u32 {
        cfg.add_block(empty_block(BlockId(b)));
    }
    cfg.add_edge(BlockId(0), BlockId(1), CfgEdgeType::Next);
    cfg.add_edge(BlockId(1), BlockId(2), CfgEdgeType::IfTrue);
    cfg.add_edge(BlockId(2), BlockId(1), CfgEdgeType::Jump);
    cfg.add_edge(BlockId(1), BlockId(3), CfgEdgeType::IfFalse);
    let dom = DominatorTree::build(&cfg);
    assert!(verify_idom_acyclic(&dom.idom));
    assert_eq!(dom.idom[2], Some(BlockId(1)));
    assert_eq!(dom.idom[3], Some(BlockId(1)));
}
