use rgctl_analysis::alias::may_alias_names;
use rgctl_analysis::cfg::{BasicBlock, BlockId, ControlFlowGraph, DefVar, Statement, StatementKind};

fn stmt(line: usize, defs: Vec<DefVar>, uses: Vec<&str>) -> Statement {
    Statement {
        kind: StatementKind::Assignment,
        line,
        text: String::new(),
        defined_vars: defs,
        used_vars: uses.into_iter().map(String::from).collect(),
    }
}

fn field(receiver: &str, member: &str) -> DefVar {
    DefVar::Field { receiver: receiver.into(), member: member.into() }
}

/// `OrderDTO other = order; other.status = "X";`
fn copy_then_field_cfg() -> ControlFlowGraph {
    let mut cfg = ControlFlowGraph::new();
    cfg.add_block(BasicBlock {
        id: BlockId(1),
        statements: vec![
            stmt(3, vec![DefVar::Local("other".into())], vec!["order"]),
            stmt(4, vec![field("other", "status")], vec![]),
        ],
        start_line: 3,
        end_line: 4,
    });
    cfg
}

fn sorted(mut v: Vec<String>) -> Vec<String> {
    v.sort();
    v
}

#[test]
fn field_and_copy_alias() {
    let cfg = copy_then_field_cfg();
    let set = may_alias_names(&cfg, "order");
    assert!(set.iter().any(|n| n == "order"));
    assert!(set.iter().any(|n| n == "other"), "copy alias missing: set={set:?}");
    assert!(set.iter().any(|n| n == "other.status"), "field via alias missing: set={set:?}");
    assert_eq!(sorted(set), vec!["order".to_string(), "other".to_string(), "other.status".to_string()]);
}

#[test]
fn unrelated_names_stay_out() {
    let mut cfg = copy_then_field_cfg();
    cfg.add_block(BasicBlock {
        id: BlockId(2),
        statements: vec![stmt(5, vec![DefVar::Local("x".into())], vec!["y"])],
        start_line: 5,
        end_line: 5,
    });
    let set = may_alias_names(&cfg, "order");
    assert!(!set.iter().any(|n| n == "x" || n == "y"));
    assert_eq!(may_alias_names(&cfg, "y").len(), 2);
}

#[test]
fn dotted_seed_joins_its_base() {
    let cfg = ControlFlowGraph::new();
    let set = sorted(may_alias_names(&cfg, "a.b.c"));
    assert_eq!(set, vec!["a".to_string(), "a.b.c".to_string()]);
}

#[test]
fn copy_needs_exactly_one_def_and_one_use() {
    let mut cfg = ControlFlowGraph::new();
    cfg.add_block(BasicBlock {
        id: BlockId(1),
        statements: vec![stmt(1, vec![DefVar::Local("a".into())], vec!["b", "c"])],
        start_line: 1,
        end_line: 1,
    });
    assert_eq!(may_alias_names(&cfg, "a"), vec!["a".to_string()]);
    let set = may_alias_names(&cfg, "zzz");
    assert_eq!(set, vec!["zzz".to_string()]);
}
