use rgctl_analysis::ast_skeleton::{AstSkeletonKind, classify, truncate_label};
use rgctl_analysis::callgraph::parse_argument_names;
use rgctl_analysis::cfg_builder::{is_block_like, is_constant_false, is_constant_true};
use rgctl_analysis::community::{TieBreakStrategy, assign_infrastructure_hubs, propagate_labels, push_undirected_neighbor_set};
use rgctl_analysis::community_query::path_to_package;
use rgctl_analysis::cpg::archive_path;
use rgctl_analysis::cpg_export::{CpgExportScope, path_ok, xml_escape};
use rgctl_analysis::def_use::{is_binding_pattern, is_field_access_kind};
use std::collections::HashSet;

#[test]
fn block_like_kinds() {
    assert!(is_block_like("block"));
    assert!(is_block_like("compound_statement"));
    assert!(!is_block_like("if_statement"));
    assert!(is_constant_false("False"));
    assert!(is_constant_false("0"));
    assert!(!is_constant_false("false "));
    assert!(is_constant_true("1"));
    assert!(!is_constant_true("yes"));
}

#[test]
fn def_use_kinds() {
    assert!(is_field_access_kind("member_expression"));
    assert!(!is_field_access_kind("identifier"));
    assert!(is_binding_pattern("tuple_pattern"));
    assert!(!is_binding_pattern("call_expression"));
}

#[test]
fn skeleton_roles() {
    assert_eq!(classify("if_expression"), Some(AstSkeletonKind::If));
    assert_eq!(classify("foreach_statement"), Some(AstSkeletonKind::Loop));
    assert_eq!(classify("method_invocation"), Some(AstSkeletonKind::Call));
    assert_eq!(classify("augmented_assignment"), Some(AstSkeletonKind::Assign));
    assert_eq!(classify("let_declaration"), Some(AstSkeletonKind::Decl));
    assert_eq!(classify("body"), Some(AstSkeletonKind::Block));
    assert_eq!(classify("identifier"), None);
}

#[test]
fn labels_are_trimmed_first_lines() {
    assert_eq!(truncate_label("  let x = 1;  \nmore"), "let x = 1;");
    assert_eq!(truncate_label("a\r\nb"), "a");
    assert_eq!(truncate_label(""), "");
    let long: String = std::iter::repeat('x').take(100).collect();
    let t = truncate_label(&long);
    assert_eq!(t.chars().count(), 80);
    assert!(t.ends_with('\u{2026}'));
    let exact: String = std::iter::repeat('y').take(80).collect();
    assert_eq!(truncate_label(&exact), exact);
}

#[test]
fn xml_and_scope() {
    assert_eq!(xml_escape("a<b>&\"c\""), "a&lt;b&gt;&amp;&quot;c&quot;");
    let scope = CpgExportScope { path_contains: Some("auth".into()), include_l_proc: false, include_field_writes: false };
    assert!(path_ok(&scope, Some("src/auth/x.rs")));
    assert!(!path_ok(&scope, Some("src/ui/x.rs")));
    assert!(!path_ok(&scope, None));
    assert!(path_ok(&CpgExportScope::default(), None));
}

#[test]
fn archive_location() {
    assert_eq!(archive_path("/repo"), "/repo/.rgctl/analysis/cfg_pdg.archive.bin");
    assert_eq!(archive_path("/repo/"), "/repo/.rgctl/analysis/cfg_pdg.archive.bin");
    assert_eq!(archive_path(""), ".rgctl/analysis/cfg_pdg.archive.bin");
}

#[test]
fn argument_names_sorted_by_index() {
    let props = vec![
        ("arg_2".to_string(), "c".to_string()),
        ("name".to_string(), "f".to_string()),
        ("arg_0".to_string(), "a".to_string()),
        ("arg_x".to_string(), "bad".to_string()),
        ("arg_1".to_string(), "b".to_string()),
    ];
    assert_eq!(parse_argument_names(&props), vec![(0, "a".to_string()), (1, "b".to_string()), (2, "c".to_string())]);
}

#[test]
fn community_package_paths() {
    assert_eq!(path_to_package("proj/src/main/java/com/acme/Foo.java"), "com.acme");
    assert_eq!(path_to_package("Foo.java"), "root");
}

#[test]
fn hubs_get_extra_label() {
    let mut labels = vec![0, 1, 2, 3];
    assert_eq!(assign_infrastructure_hubs(&mut labels, &[false, true, false, true], 4), Some(4));
    assert_eq!(labels, vec![0, 4, 2, 4]);
    let mut labels = vec![0, 1];
    assert_eq!(assign_infrastructure_hubs(&mut labels, &[false, false], 2), None);
    assert_eq!(labels, vec![0, 1]);
}

#[test]
fn undirected_links() {
    let mut n: Vec<HashSet<usize>> = vec![HashSet::new(), HashSet::new(), HashSet::new()];
    push_undirected_neighbor_set(&mut n, 0, 2);
    push_undirected_neighbor_set(&mut n, 1, 1);
    assert!(n[0].contains(&2));
    assert!(n[2].contains(&0));
    assert!(n[1].is_empty());
}

#[test]
fn label_propagation_groups_cliques() {
    let neighbors = vec![vec![1, 2], vec![0, 2], vec![0, 1, 3], vec![2, 4, 5], vec![3, 5], vec![3, 4]];
    let hubs = vec![false; 6];
    let labels = propagate_labels(&neighbors, &hubs, 20);
    assert_eq!(labels[0], labels[1]);
    assert_eq!(labels[1], labels[2]);
    assert_eq!(labels[4], labels[5]);
    let _ = TieBreakStrategy::LabelId;
}

#[test]
fn deterministic_lowest_label_tie_break() {
    let neighbors = vec![vec![1], vec![0]];
    let labels = propagate_labels(&neighbors, &vec![false, false], 1);
    assert_eq!(labels, vec![1, 1]);
    let labels = propagate_labels(&neighbors, &vec![false, false], 0);
    assert_eq!(labels, vec![0, 1]);
    let labels = propagate_labels(&neighbors, &vec![true, false], 5);
    assert_eq!(labels, vec![0, 1]);
}

#[test]
fn test_deterministic_tie_break() {
    // a -> c, b -> c, as undirected neighbor lists.
    let neighbors = vec![vec![2], vec![2], vec![0, 1]];
    let hubs = vec![false; 3];
    let first = propagate_labels(&neighbors, &hubs, 20);
    for _ in 0..100 {
        assert_eq!(first, propagate_labels(&neighbors, &hubs, 20));
    }
}
