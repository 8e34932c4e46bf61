use rgctl_analysis::cpg_export::xml_escape;
use rgctl_analysis::cpg_export::{
    collect_export_graph, CpgExportScope, EdgeLabel, ExportEdge, ExportNode, FlowDep, GraphEdge, GraphNode, NodeRef,
    RelationKind, SymbolKind,
};

fn node(id: u128, kind: SymbolKind, file: Option<&str>) -> ExportNode {
    ExportNode { id, kind, file_path: file.map(|f| f.to_string()) }
}

fn sample_nodes() -> Vec<ExportNode> {
    vec![
        node(1, SymbolKind::Function, Some("src/a.rs")),
        node(2, SymbolKind::Class, Some("src/b.rs")),
        node(3, SymbolKind::Other, Some("src/c.rs")),
        node(4, SymbolKind::Variable, None),
    ]
}

fn sample_edges() -> Vec<ExportEdge> {
    vec![
        ExportEdge { from: 1, to: 2, kind: RelationKind::Calls },
        ExportEdge { from: 1, to: 3, kind: RelationKind::Calls },
        ExportEdge { from: 2, to: 1, kind: RelationKind::Other },
        ExportEdge { from: 4, to: 1, kind: RelationKind::Uses },
        ExportEdge { from: 2, to: 1, kind: RelationKind::Extends },
    ]
}

#[test]
fn export_keeps_scoped_symbols_and_numbers_edges() {
    let scope = CpgExportScope { path_contains: Some("src/".to_string()), include_l_proc: false, include_field_writes: false };
    let g = collect_export_graph(&sample_nodes(), &sample_edges(), &vec![], &vec![], &scope);
    assert_eq!(g.nodes, vec![GraphNode::Symbol(0), GraphNode::Symbol(1)]);
    assert_eq!(
        g.edges,
        vec![
            GraphEdge { number: 1, label: EdgeLabel::Relation(0), from: NodeRef::Symbol(1), to: NodeRef::Symbol(2) },
            GraphEdge { number: 2, label: EdgeLabel::Relation(4), from: NodeRef::Symbol(2), to: NodeRef::Symbol(1) },
        ]
    );
}

#[test]
fn export_adds_flows_and_field_writes_when_asked() {
    let scope = CpgExportScope { path_contains: Some("src/".to_string()), include_l_proc: true, include_field_writes: true };
    let deps = vec![
        FlowDep { function_id: 1, flow: true, from_line: 10, to_line: 12 },
        FlowDep { function_id: 1, flow: false, from_line: 20, to_line: 21 },
        FlowDep { function_id: 3, flow: true, from_line: 5, to_line: 6 },
        FlowDep { function_id: 1, flow: true, from_line: 12, to_line: 14 },
    ];
    let writes = vec![(1u128, "src/a.rs".to_string()), (2u128, "lib/x.rs".to_string())];
    let g = collect_export_graph(&sample_nodes(), &sample_edges(), &deps, &writes, &scope);
    assert_eq!(
        g.nodes,
        vec![
            GraphNode::Symbol(0),
            GraphNode::Symbol(1),
            GraphNode::Statement(1, 10),
            GraphNode::Statement(1, 12),
            GraphNode::Statement(1, 14),
            GraphNode::FieldWrite(0),
        ]
    );
    let numbers: Vec<usize> = g.edges.iter().map(|e| e.number).collect();
    assert_eq!(numbers, vec![1, 2, 3, 4, 5]);
    assert_eq!(g.edges[2].label, EdgeLabel::DataFlow(0));
    assert_eq!(g.edges[3], GraphEdge { number: 4, label: EdgeLabel::DataFlow(3), from: NodeRef::Statement(1, 12), to: NodeRef::Statement(1, 14) });
    assert_eq!(g.edges[4], GraphEdge { number: 5, label: EdgeLabel::WritesField, from: NodeRef::Symbol(1), to: NodeRef::FieldWrite(0) });
}

#[test]
fn export_without_filter_keeps_fileless_symbols() {
    let scope = CpgExportScope { path_contains: None, include_l_proc: false, include_field_writes: false };
    let g = collect_export_graph(&sample_nodes(), &sample_edges(), &vec![], &vec![], &scope);
    assert_eq!(g.nodes, vec![GraphNode::Symbol(0), GraphNode::Symbol(1), GraphNode::Symbol(3)]);
    assert_eq!(g.edges.len(), 3);
    assert_eq!(g.edges[1], GraphEdge { number: 2, label: EdgeLabel::Relation(3), from: NodeRef::Symbol(4), to: NodeRef::Symbol(1) });
}

#[test]
fn xml_escape_examples_read_back_by_replacement() {
    assert_eq!(xml_escape("a<b&c>"), "a&lt;b&amp;c&gt;");
    assert_eq!(xml_escape("q\"q"), "q&quot;q");
    for s in ["a<b&c>", "q\"q", "&amp;", "&lt;&gt;"] {
        let e = xml_escape(s);
        assert!(!e.contains('<') && !e.contains('>') && !e.contains('"'));
        let back = e.replace("&quot;", "\"").replace("&gt;", ">").replace("&lt;", "<").replace("&amp;", "&");
        assert_eq!(back, s);
    }
}
