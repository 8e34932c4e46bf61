use rgctl_analysis::complexity::{ComplexityLevel, classify_complexity};

#[test]
fn test_complexity_classification() {
    assert_eq!(classify_complexity(3), ComplexityLevel::Low);
    assert_eq!(classify_complexity(8), ComplexityLevel::Medium);
    assert_eq!(classify_complexity(15), ComplexityLevel::High);
    assert_eq!(classify_complexity(25), ComplexityLevel::Critical);
}

#[test]
fn classification_boundaries() {
    assert_eq!(classify_complexity(0), ComplexityLevel::Low);
    assert_eq!(classify_complexity(5), ComplexityLevel::Low);
    assert_eq!(classify_complexity(6), ComplexityLevel::Medium);
    assert_eq!(classify_complexity(10), ComplexityLevel::Medium);
    assert_eq!(classify_complexity(11), ComplexityLevel::High);
    assert_eq!(classify_complexity(20), ComplexityLevel::High);
    assert_eq!(classify_complexity(21), ComplexityLevel::Critical);
}

use rgctl_analysis::complexity::{ComplexityAnalyzer, FunctionNode};

fn node(id: u128, name: &str, props: &[(&str, &str)]) -> FunctionNode {
    FunctionNode {
        id,
        name: name.to_string(),
        properties: props.iter().map(|(k, v)| (k.to_string(), v.to_string())).collect(),
    }
}

#[test]
fn test_complexity_report() {
    let functions = vec![node(1, "complex", &[("cyclomatic", "15"), ("cognitive", "20"), ("loc", "100")])];
    let report = ComplexityAnalyzer::analyze(&functions);
    assert_eq!(report.functions.len(), 1);
    assert_eq!(report.functions[0].level, ComplexityLevel::High);
    assert_eq!(report.functions[0].cognitive, 20);
    assert_eq!(report.functions[0].loc, 100);
}

#[test]
fn report_orders_by_decreasing_complexity_and_counts_levels() {
    let functions = vec![
        node(1, "a", &[("cyclomatic", "3")]),
        node(2, "b", &[("cyclomatic", "25"), ("loc", "7")]),
        node(3, "c", &[]),
        node(4, "d", &[("cyclomatic", "25")]),
        node(5, "e", &[("cyclomatic", "nope"), ("cognitive", "9")]),
    ];
    let report = ComplexityAnalyzer::analyze(&functions);
    let order: Vec<u128> = report.functions.iter().map(|f| f.node.id).collect();
    assert_eq!(order, vec![2, 4, 1, 3, 5]);
    assert_eq!(report.by_level, [3, 0, 0, 2]);
    assert_eq!(report.total_cyclomatic, 3 + 25 + 1 + 25 + 1);
    assert_eq!(report.max_cyclomatic, 25);
    let c = report.functions.iter().find(|f| f.node.id == 3).unwrap();
    assert_eq!((c.cyclomatic, c.cognitive, c.loc), (1, 1, 0));
    let e = report.functions.iter().find(|f| f.node.id == 5).unwrap();
    assert_eq!((e.cyclomatic, e.cognitive), (1, 9));
}

#[test]
fn find_above_threshold_keeps_only_complex_functions() {
    let functions = vec![node(1, "a", &[("cyclomatic", "12")]), node(2, "b", &[("cyclomatic", "4")]), node(3, "c", &[("cyclomatic", "30")])];
    let above: Vec<u128> = ComplexityAnalyzer::find_above_threshold(&functions, 10).iter().map(|f| f.node.id).collect();
    assert_eq!(above, vec![3, 1]);
    assert!(ComplexityAnalyzer::find_above_threshold(&functions, 30).is_empty());
    let empty = ComplexityAnalyzer::analyze(&Vec::new());
    assert_eq!((empty.total_cyclomatic, empty.max_cyclomatic, empty.functions.len()), (0, 0, 0));
}
