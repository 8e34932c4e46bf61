use rgctl_analysis::blast_radius::{direct_callers, impact_bfs};
use rgctl_analysis::blast_radius::{resolve_unique_symbol, SymbolError};

// a -> b -> c (a calls b, b calls c): callers of c are [b], callers of b are [a].
fn chain() -> (Vec<Vec<u32>>, Vec<bool>) {
    (vec![vec![], vec![0], vec![1]], vec![true, true, true])
}

#[test]
fn test_blast_radius_simple() {
    let (callers, is_fn) = chain();
    assert_eq!(direct_callers(&callers, &is_fn, 2), vec![1]);
    let zone = impact_bfs(&callers, &is_fn, 2, 10);
    assert_eq!(zone.len(), 2);
    assert_eq!(zone, vec![(0, 2), (1, 1)]);
}

#[test]
fn test_blast_radius_leaf() {
    let callers: Vec<Vec<u32>> = vec![vec![]];
    let is_fn = vec![true];
    assert!(direct_callers(&callers, &is_fn, 0).is_empty());
    assert!(impact_bfs(&callers, &is_fn, 0, 10).is_empty());
}

#[test]
fn default_depth_limits_long_call_chain() {
    // f0 -> f1 -> ... -> f11
    let mut callers: Vec<Vec<u32>> = vec![vec![]];
    for i in 1..12u32 {
        callers.push(vec![i - 1]);
    }
    let is_fn = vec![true; 12];
    let limited = impact_bfs(&callers, &is_fn, 11, 10);
    let full = impact_bfs(&callers, &is_fn, 11, usize::MAX);
    assert!(full.iter().any(|&(v, _)| v == 0));
    assert!(!limited.iter().any(|&(v, _)| v == 0));
    assert!(limited.iter().any(|&(v, d)| v == 1 && d == 10));
}

#[test]
fn impact_skips_non_functions_and_the_symbol_itself() {
    // 0 (not a function) calls 2; 1 calls 2 and 2 calls itself; 3 calls 1.
    let callers: Vec<Vec<u32>> = vec![vec![], vec![3], vec![0, 1, 2], vec![]];
    let is_fn = vec![false, true, true, true];
    assert_eq!(direct_callers(&callers, &is_fn, 2), vec![1, 2]);
    assert_eq!(impact_bfs(&callers, &is_fn, 2, 5), vec![(1, 1), (3, 2)]);
    assert_eq!(impact_bfs(&callers, &is_fn, 2, 0), vec![]);
}

#[test]
fn symbol_resolution_needs_exactly_one_match() {
    assert_eq!(resolve_unique_symbol(&vec![]), Err(SymbolError::NotFound));
    assert_eq!(resolve_unique_symbol(&vec![(5u128, "parse".to_string())]), Ok((5u128, "parse".to_string())));
    assert_eq!(
        resolve_unique_symbol(&vec![(5u128, "parse".to_string()), (9u128, "parse".to_string())]),
        Err(SymbolError::Ambiguous { count: 2 })
    );
}
