use rgctl_analysis::community_label::{
    CommunityLabelHints, dedupe_community_labels, find_common_path_prefix_strings, infer_community_label, infer_label_from_names,
    majority_token, dotted_of, package_label_from_path, shorten_package_label, shorten_path_label,
};

#[test]
fn package_majority_wins() {
    let packages = vec!["com.example.auth".into(), "com.example.auth".into(), "com.example.other".into()];
    let names = vec!["a".into(), "b".into(), "c".into()];
    let label = infer_community_label(&CommunityLabelHints {
        id: 1,
        names: &names,
        file_paths: &[],
        package_labels: &packages,
        top_pagerank_name: None,
        is_infrastructure: false,
    });
    assert_eq!(label, "example.auth");
}

#[test]
fn infrastructure_label() {
    let label = infer_community_label(&CommunityLabelHints {
        id: 0,
        names: &["util".into()],
        file_paths: &[],
        package_labels: &[],
        top_pagerank_name: None,
        is_infrastructure: true,
    });
    assert_eq!(label, "Infrastructure / Common Library");
}

#[test]
fn dedupe_suffixes() {
    let mut labels = vec![(1, "auth".into()), (2, "auth".into()), (3, "cart".into())];
    dedupe_community_labels(&mut labels);
    assert_eq!(labels[0].1, "auth");
    assert_eq!(labels[1].1, "auth (2)");
    assert_eq!(labels[2].1, "cart");
}

#[test]
fn token_fallback() {
    let names = vec!["do_login".into(), "try_login".into(), "login_admin".into()];
    let label = infer_community_label(&CommunityLabelHints {
        id: 9,
        names: &names,
        file_paths: &[],
        package_labels: &[],
        top_pagerank_name: None,
        is_infrastructure: false,
    });
    assert_eq!(label, "login");
}

#[test]
fn dedupe_is_case_insensitive_and_counts_third() {
    let mut labels = vec![(1, "Auth".into()), (2, "auth".into()), (3, "AUTH".into()), (4, "cart".into())];
    dedupe_community_labels(&mut labels);
    assert_eq!(labels[0].1, "Auth");
    assert_eq!(labels[1].1, "auth (2)");
    assert_eq!(labels[2].1, "AUTH (3)");
    assert_eq!(labels[3].1, "cart");
    assert_eq!(labels[2].0, 3);
}

#[test]
fn package_with_top_name() {
    let packages = vec!["com.example.auth".into(), "com.example.auth".into()];
    let label = infer_community_label(&CommunityLabelHints {
        id: 1,
        names: &[],
        file_paths: &[],
        package_labels: &packages,
        top_pagerank_name: Some("com.example.auth.LoginService"),
        is_infrastructure: false,
    });
    assert_eq!(label, "example.auth::LoginService");
}

#[test]
fn common_path_prefix_rule() {
    let paths = vec!["src/auth/login.rs".into(), "src/auth/logout.rs".into()];
    let label = infer_community_label(&CommunityLabelHints {
        id: 2,
        names: &[],
        file_paths: &paths,
        package_labels: &["root".into(), "root".into()],
        top_pagerank_name: None,
        is_infrastructure: false,
    });
    assert_eq!(label, "auth");
}

#[test]
fn short_top_name_rule_and_community_fallback() {
    let label = infer_community_label(&CommunityLabelHints {
        id: 4,
        names: &["ab".into()],
        file_paths: &[],
        package_labels: &[],
        top_pagerank_name: Some("a::render"),
        is_infrastructure: false,
    });
    assert_eq!(label, "render");
    let label = infer_community_label(&CommunityLabelHints {
        id: 42,
        names: &["ab".into(), "cd".into()],
        file_paths: &[],
        package_labels: &[],
        top_pagerank_name: Some("x.y"),
        is_infrastructure: false,
    });
    assert_eq!(label, "Community 42");
}

#[test]
fn majority_needs_a_third() {
    let items: Vec<String> = vec!["aa".into(), "bb".into(), "cc".into(), "dd".into()];
    assert_eq!(majority_token(&items, 2), None);
    let items: Vec<String> = vec!["aa".into(), "bb".into(), "aa".into(), "x".into()];
    assert_eq!(majority_token(&items, 2), Some("aa".to_string()));
    let empty: Vec<String> = vec![];
    assert_eq!(majority_token(&empty, 2), None);
    let short: Vec<String> = vec!["a".into(), "a".into()];
    assert_eq!(majority_token(&short, 2), None);
}

#[test]
fn shorten_labels() {
    assert_eq!(shorten_package_label("com.example.auth"), "example.auth");
    assert_eq!(shorten_package_label("example.auth"), "example.auth");
    assert_eq!(shorten_package_label("a..b.c"), "b.c");
    assert_eq!(shorten_path_label("src\\auth\\"), "auth");
    assert_eq!(shorten_path_label("///"), "///");
    assert_eq!(shorten_path_label("src/util"), "util");
}

#[test]
fn package_labels_from_paths() {
    assert_eq!(package_label_from_path("proj/src/main/java/com/acme/Foo.java"), "com.acme");
    assert_eq!(package_label_from_path("crate/src/auth/login.rs"), "auth");
    assert_eq!(package_label_from_path("lib/util.py"), "lib");
    assert_eq!(package_label_from_path("main.rs"), "root");
    assert_eq!(package_label_from_path("a\\b\\c.rs"), "a.b");
}

#[test]
fn common_prefix_cuts_at_slash() {
    let paths: Vec<String> = vec!["src/auth/a.rs".into(), "src/auth/b.rs".into()];
    assert_eq!(find_common_path_prefix_strings(&paths), Some("src/auth".to_string()));
    let paths: Vec<String> = vec!["abc".into(), "abd".into()];
    assert_eq!(find_common_path_prefix_strings(&paths), Some("ab".to_string()));
    let paths: Vec<String> = vec!["x".into(), "y".into()];
    assert_eq!(find_common_path_prefix_strings(&paths), None);
    let empty: Vec<String> = vec![];
    assert_eq!(find_common_path_prefix_strings(&empty), None);
}

#[test]
fn names_fallback_counts_words() {
    let names: Vec<String> = vec!["get-user".into(), "set.user".into(), "misc".into()];
    assert_eq!(infer_label_from_names(&names, 3), "user");
    let names: Vec<String> = vec![];
    assert_eq!(infer_label_from_names(&names, 7), "Community 7");
}

#[test]
fn dedupe_skips_labels_already_taken() {
    let mut labels = vec![(1, "auth".into()), (2, "auth (2)".into()), (3, "auth".into()), (4, "Auth (3)".into())];
    dedupe_community_labels(&mut labels);
    assert_eq!(labels[0].1, "auth");
    assert_eq!(labels[1].1, "auth (2)");
    assert_eq!(labels[2].1, "auth (3)");
    assert_eq!(labels[3].1, "Auth (3) (2)");
}

#[test]
fn parent_directories_read_with_dots() {
    assert_eq!(dotted_of(Some("com/acme")), Some(vec!['c', 'o', 'm', '.', 'a', 'c', 'm', 'e']));
    assert_eq!(dotted_of(Some("")), None);
    assert_eq!(dotted_of(None), None);
}
