use domain_lookup_tree::labels::domain_to_rseg;
use domain_lookup_tree::tree::{DomainLookupTree, RuleError};

fn tree_of(rules: &[&str]) -> DomainLookupTree {
    let mut tree = DomainLookupTree::new();
    for rule in rules {
        tree.insert(rule).unwrap();
    }
    tree
}

#[test]
fn splits_labels_top_level_first() {
    assert_eq!(domain_to_rseg("www.example.com"), vec!["com", "example", "www"]);
    assert_eq!(domain_to_rseg(".example.com"), vec!["com", "example", ""]);
    assert_eq!(domain_to_rseg(""), vec![""]);
    assert_eq!(domain_to_rseg("a..b"), vec!["b", "", "a"]);
}

#[test]
fn scenario_mixed_rules() {
    let tree = tree_of(&[
        "test.com",
        "www.test.com",
        "123.test.com",
        ".google.com",
        ".test.google.com",
        "123.test.google.com",
    ]);
    assert_eq!(tree.lookup("test.com"), Some("test.com".to_string()));
    assert_eq!(tree.lookup("foo.test.com"), None);
    assert_eq!(tree.lookup("google.com"), Some(".google.com".to_string()));
    assert_eq!(tree.lookup("anything.google.com"), Some(".google.com".to_string()));
    assert_eq!(tree.lookup("123.test.google.com"), Some("123.test.google.com".to_string()));
    assert_eq!(tree.lookup("other.test.google.com"), Some(".test.google.com".to_string()));
}

#[test]
fn absolute_rule_matches_itself() {
    let tree = tree_of(&["www.example.org", "a.b.c.d"]);
    assert_eq!(tree.lookup("www.example.org"), Some("www.example.org".to_string()));
    assert_eq!(tree.lookup("a.b.c.d"), Some("a.b.c.d".to_string()));
    assert_eq!(tree.lookup("x.www.example.org"), None);
}

#[test]
fn wildcard_rule_matches_domain_and_below() {
    let tree = tree_of(&[".example.org"]);
    assert_eq!(tree.lookup("example.org"), Some(".example.org".to_string()));
    assert_eq!(tree.lookup("a.example.org"), Some(".example.org".to_string()));
    assert_eq!(tree.lookup("x.y.z.example.org"), Some(".example.org".to_string()));
    assert_eq!(tree.lookup(".example.org"), Some(".example.org".to_string()));
    assert_eq!(tree.lookup("org"), Some("org".to_string()));
}

#[test]
fn unknown_domains_find_nothing() {
    let tree = tree_of(&[".example.org", "www.test.com"]);
    assert_eq!(tree.lookup("example.net"), None);
    assert_eq!(tree.lookup("net"), None);
    assert_eq!(tree.lookup(""), None);
    assert_eq!(tree.lookup("mail.test.com"), None);
    assert_eq!(DomainLookupTree::new().lookup("example.org"), None);
}

#[test]
fn exact_beats_ancestor() {
    let tree = tree_of(&[".b.c", "a.b.c"]);
    assert_eq!(tree.lookup("a.b.c"), Some("a.b.c".to_string()));
    let tree = tree_of(&["a.b.c", ".b.c"]);
    assert_eq!(tree.lookup("a.b.c"), Some("a.b.c".to_string()));
    assert_eq!(tree.lookup("z.b.c"), Some(".b.c".to_string()));
}

#[test]
fn deepest_wildcard_wins() {
    let tree = tree_of(&[".c", ".b.c"]);
    assert_eq!(tree.lookup("x.b.c"), Some(".b.c".to_string()));
    let tree = tree_of(&[".b.c", ".c"]);
    assert_eq!(tree.lookup("x.b.c"), Some(".b.c".to_string()));
    assert_eq!(tree.lookup("x.y.c"), Some(".c".to_string()));
}

#[test]
fn inserting_twice_changes_nothing() {
    let queries = ["test.com", "a.test.com", "com", "other.org", ".test.com"];
    for rule in ["test.com", ".test.com"] {
        let once = tree_of(&[rule]);
        let twice = tree_of(&[rule, rule]);
        for q in queries {
            assert_eq!(once.lookup(q), twice.lookup(q));
        }
    }
}

#[test]
fn later_absolute_rule_keeps_wildcard_flag() {
    let tree = tree_of(&[".b.c", "b.c"]);
    assert_eq!(tree.lookup("b.c"), Some(".b.c".to_string()));
    let tree = tree_of(&["b.c", ".b.c"]);
    assert_eq!(tree.lookup("b.c"), Some(".b.c".to_string()));
}

#[test]
fn scaffolding_nodes_match_exactly() {
    let tree = tree_of(&["www.example.org"]);
    assert_eq!(tree.lookup("example.org"), Some("example.org".to_string()));
}

#[test]
fn malformed_rules_are_refused() {
    let mut tree = DomainLookupTree::new();
    for rule in ["", ".", "..a", "a..b", "a.", "..", ".a."] {
        assert_eq!(tree.insert(rule), Err(RuleError::InvalidDomainRule));
    }
    assert_eq!(tree.lookup("a"), None);
    assert_eq!(tree.lookup("b"), None);
    assert_eq!(tree.insert("a"), Ok(()));
    assert_eq!(tree.lookup("a"), Some("a".to_string()));
}

#[test]
fn traverse_returns_node() {
    let tree = tree_of(&[".test.com", "www.example.org"]);
    let (domain, node) = tree.traverse("a.b.test.com").unwrap();
    assert_eq!(domain, "test.com");
    assert!(node.is_wildcard());
    assert_eq!(node.label(), "test");
    let (domain, node) = tree.traverse("www.example.org").unwrap();
    assert_eq!(domain, "www.example.org");
    assert!(!node.is_wildcard());
    assert_eq!(node.label(), "www");
    assert!(tree.traverse("example.net").is_none());
}

#[test]
fn counts_top_level_labels() {
    assert_eq!(DomainLookupTree::new().top_level_count(), 0);
    let tree = tree_of(&["a.com", ".b.com", "x.org", "org", "net"]);
    assert_eq!(tree.top_level_count(), 3);
}
