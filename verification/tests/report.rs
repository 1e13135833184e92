use rgitstats::domain::{Commit, ScopeNode};
use rgitstats::parser::parse_entries;
use rgitstats::report::{sections, total};

#[test]
fn every_shows_all_parts() {
    let s = sections("every");
    assert!(s.path && s.types && s.authors && s.scope);
}

#[test]
fn a_part_by_its_name() {
    let s = sections("types");
    assert!(!s.path && s.types && !s.authors && !s.scope);
    let s = sections("authors");
    assert!(!s.path && !s.types && s.authors && !s.scope);
    let s = sections("scope");
    assert!(!s.path && !s.types && !s.authors && s.scope);
}

#[test]
fn another_word_shows_nothing() {
    for word in ["", "Every", "type", "scopes", "every "] {
        let s = sections(word);
        assert!(!s.path && !s.types && !s.authors && !s.scope);
    }
}

#[test]
fn total_of_a_table() {
    let rows = vec![("feat".to_string(), 3u32), ("fix".to_string(), 2), ("docs".to_string(), 1)];
    assert_eq!(total(&rows), 6);
    assert_eq!(total(&Vec::<(String, u32)>::new()), 0);
    let large = vec![("a".to_string(), u32::MAX), ("b".to_string(), u32::MAX)];
    assert_eq!(total(&large), 8589934590);
}

#[test]
fn total_of_the_scopes_and_of_their_types() {
    let history = vec![
        Commit { message: "feat(ui): a".to_string(), author: "x".to_string() },
        Commit { message: "fix(ui): b".to_string(), author: "x".to_string() },
        Commit { message: "fix(core): c".to_string(), author: "".to_string() },
        Commit { message: "docs: d".to_string(), author: "y".to_string() },
    ];
    let analysis = parse_entries(history).unwrap();
    assert_eq!(total(&analysis.scope.nodes), 3);
    assert_eq!(total(&analysis.types.entries), 4);
    assert_eq!(total(&analysis.authors.entries), 3);
    for node in &analysis.scope.nodes {
        assert_eq!(total(&node.types), node.count as u64);
    }
    assert_eq!(total(&Vec::<ScopeNode>::new()), 0);
}
