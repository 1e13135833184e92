use rgitstats::domain::{Analysis, Commit, ParsedScope, Scope};
use rgitstats::parser::{
    add_to_scope, find_type_boundary, get_scope, get_type, get_types, last_fragment,
    normalize_type, parse_entries,
};
use rgitstats::strings::chars_of;
use std::collections::HashMap;

type Authors = HashMap<String, u32>;
type Types = HashMap<String, (u32, Authors)>;
type Tree = HashMap<String, (u32, Types)>;

fn tree_of(scope: &Scope) -> Tree {
    let mut tree = Tree::new();
    for node in &scope.nodes {
        let mut types = Types::new();
        for kind in &node.types {
            let authors: Authors = kind.authors.entries.iter().cloned().collect();
            assert_eq!(authors.len(), kind.authors.entries.len());
            assert!(types.insert(kind.name.clone(), (kind.count, authors)).is_none());
        }
        assert!(tree.insert(node.name.clone(), (node.count, types)).is_none());
    }
    tree
}

fn counts_of(entries: &Vec<(String, u32)>) -> HashMap<String, u32> {
    let counts: HashMap<String, u32> = entries.iter().cloned().collect();
    assert_eq!(counts.len(), entries.len());
    counts
}

fn commit(message: &str, author: &str) -> Commit {
    Commit { message: message.to_string(), author: author.to_string() }
}

fn parsed(scope: &str, kind: &str, author: Option<&str>) -> ParsedScope {
    ParsedScope {
        scope: scope.to_string(),
        type_: kind.to_string(),
        author: author.map(|name| name.to_string()),
    }
}

fn ten_messages() -> Vec<String> {
    vec![
        "feat(core): added stuff (this is the stuff)".to_string(),
        "feat(ui): new buttons".to_string(),
        "fix(ui): fix buttons".to_string(),
        "perf: removed react (because why not)".to_string(),
        "skip that one because not following conventional commits".to_string(),
        "Merged PR 42: blablabla".to_string(),
        "Merge branch some/branch: blablabla".to_string(),
        "fix(perf): fixed broken app".to_string(),
        "docs: improved readme".to_string(),
        "feat(core): added more stuff".to_string(),
    ]
}

#[test]
fn test_get_scope() {
    let strings = vec![
        "build: release new version 0.1.1",
        "feat(authors): Produces author stats as result",
        "perf: add precommit (ie: commit-msg) hooks",
        "feat(cli): Use clamp for cli parsing (careful)",
        "docs: add installation description",
    ];
    let expectations = vec![
        None,
        Some("authors".to_string()),
        None,
        Some("cli".to_string()),
        None,
    ];
    for index in 0..strings.len() {
        assert_eq!(get_scope(strings[index].to_string()), expectations[index]);
    }
}

#[test]
fn test_scope() {
    let vec: Vec<ParsedScope> = vec![
        ParsedScope {
            scope: "scope1".to_string(),
            type_: "type1".to_string(),
            author: Some("author1".to_string()),
        },
        ParsedScope {
            scope: "scope2".to_string(),
            type_: "type2".to_string(),
            author: Some("author2".to_string()),
        },
        ParsedScope {
            scope: "scope2".to_string(),
            type_: "type2".to_string(),
            author: Some("author1".to_string()),
        },
        ParsedScope {
            scope: "scope2".to_string(),
            type_: "type2".to_string(),
            author: Some("author2".to_string()),
        },
        ParsedScope {
            scope: "scope2".to_string(),
            type_: "type3".to_string(),
            author: Some("author3".to_string()),
        },
    ];
    let mut scope = Scope::new();
    for parsed_scope in vec {
        add_to_scope(parsed_scope, &mut scope);
    }
    assert_eq!(
        tree_of(&scope),
        [
            (
                "scope1".to_string(),
                (
                    1,
                    [(
                        "type1".to_string(),
                        (1, [("author1".to_string(), 1)].iter().cloned().collect())
                    )]
                    .iter()
                    .cloned()
                    .collect()
                )
            ),
            (
                "scope2".to_string(),
                (
                    4,
                    [
                        (
                            "type2".to_string(),
                            (
                                3,
                                [("author2".to_string(), 2), ("author1".to_string(), 1)]
                                    .iter()
                                    .cloned()
                                    .collect()
                            )
                        ),
                        (
                            "type3".to_string(),
                            (1, [("author3".to_string(), 1)].iter().cloned().collect())
                        )
                    ]
                    .iter()
                    .cloned()
                    .collect()
                )
            )
        ]
        .iter()
        .cloned()
        .collect()
    )
}

#[test]
fn mod_test_parse_entries() {
    assert_eq!(
        parse_entries(vec![]).unwrap_err(),
        "No types found".to_string()
    );

    let strings = ten_messages()
        .into_iter()
        .map(|line| Commit {
            message: line,
            author: "Matthias Kainer".to_string(),
        })
        .collect();
    let Analysis {
        types,
        authors,
        scope: _,
    } = parse_entries(strings).unwrap();
    assert_eq!(
        counts_of(&types.entries),
        ([
            ("feat".to_string(), 3),
            ("fix".to_string(), 2),
            ("perf".to_string(), 1),
            ("docs".to_string(), 1),
            ("merge".to_string(), 2),
        ]
        .iter()
        .cloned()
        .collect())
    );
    assert_eq!(
        counts_of(&authors.entries),
        ([("Matthias Kainer".to_string(), 9),]
            .iter()
            .cloned()
            .collect())
    );
}

#[test]
fn main_test_parse_entries() {
    assert_eq!(
        parse_entries(vec![]).unwrap_err(),
        "No types found".to_string()
    );

    let strings = ten_messages()
        .into_iter()
        .map(|line| Commit {
            message: line,
            author: "Matthias Kainer".to_string(),
        })
        .collect();
    let Analysis { types, authors, .. } = parse_entries(strings).unwrap();
    assert_eq!(
        counts_of(&types.entries),
        ([
            ("feat".to_string(), 3),
            ("fix".to_string(), 2),
            ("perf".to_string(), 1),
            ("docs".to_string(), 1),
            ("merge".to_string(), 2),
        ]
        .iter()
        .cloned()
        .collect())
    );
    assert_eq!(
        counts_of(&authors.entries),
        ([("Matthias Kainer".to_string(), 9),]
            .iter()
            .cloned()
            .collect())
    );
}

#[test]
fn classify_examples() {
    assert_eq!(get_type("feat(core): added stuff".to_string()), "feat");
    assert_eq!(get_type("docs: improved readme".to_string()), "docs");
    assert_eq!(get_type("Merge branch some/branch: blah".to_string()), "merge");
    assert_eq!(get_type("Merged PR 42: blah".to_string()), "merge");
    assert_eq!(get_type("no colon at all".to_string()), "");
}

#[test]
fn classify_sees_only_the_first_colon() {
    assert_eq!(get_type("perf: add precommit (ie: commit-msg) hooks".to_string()), "perf");
    assert_eq!(get_type("fix: a: b: c".to_string()), "fix");
    assert_eq!(get_type("fix(a:b): c".to_string()), "fix");
}

#[test]
fn classify_lowers_the_case() {
    assert_eq!(get_type("FEAT(core): shout".to_string()), "feat");
    assert_eq!(get_type("Docs: title case".to_string()), "docs");
    assert_eq!(get_type("ÄNDERUNG(x): umlaut".to_string()), "änderung");
    assert_eq!(get_type("MERGE: shout".to_string()), "merge");
}

#[test]
fn classify_reverts() {
    assert_eq!(get_type("Revert \"feat: x\": because".to_string()), "revert");
    assert_eq!(get_type("reverted(ui): y".to_string()), "revert");
    assert_eq!(get_type("REVERT: z".to_string()), "revert");
}

#[test]
fn classify_keeps_the_token_as_it_stands() {
    assert_eq!(get_type(": no type".to_string()), "");
    assert_eq!(get_type("(scope): no type".to_string()), "");
    assert_eq!(get_type("  feat(core): leading blanks".to_string()), "  feat");
    assert_eq!(get_type("feat (core): blank before scope".to_string()), "feat ");
    assert_eq!(get_type("emerge: not a merge".to_string()), "emerge");
}

#[test]
fn classify_needs_a_colon() {
    assert_eq!(get_type("".to_string()), "");
    assert_eq!(get_type("feat(core) but no colon".to_string()), "");
    assert_eq!(get_type("merge without colon".to_string()), "");
}

#[test]
fn type_boundary_positions() {
    assert_eq!(find_type_boundary(&chars_of("fix(ui): b")), Some(3));
    assert_eq!(find_type_boundary(&chars_of("docs: (x)")), Some(4));
    assert_eq!(find_type_boundary(&chars_of("élan(x): y")), Some(4));
    assert_eq!(find_type_boundary(&chars_of("fix(ui) b")), None);
    assert_eq!(find_type_boundary(&chars_of("")), None);
}

#[test]
fn normalize_rules_in_order() {
    assert_eq!(normalize_type("merged pr 42".to_string()), "merge");
    assert_eq!(normalize_type("merge".to_string()), "merge");
    assert_eq!(normalize_type("revert \"x\"".to_string()), "revert");
    assert_eq!(normalize_type("feat".to_string()), "feat");
    assert_eq!(normalize_type("merg".to_string()), "merg");
    assert_eq!(normalize_type("".to_string()), "");
}

#[test]
fn scope_examples() {
    assert_eq!(get_scope("fix(ui): fix buttons".to_string()), Some("ui".to_string()));
    assert_eq!(get_scope("build: release new version 0.1.1".to_string()), None);
    assert_eq!(get_scope("perf: add precommit (ie: commit-msg) hooks".to_string()), None);
    assert_eq!(
        get_scope("feat(cli): Use clamp for cli parsing (careful)".to_string()),
        Some("cli".to_string())
    );
}

#[test]
fn scope_is_trimmed() {
    assert_eq!(get_scope("feat( ui ): blanks".to_string()), Some("ui".to_string()));
    assert_eq!(get_scope("feat(\tui\u{a0}): blanks".to_string()), Some("ui".to_string()));
    assert_eq!(get_scope("feat(a b): inner blank".to_string()), Some("a b".to_string()));
    assert_eq!(get_scope("feat( ): only blanks".to_string()), None);
}

#[test]
fn scope_needs_two_pieces() {
    assert_eq!(get_scope("no colon (here)".to_string()), None);
    assert_eq!(get_scope("(ui): no type".to_string()), None);
    assert_eq!(get_scope("feat(): empty".to_string()), None);
    assert_eq!(get_scope("feat: (late) scope".to_string()), None);
    assert_eq!(get_scope("".to_string()), None);
    assert_eq!(get_scope(":".to_string()), None);
}

#[test]
fn scope_is_the_last_piece() {
    assert_eq!(get_scope("feat(a)(b): two".to_string()), Some("b".to_string()));
    assert_eq!(get_scope("feat(a)b: tail".to_string()), Some("b".to_string()));
    assert_eq!(get_scope("feat)ui(: reversed".to_string()), Some("ui".to_string()));
    assert_eq!(get_scope("feat((ui)): nested".to_string()), Some("ui".to_string()));
    assert_eq!(get_scope("Fix(UI): case is kept".to_string()), Some("UI".to_string()));
}

#[test]
fn empty_history_fails() {
    assert_eq!(parse_entries(Vec::new()).unwrap_err(), "No types found");
}

#[test]
fn history_without_conventional_commits_fails() {
    let history = vec![
        commit("skip that one because not following conventional commits", "a"),
        commit("another (one) without", "b"),
        commit("", ""),
    ];
    assert_eq!(parse_entries(history).unwrap_err(), "No types found");
}

#[test]
fn ten_messages_by_one_author() {
    let history = ten_messages().iter().map(|m| commit(m, "someone")).collect();
    let analysis = parse_entries(history).unwrap();
    assert_eq!(
        counts_of(&analysis.types.entries),
        [("feat", 3), ("fix", 2), ("perf", 1), ("docs", 1), ("merge", 2)]
            .iter()
            .map(|(k, n)| (k.to_string(), *n))
            .collect()
    );
    assert_eq!(
        counts_of(&analysis.authors.entries),
        [("someone".to_string(), 9)].iter().cloned().collect()
    );
    let tree = tree_of(&analysis.scope);
    assert_eq!(tree.len(), 3);
    assert_eq!(tree["core"].0, 2);
    assert_eq!(tree["ui"].0, 2);
    assert_eq!(tree["perf"].0, 1);
    assert_eq!(tree["core"].1["feat"].0, 2);
    assert_eq!(tree["ui"].1["feat"].0, 1);
    assert_eq!(tree["ui"].1["fix"].0, 1);
    assert_eq!(tree["perf"].1["fix"].1["someone"], 1);
}

#[test]
fn types_keep_the_order_of_first_appearance() {
    let history = ten_messages().iter().map(|m| commit(m, "someone")).collect();
    let analysis = parse_entries(history).unwrap();
    assert_eq!(
        analysis.types.entries,
        vec![
            ("feat".to_string(), 3),
            ("fix".to_string(), 2),
            ("perf".to_string(), 1),
            ("merge".to_string(), 2),
            ("docs".to_string(), 1),
        ]
    );
}

#[test]
fn empty_author_counts_for_the_type_only() {
    let history = vec![
        commit("feat(ui): one", ""),
        commit("feat(ui): two", "ann"),
        commit("fix: three", ""),
    ];
    let analysis = parse_entries(history).unwrap();
    assert_eq!(
        counts_of(&analysis.types.entries),
        [("feat".to_string(), 2), ("fix".to_string(), 1)].iter().cloned().collect()
    );
    assert_eq!(
        counts_of(&analysis.authors.entries),
        [("ann".to_string(), 1)].iter().cloned().collect()
    );
    let tree = tree_of(&analysis.scope);
    assert_eq!(tree.len(), 1);
    assert_eq!(tree["ui"].0, 2);
    assert_eq!(tree["ui"].1["feat"].0, 2);
    assert_eq!(tree["ui"].1["feat"].1, [("ann".to_string(), 1)].iter().cloned().collect());
}

#[test]
fn commit_without_scope_stays_out_of_the_tree() {
    let history = vec![commit("docs: readme", "ann"), commit("Merge branch x: y", "bob")];
    let analysis = parse_entries(history).unwrap();
    assert_eq!(analysis.types.entries.len(), 2);
    assert_eq!(analysis.authors.entries.len(), 2);
    assert!(analysis.scope.nodes.is_empty());
}

#[test]
fn unclassified_commit_touches_nothing() {
    let history = vec![commit("feat(ui): one", "ann"), commit("wip (ui) no colon", "bob")];
    let analysis = parse_entries(history).unwrap();
    assert_eq!(analysis.types.entries, vec![("feat".to_string(), 1)]);
    assert_eq!(analysis.authors.entries, vec![("ann".to_string(), 1)]);
    assert_eq!(tree_of(&analysis.scope)["ui"].0, 1);
}

#[test]
fn recording_counts_at_every_level() {
    let mut scope = Scope::new();
    add_to_scope(parsed("s", "t", Some("a")), &mut scope);
    add_to_scope(parsed("s", "t", None), &mut scope);
    add_to_scope(parsed("s", "u", Some("a")), &mut scope);
    add_to_scope(parsed("r", "t", Some("b")), &mut scope);
    let tree = tree_of(&scope);
    assert_eq!(tree["s"].0, 3);
    assert_eq!(tree["s"].1["t"].0, 2);
    assert_eq!(tree["s"].1["t"].1, [("a".to_string(), 1)].iter().cloned().collect());
    assert_eq!(tree["s"].1["u"].0, 1);
    assert_eq!(tree["r"].0, 1);
    assert_eq!(tree["r"].1["t"].1["b"], 1);
    assert_eq!(scope.nodes[0].name, "s");
    assert_eq!(scope.nodes[1].name, "r");
}

#[test]
fn counts_roll_up() {
    let authors = ["ann", "bob", "", "cy"];
    let history: Vec<Commit> = ten_messages()
        .iter()
        .enumerate()
        .map(|(i, m)| commit(m, authors[i % authors.len()]))
        .collect();
    let analysis = parse_entries(history).unwrap();
    assert!(!analysis.scope.nodes.is_empty());
    for node in &analysis.scope.nodes {
        let of_types: u32 = node.types.iter().map(|kind| kind.count).sum();
        assert_eq!(node.count, of_types);
        for kind in &node.types {
            let of_authors: u32 = kind.authors.entries.iter().map(|entry| entry.1).sum();
            assert!(of_authors <= kind.count);
        }
    }
}

#[test]
fn authors_add_up_where_every_commit_has_one() {
    let history: Vec<Commit> = ten_messages().iter().map(|m| commit(m, "ann")).collect();
    let analysis = parse_entries(history).unwrap();
    for node in &analysis.scope.nodes {
        for kind in &node.types {
            let of_authors: u32 = kind.authors.entries.iter().map(|entry| entry.1).sum();
            assert_eq!(of_authors, kind.count);
        }
    }
    let mut scope = Scope::new();
    add_to_scope(parsed("s", "t", Some("a")), &mut scope);
    add_to_scope(parsed("s", "t", None), &mut scope);
    let kind = &scope.nodes[0].types[0];
    assert_eq!(kind.count, 2);
    assert_eq!(kind.authors.entries, vec![("a".to_string(), 1)]);
}

#[test]
fn order_of_recording_does_not_matter() {
    let triples = [
        ("s", "t", Some("a")),
        ("s", "t", None),
        ("s", "u", Some("b")),
        ("r", "t", Some("a")),
        ("s", "t", Some("a")),
        ("r", "v", None),
    ];
    let orders: [[usize; 6]; 4] =
        [[0, 1, 2, 3, 4, 5], [5, 4, 3, 2, 1, 0], [3, 0, 5, 1, 4, 2], [1, 5, 0, 4, 2, 3]];
    let mut trees = Vec::new();
    for order in orders.iter() {
        let mut scope = Scope::new();
        for &i in order.iter() {
            let (s, t, a) = triples[i];
            add_to_scope(parsed(s, t, a), &mut scope);
        }
        trees.push(tree_of(&scope));
    }
    assert_eq!(trees[0]["s"].0, 4);
    assert_eq!(trees[0]["s"].1["t"].1["a"], 2);
    for tree in &trees[1..] {
        assert_eq!(tree, &trees[0]);
    }
}

#[test]
fn plural_name_classifies_alike() {
    for message in ten_messages() {
        assert_eq!(get_types(message.clone()), get_type(message));
    }
    assert_eq!(get_types("Merged PR 42: blah".to_string()), "merge");
    assert_eq!(get_types("no colon at all".to_string()), "");
}

#[test]
fn last_fragment_bounds() {
    let header = chars_of("fix( ui ): b");
    assert_eq!(last_fragment(&header, 9), Some((4, 8)));
    assert_eq!(last_fragment(&header, 4), None);
    assert_eq!(last_fragment(&header, 5), Some((4, 5)));
    assert_eq!(last_fragment(&header, 0), None);
    assert_eq!(last_fragment(&chars_of("a(b)(c)d"), 8), Some((7, 8)));
    assert_eq!(last_fragment(&chars_of("a(b)(c)"), 7), Some((5, 6)));
    assert_eq!(last_fragment(&chars_of("()(("), 4), None);
}
