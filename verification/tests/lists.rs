use rgitstats::counter::Counter;
use rgitstats::lists::sort_by_values;

fn counter_of(pairs: &[(&str, u32)]) -> Counter {
    let mut counter = Counter::new();
    for (name, count) in pairs {
        counter.insert(name.to_string(), *count);
    }
    counter
}

#[test]
fn mod_test_sorting() {
    let input = counter_of(&[("fix", 2), ("perf", 1), ("feat", 3), ("docs", 1)]);

    let expected = vec![
        ("feat".to_string(), 3),
        ("fix".to_string(), 2),
        ("docs".to_string(), 1),
        ("perf".to_string(), 1),
    ];
    assert_eq!(sort_by_values(input)[0..2], expected[0..2]);
}

#[test]
fn main_test_sorting() {
    let input = counter_of(&[("fix", 2), ("perf", 1), ("feat", 3), ("docs", 1)]);

    let expected = vec![
        ("feat".to_string(), 3),
        ("fix".to_string(), 2),
        ("docs".to_string(), 1),
        ("perf".to_string(), 1),
    ];
    assert_eq!(sort_by_values(input)[0..2], expected[0..2]);
}

#[test]
fn sorting_keeps_every_entry() {
    let input = counter_of(&[("fix", 2), ("perf", 1), ("feat", 3), ("docs", 1), ("ci", 7)]);
    let mut sorted = sort_by_values(input);
    assert_eq!(sorted.len(), 5);
    assert_eq!(sorted[0], ("ci".to_string(), 7));
    assert_eq!(sorted[1], ("feat".to_string(), 3));
    assert_eq!(sorted[2], ("fix".to_string(), 2));
    sorted.sort();
    assert_eq!(
        sorted,
        vec![
            ("ci".to_string(), 7),
            ("docs".to_string(), 1),
            ("feat".to_string(), 3),
            ("fix".to_string(), 2),
            ("perf".to_string(), 1),
        ]
    );
}

#[test]
fn sorting_is_descending_on_adjacent_pairs() {
    let input = counter_of(&[
        ("a", 5),
        ("b", 0),
        ("c", 9),
        ("d", 5),
        ("e", 1),
        ("f", 9),
        ("g", 4294967295),
        ("h", 2),
    ]);
    let sorted = sort_by_values(input);
    assert_eq!(sorted.len(), 8);
    for i in 0..sorted.len() - 1 {
        assert!(sorted[i].1 >= sorted[i + 1].1);
    }
    assert_eq!(sorted[0], ("g".to_string(), 4294967295));
    assert_eq!(sorted[7], ("b".to_string(), 0));
}

#[test]
fn sorting_nothing_gives_nothing() {
    assert_eq!(sort_by_values(Counter::new()), Vec::<(String, u32)>::new());
}

#[test]
fn sorting_one_entry() {
    let input = counter_of(&[("only", 3)]);
    assert_eq!(sort_by_values(input), vec![("only".to_string(), 3)]);
}
