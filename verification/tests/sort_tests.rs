use cyberpunk_utility::rules::Rules;
use cyberpunk_utility::sort::{contains_edge, position, stable_topo_sort_inner, topo_sort, CycleError};
use toposort_scc::IndexGraph;

fn rules_of(pairs: &[(&str, &str)]) -> Rules {
    Rules {
        order: pairs
            .iter()
            .map(|e| (e.0.to_owned(), e.1.to_owned()))
            .collect(),
    }
}

fn mods_of(names: &[&str]) -> Vec<String> {
    names.iter().map(|e| (*e).to_owned()).collect()
}

fn checkresult(result: &[String], rules: &Rules) -> bool {
    let pairs = &rules.order;
    for (a, b) in pairs {
        let pos_a = result.iter().position(|x| x == a);
        if pos_a.is_none() {
            continue;
        }
        let pos_b = result.iter().position(|x| x == b);
        if pos_b.is_none() {
            continue;
        }

        if pos_a.unwrap() > pos_b.unwrap() {
            return false;
        }
    }

    true
}

#[test]
fn unit_tests_test_cycle() {
    let rules = Rules {
        order: vec![
            ("a".to_owned(), "b".into()),
            ("b".into(), "c".into()),
            ("d".into(), "e".into()),
            ("b".into(), "a".into()),
        ],
    };

    let mods = mods_of(&["a", "b", "c", "d", "e"]);

    assert!(
        topo_sort(&mods, &rules).is_err(),
        "rules do not contain a cycle"
    )
}

#[test]
fn unit_tests_test_ordering() {
    let rules = Rules {
        order: vec![
            ("a".to_owned(), "b".into()),
            ("b".into(), "c".into()),
            ("d".into(), "e".into()),
            ("e".into(), "c".into()),
        ],
    };

    let mods = mods_of(&["a", "b", "c", "d", "e"]);

    match topo_sort(&mods, &rules) {
        Ok(result) => assert!(checkresult(&result, &rules), "order is wrong"),
        Err(_) => panic!("rules contain a cycle"),
    }
}

#[test]
fn test_cycle() {
    let rules = rules_of(&[("a", "b"), ("b", "c"), ("d", "e"), ("b", "a")]);

    let mods: Vec<String> = mods_of(&["a", "b", "c", "d", "e", "f", "g"]);

    assert!(
        topo_sort(&mods, &rules).is_err(),
        "rules do not contain a cycle"
    )
}

#[test]
fn test_ordering() {
    let rules = rules_of(&[
        ("a", "b"),
        ("b", "c"),
        ("d", "e"),
        ("e", "c"),
        ("test.archive", "test2.archive"),
    ]);

    let mods = mods_of(&["a", "b", "c", "d", "e", "f", "g"]);

    match topo_sort(&mods, &rules) {
        Ok(result) => assert!(checkresult(&result, &rules), "order is wrong"),
        Err(_) => panic!("rules contain a cycle"),
    }
}

#[test]
fn test_toposort_scc() {
    let mods = vec!["a", "b", "c", "d", "e", "f"];
    let rules = vec![("a", "b"), ("b", "c"), ("d", "e"), ("e", "c")];

    let mut g = IndexGraph::with_vertices(mods.len());
    let mut dict: std::collections::HashMap<&str, usize> = std::collections::HashMap::new();
    for (i, m) in mods.iter().enumerate() {
        dict.insert(*m, i);
    }
    // add edges
    for (a, b) in &rules {
        if mods.contains(a) && mods.contains(b) {
            let idx_a = dict[a];
            let idx_b = dict[b];
            g.add_edge(idx_a, idx_b);
        }
    }
    // sort
    let sort = g.toposort();
    assert!(sort.is_some(), "Graph contains a cycle");
    let result_idx = sort.unwrap();
    println!("{result_idx:?}");

    // check
    let result: Vec<String> = result_idx.iter().map(|e| mods[*e].to_owned()).collect();
    println!("{result:?}");
    assert!(checkresult(&result, &rules_of(&rules)), "order is wrong")
}

#[test]
fn cycle_is_reported_as_cycle_error() {
    let rules = rules_of(&[("a", "b"), ("b", "c"), ("c", "a")]);
    assert_eq!(topo_sort(&mods_of(&["a", "b", "c"]), &rules), Err(CycleError));
}

#[test]
fn constraint_on_itself_is_a_cycle() {
    let rules = rules_of(&[("a", "a")]);
    assert_eq!(topo_sort(&mods_of(&["a", "b"]), &rules), Err(CycleError));
}

#[test]
fn cycle_over_absent_items_does_not_count() {
    let rules = rules_of(&[("a", "x"), ("x", "a"), ("b", "a")]);
    assert_eq!(
        topo_sort(&mods_of(&["a", "b", "c"]), &rules),
        Ok(mods_of(&["b", "a", "c"]))
    );
}

#[test]
fn sorted_order_is_exact() {
    let rules = rules_of(&[("a", "b"), ("b", "c"), ("d", "e"), ("e", "c")]);
    assert_eq!(
        topo_sort(&mods_of(&["a", "b", "c", "d", "e"]), &rules),
        Ok(mods_of(&["a", "b", "d", "e", "c"]))
    );
}

#[test]
fn moved_item_lands_before_the_item_it_has_to_precede() {
    let rules = rules_of(&[("x", "y"), ("z", "x")]);
    assert_eq!(
        topo_sort(&mods_of(&["y", "z", "x"]), &rules),
        Ok(mods_of(&["z", "x", "y"]))
    );
}

#[test]
fn unconstrained_items_keep_their_order() {
    let rules = rules_of(&[("d", "b")]);
    assert_eq!(
        topo_sort(&mods_of(&["a", "b", "c", "d", "e"]), &rules),
        Ok(mods_of(&["a", "d", "b", "c", "e"]))
    );
}

#[test]
fn item_that_has_to_move_may_pass_unrelated_items() {
    let rules = rules_of(&[("c", "a")]);
    assert_eq!(
        topo_sort(&mods_of(&["a", "b", "c"]), &rules),
        Ok(mods_of(&["c", "a", "b"]))
    );
}

#[test]
fn empty_inputs_come_back_unchanged() {
    let none: Vec<String> = vec![];
    assert_eq!(topo_sort(&none, &rules_of(&[("a", "b")])), Ok(vec![]));
    assert_eq!(
        topo_sort(&mods_of(&["b", "a"]), &rules_of(&[])),
        Ok(mods_of(&["b", "a"]))
    );
}

#[test]
fn sorting_twice_changes_nothing() {
    let rules = rules_of(&[("e", "a"), ("d", "b"), ("c", "b"), ("f", "e")]);
    let once = topo_sort(&mods_of(&["a", "b", "c", "d", "e", "f"]), &rules).unwrap();
    assert!(checkresult(&once, &rules));
    let twice = topo_sort(&once, &rules).unwrap();
    assert_eq!(once, twice);
}

#[test]
fn one_repair_moves_the_first_violation() {
    let edges = [(2usize, 0usize), (3, 1)];
    let mut arrangement = vec![0usize, 1, 2, 3];
    assert!(stable_topo_sort_inner(4, &edges, &mut arrangement));
    assert_eq!(arrangement, vec![2, 0, 1, 3]);
    assert!(stable_topo_sort_inner(4, &edges, &mut arrangement));
    assert_eq!(arrangement, vec![2, 0, 3, 1]);
    assert!(!stable_topo_sort_inner(4, &edges, &mut arrangement));
    assert_eq!(arrangement, vec![2, 0, 3, 1]);
}

#[test]
fn repair_scans_only_the_first_positions() {
    let edges = [(3usize, 0usize)];
    let mut arrangement = vec![0usize, 1, 2, 3];
    assert!(!stable_topo_sort_inner(3, &edges, &mut arrangement));
    assert_eq!(arrangement, vec![0, 1, 2, 3]);
}

#[test]
fn position_is_the_first_place() {
    let list = mods_of(&["a", "b", "a"]);
    assert_eq!(position(&list, &"a".to_owned()), Some(0));
    assert_eq!(position(&list, &"b".to_owned()), Some(1));
    assert_eq!(position(&list, &"c".to_owned()), None);
}

#[test]
fn edges_are_found_by_both_ends() {
    let edges = [(1usize, 2usize), (2, 3)];
    assert!(contains_edge(&edges, 2, 3));
    assert!(!contains_edge(&edges, 3, 2));
    assert!(!contains_edge(&edges, 1, 3));
}
