use cyberpunk_utility::conflicts::{contains_hash, copy_hashes, resolve, ArchiveViewModel};
use std::collections::HashMap;

fn archive(name: &str, files: &[u64]) -> ArchiveViewModel {
    ArchiveViewModel {
        file_name: name.to_owned(),
        wins: vec![],
        loses: vec![],
        files: files.to_vec(),
    }
}

#[test]
fn unique_files_are_neutral() {
    let vm = ArchiveViewModel {
        file_name: "a.archive".to_owned(),
        wins: vec![3],
        loses: vec![5, 3],
        files: vec![1, 3, 5, 7],
    };
    assert_eq!(vm.get_no_conflicts(), vec![1, 7]);
}

#[test]
fn two_archives_share_one_hash() {
    let mut contents = HashMap::new();
    contents.insert(1, archive("first.archive", &[10, 11]));
    contents.insert(2, archive("second.archive", &[10, 12]));
    let (conflicts, views) = resolve(&vec![1, 2], &contents);

    assert_eq!(conflicts.len(), 1);
    assert_eq!(conflicts[&10], vec![2, 1]);

    assert_eq!(views.len(), 2);
    assert_eq!(views[&1].file_name, "first.archive");
    assert_eq!(views[&1].files, vec![10, 11]);
    assert_eq!(views[&1].wins, vec![10]);
    assert_eq!(views[&1].loses, Vec::<u64>::new());
    assert_eq!(views[&1].get_no_conflicts(), vec![11]);

    assert_eq!(views[&2].wins, Vec::<u64>::new());
    assert_eq!(views[&2].loses, vec![10]);
    assert_eq!(views[&2].get_no_conflicts(), vec![12]);
}

#[test]
fn archive_in_the_middle_wins_and_loses() {
    let mut contents = HashMap::new();
    contents.insert(1, archive("a", &[7]));
    contents.insert(2, archive("b", &[7]));
    contents.insert(3, archive("c", &[7]));
    let (conflicts, views) = resolve(&vec![1, 2, 3], &contents);

    assert_eq!(conflicts[&7], vec![3, 2, 1]);
    assert_eq!(views[&1].wins, vec![7]);
    assert!(views[&1].loses.is_empty());
    assert_eq!(views[&2].wins, vec![7]);
    assert_eq!(views[&2].loses, vec![7]);
    assert!(views[&3].wins.is_empty());
    assert_eq!(views[&3].loses, vec![7]);
    assert!(views[&2].get_no_conflicts().is_empty());
}

#[test]
fn hash_of_one_archive_is_no_conflict() {
    let mut contents = HashMap::new();
    contents.insert(1, archive("a", &[1, 2]));
    contents.insert(2, archive("b", &[3]));
    let (conflicts, views) = resolve(&vec![2, 1], &contents);

    assert!(conflicts.is_empty());
    assert_eq!(views[&1].get_no_conflicts(), vec![1, 2]);
    assert_eq!(views[&2].get_no_conflicts(), vec![3]);
}

#[test]
fn unknown_archives_are_passed_over() {
    let mut contents = HashMap::new();
    contents.insert(1, archive("a", &[1]));
    contents.insert(9, archive("not listed", &[1]));
    let (conflicts, views) = resolve(&vec![5, 1, 6], &contents);

    assert!(conflicts.is_empty());
    assert_eq!(views.len(), 1);
    assert!(views.contains_key(&1));
}

#[test]
fn load_order_decides_who_wins() {
    let mut contents = HashMap::new();
    contents.insert(1, archive("a", &[4, 5]));
    contents.insert(2, archive("b", &[5, 4]));

    let (conflicts, views) = resolve(&vec![1, 2], &contents);
    assert_eq!(views[&1].wins, vec![4, 5]);
    assert_eq!(views[&2].loses, vec![4, 5]);
    assert_eq!(conflicts[&4], vec![2, 1]);

    let (conflicts, views) = resolve(&vec![2, 1], &contents);
    assert_eq!(views[&2].wins, vec![5, 4]);
    assert_eq!(views[&1].loses, vec![5, 4]);
    assert_eq!(conflicts[&4], vec![1, 2]);
}

#[test]
fn earlier_results_are_not_read() {
    let mut contents = HashMap::new();
    let mut stale = archive("a", &[1]);
    stale.wins = vec![1];
    stale.loses = vec![1];
    contents.insert(1, stale);
    let (conflicts, views) = resolve(&vec![1], &contents);

    assert!(conflicts.is_empty());
    assert!(views[&1].wins.is_empty());
    assert!(views[&1].loses.is_empty());
}

#[test]
fn archive_listed_twice_counts_at_its_first_position() {
    let mut contents = HashMap::new();
    contents.insert(1, archive("a", &[1]));
    contents.insert(2, archive("b", &[1]));
    let (conflicts, views) = resolve(&vec![1, 2, 1], &contents);

    assert_eq!(conflicts[&1], vec![1, 2]);
    assert_eq!(views[&1].wins, vec![1]);
    assert!(views[&1].loses.is_empty());
    assert_eq!(views[&2].wins, vec![1]);
    assert_eq!(views[&2].loses, vec![1]);
}

#[test]
fn empty_load_order_gives_nothing() {
    let mut contents = HashMap::new();
    contents.insert(1, archive("a", &[1]));
    let (conflicts, views) = resolve(&vec![], &contents);
    assert!(conflicts.is_empty());
    assert!(views.is_empty());
}

#[test]
fn hash_lists_are_searched_and_copied() {
    let list = vec![3u64, 1, 2];
    assert!(contains_hash(&list, 1));
    assert!(!contains_hash(&list, 4));
    assert_eq!(copy_hashes(&list), list);
}
