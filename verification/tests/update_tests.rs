use cyberpunk_utility::archive::{Archive, FileEntry, Header, Index};
use cyberpunk_utility::update::{
    copy_info, generate_diff, get_info, is_by_own_hash, is_content_archive, is_empty_diff,
    keys_of, report_for, Diff, FileInfo,
};
use std::collections::HashMap;

fn info(hash: u64, archive: &str, sha1: &str) -> FileInfo {
    FileInfo {
        hash,
        name: format!("file{hash}"),
        archive_name: archive.to_owned(),
        sha1: sha1.to_owned(),
    }
}

fn files(list: &[FileInfo]) -> HashMap<u64, FileInfo> {
    list.iter().map(|i| (i.hash, i.clone())).collect()
}

fn keys(map: &HashMap<u64, FileInfo>) -> Vec<u64> {
    let mut keys: Vec<u64> = map.keys().copied().collect();
    keys.sort();
    keys
}

#[test]
fn diff_tells_deleted_added_and_changed_files() {
    let old = files(&[info(1, "a", "x"), info(2, "a", "y"), info(3, "b", "z")]);
    let new = files(&[info(2, "a", "y"), info(3, "b", "changed"), info(4, "c", "w")]);
    let diff = generate_diff(&old, &new);
    assert_eq!(keys(&diff.deleted), vec![1]);
    assert_eq!(keys(&diff.added), vec![4]);
    assert_eq!(keys(&diff.changed), vec![3]);
    assert_eq!(diff.deleted[&1].archive_name, "a");
    assert_eq!(diff.added[&4].archive_name, "c");
    assert_eq!(diff.changed[&3].sha1, "z");
    assert!(!is_empty_diff(&diff));
    assert!(is_empty_diff(&generate_diff(&old, &old)));
    assert!(is_empty_diff(&Diff::default()));
}

#[test]
fn files_stand_under_their_own_hash() {
    let mut map = files(&[info(1, "a", "x")]);
    assert!(is_by_own_hash(&map));
    map.insert(7, info(8, "a", "x"));
    assert!(!is_by_own_hash(&map));
    assert!(is_by_own_hash(&HashMap::new()));
}

#[test]
fn keys_and_copies_are_complete() {
    let map = files(&[info(3, "a", "x"), info(1, "b", "y")]);
    let mut found = keys_of(&map);
    found.sort();
    assert_eq!(found, vec![1, 3]);
    let copy = copy_info(&map[&3]);
    assert_eq!(copy.hash, 3);
    assert_eq!(copy.name, "file3");
    assert_eq!(copy.archive_name, "a");
    assert_eq!(copy.sha1, "x");
}

#[test]
fn report_tells_the_hits_of_every_archive() {
    let diff = Diff {
        deleted: files(&[info(1, "game", "")]),
        added: files(&[info(2, "game", "")]),
        changed: files(&[info(3, "game", ""), info(4, "game", "")]),
    };
    let checked = files(&[
        info(1, "moda", ""),
        info(3, "moda", ""),
        info(9, "moda", ""),
        info(4, "modb", ""),
        info(8, "modc", ""),
    ]);
    let mut report = report_for(&diff, &checked);
    report.sort_by(|a, b| a.0.cmp(&b.0));
    assert_eq!(report.len(), 3);
    assert_eq!(report[0].0, "moda");
    assert_eq!(keys(&report[0].1.deleted), vec![1]);
    assert_eq!(keys(&report[0].1.added), Vec::<u64>::new());
    assert_eq!(keys(&report[0].1.changed), vec![3]);
    assert_eq!(report[0].1.changed[&3].archive_name, "moda");
    assert_eq!(report[1].0, "modb");
    assert_eq!(keys(&report[1].1.changed), vec![4]);
    assert_eq!(report[2].0, "modc");
    assert!(is_empty_diff(&report[2].1));
    assert!(report_for(&diff, &HashMap::new()).is_empty());
}

#[test]
fn language_archives_are_no_content() {
    assert!(is_content_archive("basegame_4_gamedata.archive"));
    assert!(!is_content_archive("lang_en_text.archive"));
    assert!(is_content_archive("Lang_en_text.archive"));
    assert!(is_content_archive("lang"));
}

#[test]
fn files_of_an_archive_are_noted_with_names_and_digests() {
    let entry = |hash: u64, fill: u8| FileEntry {
        name_hash_64: hash,
        timestamp: 0,
        num_inline_buffer_segments: 0,
        segments_start: 0,
        segments_end: 0,
        resource_dependencies_start: 0,
        resource_dependencies_end: 0,
        sha1_hash: vec![fill, 0x0f, 0xf0],
    };
    let archive = Archive {
        header: Header {
            magic: 0,
            version: 0,
            index_position: 0,
            index_size: 0,
            debug_position: 0,
            debug_size: 0,
            filesize: 0,
        },
        index: Index {
            file_table_offset: 0,
            file_table_size: 0,
            crc: 0,
            file_entry_count: 2,
            file_segment_count: 0,
            resource_dependency_count: 0,
            file_entries: vec![entry(5, 0x00), entry(12345, 0xab)],
        },
        file_names: None,
    };
    let mut names = HashMap::new();
    names.insert(5u64, "base\\five.ent".to_owned());
    let mut map = files(&[info(5, "old", "x"), info(6, "old", "y")]);
    get_info(&archive, &"mod.archive".to_owned(), &mut map, &names);
    assert_eq!(keys(&map), vec![5, 6, 12345]);
    assert_eq!(map[&5].name, "base\\five.ent");
    assert_eq!(map[&5].archive_name, "mod.archive");
    assert_eq!(map[&5].sha1, "0ff0");
    assert_eq!(map[&12345].name, "12345");
    assert_eq!(map[&12345].hash, 12345);
    assert_eq!(map[&12345].sha1, "abff0");
    assert_eq!(map[&6].archive_name, "old");
}
