use cyberpunk_utility::archive::{Archive, FileEntry, Header, Index};
use cyberpunk_utility::conflict_view::{
    get_archive_hashes_for_ui, has_conflicts, hash_paths, is_obsolete, reversed, rises,
    scanned_archive, skip_to, ETooltipVisuals, Refresh, TemplateApp,
};
use cyberpunk_utility::hash::hash_path;
use cyberpunk_utility::text::{copy_names, same_names};
use cyberpunk_utility::conflicts::ArchiveViewModel;
use cyberpunk_utility::load_order::{
    arrange, bytes_before, load_order_of, name_before, sort_names, write_lines, FolderEntry,
};
use std::collections::HashMap;

fn list(names: &[&str]) -> Vec<String> {
    names.iter().map(|n| (*n).to_owned()).collect()
}

fn folder(names: &[&str]) -> Vec<FolderEntry> {
    names
        .iter()
        .map(|n| FolderEntry { file_name: (*n).to_owned(), is_dir: false, is_file: true })
        .collect()
}

#[test]
fn bytes_are_ordered_by_their_first_difference() {
    assert!(bytes_before(b"", b""));
    assert!(bytes_before(b"", b"a"));
    assert!(!bytes_before(b"a", b""));
    assert!(bytes_before(b"ab", b"ab"));
    assert!(bytes_before(b"ab", b"abc"));
    assert!(!bytes_before(b"abc", b"ab"));
    assert!(bytes_before(b"abz", b"ac"));
    assert!(!bytes_before(b"ac", b"abz"));
    assert!(bytes_before(&[0x7f], &[0x80]));
}

#[test]
fn names_load_in_binary_order() {
    assert!(name_before("modA", "modaa"));
    assert!(name_before("modaa", "modbb"));
    assert!(name_before("!first", "A"));
    assert!(name_before("#first", "A"));
    assert!(name_before("Z", "_last"));
    assert!(!name_before("_last", "Z"));
    assert_eq!(
        sort_names(&list(&["modbb", "_x", "modaa", "modA", "#y", "Z", "!z"])),
        list(&["!z", "#y", "Z", "_x", "modA", "modaa", "modbb"])
    );
}

#[test]
fn sorting_keeps_every_name() {
    assert_eq!(sort_names(&list(&[])), list(&[]));
    assert_eq!(sort_names(&list(&["b", "a", "b", "a"])), list(&["a", "a", "b", "b"]));
    assert_eq!(sort_names(&list(&["\u{e9}", "z", "e"])), list(&["e", "z", "\u{e9}"]));
}

#[test]
fn listed_archives_come_first() {
    assert_eq!(
        arrange(&list(&["a", "b", "c", "d"]), &list(&["c", "x", "a"])),
        list(&["c", "a", "b", "d"])
    );
    assert_eq!(arrange(&list(&["a", "b"]), &list(&[])), list(&["a", "b"]));
    assert_eq!(arrange(&list(&[]), &list(&["a"])), list(&[]));
}

#[test]
fn line_that_names_an_archive_twice_lists_it_twice() {
    assert_eq!(
        arrange(&list(&["a", "b"]), &list(&["b", "b"])),
        list(&["b", "b", "a"])
    );
}

#[test]
fn load_order_without_list_file_is_the_binary_order() {
    assert_eq!(
        load_order_of(&list(&["b.archive", "a.archive", "B.archive"]), None),
        list(&["B.archive", "a.archive", "b.archive"])
    );
    assert_eq!(
        load_order_of(
            &list(&["b.archive", "a.archive", "c.archive"]),
            Some(&list(&["c.archive", "gone.archive"]))
        ),
        list(&["c.archive", "a.archive", "b.archive"])
    );
}

#[test]
fn lines_are_written_with_carriage_return_and_line_feed() {
    assert_eq!(write_lines(&list(&[])), "");
    assert_eq!(write_lines(&list(&["a.archive", "b c.archive"])), "a.archive\r\nb c.archive\r\n");
}

#[test]
fn reload_follows_the_list_file() {
    let mut app = TemplateApp::default();
    let found = folder(&["b.archive", "a.archive", "c.archive"]);
    app.reload_load_order(&found, Some("c.archive\r\nzz.archive\r\nb.archive\r\n"));
    assert_eq!(app.load_order, list(&["c.archive", "b.archive", "a.archive"]));
    app.reload_load_order(&found, None);
    assert_eq!(app.load_order, list(&["a.archive", "b.archive", "c.archive"]));
}

#[test]
fn reload_takes_the_archive_files_of_the_folder() {
    let mut app = TemplateApp::default();
    let mut found = folder(&["b.archive", "modlist.txt", "a.archive", "c.xarchive", "d"]);
    found.push(FolderEntry { file_name: "sub.archive".to_owned(), is_dir: true, is_file: false });
    app.reload_load_order(&found, Some("sub.archive\nmodlist.txt\nb.archive\n"));
    assert_eq!(app.load_order, list(&["b.archive", "a.archive"]));
}

#[test]
fn reload_changes_the_load_order_only() {
    let mut app = TemplateApp::default();
    app.game_path = "game".to_owned();
    app.enable_modlist = true;
    app.show_no_conflicts = true;
    app.tooltips_visuals = ETooltipVisuals::Inline;
    app.text_filter = "t".to_owned();
    app.file_filter = "f".to_owned();
    app.hashes.insert(1, "one".to_owned());
    app.last_load_order = Some(list(&["x"]));
    app.reload_load_order(&folder(&["a.archive"]), None);
    assert_eq!(app.load_order, list(&["a.archive"]));
    assert_eq!(app.game_path, "game");
    assert!(app.enable_modlist);
    assert!(app.show_no_conflicts);
    assert_eq!(app.tooltips_visuals, ETooltipVisuals::Inline);
    assert_eq!(app.text_filter, "t");
    assert_eq!(app.file_filter, "f");
    assert_eq!(app.hashes[&1], "one");
    assert_eq!(app.last_load_order, Some(list(&["x"])));
    app.generate_conflict_map(&list(&["game/a.archive"]), &HashMap::new());
    app.mark_resolved();
    assert_eq!(app.game_path, "game");
    assert_eq!(app.hashes[&1], "one");
    assert_eq!(app.text_filter, "t");
    assert_eq!(app.load_order, list(&["a.archive"]));
    assert_eq!(app.last_load_order, Some(list(&["a.archive"])));
}

#[test]
fn load_order_is_written_only_when_it_is_kept() {
    let mut app = TemplateApp::default();
    app.load_order = list(&["x", "y"]);
    assert_eq!(app.serialize_load_order(), None);
    app.enable_modlist = true;
    assert_eq!(app.serialize_load_order(), Some("x\r\ny\r\n".to_owned()));
}

#[test]
fn written_load_order_reads_back() {
    let mut app = TemplateApp::default();
    app.enable_modlist = true;
    app.load_order = list(&["c.archive", "a.archive", "b.archive"]);
    let text = app.serialize_load_order().unwrap();
    app.reload_load_order(&folder(&["a.archive", "b.archive", "c.archive"]), Some(&text));
    assert_eq!(app.load_order, list(&["c.archive", "a.archive", "b.archive"]));
}

#[test]
fn new_state_asks_for_a_reload() {
    let mut app = TemplateApp::default();
    assert_eq!(app.tooltips_visuals, ETooltipVisuals::Collapsing);
    assert_eq!(ETooltipVisuals::default(), ETooltipVisuals::Collapsing);
    assert_eq!(app.pending(), Refresh::Reload);
    app.load_order = list(&["a", "b"]);
    app.mark_resolved();
    assert_eq!(app.last_load_order, Some(list(&["a", "b"])));
    assert_eq!(app.pending(), Refresh::UpToDate);
    app.load_order = list(&["b", "a"]);
    assert_eq!(app.pending(), Refresh::Resolve);
}

#[test]
fn conflict_map_of_the_state_is_resolved_anew() {
    let mut app = TemplateApp::default();
    let paths = list(&["mods/a.archive", "mods/b.archive"]);
    let (a, b) = (hash_path("mods/a.archive"), hash_path("mods/b.archive"));
    assert_eq!(hash_paths(&paths), vec![a, b]);
    let mut scanned = HashMap::new();
    scanned.insert(
        a,
        ArchiveViewModel { file_name: "a.archive".to_owned(), wins: vec![], loses: vec![], files: vec![5] },
    );
    scanned.insert(
        b,
        ArchiveViewModel { file_name: "b.archive".to_owned(), wins: vec![], loses: vec![], files: vec![5, 6] },
    );
    scanned.insert(
        77,
        ArchiveViewModel { file_name: "elsewhere".to_owned(), wins: vec![], loses: vec![], files: vec![5] },
    );
    app.generate_conflict_map(&paths, &scanned);
    assert_eq!(app.archives.len(), 2);
    assert_eq!(app.conflicts[&5], vec![b, a]);
    assert_eq!(app.archives[&a].wins, vec![5]);
    assert_eq!(app.archives[&b].loses, vec![5]);

    let cached = app.cached_archive(b).unwrap();
    assert_eq!(cached.file_name, "b.archive");
    assert_eq!(cached.files, vec![5, 6]);
    assert!(cached.wins.is_empty());
    assert!(cached.loses.is_empty());
    assert!(app.cached_archive(3).is_none());

    let turned = list(&["mods/b.archive", "mods/a.archive"]);
    app.generate_conflict_map(&turned, &scanned);
    assert_eq!(app.conflicts[&5], vec![a, b]);
    assert_eq!(app.archives[&b].wins, vec![5]);
    assert!(app.archives[&b].loses.is_empty());
}

#[test]
fn scanned_archive_holds_the_hashes_of_the_index() {
    let entry = |hash: u64| FileEntry {
        name_hash_64: hash,
        timestamp: 0,
        num_inline_buffer_segments: 0,
        segments_start: 0,
        segments_end: 0,
        resource_dependencies_start: 0,
        resource_dependencies_end: 0,
        sha1_hash: vec![0; 20],
    };
    let archive = Archive {
        header: Header {
            magic: 0,
            version: 0,
            index_position: 0,
            index_size: 0,
            debug_position: 0,
            debug_size: 0,
            filesize: 0,
        },
        index: Index {
            file_table_offset: 0,
            file_table_size: 0,
            crc: 0,
            file_entry_count: 3,
            file_segment_count: 0,
            resource_dependency_count: 0,
            file_entries: vec![entry(3), entry(8), entry(21)],
        },
        file_names: None,
    };
    assert!(archive.index.is_in_hash_order());
    let scanned = scanned_archive("a.archive".to_owned(), &archive);
    assert_eq!(scanned.file_name, "a.archive");
    assert_eq!(scanned.files, vec![3, 8, 21]);
    assert!(scanned.wins.is_empty());
    assert!(scanned.loses.is_empty());
    assert!(rises(&scanned.files));
}

#[test]
fn rising_lists_hold_no_hash_twice() {
    assert!(rises(&vec![]));
    assert!(rises(&vec![4]));
    assert!(rises(&vec![1, 2, 9]));
    assert!(!rises(&vec![1, 2, 2]));
    assert!(!rises(&vec![1, 3, 2]));
    assert!(!rises(&vec![2, 1]));
}

#[test]
fn archives_beside_a_won_file_are_those_before() {
    assert_eq!(get_archive_hashes_for_ui(true, &[1, 2, 3, 4], &3), vec![2, 1]);
    assert_eq!(get_archive_hashes_for_ui(true, &[1, 2, 3, 4], &1), Vec::<u64>::new());
    assert_eq!(get_archive_hashes_for_ui(true, &[1, 2, 3, 4], &9), Vec::<u64>::new());
    assert_eq!(get_archive_hashes_for_ui(true, &[3, 1, 3, 2, 3], &3), vec![2, 1]);
}

#[test]
fn archives_beside_a_lost_file_are_those_behind() {
    assert_eq!(get_archive_hashes_for_ui(false, &[1, 2, 3, 4], &2), vec![4, 3]);
    assert_eq!(get_archive_hashes_for_ui(false, &[1, 2, 3, 4], &4), Vec::<u64>::new());
    assert_eq!(get_archive_hashes_for_ui(false, &[1, 2, 3, 4], &9), Vec::<u64>::new());
    assert_eq!(get_archive_hashes_for_ui(false, &[3, 1, 3, 2, 3], &3), vec![2, 1]);
}

#[test]
fn list_helpers_do_what_they_say() {
    assert_eq!(reversed(&[1, 2, 3]), vec![3, 2, 1]);
    assert_eq!(skip_to(&vec![1, 2, 3, 2, 4], 2), vec![3, 4]);
    assert_eq!(copy_names(&list(&["a", "b"])), list(&["a", "b"]));
    assert!(same_names(&list(&["a", "b"]), &list(&["a", "b"])));
    assert!(!same_names(&list(&["a", "b"]), &list(&["a"])));
    assert!(!same_names(&list(&["a", "b"]), &list(&["a", "c"])));
}

#[test]
fn archive_that_loses_all_is_obsolete() {
    let vm = |wins: &[u64], loses: &[u64], files: &[u64]| ArchiveViewModel {
        file_name: String::new(),
        wins: wins.to_vec(),
        loses: loses.to_vec(),
        files: files.to_vec(),
    };
    assert!(is_obsolete(&vm(&[], &[1, 2], &[1, 2])));
    assert!(!is_obsolete(&vm(&[1], &[1, 2], &[1, 2])));
    assert!(!is_obsolete(&vm(&[], &[1], &[1, 2])));
    assert!(has_conflicts(&vm(&[1], &[], &[1])));
    assert!(has_conflicts(&vm(&[], &[1], &[1])));
    assert!(!has_conflicts(&vm(&[], &[], &[1])));
}
