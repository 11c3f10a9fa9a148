use cyberpunk_utility::load_order::{extension_of, gather_mods, get_files, FolderEntry};

fn file(name: &str) -> FolderEntry {
    FolderEntry { file_name: name.to_owned(), is_dir: false, is_file: true }
}

fn folder(name: &str) -> FolderEntry {
    FolderEntry { file_name: name.to_owned(), is_dir: true, is_file: false }
}

#[test]
fn test_gather_mods() {
    let listing = vec![
        file("c.archive"),
        file("modlist.txt"),
        file("a.archive"),
        folder("nested.archive"),
        file("b.archive"),
        file("noextension"),
    ];

    let mods = gather_mods(&listing);
    assert_eq!(
        mods,
        vec![
            "a.archive".to_owned(),
            "b.archive".into(),
            "c.archive".into()
        ]
    )
}

#[test]
fn extension_stands_behind_the_last_dot() {
    assert_eq!(extension_of("a.archive"), Some("archive".to_owned()));
    assert_eq!(extension_of("a.b.c"), Some("c".to_owned()));
    assert_eq!(extension_of("a."), Some("".to_owned()));
    assert_eq!(extension_of("archive"), None);
    assert_eq!(extension_of(""), None);
    assert_eq!(extension_of(".hidden"), None);
    assert_eq!(extension_of(".hidden.txt"), Some("txt".to_owned()));
    assert_eq!(extension_of("\u{e9}.\u{e8}"), Some("\u{e8}".to_owned()));
}

#[test]
fn mod_archives_have_archive_in_their_extension() {
    let listing = vec![
        file("b.xarchive2"),
        file("a.archive"),
        file("archive.txt"),
        file(".archive"),
        file("z.ARCHIVE"),
    ];
    assert_eq!(gather_mods(&listing), vec!["a.archive", "b.xarchive2"]);
    assert_eq!(gather_mods(&vec![]), Vec::<String>::new());
}

#[test]
fn files_are_found_by_their_whole_extension() {
    let listing = vec![
        file("b.archive"),
        file("a.archive"),
        file("c.xarchive"),
        folder("d.archive"),
        FolderEntry { file_name: "link.archive".to_owned(), is_dir: false, is_file: false },
    ];
    assert_eq!(get_files(&listing, &"archive".to_owned()), vec!["b.archive", "a.archive"]);
    assert_eq!(get_files(&listing, &"tweak".to_owned()), Vec::<String>::new());
}
