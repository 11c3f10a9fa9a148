use cyberpunk_utility::tweak_files::{holds_record, read_records, same_record};
use cyberpunk_utility::tweaks::{
    get_children_recursive, get_hierarchy, get_package_names, get_parents, instances_text,
    qualify, Hierarchy, TemplateApp, TweakRecord, TweakRecordVm,
};

fn list(names: &[&str]) -> Vec<String> {
    names.iter().map(|n| (*n).to_owned()).collect()
}

fn record(package: &str, name: &str, base: Option<&str>, imports: &[&str]) -> TweakRecord {
    TweakRecord {
        name: name.to_owned(),
        base: base.map(|b| b.to_owned()),
        package: package.to_owned(),
        imports: list(imports),
    }
}

fn vm(children: Option<&[&str]>, parent: Option<&str>) -> TweakRecordVm {
    TweakRecordVm { children: children.map(list), parent: parent.map(|p| p.to_owned()) }
}

fn family() -> Hierarchy {
    get_hierarchy(vec![
        record("Items", "Base", None, &[]),
        record("Items", "Gun", Some("Base"), &[]),
        record("Items", "Pistol", Some("Gun"), &[]),
        record("Items", "Rifle", Some("Gun"), &[]),
        record("Mods", "Scope", Some("Base"), &["Other", "Items"]),
        record("Mods", "Orphan", Some("Nothing"), &["Items"]),
    ])
}

#[test]
fn full_names_join_package_and_name() {
    assert_eq!(record("Items", "Gun", None, &[]).full_name(), "Items.Gun");
    assert_eq!(qualify(&"".to_owned(), &"x".to_owned()), ".x");
}

#[test]
fn base_is_looked_for_in_the_own_package_first() {
    assert_eq!(record("Items", "Gun", None, &["A"]).possible_base_names(), None);
    assert_eq!(
        record("Mods", "Scope", Some("Base"), &["Other", "Items"]).possible_base_names(),
        Some(list(&["Mods.Base", "Other.Base", "Items.Base"]))
    );
}

#[test]
fn hierarchy_links_records_to_their_bases() {
    let vms = family();
    assert_eq!(vms.len(), 6);
    assert_eq!(
        vms.names(),
        &list(&["Items.Base", "Items.Gun", "Items.Pistol", "Items.Rifle", "Mods.Scope", "Mods.Orphan"])
    );
    assert_eq!(vms.get(&"Items.Base".to_owned()), Some(&vm(Some(&["Items.Gun", "Mods.Scope"]), None)));
    assert_eq!(
        vms.get(&"Items.Gun".to_owned()),
        Some(&vm(Some(&["Items.Pistol", "Items.Rifle"]), Some("Items.Base")))
    );
    assert_eq!(vms.get(&"Items.Pistol".to_owned()), Some(&vm(None, Some("Items.Gun"))));
    assert_eq!(vms.get(&"Mods.Scope".to_owned()), Some(&vm(None, Some("Items.Base"))));
    assert_eq!(vms.get(&"Mods.Orphan".to_owned()), Some(&vm(None, None)));
    assert_eq!(vms.get(&"Mods.Nothing".to_owned()), None);
    assert!(vms.contains_key(&"Items.Rifle".to_owned()));
    assert!(!vms.contains_key(&"Rifle".to_owned()));
}

#[test]
fn own_package_wins_over_imports() {
    let vms = get_hierarchy(vec![
        record("A", "Base", None, &[]),
        record("B", "Base", None, &[]),
        record("B", "Child", Some("Base"), &["A"]),
    ]);
    assert_eq!(vms.get(&"B.Child".to_owned()).unwrap().parent, Some("B.Base".to_owned()));
    assert_eq!(vms.get(&"A.Base".to_owned()).unwrap().children, None);
}

#[test]
fn record_listed_twice_stands_once() {
    let vms = get_hierarchy(vec![
        record("A", "Base", None, &[]),
        record("A", "X", Some("Base"), &[]),
        record("A", "X", None, &[]),
    ]);
    assert_eq!(vms.len(), 2);
    assert_eq!(vms.get(&"A.X".to_owned()), Some(&vm(None, Some("A.Base"))));
    assert_eq!(vms.get(&"A.Base".to_owned()).unwrap().children, Some(list(&["A.X"])));
}

#[test]
fn hierarchy_entries_are_replaced_by_name() {
    let mut vms = Hierarchy::new();
    assert!(vms.is_empty());
    vms.insert("a".to_owned(), vm(None, None));
    vms.insert("b".to_owned(), vm(None, Some("a")));
    vms.insert("a".to_owned(), vm(Some(&["b"]), None));
    assert_eq!(vms.len(), 2);
    assert!(!vms.is_empty());
    assert_eq!(vms.names(), &list(&["a", "b"]));
    assert!(vms.contains_key(&"b".to_owned()));
    assert!(!vms.contains_key(&"c".to_owned()));
    assert_eq!(vms.get(&"a".to_owned()), Some(&vm(Some(&["b"]), None)));
    assert_eq!(vms.get(&"b".to_owned()), Some(&vm(None, Some("a"))));
    assert_eq!(vms.get(&"c".to_owned()), None);
}

#[test]
fn parents_are_listed_from_the_record_up() {
    let vms = family();
    assert_eq!(
        get_parents(&vms, &"Items.Pistol".to_owned()),
        list(&["Items.Pistol", "Items.Gun", "Items.Base"])
    );
    assert_eq!(get_parents(&vms, &"Items.Base".to_owned()), list(&["Items.Base"]));
    assert_eq!(get_parents(&vms, &"Items.None".to_owned()), list(&[]));
}

#[test]
fn parents_that_run_in_a_circle_end() {
    let mut vms = Hierarchy::new();
    vms.insert("a".to_owned(), vm(None, Some("b")));
    vms.insert("b".to_owned(), vm(None, Some("a")));
    assert_eq!(get_parents(&vms, &"a".to_owned()), list(&["a", "b"]));
}

#[test]
fn children_are_listed_in_binary_order() {
    let vms = family();
    assert_eq!(
        get_children_recursive(&vms, &"Items.Base".to_owned()),
        list(&["Items.Gun", "Items.Pistol", "Items.Rifle", "Mods.Scope"])
    );
    assert_eq!(
        get_children_recursive(&vms, &"Items.Gun".to_owned()),
        list(&["Items.Pistol", "Items.Rifle"])
    );
    assert_eq!(get_children_recursive(&vms, &"Items.Rifle".to_owned()), list(&[]));
    assert_eq!(get_children_recursive(&vms, &"Items.None".to_owned()), list(&[]));
}

#[test]
fn children_that_run_in_a_circle_are_listed_once() {
    let mut vms = Hierarchy::new();
    vms.insert("a".to_owned(), vm(Some(&["b", "b"]), None));
    vms.insert("b".to_owned(), vm(Some(&["a", "c"]), None));
    assert_eq!(get_children_recursive(&vms, &"a".to_owned()), list(&["a", "b", "c"]));
}

#[test]
fn packages_are_what_stands_before_the_first_dot() {
    assert_eq!(
        get_package_names(&list(&["Mods.Scope", "Items.Gun", "Items.Base.Inner", "nodot", ".x"])),
        list(&["", "Items", "Mods"])
    );
    assert_eq!(get_package_names(&list(&[])), list(&[]));
}

#[test]
fn instances_list_the_children_of_the_same_package() {
    assert_eq!(
        instances_text(&"Items.Gun".to_owned(), &list(&["Items.Pistol", "Mods.Scope", "bare", "Items.Rifle.Long"])),
        Some(
            "Items.$(name):\n  $instances:\n    - { name: Gun }\n    - { name: Pistol }\n    - { name: Rifle }\n"
                .to_owned()
        )
    );
    assert_eq!(instances_text(&"bare".to_owned(), &list(&["Items.Pistol"])), None);
}

#[test]
fn many_records_are_found_by_their_names() {
    let mut records = vec![record("P", "Root", None, &[])];
    for i in 0..2000 {
        records.push(record("P", &format!("R{i}"), Some(if i % 2 == 0 { "Root" } else { "R0" }), &[]));
    }
    let vms = get_hierarchy(records);
    assert_eq!(vms.len(), 2001);
    assert_eq!(vms.get(&"P.Root".to_owned()).unwrap().children.as_ref().unwrap().len(), 1000);
    assert_eq!(vms.get(&"P.R0".to_owned()).unwrap().children.as_ref().unwrap().len(), 1000);
    assert_eq!(vms.get(&"P.R1999".to_owned()).unwrap().parent, Some("P.R0".to_owned()));
    assert_eq!(get_parents(&vms, &"P.R1999".to_owned()), list(&["P.R1999", "P.R0", "P.Root"]));
    assert_eq!(get_children_recursive(&vms, &"P.Root".to_owned()).len(), 2000);
}

#[test]
fn setup_needs_the_folder() {
    let mut app = TemplateApp::default();
    assert!(!app.check_health(true));
    app.first_setup(false, vec![record("A", "X", None, &[])]);
    assert!(app.vms.is_none());
    app.first_setup(true, vec![]);
    assert!(app.vms.is_some());
    assert!(!app.check_health(true));
    app.first_setup(true, vec![record("A", "X", None, &[])]);
    assert!(app.check_health(true));
    assert!(!app.check_health(false));
    assert_eq!(app.vms.unwrap().get(&"A.X".to_owned()), Some(&vm(None, None)));
}

#[test]
fn records_are_read_from_the_lines_of_a_file() {
    let lines = list(&[
        "package Items",
        "using Base, Other.Things",
        "",
        "Gun : Weapon",
        "{",
        "    damage = 5",
        "    Inner",
        "}",
        "Value = 3",
        "[ tag ]",
        "[",
        "Skipped",
        "]",
        "Plain",
        "Chain : Middle : Last",
    ]);
    let mut records = vec![];
    read_records(&lines, &mut records);
    assert_eq!(
        records,
        vec![
            record("Items", "Gun", Some("Weapon"), &["Base", "Other.Things"]),
            record("Items", "Plain", None, &["Base", "Other.Things"]),
            record("Items", "Chain", Some("Last"), &["Base", "Other.Things"]),
        ]
    );
}

#[test]
fn records_are_kept_once_over_all_files() {
    let mut records = vec![record("A", "X", None, &[])];
    read_records(&list(&["package A", "X", "Y", "X"]), &mut records);
    read_records(&list(&["X", "package A", "using B", "X"]), &mut records);
    assert_eq!(
        records,
        vec![
            record("A", "X", None, &[]),
            record("A", "Y", None, &[]),
            record("", "X", None, &[]),
            record("A", "X", None, &["B"]),
        ]
    );
    assert!(holds_record(&records, &record("A", "Y", None, &[])));
    assert!(!holds_record(&records, &record("A", "Y", Some("Z"), &[])));
    assert!(same_record(&record("A", "Y", Some("Z"), &["i"]), &record("A", "Y", Some("Z"), &["i"])));
    assert!(!same_record(&record("A", "Y", Some("Z"), &["i"]), &record("A", "Y", Some("Z"), &["j"])));
    assert!(!same_record(&record("A", "Y", Some("Z"), &[]), &record("A", "Y", Some("W"), &[])));
    assert!(!same_record(&record("A", "Y", None, &[]), &record("B", "Y", None, &[])));
}

#[test]
fn bracket_line_that_closes_itself_is_a_record_unless_it_starts_with_a_blank() {
    let mut records = vec![];
    read_records(&list(&["[x]", "[ y ]", "}", "] z"]), &mut records);
    assert_eq!(records, vec![record("", "[x]", None, &[])]);
}
