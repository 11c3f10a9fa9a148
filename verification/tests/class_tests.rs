use cyberpunk_utility::class_files::{
    add_declarations, class_of, convert_to_cs, convert_to_plain_cs, declares_class,
    line_ends_with, read_classes, read_plain_classes, split_usings, strip_comments, trimmed,
    trimmed_end, FileClasses, PackageInfo,
};

fn list(names: &[&str]) -> Vec<String> {
    names.iter().map(|n| (*n).to_owned()).collect()
}

fn strip(skipping: bool, line: &str) -> (bool, Option<String>) {
    strip_comments(skipping, &line.to_owned())
}

#[test]
fn comment_that_starts_a_line_is_taken_out() {
    assert_eq!(strip(false, "plain"), (false, Some("plain".to_owned())));
    assert_eq!(strip(false, "/* note */Class"), (false, Some("Class".to_owned())));
    assert_eq!(strip(false, "/* note"), (true, None));
    assert_eq!(strip(false, "Class /* note"), (true, Some("Class ".to_owned())));
    assert_eq!(strip(false, "Class /* note */ more"), (false, Some("Class /* note */ more".to_owned())));
    assert_eq!(strip(false, "a */ b"), (false, Some("a */ b".to_owned())));
}

#[test]
fn comment_goes_on_until_it_is_closed() {
    assert_eq!(strip(true, "still inside"), (true, None));
    assert_eq!(strip(true, "*/Class"), (false, Some("Class".to_owned())));
    assert_eq!(strip(true, "*//* again"), (true, None));
    assert_eq!(strip(true, "end */"), (false, None));
    assert_eq!(strip(true, "end */ Class"), (false, Some(" Class".to_owned())));
    assert_eq!(strip(true, "end */ Class /* more"), (true, None));
    assert_eq!(strip(true, "*/"), (false, Some("".to_owned())));
}

#[test]
fn class_lines_start_with_a_name() {
    for line in ["Class", "Class : Base", "Class // note", "x"] {
        assert!(declares_class(&line.to_owned()));
    }
    for line in ["", "\tx", " x", "{", "}", "[x]", "]", "package P", "using U", "// note", "a = b"] {
        assert!(!declares_class(&line.to_owned()));
    }
    assert!(declares_class(&"package".to_owned()));
    assert!(line_ends_with(&"ab*/".chars().collect(), "*/"));
    assert!(!line_ends_with(&"/".chars().collect(), "*/"));
}

#[test]
fn white_space_is_trimmed() {
    assert_eq!(trimmed_end("a b \t "), "a b");
    assert_eq!(trimmed_end("  "), "");
    assert_eq!(trimmed(" \ta b \n"), "a b");
    assert_eq!(trimmed(""), "");
    assert_eq!(trimmed("   "), "");
    assert_eq!(split_usings("A, B.C ,D"), list(&["A", "B.C", "D"]));
    assert_eq!(split_usings(""), list(&[""]));
}

#[test]
fn file_declares_its_package_and_classes() {
    let lines = list(&[
        "package Items.Weapons  ",
        "using Base, Other",
        "/* a block",
        "Hidden",
        "*/",
        "Gun : Weapon // the gun",
        "{",
        "  damage = 5",
        "}",
        "Plain",
        "Cut /* here",
        "Gone",
        "back */",
        "Last",
    ]);
    assert_eq!(
        read_classes(&lines),
        Some(FileClasses {
            namespace: "Items.Weapons".to_owned(),
            usings: list(&["Base", "Other"]),
            classes: list(&["Gun : Weapon // the gun", "Plain", "Cut ", "Last"]),
        })
    );
    assert_eq!(read_classes(&list(&["Class"])), None);
    assert_eq!(read_classes(&list(&[])), None);
}

#[test]
fn plain_reading_takes_comments_as_lines() {
    let lines = list(&["package P ", "using U", "/* a", "Hidden", "*/", "Class"]);
    assert_eq!(
        read_plain_classes(&lines),
        Some(FileClasses {
            namespace: "P".to_owned(),
            usings: vec![],
            classes: list(&["/* a", "Hidden", "*/", "Class"]),
        })
    );
    assert_eq!(read_plain_classes(&list(&["Class"])), None);
}

#[test]
fn classes_of_a_package_are_named_once() {
    assert_eq!(class_of(&"Gun : Weapon // the gun".to_owned()), "Gun : Weapon");
    assert_eq!(class_of(&"Plain".to_owned()), "Plain");
    assert_eq!(class_of(&"A // b // c".to_owned()), "A");
    let mut info = PackageInfo::default();
    let file = FileClasses {
        namespace: "P".to_owned(),
        usings: list(&["U", "V", "U"]),
        classes: list(&["A", "B // x", "A // again", "B"]),
    };
    add_declarations(&mut info, &file);
    add_declarations(&mut info, &file);
    assert_eq!(info, PackageInfo { classes: list(&["A", "B"]), usings: list(&["U", "V"]) });
}

#[test]
fn source_file_lists_usings_package_and_classes() {
    let info = PackageInfo { classes: list(&["A", "B : A"]), usings: list(&["U", "V"]) };
    assert_eq!(
        convert_to_cs(&"P.Q".to_owned(), &info),
        "using U;\nusing V;\nnamespace P.Q;\n\npublic class A { }\npublic class B : A { }\n"
    );
    assert_eq!(convert_to_cs(&"P".to_owned(), &PackageInfo::default()), "namespace P;\n\n");
    assert_eq!(
        convert_to_plain_cs(&"P".to_owned(), &list(&["A", "B"])),
        "namespace P;\n\npublic class A {}\npublic class B {}\n"
    );
}
