use cyberpunk_utility::rules::{
    get_mods_from_rules, parse_rule_lines, parse_rules, read_file_as_list, ParseError, Rules,
};
use cyberpunk_utility::sort::topo_sort;
use cyberpunk_utility::text::split_lines;

const MODLIST: &str = "a\nb\nc\nd\ne\n";

const RULES_BASE: &str = "; base rules\n\
[Order]\n\
a.archive\n\
b.archive\n\
c.archive\n\
\n\
; names may hold spaces\n\
[Order]\n\
mod one.archive\n\
mod two.archive\n\
\n\
[Order]\n\
d.archive\n\
c.archive\n";

fn pair(a: &str, b: &str) -> (String, String) {
    (a.to_owned(), b.to_owned())
}

#[test]
fn unit_tests_test_read_mods() {
    assert_eq!(read_file_as_list(Some(MODLIST)), vec!["a", "b", "c", "d", "e"])
}

#[test]
fn integration_tests_test_read_mods() {
    assert_eq!(read_file_as_list(Some(MODLIST)), vec!["a", "b", "c", "d", "e"])
}

#[test]
fn unit_tests_test_parse_rules() {
    assert!(parse_rules(Some(RULES_BASE)).is_ok(), "rules parsing failed")
}

#[test]
fn integration_tests_test_parse_rules() {
    assert!(parse_rules(Some(RULES_BASE)).is_ok(), "rules parsing failed")
}

#[test]
fn test_verify_rules() {
    let rules = parse_rules(Some(RULES_BASE)).unwrap();

    let mods = get_mods_from_rules(&rules);

    assert!(topo_sort(&mods, &rules).is_ok(), "rules contain a cycle")
}

#[test]
fn unreadable_list_is_empty() {
    assert!(read_file_as_list(None).is_empty());
}

#[test]
fn unreadable_rules_are_an_io_error() {
    assert_eq!(parse_rules(None), Err(ParseError::Io));
}

#[test]
fn lines_end_at_line_feeds() {
    assert_eq!(split_lines(""), Vec::<String>::new());
    assert_eq!(split_lines("a"), vec!["a"]);
    assert_eq!(split_lines("a\n"), vec!["a"]);
    assert_eq!(split_lines("a\n\nb"), vec!["a", "", "b"]);
    assert_eq!(split_lines("\n"), vec![""]);
}

#[test]
fn carriage_return_before_line_feed_is_dropped() {
    assert_eq!(split_lines("a\r\nb\r\n"), vec!["a", "b"]);
    assert_eq!(split_lines("a\r"), vec!["a\r"]);
    assert_eq!(split_lines("a\rb\n"), vec!["a\rb"]);
    assert_eq!(split_lines("\u{e9}t\u{e9}\r\n\u{4e2d}\n"), vec!["\u{e9}t\u{e9}", "\u{4e2d}"]);
}

#[test]
fn order_block_is_a_chain() {
    let rules = parse_rules(Some("[Order]\na\nb\nc\n")).unwrap();
    assert_eq!(rules.order, vec![pair("a", "b"), pair("b", "c")]);
}

#[test]
fn blocks_accumulate_in_order() {
    let rules = parse_rules(Some(RULES_BASE)).unwrap();
    assert_eq!(
        rules.order,
        vec![
            pair("a.archive", "b.archive"),
            pair("b.archive", "c.archive"),
            pair("mod one.archive", "mod two.archive"),
            pair("d.archive", "c.archive"),
        ]
    );
}

#[test]
fn short_blocks_are_dropped() {
    let rules = parse_rules(Some("[Order]\nalone\n\n[Order]\n\n[Order]\nx\ny\n")).unwrap();
    assert_eq!(rules.order, vec![pair("x", "y")]);
}

#[test]
fn comments_do_not_close_a_block() {
    let rules = parse_rules(Some("[Order]\na\n; between\nb\n")).unwrap();
    assert_eq!(rules.order, vec![pair("a", "b")]);
}

#[test]
fn lines_outside_blocks_are_ignored() {
    let rules = parse_rules(Some("stray\n[Order]\na\nb\n\nstray again\n")).unwrap();
    assert_eq!(rules.order, vec![pair("a", "b")]);
}

#[test]
fn header_inside_a_block_is_no_item() {
    let rules = parse_rules(Some("[Order]\na\n[Order]\nb\n\n")).unwrap();
    assert_eq!(rules.order, vec![pair("a", "b")]);
    for (before, after) in &rules.order {
        assert_ne!(before, "[Order]");
        assert_ne!(after, "[Order]");
    }
}

#[test]
fn header_inside_a_block_leaves_the_block_open() {
    let rules = parse_rules(Some("[Order]\n[Order]\na\n[Order]\n[Order]\nb\nc\n[Order]\n")).unwrap();
    assert_eq!(rules.order, vec![pair("a", "b"), pair("b", "c")]);
}

#[test]
fn header_opens_a_block_again_behind_a_blank_line() {
    let rules = parse_rules(Some("[Order]\na\nb\n\n[Order]\nc\nd\n")).unwrap();
    assert_eq!(rules.order, vec![pair("a", "b"), pair("c", "d")]);
}

#[test]
fn line_that_only_looks_like_a_header_is_an_item() {
    let rules = parse_rules(Some("[Order]\n[Order] \n [Order]\n[order]\n")).unwrap();
    assert_eq!(
        rules.order,
        vec![pair("[Order] ", " [Order]"), pair(" [Order]", "[order]")]
    );
}

#[test]
fn items_are_not_deduplicated() {
    let rules = parse_rules(Some("[Order]\na\nb\n\n[Order]\na\nb\n")).unwrap();
    assert_eq!(rules.order, vec![pair("a", "b"), pair("a", "b")]);
}

#[test]
fn empty_text_gives_no_rules() {
    let rules = parse_rules(Some("")).unwrap();
    assert!(rules.order.is_empty());
    assert_eq!(rules, Rules::default());
}

#[test]
fn rule_lines_are_parsed_as_given() {
    let lines = vec!["[Order]".to_owned(), "a".to_owned(), "b".to_owned()];
    assert_eq!(parse_rule_lines(&lines).order, vec![pair("a", "b")]);
}

#[test]
fn mods_of_rules_come_in_order_of_first_mention() {
    let rules = Rules {
        order: vec![pair("b", "c"), pair("a", "b"), pair("c", "d"), pair("a", "d")],
    };
    assert_eq!(get_mods_from_rules(&rules), vec!["b", "c", "a", "d"]);
}
