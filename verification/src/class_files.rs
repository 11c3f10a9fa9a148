//! The classes that tweak files declare, by package, and the source files
//! that list them.

use vstd::prelude::*;
use crate::rules::{contains_name, push_new, Name};
use crate::text::{
    begins_with, chars_of, find_from, first_match, holds, holds_char, holds_text,
    leading_length, matches_at, names, occurs_at, split_on, split_text, string_of, trim,
    trim_end, trimmed_length,
};
use crate::tweak_files::starts_with_char;

verus! {

/// Whether `line` ends with `pattern`.
pub open spec fn ends_with(line: Name, pattern: Name) -> bool {
    occurs_at(line, pattern, line.len() - pattern.len())
}

/// What stands in `line` behind the first `*/`.
pub open spec fn after_comment(line: Name) -> Name {
    match first_match(line, "*/"@, 0) {
        Some(at) => line.subrange(at + 2, line.len() as int),
        None => line,
    }
}

/// What stands in `line` before the first `/*`.
pub open spec fn before_comment(line: Name) -> Name {
    match first_match(line, "/*"@, 0) {
        Some(at) => line.subrange(0, at),
        None => line,
    }
}

/// What is left of a line inside a block comment: whether the comment goes
/// on behind the line, and the text behind the comment where the line ends
/// it and has some.
pub open spec fn leave_comment(line: Name) -> (bool, Option<Name>) {
    if occurs_at(line, "*/"@, 0) {
        (false, Some(line.subrange(2, line.len() as int)))
    } else if ends_with(line, "*/"@) {
        (false, None)
    } else if holds(line, "/*"@) && holds(line, "*/"@) {
        (true, None)
    } else if holds(line, "*/"@) {
        (false, Some(after_comment(line)))
    } else {
        (true, None)
    }
}

/// What is left of a line outside a block comment: whether a comment goes
/// on behind the line, and the text that is no comment. A comment that
/// starts and ends within the line counts only where the line starts with
/// it.
pub open spec fn enter_comment(line: Name) -> (bool, Option<Name>) {
    if occurs_at(line, "/*"@, 0) && !holds(line, "*/"@) {
        (true, None)
    } else if occurs_at(line, "/*"@, 0) {
        (false, Some(after_comment(line)))
    } else if holds(line, "/*"@) && !holds(line, "*/"@) {
        (true, Some(before_comment(line)))
    } else {
        (false, Some(line))
    }
}

/// What is left of a line when its block comments are taken out.
/// `skipping` says whether the line starts inside a comment.
pub open spec fn uncomment(skipping: bool, line: Name) -> (bool, Option<Name>) {
    if skipping {
        match leave_comment(line) {
            (false, Some(rest)) => enter_comment(rest),
            (goes_on, _) => (goes_on, None),
        }
    } else {
        enter_comment(line)
    }
}

/// Whether a line declares a class: it is not empty, does not start with
/// a tab, a blank, a brace, a bracket, `package `, `using ` or `//`, and
/// holds no `=`.
pub open spec fn is_class_line(line: Name) -> bool {
    !(line.len() == 0 || starts_with_char(line, '\t') || starts_with_char(line, ' ')
        || starts_with_char(line, '{') || starts_with_char(line, '}') || starts_with_char(
        line,
        '[',
    ) || starts_with_char(line, ']') || occurs_at(line, "package "@, 0) || occurs_at(
        line,
        "using "@,
        0,
    ) || occurs_at(line, "//"@, 0) || line.contains('='))
}

/// The parts of a list of packages, each without the white space around it.
pub open spec fn trimmed_parts(list: Name) -> Seq<Name> {
    split_on(list, ","@).map_values(|part: Name| trim(part))
}

/// What a scan of a file knows.
pub struct ClassScan {
    /// Whether the next line starts inside a block comment
    pub skipping: bool,
    /// The package of the file
    pub namespace: Name,
    /// The packages that the file imports
    pub usings: Seq<Name>,
    /// The lines that declare a class
    pub classes: Seq<Name>,
}

/// What a scan knows after `line`.
pub open spec fn class_step(scan: ClassScan, line: Name) -> ClassScan {
    match uncomment(scan.skipping, line) {
        (skipping, None) => ClassScan {
            skipping,
            namespace: scan.namespace,
            usings: scan.usings,
            classes: scan.classes,
        },
        (skipping, Some(text)) => ClassScan {
            skipping,
            namespace: if occurs_at(text, "package "@, 0) {
                trim_end(text.subrange("package "@.len() as int, text.len() as int))
            } else {
                scan.namespace
            },
            usings: if occurs_at(text, "using "@, 0) {
                trimmed_parts(text.subrange("using "@.len() as int, text.len() as int))
            } else {
                scan.usings
            },
            classes: if is_class_line(text) {
                scan.classes.push(text)
            } else {
                scan.classes
            },
        },
    }
}

/// What a scan knows after `lines`.
pub open spec fn class_scan(lines: Seq<Name>, scan: ClassScan) -> ClassScan
    decreases lines.len(),
{
    if lines.len() == 0 {
        scan
    } else {
        class_scan(lines.drop_first(), class_step(scan, lines[0]))
    }
}

/// What a file declares.
#[derive(Debug, PartialEq, Eq)]
pub struct FileClasses {
    /// The package of the file
    pub namespace: String,
    /// The packages that the file imports
    pub usings: Vec<String>,
    /// The lines that declare a class
    pub classes: Vec<String>,
}

/// Whether `line` ends with `pattern`.
pub fn line_ends_with(line: &Vec<char>, pattern: &str) -> (ends: bool)
    ensures
        ends == ends_with(line@, pattern@),
{
    let pattern = chars_of(pattern);
    if pattern.len() > line.len() {
        return false;
    }
    matches_at(line, &pattern, line.len() - pattern.len())
}

/// What stands in `line` behind the first `*/`.
fn cut_after_comment(line: &String) -> (rest: String)
    requires
        holds(line@, "*/"@),
    ensures
        rest@ == after_comment(line@),
{
    let chars = chars_of(line.as_str());
    let pattern = chars_of("*/");
    proof {
        reveal_strlit("*/");
    }
    assert(pattern@.len() == 2);
    match find_from(&chars, &pattern, 0) {
        Some(at) => {
            let total: usize = chars.len();
            assert(at + 2 <= total);
            string_of(&chars, at + 2, total)
        },
        None => line.clone(),
    }
}

/// What stands in `line` before the first `/*`.
fn cut_before_comment(line: &String) -> (rest: String)
    ensures
        rest@ == before_comment(line@),
{
    let chars = chars_of(line.as_str());
    let pattern = chars_of("/*");
    match find_from(&chars, &pattern, 0) {
        Some(at) => string_of(&chars, 0, at),
        None => line.clone(),
    }
}

/// Takes the block comment out of a line that starts outside one.
fn enter(line: String) -> (left: (bool, Option<String>))
    ensures
        left.0 == enter_comment(line@).0,
        match left.1 {
            Some(text) => enter_comment(line@).1 == Some(text@),
            None => enter_comment(line@).1 is None,
        },
{
    let chars = chars_of(line.as_str());
    let opens = begins_with(&chars, "/*");
    let has_open = holds_text(&chars, "/*");
    let has_close = holds_text(&chars, "*/");
    if opens && !has_close {
        (true, None)
    } else if opens {
        (false, Some(cut_after_comment(&line)))
    } else if has_open && !has_close {
        (true, Some(cut_before_comment(&line)))
    } else {
        (false, Some(line))
    }
}

/// Takes the block comments out of a line.
pub fn strip_comments(skipping: bool, line: &String) -> (left: (bool, Option<String>))
    ensures
        left.0 == uncomment(skipping, line@).0,
        match left.1 {
            Some(text) => uncomment(skipping, line@).1 == Some(text@),
            None => uncomment(skipping, line@).1 is None,
        },
{
    if !skipping {
        return enter(line.clone());
    }
    let chars = chars_of(line.as_str());
    proof {
        reveal_strlit("*/");
    }
    if begins_with(&chars, "*/") {
        enter(string_of(&chars, 2, chars.len()))
    } else if line_ends_with(&chars, "*/") {
        (false, None)
    } else if holds_text(&chars, "/*") && holds_text(&chars, "*/") {
        (true, None)
    } else if holds_text(&chars, "*/") {
        enter(cut_after_comment(line))
    } else {
        (true, None)
    }
}

/// Whether a line declares a class.
pub fn declares_class(line: &String) -> (declares: bool)
    ensures
        declares == is_class_line(line@),
{
    let chars = chars_of(line.as_str());
    if chars.len() == 0 {
        return false;
    }
    let first: char = chars[0];
    if first == '\t' || first == ' ' || first == '{' || first == '}' || first == '[' || first
        == ']' {
        return false;
    }
    !(begins_with(&chars, "package ") || begins_with(&chars, "using ") || begins_with(
        &chars,
        "//",
    ) || holds_char(&chars, '='))
}

/// `text` without the white space at its end.
pub fn trimmed_end(text: &str) -> (out: String)
    ensures
        out@ == trim_end(text@),
{
    let chars = chars_of(text);
    proof {
        assert(text@.subrange(0, text@.len() as int) == text@);
    }
    let end = trimmed_length(&chars, chars.len());
    string_of(&chars, 0, end)
}

/// `text` without the white space at its start and at its end.
pub fn trimmed(text: &str) -> (out: String)
    ensures
        out@ == trim(text@),
{
    let chars = chars_of(text);
    proof {
        assert(text@.subrange(0, text@.len() as int) == text@);
    }
    let end = trimmed_length(&chars, chars.len());
    let start = leading_length(&chars, 0, end);
    proof {
        let cut = trim_end(text@);
        assert(cut == text@.subrange(0, end as int));
        assert(cut.subrange(start as int, cut.len() as int) == text@.subrange(
            start as int,
            end as int,
        ));
    }
    string_of(&chars, start, end)
}

/// The packages of a list, each without the white space around it.
pub fn split_usings(list: &str) -> (parts: Vec<String>)
    ensures
        names(parts@) == trimmed_parts(list@),
{
    proof {
        reveal_strlit(",");
    }
    let raw = split_text(list, ",");
    let mut parts: Vec<String> = Vec::new();
    let mut i: usize = 0;
    while i < raw.len()
        invariant
            i <= raw.len(),
            names(raw@) == split_on(list@, ","@),
            names(parts@) == trimmed_parts(list@).subrange(0, i as int),
        decreases raw.len() - i,
    {
        let part = trimmed(raw[i].as_str());
        proof {
            let all = trimmed_parts(list@);
            assert(names(parts@.push(part)) == names(parts@).push(part@));
            assert(all[i as int] == trim(names(raw@)[i as int]));
            assert(all.subrange(0, i + 1) == all.subrange(0, i as int).push(all[i as int]));
        }
        parts.push(part);
        i += 1;
    }
    proof {
        let all = trimmed_parts(list@);
        assert(all.subrange(0, i as int) == all);
    }
    parts
}

/// The start of a scan.
pub open spec fn fresh_scan() -> ClassScan {
    ClassScan {
        skipping: false,
        namespace: Seq::empty(),
        usings: Seq::empty(),
        classes: Seq::empty(),
    }
}

/// Reads what the lines of a file declare. The result is `None` for a
/// file that names no package.
pub fn read_classes(lines: &Vec<String>) -> (file: Option<FileClasses>)
    ensures
        file is None <==> class_scan(names(lines@), fresh_scan()).namespace.len() == 0,
        file matches Some(f) ==> {
            let scan = class_scan(names(lines@), fresh_scan());
            &&& f.namespace@ == scan.namespace
            &&& names(f.usings@) == scan.usings
            &&& names(f.classes@) == scan.classes
        },
{
    let mut skipping = false;
    let mut namespace = String::new();
    let mut usings: Vec<String> = Vec::new();
    let mut classes: Vec<String> = Vec::new();
    let ghost whole = class_scan(names(lines@), fresh_scan());
    let mut i: usize = 0;
    proof {
        assert(names(lines@).subrange(0, lines@.len() as int) == names(lines@));
        assert(names(usings@) == Seq::<Name>::empty());
        reveal_strlit("package ");
        reveal_strlit("using ");
    }
    while i < lines.len()
        invariant
            i <= lines.len(),
            "package "@.len() == 8,
            "using "@.len() == 6,
            whole == class_scan(
                names(lines@).subrange(i as int, lines@.len() as int),
                ClassScan {
                    skipping,
                    namespace: namespace@,
                    usings: names(usings@),
                    classes: names(classes@),
                },
            ),
        decreases lines.len() - i,
    {
        proof {
            let todo = names(lines@).subrange(i as int, lines@.len() as int);
            assert(todo[0] == lines@[i as int]@);
            assert(todo.drop_first() == names(lines@).subrange(i + 1, lines@.len() as int));
        }
        let (goes_on, left) = strip_comments(skipping, &lines[i]);
        skipping = goes_on;
        if let Some(text) = left {
            let chars = chars_of(text.as_str());
            if begins_with(&chars, "package ") {
                let rest = string_of(&chars, 8, chars.len());
                namespace = trimmed_end(rest.as_str());
            }
            if begins_with(&chars, "using ") {
                let rest = string_of(&chars, 6, chars.len());
                usings = split_usings(rest.as_str());
            }
            if declares_class(&text) {
                proof {
                    assert(names(classes@.push(text)) == names(classes@).push(text@));
                }
                classes.push(text);
            }
        }
        i += 1;
    }
    if namespace.as_str().is_empty() {
        return None;
    }
    Some(FileClasses { namespace, usings, classes })
}

/// What a scan that takes every line as it is knows after `line`.
pub open spec fn plain_step(scan: ClassScan, line: Name) -> ClassScan {
    ClassScan {
        skipping: false,
        namespace: if occurs_at(line, "package "@, 0) {
            trim_end(line.subrange("package "@.len() as int, line.len() as int))
        } else {
            scan.namespace
        },
        usings: scan.usings,
        classes: if is_class_line(line) {
            scan.classes.push(line)
        } else {
            scan.classes
        },
    }
}

/// What a scan that takes every line as it is knows after `lines`.
pub open spec fn plain_scan(lines: Seq<Name>, scan: ClassScan) -> ClassScan
    decreases lines.len(),
{
    if lines.len() == 0 {
        scan
    } else {
        plain_scan(lines.drop_first(), plain_step(scan, lines[0]))
    }
}

/// Reads what the lines of a file declare, block comments taken as lines
/// like the others and imports passed over. The result is `None` for a
/// file that names no package.
pub fn read_plain_classes(lines: &Vec<String>) -> (file: Option<FileClasses>)
    ensures
        file is None <==> plain_scan(names(lines@), fresh_scan()).namespace.len() == 0,
        file matches Some(f) ==> {
            let scan = plain_scan(names(lines@), fresh_scan());
            &&& f.namespace@ == scan.namespace
            &&& f.usings@.len() == 0
            &&& names(f.classes@) == scan.classes
        },
{
    let mut namespace = String::new();
    let mut classes: Vec<String> = Vec::new();
    let ghost whole = plain_scan(names(lines@), fresh_scan());
    let mut i: usize = 0;
    proof {
        assert(names(lines@).subrange(0, lines@.len() as int) == names(lines@));
        assert(names(classes@) == Seq::<Name>::empty());
        reveal_strlit("package ");
    }
    while i < lines.len()
        invariant
            i <= lines.len(),
            "package "@.len() == 8,
            whole == plain_scan(
                names(lines@).subrange(i as int, lines@.len() as int),
                ClassScan {
                    skipping: false,
                    namespace: namespace@,
                    usings: Seq::empty(),
                    classes: names(classes@),
                },
            ),
        decreases lines.len() - i,
    {
        proof {
            let todo = names(lines@).subrange(i as int, lines@.len() as int);
            assert(todo[0] == lines@[i as int]@);
            assert(todo.drop_first() == names(lines@).subrange(i + 1, lines@.len() as int));
        }
        let text = &lines[i];
        let chars = chars_of(text.as_str());
        if begins_with(&chars, "package ") {
            let rest = string_of(&chars, 8, chars.len());
            namespace = trimmed_end(rest.as_str());
        }
        if declares_class(text) {
            let item = text.clone();
            proof {
                assert(names(classes@.push(item)) == names(classes@).push(item@));
            }
            classes.push(item);
        }
        i += 1;
    }
    if namespace.as_str().is_empty() {
        return None;
    }
    Some(FileClasses { namespace, usings: Vec::new(), classes })
}

/// The lines `public class C {}` for the classes of a list.
pub open spec fn plain_class_lines(classes: Seq<Name>) -> Seq<char>
    decreases classes.len(),
{
    if classes.len() == 0 {
        Seq::empty()
    } else {
        plain_class_lines(classes.drop_last()) + "public class "@ + classes.last() + " {}\n"@
    }
}

/// Writes the source file of the package `key` in its plain form: the
/// name of the package and its classes.
pub fn convert_to_plain_cs(key: &String, classes: &Vec<String>) -> (text: String)
    ensures
        text@ == "namespace "@ + key@ + ";\n\n"@ + plain_class_lines(names(classes@)),
{
    let mut text = String::new();
    let ghost listed = names(classes@);
    text.append("namespace ");
    text.append(key.as_str());
    text.append(";\n\n");
    let ghost head = text@;
    let mut k: usize = 0;
    proof {
        assert(head =~= "namespace "@ + key@ + ";\n\n"@);
        assert(listed.subrange(0, 0) =~= Seq::<Name>::empty());
        assert(head + Seq::<char>::empty() == head);
    }
    while k < classes.len()
        invariant
            k <= classes.len(),
            listed == names(classes@),
            text@ == head + plain_class_lines(listed.subrange(0, k as int)),
        decreases classes.len() - k,
    {
        let ghost done = plain_class_lines(listed.subrange(0, k as int));
        proof {
            let next = listed.subrange(0, k + 1);
            assert(next.drop_last() == listed.subrange(0, k as int));
            assert(next.last() == classes@[k as int]@);
        }
        text.append("public class ");
        text.append(classes[k].as_str());
        text.append(" {}\n");
        proof {
            assert(text@ =~= head + (done + "public class "@ + classes@[k as int]@ + " {}\n"@));
        }
        k += 1;
    }
    proof {
        assert(listed.subrange(0, k as int) == listed);
    }
    text
}

/// What a package declares.
#[derive(Debug, Default, PartialEq, Eq)]
pub struct PackageInfo {
    pub classes: Vec<String>,
    pub usings: Vec<String>,
}

/// The name of the class that a line declares: what stands before the
/// first `//`, without the white space at its end.
pub open spec fn class_name(line: Name) -> Name {
    if holds(line, "//"@) {
        trim_end(split_on(line, "//"@).first())
    } else {
        line
    }
}

/// `list` with the class names of `lines`, each unless it is there
/// already.
pub open spec fn with_classes(list: Seq<Name>, lines: Seq<Name>) -> Seq<Name>
    decreases lines.len(),
{
    if lines.len() == 0 {
        list
    } else {
        push_new(with_classes(list, lines.drop_last()), class_name(lines.last()))
    }
}

/// `list` with the names of `more`, each unless it is there already.
pub open spec fn with_names(list: Seq<Name>, more: Seq<Name>) -> Seq<Name>
    decreases more.len(),
{
    if more.len() == 0 {
        list
    } else {
        push_new(with_names(list, more.drop_last()), more.last())
    }
}

/// The name of the class that a line declares.
pub fn class_of(line: &String) -> (name: String)
    ensures
        name@ == class_name(line@),
{
    let chars = chars_of(line.as_str());
    if holds_text(&chars, "//") {
        proof {
            reveal_strlit("//");
            crate::text::lemma_split_on_has_parts(line@, "//"@);
        }
        let parts = split_text(line.as_str(), "//");
        assert(names(parts@).first() == parts@[0]@);
        trimmed_end(parts[0].as_str())
    } else {
        line.clone()
    }
}

/// Notes what a file declares in the package `info`.
pub fn add_declarations(info: &mut PackageInfo, file: &FileClasses)
    ensures
        names(final(info).classes@) == with_classes(names(old(info).classes@), names(file.classes@)),
        names(final(info).usings@) == with_names(names(old(info).usings@), names(file.usings@)),
{
    let ghost lines = names(file.classes@);
    let ghost more = names(file.usings@);
    let ghost start = names(info.classes@);
    let ghost start_usings = names(info.usings@);
    let mut i: usize = 0;
    proof {
        assert(lines.subrange(0, 0) =~= Seq::<Name>::empty());
    }
    while i < file.classes.len()
        invariant
            i <= file.classes.len(),
            lines == names(file.classes@),
            names(info.usings@) == start_usings,
            names(info.classes@) == with_classes(start, lines.subrange(0, i as int)),
        decreases file.classes.len() - i,
    {
        let class = class_of(&file.classes[i]);
        proof {
            let next = lines.subrange(0, i + 1);
            assert(next.drop_last() == lines.subrange(0, i as int));
            assert(next.last() == file.classes@[i as int]@);
        }
        if !contains_name(&info.classes, &class) {
            proof {
                assert(names(info.classes@.push(class)) == names(info.classes@).push(class@));
            }
            info.classes.push(class);
        }
        i += 1;
    }
    let mut k: usize = 0;
    proof {
        assert(lines.subrange(0, i as int) == lines);
        assert(more.subrange(0, 0) =~= Seq::<Name>::empty());
    }
    while k < file.usings.len()
        invariant
            k <= file.usings.len(),
            more == names(file.usings@),
            names(info.classes@) == with_classes(start, lines),
            names(info.usings@) == with_names(start_usings, more.subrange(0, k as int)),
        decreases file.usings.len() - k,
    {
        proof {
            let next = more.subrange(0, k + 1);
            assert(next.drop_last() == more.subrange(0, k as int));
            assert(next.last() == file.usings@[k as int]@);
        }
        if !contains_name(&info.usings, &file.usings[k]) {
            let item = file.usings[k].clone();
            proof {
                assert(names(info.usings@.push(item)) == names(info.usings@).push(item@));
            }
            info.usings.push(item);
        }
        k += 1;
    }
    proof {
        assert(more.subrange(0, k as int) == more);
    }
}

/// The lines `using U;` for the packages of a list.
pub open spec fn using_lines(usings: Seq<Name>) -> Seq<char>
    decreases usings.len(),
{
    if usings.len() == 0 {
        Seq::empty()
    } else {
        using_lines(usings.drop_last()) + "using "@ + usings.last() + ";\n"@
    }
}

/// The lines `public class C { }` for the classes of a list.
pub open spec fn class_lines(classes: Seq<Name>) -> Seq<char>
    decreases classes.len(),
{
    if classes.len() == 0 {
        Seq::empty()
    } else {
        class_lines(classes.drop_last()) + "public class "@ + classes.last() + " { }\n"@
    }
}

/// The source file of a package: the packages it uses, its name, and its
/// classes.
pub open spec fn source_text(key: Name, usings: Seq<Name>, classes: Seq<Name>) -> Seq<char> {
    using_lines(usings) + "namespace "@ + key + ";\n\n"@ + class_lines(classes)
}

/// Writes the source file of the package `key`.
pub fn convert_to_cs(key: &String, package: &PackageInfo) -> (text: String)
    ensures
        text@ == source_text(key@, names(package.usings@), names(package.classes@)),
{
    let mut text = String::new();
    let ghost usings = names(package.usings@);
    let ghost classes = names(package.classes@);
    let mut i: usize = 0;
    proof {
        assert(usings.subrange(0, 0) =~= Seq::<Name>::empty());
    }
    while i < package.usings.len()
        invariant
            i <= package.usings.len(),
            usings == names(package.usings@),
            text@ == using_lines(usings.subrange(0, i as int)),
        decreases package.usings.len() - i,
    {
        proof {
            let next = usings.subrange(0, i + 1);
            assert(next.drop_last() == usings.subrange(0, i as int));
            assert(next.last() == package.usings@[i as int]@);
        }
        text.append("using ");
        text.append(package.usings[i].as_str());
        text.append(";\n");
        i += 1;
    }
    proof {
        assert(usings.subrange(0, i as int) == usings);
    }
    text.append("namespace ");
    text.append(key.as_str());
    text.append(";\n\n");
    let ghost head = text@;
    let mut k: usize = 0;
    proof {
        assert(classes.subrange(0, 0) =~= Seq::<Name>::empty());
        assert(head + Seq::<char>::empty() == head);
    }
    while k < package.classes.len()
        invariant
            k <= package.classes.len(),
            classes == names(package.classes@),
            text@ == head + class_lines(classes.subrange(0, k as int)),
        decreases package.classes.len() - k,
    {
        let ghost done = class_lines(classes.subrange(0, k as int));
        proof {
            let next = classes.subrange(0, k + 1);
            assert(next.drop_last() == classes.subrange(0, k as int));
            assert(next.last() == package.classes@[k as int]@);
        }
        text.append("public class ");
        text.append(package.classes[k].as_str());
        text.append(" { }\n");
        proof {
            assert(text@ =~= head + (done + "public class "@ + package.classes@[k as int]@
                + " { }\n"@));
        }
        k += 1;
    }
    proof {
        assert(classes.subrange(0, k as int) == classes);
    }
    text
}

} // verus!
