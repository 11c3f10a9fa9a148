//! Tweak files: the lines of a file name the package of its records, the
//! packages it imports, and the records themselves.
//!
//! A record stands on a line of its own, as its name or as its name, ` : `
//! and the name of its base. What stands between braces or brackets
//! belongs to a record and names none.

use vstd::prelude::*;
use crate::rules::Name;
use crate::text::{
    begins_with, chars_of, copy_names, holds, holds_char, holds_text, lemma_split_on_has_parts,
    names, occurs_at, same_names, split_on, split_text, string_of,
};
use crate::tweaks::{TweakRecord, TweakRecordView};

verus! {

/// What a scan knows after some lines of a file.
pub struct Scan {
    /// Whether the lines belong to a record
    pub ignore: bool,
    /// The package of the file
    pub package: Name,
    /// The packages that the file imports
    pub imports: Seq<Name>,
}

/// The record that stands on `line`, in a file of this package and these
/// imports.
pub open spec fn record_on(line: Name, package: Name, imports: Seq<Name>) -> TweakRecordView {
    if holds(line, " : "@) {
        let parts = split_on(line, " : "@);
        TweakRecordView { name: parts.first(), base: Some(parts.last()), package, imports }
    } else {
        TweakRecordView { name: line, base: None, package, imports }
    }
}

/// Whether `line` starts with the character `c`.
pub open spec fn starts_with_char(line: Name, c: char) -> bool {
    line.len() > 0 && line[0] == c
}

/// What a scan knows after `line`, and the record that stands on it.
pub open spec fn scan_line(scan: Scan, line: Name) -> (Scan, Option<TweakRecordView>) {
    if occurs_at(line, "package "@, 0) {
        (
            Scan {
                ignore: scan.ignore,
                package: line.subrange("package "@.len() as int, line.len() as int),
                imports: scan.imports,
            },
            None,
        )
    } else if occurs_at(line, "using "@, 0) {
        (
            Scan {
                ignore: scan.ignore,
                package: scan.package,
                imports: split_on(line.subrange("using "@.len() as int, line.len() as int), ", "@),
            },
            None,
        )
    } else if line.contains('=') {
        (scan, None)
    } else if occurs_at(line, "[ "@, 0) && line.contains(']') {
        (scan, None)
    } else if starts_with_char(line, '[') && !line.contains(']') {
        (Scan { ignore: true, package: scan.package, imports: scan.imports }, None)
    } else if line.len() == 0 {
        (scan, None)
    } else if starts_with_char(line, '{') {
        (Scan { ignore: true, package: scan.package, imports: scan.imports }, None)
    } else if starts_with_char(line, '}') || starts_with_char(line, ']') {
        (Scan { ignore: false, package: scan.package, imports: scan.imports }, None)
    } else if scan.ignore {
        (scan, None)
    } else {
        (scan, Some(record_on(line, scan.package, scan.imports)))
    }
}

/// `records` with the records of `lines`, each unless it is there already.
pub open spec fn scanned(lines: Seq<Name>, scan: Scan, records: Seq<TweakRecordView>) -> Seq<
    TweakRecordView,
>
    decreases lines.len(),
{
    if lines.len() == 0 {
        records
    } else {
        let (next, found) = scan_line(scan, lines[0]);
        let grown = match found {
            Some(record) => if records.contains(record) {
                records
            } else {
                records.push(record)
            },
            None => records,
        };
        scanned(lines.drop_first(), next, grown)
    }
}

/// The records of a list as plain values.
pub open spec fn views(records: Seq<TweakRecord>) -> Seq<TweakRecordView> {
    records.map_values(|r: TweakRecord| r@)
}

/// Whether two records are the same.
pub fn same_record(a: &TweakRecord, b: &TweakRecord) -> (same: bool)
    ensures
        same == (a@ == b@),
{
    if a.name != b.name || a.package != b.package {
        return false;
    }
    let same_base = match (&a.base, &b.base) {
        (Some(x), Some(y)) => *x == *y,
        (None, None) => true,
        _ => false,
    };
    if !same_base {
        return false;
    }
    same_names(&a.imports, &b.imports)
}

/// Whether `records` holds `record`.
pub fn holds_record(records: &Vec<TweakRecord>, record: &TweakRecord) -> (found: bool)
    ensures
        found == views(records@).contains(record@),
{
    let mut i: usize = 0;
    while i < records.len()
        invariant
            i <= records.len(),
            forall|k: int| 0 <= k < i ==> views(records@)[k] != record@,
        decreases records.len() - i,
    {
        if same_record(&records[i], record) {
            assert(views(records@)[i as int] == record@);
            return true;
        }
        i += 1;
    }
    false
}

/// Reads the records of the lines of one file into `records`, each unless
/// it is there already.
pub fn read_records(lines: &Vec<String>, records: &mut Vec<TweakRecord>)
    ensures
        views(final(records)@) == scanned(
            names(lines@),
            Scan { ignore: false, package: Seq::empty(), imports: Seq::empty() },
            views(old(records)@),
        ),
{
    let mut ignore = false;
    let mut package = String::new();
    let mut imports: Vec<String> = Vec::new();
    let ghost whole = scanned(
        names(lines@),
        Scan { ignore: false, package: Seq::empty(), imports: Seq::empty() },
        views(records@),
    );
    let mut i: usize = 0;
    proof {
        assert(names(lines@).subrange(0, lines@.len() as int) == names(lines@));
        assert(names(imports@) == Seq::<Name>::empty());
        reveal_strlit("package ");
        reveal_strlit("using ");
        reveal_strlit("[ ");
        reveal_strlit(", ");
        reveal_strlit(" : ");
    }
    while i < lines.len()
        invariant
            i <= lines.len(),
            "package "@.len() == 8,
            "using "@.len() == 6,
            "[ "@.len() == 2,
            "[ "@[0] == '[',
            ", "@.len() == 2,
            " : "@.len() == 3,
            whole == scanned(
                names(lines@).subrange(i as int, lines@.len() as int),
                Scan { ignore, package: package@, imports: names(imports@) },
                views(records@),
            ),
        decreases lines.len() - i,
    {
        let line = lines[i].as_str();
        let chars = chars_of(line);
        let ghost scan = Scan { ignore, package: package@, imports: names(imports@) };
        let ghost so_far = views(records@);
        proof {
            let todo = names(lines@).subrange(i as int, lines@.len() as int);
            assert(todo[0] == line@);
            assert(todo.drop_first() == names(lines@).subrange(i + 1, lines@.len() as int));
        }
        if begins_with(&chars, "package ") {
            package = string_of(&chars, 8, chars.len());
        } else if begins_with(&chars, "using ") {
            let usings = string_of(&chars, 6, chars.len());
            imports = split_text(usings.as_str(), ", ");
        } else if holds_char(&chars, '=') {
        } else if begins_with(&chars, "[ ") && holds_char(&chars, ']') {
        } else if chars.len() > 0 && chars[0] == '[' && !holds_char(&chars, ']') {
            ignore = true;
        } else if chars.len() == 0 {
        } else if chars[0] == '{' {
            ignore = true;
        } else if chars[0] == '}' || chars[0] == ']' {
            ignore = false;
        } else if ignore {
        } else {
            let record = if holds_text(&chars, " : ") {
                let parts = split_text(line, " : ");
                proof {
                    lemma_split_on_has_parts(line@, " : "@);
                    assert(names(parts@).first() == parts@[0]@);
                    assert(names(parts@).last() == parts@[parts@.len() - 1]@);
                }
                TweakRecord {
                    name: parts[0].clone(),
                    base: Some(parts[parts.len() - 1].clone()),
                    package: package.clone(),
                    imports: copy_names(&imports),
                }
            } else {
                TweakRecord {
                    name: lines[i].clone(),
                    base: None,
                    package: package.clone(),
                    imports: copy_names(&imports),
                }
            };
            assert(record@ == record_on(line@, scan.package, scan.imports));
            if !holds_record(records, &record) {
                proof {
                    assert(views(records@.push(record)) == so_far.push(record@));
                }
                records.push(record);
            }
        }
        i += 1;
    }
}

} // verus!
