//! Load orders as lists of archive file names: how the archives of a folder
//! are found and ordered, and how a load order is written as text.
//!
//! Archives load in the binary order of their names. A list file can name
//! archives that load before the others, in the order of its lines.

use vstd::prelude::*;
use vstd::utf8::encode_utf8;
use crate::rules::{contains_name, push_new, Name};
use crate::text::{chars_of, find_from, holds, names, string_of};

verus! {

broadcast use vstd::seq_lib::group_to_multiset_ensures;

/// The order of byte strings: at the first place where two differ the
/// smaller byte decides, and a string stands before those that it begins.
pub open spec fn bytes_le(a: Seq<u8>, b: Seq<u8>) -> bool
    decreases a.len(),
{
    if a.len() == 0 {
        true
    } else if b.len() == 0 {
        false
    } else if a[0] != b[0] {
        a[0] < b[0]
    } else {
        bytes_le(a.drop_first(), b.drop_first())
    }
}

/// The binary order of names: the order of their UTF-8 bytes.
pub open spec fn name_le(a: Name, b: Name) -> bool {
    bytes_le(encode_utf8(a), encode_utf8(b))
}

/// Each name stands before the names that follow it.
pub open spec fn is_sorted(list: Seq<Name>) -> bool {
    forall|i: int, j: int| 0 <= i < j < list.len() ==> name_le(#[trigger] list[i], #[trigger] list[j])
}

/// Of two byte strings one stands before the other.
pub proof fn lemma_bytes_le_total(a: Seq<u8>, b: Seq<u8>)
    ensures
        bytes_le(a, b) || bytes_le(b, a),
    decreases a.len(),
{
    if a.len() > 0 && b.len() > 0 && a[0] == b[0] {
        lemma_bytes_le_total(a.drop_first(), b.drop_first());
    }
}

/// The order of byte strings is transitive.
pub proof fn lemma_bytes_le_transitive(a: Seq<u8>, b: Seq<u8>, c: Seq<u8>)
    requires
        bytes_le(a, b),
        bytes_le(b, c),
    ensures
        bytes_le(a, c),
    decreases a.len(),
{
    if a.len() > 0 && b.len() > 0 && c.len() > 0 && a[0] == b[0] && b[0] == c[0] {
        lemma_bytes_le_transitive(a.drop_first(), b.drop_first(), c.drop_first());
    }
}

/// Byte strings that stand before each other are equal.
pub proof fn lemma_bytes_le_antisymmetric(a: Seq<u8>, b: Seq<u8>)
    requires
        bytes_le(a, b),
        bytes_le(b, a),
    ensures
        a == b,
    decreases a.len(),
{
    if a.len() > 0 && b.len() > 0 {
        lemma_bytes_le_antisymmetric(a.drop_first(), b.drop_first());
        assert(a =~= seq![a[0]] + a.drop_first());
        assert(b =~= seq![b[0]] + b.drop_first());
    } else {
        assert(a =~= b);
    }
}

/// Names that stand before each other are equal.
pub proof fn lemma_name_le_antisymmetric(a: Name, b: Name)
    requires
        name_le(a, b),
        name_le(b, a),
    ensures
        a == b,
{
    lemma_bytes_le_antisymmetric(encode_utf8(a), encode_utf8(b));
    vstd::utf8::encode_utf8_decode_utf8(a);
    vstd::utf8::encode_utf8_decode_utf8(b);
}

/// Each name stands before the names that follow it and differs from them.
pub open spec fn is_strictly_sorted(list: Seq<Name>) -> bool {
    forall|i: int, j: int|
        0 <= i < j < list.len() ==> name_le(#[trigger] list[i], #[trigger] list[j]) && list[i]
            != list[j]
}

/// The names of `list` in binary order, each once.
pub fn sorted_distinct(list: &Vec<String>) -> (out: Vec<String>)
    ensures
        is_strictly_sorted(names(out@)),
        forall|x: Name| names(out@).contains(x) <==> names(list@).contains(x),
{
    let sorted = sort_names(list);
    let ghost all = names(sorted@);
    let mut out: Vec<String> = Vec::new();
    let mut k: usize = 0;
    while k < sorted.len()
        invariant
            k <= sorted.len(),
            all == names(sorted@),
            is_sorted(all),
            is_strictly_sorted(names(out@)),
            forall|x: Name| names(out@).contains(x) <==> all.subrange(0, k as int).contains(x),
            k > 0 ==> out@.len() > 0 && names(out@).last() == all[k - 1],
            k == 0 ==> out@.len() == 0,
        decreases sorted.len() - k,
    {
        let ghost done = all.subrange(0, k as int);
        let ghost next = all.subrange(0, k + 1);
        let ghost kept = names(out@);
        proof {
            assert(next == done.push(all[k as int]));
            assert forall|x: Name| next.contains(x) <==> done.contains(x) || x == all[k as int] by {
                if done.contains(x) {
                    let i = choose|i: int| 0 <= i < done.len() && done[i] == x;
                    assert(next[i] == x);
                }
                if next.contains(x) {
                    let i = choose|i: int| 0 <= i < next.len() && next[i] == x;
                    if i < done.len() {
                        assert(done[i] == x);
                    }
                }
                assert(next[k as int] == all[k as int]);
            }
        }
        let fresh = k == 0 || sorted[k] != sorted[k - 1];
        if fresh {
            let item = sorted[k].clone();
            proof {
                let grown = kept.push(item@);
                assert(names(out@.push(item)) == grown);
                assert forall|x: Name| grown.contains(x) <==> kept.contains(x) || x == item@ by {
                    if kept.contains(x) {
                        let i = choose|i: int| 0 <= i < kept.len() && kept[i] == x;
                        assert(grown[i] == x);
                    }
                    if grown.contains(x) {
                        let i = choose|i: int| 0 <= i < grown.len() && grown[i] == x;
                        if i < kept.len() {
                            assert(kept[i] == x);
                        }
                    }
                    assert(grown[kept.len() as int] == item@);
                }
                assert forall|i: int, j: int| 0 <= i < j < grown.len() implies name_le(
                    #[trigger] grown[i],
                    #[trigger] grown[j],
                ) && grown[i] != grown[j] by {
                    if j == kept.len() {
                        assert(kept.contains(kept[i]));
                        let at = choose|at: int| 0 <= at < done.len() && done[at] == kept[i];
                        assert(all[at] == kept[i]);
                        assert(name_le(all[at], all[k as int]));
                        if grown[i] == grown[j] {
                            // equal names stand side by side
                            assert(name_le(all[at], all[k - 1]) || at == k - 1);
                            assert(name_le(all[k - 1], all[k as int]));
                            if at != k - 1 {
                                lemma_name_le_antisymmetric(all[k - 1], all[k as int]);
                            }
                        }
                    }
                }
            }
            out.push(item);
        } else {
            proof {
                assert(kept.contains(kept.last())) by {
                    assert(kept[kept.len() - 1] == kept.last());
                }
            }
        }
        k += 1;
    }
    proof {
        assert(all.subrange(0, k as int) == all);
        assert forall|x: Name| all.contains(x) <==> names(list@).contains(x) by {
            vstd::seq_lib::to_multiset_contains(all, x);
            vstd::seq_lib::to_multiset_contains(names(list@), x);
        }
    }
    out
}

/// Whether `a` stands before `b` in the order of byte strings, or equals it.
pub fn bytes_before(a: &[u8], b: &[u8]) -> (le: bool)
    ensures
        le == bytes_le(a@, b@),
{
    let mut i: usize = 0;
    proof {
        assert(a@.subrange(0, a@.len() as int) == a@);
        assert(b@.subrange(0, b@.len() as int) == b@);
    }
    while i < a.len() && i < b.len()
        invariant
            i <= a.len(),
            i <= b.len(),
            bytes_le(a@, b@) == bytes_le(
                a@.subrange(i as int, a@.len() as int),
                b@.subrange(i as int, b@.len() as int),
            ),
        decreases a.len() - i,
    {
        let ghost ra = a@.subrange(i as int, a@.len() as int);
        let ghost rb = b@.subrange(i as int, b@.len() as int);
        proof {
            assert(ra[0] == a@[i as int] && rb[0] == b@[i as int]);
            assert(ra.drop_first() == a@.subrange(i + 1, a@.len() as int));
            assert(rb.drop_first() == b@.subrange(i + 1, b@.len() as int));
        }
        if a[i] != b[i] {
            return a[i] < b[i];
        }
        i += 1;
    }
    i == a.len()
}

/// Whether `a` stands before `b` in the binary order of names, or equals it.
pub fn name_before(a: &str, b: &str) -> (le: bool)
    ensures
        le == name_le(a@, b@),
{
    bytes_before(a.as_bytes(), b.as_bytes())
}

/// The names of `list` from the one at `from` up to the one at `to`.
fn copy_range(list: &Vec<String>, from: usize, to: usize) -> (copy: Vec<String>)
    requires
        from <= to <= list@.len(),
    ensures
        names(copy@) == names(list@).subrange(from as int, to as int),
{
    let mut copy: Vec<String> = Vec::new();
    let mut i: usize = from;
    proof {
        assert(names(list@).subrange(from as int, from as int) =~= names(copy@));
    }
    while i < to
        invariant
            from <= i <= to <= list@.len(),
            names(copy@) == names(list@).subrange(from as int, i as int),
        decreases to - i,
    {
        let item = list[i].clone();
        proof {
            assert(names(copy@.push(item)) == names(copy@).push(item@));
            assert(names(list@).subrange(from as int, i + 1) == names(list@).subrange(
                from as int,
                i as int,
            ).push(item@));
        }
        copy.push(item);
        i += 1;
    }
    copy
}

/// Two lists in binary order as one list in binary order.
fn merge_names(a: &Vec<String>, b: &Vec<String>) -> (out: Vec<String>)
    requires
        is_sorted(names(a@)),
        is_sorted(names(b@)),
    ensures
        is_sorted(names(out@)),
        names(out@).to_multiset() == names(a@).to_multiset().add(names(b@).to_multiset()),
{
    let ghost left = names(a@);
    let ghost right = names(b@);
    let mut out: Vec<String> = Vec::new();
    let mut i: usize = 0;
    let mut j: usize = 0;
    proof {
        assert(left.subrange(0, 0) =~= Seq::<Name>::empty());
        assert(right.subrange(0, 0) =~= Seq::<Name>::empty());
        assert(names(out@).to_multiset() =~= left.subrange(0, 0).to_multiset().add(
            right.subrange(0, 0).to_multiset(),
        ));
    }
    while i < a.len() || j < b.len()
        invariant
            i <= a.len(),
            j <= b.len(),
            left == names(a@),
            right == names(b@),
            is_sorted(left),
            is_sorted(right),
            is_sorted(names(out@)),
            forall|k: int|
                0 <= k < out@.len() && i < a.len() ==> name_le(
                    #[trigger] names(out@)[k],
                    left[i as int],
                ),
            forall|k: int|
                0 <= k < out@.len() && j < b.len() ==> name_le(
                    #[trigger] names(out@)[k],
                    right[j as int],
                ),
            names(out@).to_multiset() == left.subrange(0, i as int).to_multiset().add(
                right.subrange(0, j as int).to_multiset(),
            ),
        decreases (a.len() - i) + (b.len() - j),
    {
        let ghost so_far = names(out@);
        let from_left = if i == a.len() {
            false
        } else if j == b.len() {
            true
        } else {
            name_before(a[i].as_str(), b[j].as_str())
        };
        if from_left {
            let item = a[i].clone();
            proof {
                let grown = so_far.push(item@);
                assert(names(out@.push(item)) == grown);
                assert(left.subrange(0, i + 1) == left.subrange(0, i as int).push(item@));
                assert(grown.to_multiset() =~= left.subrange(0, i + 1).to_multiset().add(
                    right.subrange(0, j as int).to_multiset(),
                ));
                assert forall|k: int| 0 <= k < grown.len() && i + 1 < a.len() implies name_le(
                    #[trigger] grown[k],
                    left[i + 1],
                ) by {
                    assert(name_le(left[i as int], left[i + 1]));
                    if k < so_far.len() {
                        lemma_bytes_le_transitive(
                            encode_utf8(so_far[k]),
                            encode_utf8(left[i as int]),
                            encode_utf8(left[i + 1]),
                        );
                    }
                }
            }
            out.push(item);
            i += 1;
        } else {
            let item = b[j].clone();
            proof {
                let grown = so_far.push(item@);
                assert(names(out@.push(item)) == grown);
                assert(right.subrange(0, j + 1) == right.subrange(0, j as int).push(item@));
                assert(grown.to_multiset() =~= left.subrange(0, i as int).to_multiset().add(
                    right.subrange(0, j + 1).to_multiset(),
                ));
                if i < a.len() {
                    lemma_bytes_le_total(encode_utf8(left[i as int]), encode_utf8(item@));
                }
                assert forall|k: int| 0 <= k < grown.len() && j + 1 < b.len() implies name_le(
                    #[trigger] grown[k],
                    right[j + 1],
                ) by {
                    assert(name_le(right[j as int], right[j + 1]));
                    if k < so_far.len() {
                        lemma_bytes_le_transitive(
                            encode_utf8(so_far[k]),
                            encode_utf8(right[j as int]),
                            encode_utf8(right[j + 1]),
                        );
                    }
                }
            }
            out.push(item);
            j += 1;
        }
    }
    proof {
        assert(left.subrange(0, i as int) == left);
        assert(right.subrange(0, j as int) == right);
    }
    out
}

/// The names of `list` in binary order.
pub fn sort_names(list: &Vec<String>) -> (sorted: Vec<String>)
    ensures
        is_sorted(names(sorted@)),
        names(sorted@).to_multiset() == names(list@).to_multiset(),
    decreases list@.len(),
{
    let length: usize = list.len();
    if length <= 1 {
        proof {
            assert(names(list@).subrange(0, length as int) == names(list@));
        }
        return copy_range(list, 0, length);
    }
    let middle: usize = length / 2;
    let left = copy_range(list, 0, middle);
    let right = copy_range(list, middle, length);
    proof {
        let all = names(list@);
        assert(all =~= all.subrange(0, middle as int) + all.subrange(
            middle as int,
            length as int,
        ));
        vstd::seq_lib::lemma_multiset_commutative(
            all.subrange(0, middle as int),
            all.subrange(middle as int, length as int),
        );
    }
    let left_sorted = sort_names(&left);
    let right_sorted = sort_names(&right);
    merge_names(&left_sorted, &right_sorted)
}

/// `listed` with the names of `mods` that it lacks, in their order.
pub open spec fn with_missing(listed: Seq<Name>, mods: Seq<Name>) -> Seq<Name>
    decreases mods.len(),
{
    if mods.len() == 0 {
        listed
    } else {
        push_new(with_missing(listed, mods.drop_last()), mods.last())
    }
}

/// The load order of the archives `mods` under a list file of these lines:
/// first the lines that name one of `mods`, in the order of the lines, then
/// the archives that no line names, in their order.
pub open spec fn arranged(mods: Seq<Name>, lines: Seq<Name>) -> Seq<Name> {
    with_missing(lines.filter(|line: Name| mods.contains(line)), mods)
}

/// Orders the archives `mods` by the lines of a list file.
pub fn arrange(mods: &Vec<String>, lines: &Vec<String>) -> (order: Vec<String>)
    ensures
        names(order@) == arranged(names(mods@), names(lines@)),
{
    let ghost found = names(mods@);
    let ghost named = |line: Name| found.contains(line);
    let mut order: Vec<String> = Vec::new();
    let mut i: usize = 0;
    proof {
        assert(names(lines@).subrange(0, 0).filter(named) == names(order@)) by {
            reveal(Seq::filter);
        }
    }
    while i < lines.len()
        invariant
            i <= lines.len(),
            found == names(mods@),
            named == |line: Name| found.contains(line),
            names(order@) == names(lines@).subrange(0, i as int).filter(named),
        decreases lines.len() - i,
    {
        proof {
            let done = names(lines@).subrange(0, i as int);
            assert(names(lines@).subrange(0, i + 1) == done.push(lines[i as int]@));
            done.lemma_filter_push(lines[i as int]@, named);
        }
        if contains_name(mods, &lines[i]) {
            let item = lines[i].clone();
            proof {
                assert(names(order@.push(item)) == names(order@).push(item@));
            }
            order.push(item);
        }
        i += 1;
    }
    let ghost listed = names(order@);
    let mut k: usize = 0;
    proof {
        assert(names(lines@).subrange(0, i as int) == names(lines@));
        assert(found.subrange(0, 0) =~= Seq::<Name>::empty());
    }
    while k < mods.len()
        invariant
            k <= mods.len(),
            found == names(mods@),
            names(order@) == with_missing(listed, found.subrange(0, k as int)),
        decreases mods.len() - k,
    {
        proof {
            let next = found.subrange(0, k + 1);
            assert(next.drop_last() == found.subrange(0, k as int));
            assert(next.last() == mods[k as int]@);
        }
        if !contains_name(&order, &mods[k]) {
            let item = mods[k].clone();
            proof {
                assert(names(order@.push(item)) == names(order@).push(item@));
            }
            order.push(item);
        }
        k += 1;
    }
    proof {
        assert(found.subrange(0, k as int) == found);
    }
    order
}

/// `list` is `found` in binary order.
pub open spec fn is_sorted_list_of(found: Seq<Name>, list: Seq<Name>) -> bool {
    is_sorted(list) && list.to_multiset() == found.to_multiset()
}

/// `order` is the load order of the archives `found`: they are put in
/// binary order, and where a list file was read they are arranged by its
/// lines.
pub open spec fn is_load_order_of(found: Seq<Name>, lines: Option<Seq<Name>>, order: Seq<Name>) -> bool {
    exists|mods: Seq<Name>| #[trigger]
        is_sorted_list_of(found, mods) && order == match lines {
            Some(lines) => arranged(mods, lines),
            None => mods,
        }
}

/// The load order of the archives `found`, where `lines` are the lines of
/// the list file, or `None` when there is none that can be read.
pub fn load_order_of(found: &Vec<String>, lines: Option<&Vec<String>>) -> (order: Vec<String>)
    ensures
        is_load_order_of(
            names(found@),
            match lines {
                Some(lines) => Some(names(lines@)),
                None => None,
            },
            names(order@),
        ),
{
    let mods = sort_names(found);
    assert(is_sorted_list_of(names(found@), names(mods@)));
    match lines {
        Some(lines) => arrange(&mods, lines),
        None => mods,
    }
}

/// What a folder holds under one name.
#[derive(Debug, Clone, PartialEq, Eq)]
pub struct FolderEntry {
    pub file_name: String,
    /// Whether the name leads to a folder
    pub is_dir: bool,
    /// Whether the entry itself is a file
    pub is_file: bool,
}

/// The place of the last dot of `name`.
pub open spec fn last_dot(name: Name) -> Option<int>
    decreases name.len(),
{
    if name.len() == 0 {
        None
    } else if name.last() == '.' {
        Some(name.len() - 1)
    } else {
        last_dot(name.drop_last())
    }
}

/// The extension of a file name: what stands behind its last dot. A name
/// without a dot has none, and neither has a name whose only dot is its
/// first character.
pub open spec fn extension(name: Name) -> Option<Name> {
    match last_dot(name) {
        Some(at) => if at > 0 {
            Some(name.subrange(at + 1, name.len() as int))
        } else {
            None
        },
        None => None,
    }
}

/// The extension of a file name.
pub fn extension_of(name: &str) -> (found: Option<String>)
    ensures
        match found {
            Some(ext) => extension(name@) == Some(ext@),
            None => extension(name@) is None,
        },
{
    let chars = chars_of(name);
    let mut end: usize = chars.len();
    proof {
        assert(name@.subrange(0, name@.len() as int) == name@);
    }
    while end > 0 && chars[end - 1] != '.'
        invariant
            end <= chars.len(),
            chars@ == name@,
            last_dot(name@) == last_dot(name@.subrange(0, end as int)),
        decreases end,
    {
        proof {
            let now = name@.subrange(0, end as int);
            assert(now.last() == name@[end - 1]);
            assert(now.drop_last() == name@.subrange(0, end - 1));
        }
        end -= 1;
    }
    proof {
        let now = name@.subrange(0, end as int);
        if end > 0 {
            assert(now.last() == name@[end - 1]);
        }
    }
    if end <= 1 {
        return None;
    }
    Some(string_of(&chars, end, chars.len()))
}

/// Whether a folder entry is a mod archive: no folder, with an extension
/// that holds `archive`.
pub open spec fn is_mod_archive(entry: FolderEntry) -> bool {
    !entry.is_dir && match extension(entry.file_name@) {
        Some(ext) => holds(ext, "archive"@),
        None => false,
    }
}

/// The names of the mod archives among `entries`, in the order of the
/// entries.
pub open spec fn mod_archives(entries: Seq<FolderEntry>) -> Seq<Name>
    decreases entries.len(),
{
    if entries.len() == 0 {
        Seq::empty()
    } else if is_mod_archive(entries.last()) {
        mod_archives(entries.drop_last()).push(entries.last().file_name@)
    } else {
        mod_archives(entries.drop_last())
    }
}

/// The names of the mod archives of a folder, in binary order.
pub fn gather_mods(entries: &Vec<FolderEntry>) -> (mods: Vec<String>)
    ensures
        is_sorted_list_of(mod_archives(entries@), names(mods@)),
{
    let pattern = chars_of("archive");
    let mut found: Vec<String> = Vec::new();
    let mut i: usize = 0;
    proof {
        assert(entries@.subrange(0, 0) =~= Seq::<FolderEntry>::empty());
    }
    while i < entries.len()
        invariant
            i <= entries.len(),
            pattern@ == "archive"@,
            names(found@) == mod_archives(entries@.subrange(0, i as int)),
        decreases entries.len() - i,
    {
        let entry = &entries[i];
        proof {
            let next = entries@.subrange(0, i + 1);
            assert(next.drop_last() == entries@.subrange(0, i as int));
            assert(next.last() == *entry);
        }
        if !entry.is_dir {
            if let Some(ext) = extension_of(entry.file_name.as_str()) {
                let chars = chars_of(ext.as_str());
                if find_from(&chars, &pattern, 0).is_some() {
                    let item = entry.file_name.clone();
                    proof {
                        assert(names(found@.push(item)) == names(found@).push(item@));
                    }
                    found.push(item);
                }
            }
        }
        i += 1;
    }
    proof {
        assert(entries@.subrange(0, i as int) == entries@);
    }
    sort_names(&found)
}

/// The names of the files among `entries` that have the extension `ext`,
/// in the order of the entries.
pub open spec fn files_with(entries: Seq<FolderEntry>, ext: Name) -> Seq<Name>
    decreases entries.len(),
{
    if entries.len() == 0 {
        Seq::empty()
    } else if entries.last().is_file && extension(entries.last().file_name@) == Some(ext) {
        files_with(entries.drop_last(), ext).push(entries.last().file_name@)
    } else {
        files_with(entries.drop_last(), ext)
    }
}

/// The names of the files of a folder that have the extension `ext`.
pub fn get_files(entries: &Vec<FolderEntry>, ext: &String) -> (files: Vec<String>)
    ensures
        names(files@) == files_with(entries@, ext@),
{
    let mut files: Vec<String> = Vec::new();
    let mut i: usize = 0;
    proof {
        assert(entries@.subrange(0, 0) =~= Seq::<FolderEntry>::empty());
    }
    while i < entries.len()
        invariant
            i <= entries.len(),
            names(files@) == files_with(entries@.subrange(0, i as int), ext@),
        decreases entries.len() - i,
    {
        let entry = &entries[i];
        proof {
            let next = entries@.subrange(0, i + 1);
            assert(next.drop_last() == entries@.subrange(0, i as int));
            assert(next.last() == *entry);
        }
        if entry.is_file {
            if let Some(found) = extension_of(entry.file_name.as_str()) {
                if found == *ext {
                    let item = entry.file_name.clone();
                    proof {
                        assert(names(files@.push(item)) == names(files@).push(item@));
                    }
                    files.push(item);
                }
            }
        }
        i += 1;
    }
    proof {
        assert(entries@.subrange(0, i as int) == entries@);
    }
    files
}

/// The text of a list file: every line with a carriage return and a line
/// feed behind it.
pub open spec fn written(lines: Seq<Name>) -> Seq<char>
    decreases lines.len(),
{
    if lines.len() == 0 {
        Seq::empty()
    } else {
        written(lines.drop_last()) + lines.last() + seq!['\r', '\n']
    }
}

/// Writes a load order as the text of a list file.
pub fn write_lines(lines: &Vec<String>) -> (text: String)
    ensures
        text@ == written(names(lines@)),
{
    let mut text = String::new();
    let mut i: usize = 0;
    proof {
        assert(names(lines@).subrange(0, 0) =~= Seq::<Name>::empty());
    }
    while i < lines.len()
        invariant
            i <= lines.len(),
            text@ == written(names(lines@).subrange(0, i as int)),
        decreases lines.len() - i,
    {
        proof {
            let next = names(lines@).subrange(0, i + 1);
            assert(next.drop_last() == names(lines@).subrange(0, i as int));
            assert(next.last() == lines[i as int]@);
            reveal_strlit("\r\n");
            assert("\r\n"@ == seq!['\r', '\n']);
        }
        text.append(lines[i].as_str());
        text.append("\r\n");
        i += 1;
    }
    proof {
        assert(names(lines@).subrange(0, i as int) == names(lines@));
    }
    text
}

} // verus!
