//! What changed between two versions of the game files, and which mod
//! archives hold files that changed.

use vstd::prelude::*;
use vstd::std_specs::iter::IteratorSpec;
use std::collections::HashMap;
use crate::archive::{in_hash_order, lists_hash, Archive, FileEntry};
use crate::rules::Name;
use crate::text::{decimal, hex_of, starts_with, to_decimal, to_hex};

verus! {

broadcast use vstd::std_specs::hash::group_hash_axioms;

/// A file of an archive.
#[derive(Debug, Default, Clone)]
pub struct FileInfo {
    /// The hash of the content of the file
    pub hash: u64,
    /// The name of the file, or its hash where the name is not known
    pub name: String,
    /// The name of the archive that holds the file
    pub archive_name: String,
    /// The digest of the file, in hexadecimal digits
    pub sha1: String,
}

/// The files that one set of files has and another has not, or has with
/// another digest.
#[derive(Debug, Default)]
pub struct Diff {
    pub deleted: HashMap<u64, FileInfo>,
    pub added: HashMap<u64, FileInfo>,
    pub changed: HashMap<u64, FileInfo>,
}

/// The keys of a map, in no certain order.
pub fn keys_of(m: &HashMap<u64, FileInfo>) -> (keys: Vec<u64>)
    ensures
        keys@.no_duplicates(),
        forall|k: u64| keys@.contains(k) <==> m@.contains_key(k),
{
    let mut out: Vec<u64> = Vec::new();
    let all_keys = m.keys();
    let ghost all = all_keys.remaining();
    for k in it: all_keys
        invariant
            it.seq() == all,
            out@ == it.seq().unref().subrange(0, it.index() as int),
    {
        out.push(*k);
    }
    proof {
        assert(out@ == all.unref());
        assert forall|i: int, j: int|
            0 <= i < all.len() && 0 <= j < all.len() && i != j implies all.unref()[i]
            != all.unref()[j] by {
            assert(all[i] != all[j]);
        }
        assert forall|k: u64| out@.contains(k) <==> m@.contains_key(k) by {
            assert(all.unref().to_set().contains(k) <==> m@.dom().contains(k));
        }
    }
    out
}

/// A copy of `info`.
pub fn copy_info(info: &FileInfo) -> (copy: FileInfo)
    ensures
        copy == *info,
{
    FileInfo {
        hash: info.hash,
        name: info.name.clone(),
        archive_name: info.archive_name.clone(),
        sha1: info.sha1.clone(),
    }
}

/// The files of `old` that `new` has not.
pub open spec fn only_in(old: Map<u64, FileInfo>, new: Map<u64, FileInfo>) -> Map<u64, FileInfo> {
    Map::new(|k: u64| old.contains_key(k) && !new.contains_key(k), |k: u64| old[k])
}

/// The files of `old` that `new` has with another digest.
pub open spec fn changed_in(old: Map<u64, FileInfo>, new: Map<u64, FileInfo>) -> Map<u64, FileInfo> {
    Map::new(
        |k: u64| old.contains_key(k) && new.contains_key(k) && old[k].sha1@ != new[k].sha1@,
        |k: u64| old[k],
    )
}

/// Every file stands under its own hash.
pub open spec fn by_own_hash(files: Map<u64, FileInfo>) -> bool {
    forall|k: u64| files.contains_key(k) ==> (#[trigger] files[k]).hash == k
}

/// The files of `from` that `keep` says to keep.
fn select(
    from: &HashMap<u64, FileInfo>,
    other: &HashMap<u64, FileInfo>,
    changed: bool,
) -> (chosen: HashMap<u64, FileInfo>)
    requires
        by_own_hash(from@),
    ensures
        chosen@ == if changed {
            changed_in(from@, other@)
        } else {
            only_in(from@, other@)
        },
{
    let mut chosen: HashMap<u64, FileInfo> = HashMap::new();
    let keys = keys_of(from);
    let ghost wanted = if changed {
        changed_in(from@, other@)
    } else {
        only_in(from@, other@)
    };
    let mut i: usize = 0;
    while i < keys.len()
        invariant
            i <= keys.len(),
            by_own_hash(from@),
            wanted == if changed {
                changed_in(from@, other@)
            } else {
                only_in(from@, other@)
            },
            forall|k: u64| keys@.contains(k) <==> from@.contains_key(k),
            forall|k: u64| #[trigger]
                chosen@.contains_key(k) <==> keys@.subrange(0, i as int).contains(k)
                    && wanted.contains_key(k),
            forall|k: u64| #[trigger] chosen@.contains_key(k) ==> chosen@[k] == from@[k],
        decreases keys.len() - i,
    {
        let key: u64 = keys[i];
        let ghost done = keys@.subrange(0, i as int);
        let ghost next = keys@.subrange(0, i + 1);
        proof {
            assert(keys@.contains(key)) by {
                assert(keys@[i as int] == key);
            }
            assert(next == done.push(key));
            assert forall|x: u64| next.contains(x) <==> done.contains(x) || x == key by {
                if done.contains(x) {
                    let j = choose|j: int| 0 <= j < done.len() && done[j] == x;
                    assert(next[j] == x);
                }
                if next.contains(x) {
                    let j = choose|j: int| 0 <= j < next.len() && next[j] == x;
                    if j < done.len() {
                        assert(done[j] == x);
                    }
                }
                assert(next[i as int] == key);
            }
        }
        if let Some(info) = from.get(&key) {
            let keep = match other.get(&key) {
                Some(twin) => changed && info.sha1 != twin.sha1,
                None => !changed,
            };
            if keep {
                chosen.insert(info.hash, copy_info(info));
            }
        }
        i += 1;
    }
    proof {
        assert(keys@.subrange(0, i as int) == keys@);
        assert(chosen@ =~= wanted);
    }
    chosen
}

/// What changed from the files `old_files` to the files `new_files`: the
/// files that are gone, the files that are new, and the files that have
/// another digest, as `old_files` has them.
pub fn generate_diff(
    old_files: &HashMap<u64, FileInfo>,
    new_files: &HashMap<u64, FileInfo>,
) -> (diff: Diff)
    requires
        by_own_hash(old_files@),
        by_own_hash(new_files@),
    ensures
        diff.deleted@ == only_in(old_files@, new_files@),
        diff.added@ == only_in(new_files@, old_files@),
        diff.changed@ == changed_in(old_files@, new_files@),
{
    Diff {
        deleted: select(old_files, new_files, false),
        added: select(new_files, old_files, false),
        changed: select(old_files, new_files, true),
    }
}

/// Whether every file stands under its own hash.
pub fn is_by_own_hash(files: &HashMap<u64, FileInfo>) -> (sound: bool)
    ensures
        sound == by_own_hash(files@),
{
    let keys = keys_of(files);
    let mut i: usize = 0;
    while i < keys.len()
        invariant
            i <= keys.len(),
            forall|k: u64| keys@.contains(k) <==> files@.contains_key(k),
            forall|j: int| 0 <= j < i ==> (#[trigger] files@[keys@[j]]).hash == keys@[j],
        decreases keys.len() - i,
    {
        proof {
            assert(keys@.contains(keys@[i as int]));
        }
        if let Some(info) = files.get(&keys[i]) {
            if info.hash != keys[i] {
                return false;
            }
        }
        i += 1;
    }
    proof {
        assert forall|k: u64| files@.contains_key(k) implies (#[trigger] files@[k]).hash == k by {
            assert(keys@.contains(k));
            let j = choose|j: int| 0 <= j < keys@.len() && keys@[j] == k;
            assert(files@[keys@[j]].hash == keys@[j]);
        }
    }
    true
}

/// The files of `checked` that stand in the archive `archive` and in
/// `listed`.
pub open spec fn hits(
    checked: Map<u64, FileInfo>,
    listed: Map<u64, FileInfo>,
    archive: Name,
) -> Map<u64, FileInfo> {
    Map::new(
        |k: u64|
            checked.contains_key(k) && checked[k].archive_name@ == archive && listed.contains_key(
                k,
            ),
        |k: u64| checked[k],
    )
}

/// Whether a file of `checked` stands in the archive of this name.
pub open spec fn has_archive(checked: Map<u64, FileInfo>, archive: Name) -> bool {
    exists|k: u64| checked.contains_key(k) && (#[trigger] checked[k]).archive_name@ == archive
}

/// `report` tells, for every archive that holds a file of `checked`, which
/// of its files `diff` lists as deleted, added or changed. Every archive
/// stands in it once.
pub open spec fn is_report(
    report: Seq<(String, Diff)>,
    diff: Diff,
    checked: Map<u64, FileInfo>,
) -> bool {
    &&& forall|i: int, j: int|
        0 <= i < j < report.len() ==> (#[trigger] report[i]).0@ != (#[trigger] report[j]).0@
    &&& forall|archive: Name|
        has_archive(checked, archive) <==> exists|i: int|
            0 <= i < report.len() && (#[trigger] report[i]).0@ == archive
    &&& forall|i: int|
        0 <= i < report.len() ==> {
            let name = (#[trigger] report[i]).0@;
            &&& report[i].1.deleted@ == hits(checked, diff.deleted@, name)
            &&& report[i].1.added@ == hits(checked, diff.added@, name)
            &&& report[i].1.changed@ == hits(checked, diff.changed@, name)
        }
}

/// The hits among the files whose hashes are in `done`.
spec fn hits_among(
    checked: Map<u64, FileInfo>,
    listed: Map<u64, FileInfo>,
    archive: Name,
    done: Seq<u64>,
) -> Map<u64, FileInfo> {
    Map::new(
        |k: u64|
            done.contains(k) && checked.contains_key(k) && checked[k].archive_name@ == archive
                && listed.contains_key(k),
        |k: u64| checked[k],
    )
}

/// Whether a file with a hash of `done` stands in the archive.
spec fn has_archive_among(checked: Map<u64, FileInfo>, archive: Name, done: Seq<u64>) -> bool {
    exists|j: int|
        0 <= j < done.len() && checked.contains_key(#[trigger] done[j])
            && checked[done[j]].archive_name@ == archive
}

/// The report so far.
spec fn is_report_among(
    report: Seq<(String, Diff)>,
    diff: Diff,
    checked: Map<u64, FileInfo>,
    done: Seq<u64>,
) -> bool {
    &&& forall|i: int, j: int|
        0 <= i < j < report.len() ==> (#[trigger] report[i]).0@ != (#[trigger] report[j]).0@
    &&& forall|i: int|
        0 <= i < report.len() ==> has_archive_among(checked, (#[trigger] report[i]).0@, done)
    &&& forall|j: int|
        0 <= j < done.len() && checked.contains_key(#[trigger] done[j]) ==> exists|i: int|
            0 <= i < report.len() && (#[trigger] report[i]).0@ == checked[done[j]].archive_name@
    &&& forall|i: int|
        0 <= i < report.len() ==> {
            let name = (#[trigger] report[i]).0@;
            &&& report[i].1.deleted@ == hits_among(checked, diff.deleted@, name, done)
            &&& report[i].1.added@ == hits_among(checked, diff.added@, name, done)
            &&& report[i].1.changed@ == hits_among(checked, diff.changed@, name, done)
        }
}

/// The place of the archive `name` in the report.
fn find_archive(report: &Vec<(String, Diff)>, name: &String) -> (found: Option<usize>)
    ensures
        found matches Some(i) ==> i < report.len() && report[i as int].0@ == name@,
        found is None ==> forall|i: int| 0 <= i < report.len() ==> (#[trigger] report[i]).0@
            != name@,
{
    let mut i: usize = 0;
    while i < report.len()
        invariant
            i <= report.len(),
            forall|k: int| 0 <= k < i ==> (#[trigger] report[k]).0@ != name@,
        decreases report.len() - i,
    {
        if report[i].0 == *name {
            return Some(i);
        }
        i += 1;
    }
    None
}

/// Tells for every archive that holds a file of `checked` which of its
/// files `diff` lists.
pub fn report_for(diff: &Diff, checked: &HashMap<u64, FileInfo>) -> (report: Vec<(String, Diff)>)
    ensures
        is_report(report@, *diff, checked@),
{
    let mut report: Vec<(String, Diff)> = Vec::new();
    let keys = keys_of(checked);
    let mut i: usize = 0;
    proof {
        assert forall|name: Name|
            hits_among(checked@, diff.deleted@, name, keys@.subrange(0, 0)) =~= Map::<
                u64,
                FileInfo,
            >::empty() by {}
    }
    while i < keys.len()
        invariant
            i <= keys.len(),
            keys@.no_duplicates(),
            forall|k: u64| keys@.contains(k) <==> checked@.contains_key(k),
            is_report_among(report@, *diff, checked@, keys@.subrange(0, i as int)),
        decreases keys.len() - i,
    {
        let key: u64 = keys[i];
        let ghost done = keys@.subrange(0, i as int);
        let ghost next = keys@.subrange(0, i + 1);
        let ghost before = report@;
        proof {
            assert(keys@.contains(key)) by {
                assert(keys@[i as int] == key);
            }
            assert(next == done.push(key));
            assert forall|x: u64| next.contains(x) <==> done.contains(x) || x == key by {
                if done.contains(x) {
                    let j = choose|j: int| 0 <= j < done.len() && done[j] == x;
                    assert(next[j] == x);
                }
                if next.contains(x) {
                    let j = choose|j: int| 0 <= j < next.len() && next[j] == x;
                    if j < done.len() {
                        assert(done[j] == x);
                    }
                }
                assert(next[i as int] == key);
            }
            assert(!done.contains(key)) by {
                if done.contains(key) {
                    let j = choose|j: int| 0 <= j < done.len() && done[j] == key;
                    assert(keys@[j] == key && keys@[i as int] == key);
                }
            }
        }
        if let Some(info) = checked.get(&key) {
            let ghost archive = info.archive_name@;
            let at: usize = match find_archive(&report, &info.archive_name) {
                Some(at) => at,
                None => {
                    let fresh = Diff {
                        deleted: HashMap::new(),
                        added: HashMap::new(),
                        changed: HashMap::new(),
                    };
                    report.push((info.archive_name.clone(), fresh));
                    report.len() - 1
                },
            };
            let ghost listed = report@;
            proof {
                assert(listed[at as int].0@ == archive);
                assert forall|k: int| 0 <= k < before.len() implies listed[k] == #[trigger] before[k] by {}
                if before.len() < listed.len() {
                    assert(listed[at as int].1.deleted@ =~= hits_among(
                        checked@,
                        diff.deleted@,
                        archive,
                        done,
                    )) by {
                        assert forall|k: u64|
                            !hits_among(checked@, diff.deleted@, archive, done).contains_key(k) by {
                            if done.contains(k) && checked@.contains_key(k)
                                && checked@[k].archive_name@ == archive {
                                let j = choose|j: int| 0 <= j < done.len() && done[j] == k;
                                assert(checked@.contains_key(done[j]));
                            }
                        }
                    }
                    assert(listed[at as int].1.added@ =~= hits_among(
                        checked@,
                        diff.added@,
                        archive,
                        done,
                    )) by {
                        assert forall|k: u64|
                            !hits_among(checked@, diff.added@, archive, done).contains_key(k) by {
                            if done.contains(k) && checked@.contains_key(k)
                                && checked@[k].archive_name@ == archive {
                                let j = choose|j: int| 0 <= j < done.len() && done[j] == k;
                                assert(checked@.contains_key(done[j]));
                            }
                        }
                    }
                    assert(listed[at as int].1.changed@ =~= hits_among(
                        checked@,
                        diff.changed@,
                        archive,
                        done,
                    )) by {
                        assert forall|k: u64|
                            !hits_among(checked@, diff.changed@, archive, done).contains_key(k) by {
                            if done.contains(k) && checked@.contains_key(k)
                                && checked@[k].archive_name@ == archive {
                                let j = choose|j: int| 0 <= j < done.len() && done[j] == k;
                                assert(checked@.contains_key(done[j]));
                            }
                        }
                    }
                }
            }
            if diff.deleted.contains_key(&key) {
                report[at].1.deleted.insert(key, copy_info(info));
            }
            if diff.added.contains_key(&key) {
                report[at].1.added.insert(key, copy_info(info));
            }
            if diff.changed.contains_key(&key) {
                report[at].1.changed.insert(key, copy_info(info));
            }
            proof {
                let now = report@;
                assert(now.len() == listed.len());
                assert(now[at as int].0 == listed[at as int].0);
                assert forall|k: int| 0 <= k < now.len() && k != at implies now[k]
                    == #[trigger] listed[k] by {}
                assert forall|k: int| 0 <= k < now.len() implies (#[trigger] now[k]).0
                    == listed[k].0 by {}
                assert forall|k: int| 0 <= k < now.len() implies has_archive_among(
                    checked@,
                    (#[trigger] now[k]).0@,
                    next,
                ) by {
                    if k < before.len() {
                        assert(has_archive_among(checked@, before[k].0@, done));
                        let j = choose|j: int|
                            0 <= j < done.len() && checked@.contains_key(#[trigger] done[j])
                                && checked@[done[j]].archive_name@ == before[k].0@;
                        assert(next[j] == done[j]);
                    } else {
                        assert(next[i as int] == key);
                    }
                }
                assert forall|j: int|
                    0 <= j < next.len() && checked@.contains_key(
                        #[trigger] next[j],
                    ) implies exists|k: int|
                    0 <= k < now.len() && (#[trigger] now[k]).0@
                        == checked@[next[j]].archive_name@ by {
                    if j < done.len() {
                        assert(done[j] == next[j]);
                        let k = choose|k: int|
                            0 <= k < before.len() && (#[trigger] before[k]).0@
                                == checked@[done[j]].archive_name@;
                        assert(now[k].0@ == checked@[next[j]].archive_name@);
                    } else {
                        assert(now[at as int].0@ == archive);
                    }
                }
                assert forall|k: int| 0 <= k < now.len() implies {
                    let name = (#[trigger] now[k]).0@;
                    &&& now[k].1.deleted@ == hits_among(checked@, diff.deleted@, name, next)
                    &&& now[k].1.added@ == hits_among(checked@, diff.added@, name, next)
                    &&& now[k].1.changed@ == hits_among(checked@, diff.changed@, name, next)
                } by {
                    let name = now[k].0@;
                    if k != at {
                        assert(name != archive);
                        assert(now[k].1 == before[k].1);
                    }
                    assert(now[k].1.deleted@ =~= hits_among(checked@, diff.deleted@, name, next));
                    assert(now[k].1.added@ =~= hits_among(checked@, diff.added@, name, next));
                    assert(now[k].1.changed@ =~= hits_among(checked@, diff.changed@, name, next));
                }
                assert forall|a: int, b: int| 0 <= a < b < now.len() implies (#[trigger] now[a]).0@
                    != (#[trigger] now[b]).0@ by {
                    if b < before.len() {
                        assert(before[a].0@ != before[b].0@);
                    }
                }
            }
        }
        i += 1;
    }
    proof {
        let all = keys@;
        assert(keys@.subrange(0, i as int) == all);
        assert forall|archive: Name| has_archive(checked@, archive) <==> exists|k: int|
            0 <= k < report@.len() && (#[trigger] report@[k]).0@ == archive by {
            if has_archive(checked@, archive) {
                let h = choose|h: u64|
                    checked@.contains_key(h) && (#[trigger] checked@[h]).archive_name@ == archive;
                assert(all.contains(h));
                let j = choose|j: int| 0 <= j < all.len() && all[j] == h;
                assert(checked@.contains_key(all[j]));
            }
            if exists|k: int| 0 <= k < report@.len() && (#[trigger] report@[k]).0@ == archive {
                let k = choose|k: int|
                    0 <= k < report@.len() && (#[trigger] report@[k]).0@ == archive;
                assert(has_archive_among(checked@, report@[k].0@, all));
                let j = choose|j: int|
                    0 <= j < all.len() && checked@.contains_key(#[trigger] all[j])
                        && checked@[all[j]].archive_name@ == archive;
                assert(checked@.contains_key(all[j]) && checked@[all[j]].archive_name@ == archive);
            }
        }
        assert forall|k: int| 0 <= k < report@.len() implies {
            let name = (#[trigger] report@[k]).0@;
            &&& report@[k].1.deleted@ == hits(checked@, diff.deleted@, name)
            &&& report@[k].1.added@ == hits(checked@, diff.added@, name)
            &&& report@[k].1.changed@ == hits(checked@, diff.changed@, name)
        } by {
            let name = report@[k].0@;
            assert(hits_among(checked@, diff.deleted@, name, all) =~= hits(
                checked@,
                diff.deleted@,
                name,
            ));
            assert(hits_among(checked@, diff.added@, name, all) =~= hits(
                checked@,
                diff.added@,
                name,
            ));
            assert(hits_among(checked@, diff.changed@, name, all) =~= hits(
                checked@,
                diff.changed@,
                name,
            ));
        }
    }
    report
}

/// Whether an archive of this file name holds content: the archives whose
/// names begin with `lang_` hold the texts of one language.
pub fn is_content_archive(file_name: &str) -> (content: bool)
    ensures
        content == !"lang_"@.is_prefix_of(file_name@),
{
    !starts_with(file_name, "lang_")
}

/// What is known of the file `entry` of the archive `archive_name`: its
/// name out of `hash_names`, or its hash in decimal digits where that has
/// no name for it, and its digest in hexadecimal digits.
pub open spec fn info_of(entry: FileEntry, archive_name: Name, hash_names: Map<u64, String>, info: FileInfo) -> bool {
    &&& info.hash == entry.name_hash_64
    &&& info.name@ == if hash_names.contains_key(entry.name_hash_64) {
        hash_names[entry.name_hash_64]@
    } else {
        decimal(entry.name_hash_64 as nat)
    }
    &&& info.archive_name@ == archive_name
    &&& info.sha1@ == hex_of(entry.sha1_hash@)
}

/// Notes the files of an archive in `file_map`, each under its hash.
///
/// `archive_name` is the name of the archive as the files shall carry it.
pub fn get_info(
    archive: &Archive,
    archive_name: &String,
    file_map: &mut HashMap<u64, FileInfo>,
    hash_names: &HashMap<u64, String>,
)
    requires
        in_hash_order(archive.index.file_entries@),
    ensures
        forall|h: u64|
            final(file_map)@.contains_key(h) <==> old(file_map)@.contains_key(h) || lists_hash(
                archive.index.file_entries@,
                h,
            ),
        forall|h: u64|
            old(file_map)@.contains_key(h) && !lists_hash(archive.index.file_entries@, h)
                ==> final(file_map)@[h] == old(file_map)@[h],
        forall|i: int|
            0 <= i < archive.index.file_entries@.len() ==> info_of(
                #[trigger] archive.index.file_entries@[i],
                archive_name@,
                hash_names@,
                final(file_map)@[archive.index.file_entries@[i].name_hash_64],
            ),
        by_own_hash(old(file_map)@) ==> by_own_hash(final(file_map)@),
{
    let ghost entries = archive.index.file_entries@;
    let mut i: usize = 0;
    while i < archive.index.file_entries.len()
        invariant
            i <= archive.index.file_entries.len(),
            entries == archive.index.file_entries@,
            in_hash_order(entries),
            forall|h: u64|
                file_map@.contains_key(h) <==> old(file_map)@.contains_key(h) || lists_hash(
                    entries.subrange(0, i as int),
                    h,
                ),
            forall|h: u64|
                old(file_map)@.contains_key(h) && !lists_hash(entries.subrange(0, i as int), h)
                    ==> file_map@[h] == old(file_map)@[h],
            forall|k: int|
                0 <= k < i ==> info_of(
                    #[trigger] entries[k],
                    archive_name@,
                    hash_names@,
                    file_map@[entries[k].name_hash_64],
                ),
            by_own_hash(old(file_map)@) ==> by_own_hash(file_map@),
        decreases archive.index.file_entries.len() - i,
    {
        let entry = &archive.index.file_entries[i];
        let hash: u64 = entry.name_hash_64;
        let ghost done = entries.subrange(0, i as int);
        let ghost next = entries.subrange(0, i + 1);
        let ghost before = file_map@;
        proof {
            assert forall|h: u64| lists_hash(next, h) <==> lists_hash(done, h) || h == hash by {
                if lists_hash(done, h) {
                    let k = choose|k: int| 0 <= k < done.len() && (#[trigger] done[k]).name_hash_64 == h;
                    assert(next[k].name_hash_64 == h);
                }
                if lists_hash(next, h) {
                    let k = choose|k: int| 0 <= k < next.len() && (#[trigger] next[k]).name_hash_64 == h;
                    if k < done.len() {
                        assert(done[k].name_hash_64 == h);
                    }
                }
                assert(next[i as int].name_hash_64 == hash);
            }
        }
        let name = match hash_names.get(&hash) {
            Some(resolved) => resolved.clone(),
            None => to_decimal(hash),
        };
        let info = FileInfo {
            hash,
            name,
            archive_name: archive_name.clone(),
            sha1: to_hex(&entry.sha1_hash),
        };
        file_map.insert(hash, info);
        proof {
            assert forall|k: int| 0 <= k < i + 1 implies info_of(
                #[trigger] entries[k],
                archive_name@,
                hash_names@,
                file_map@[entries[k].name_hash_64],
            ) by {
                if k < i {
                    assert(entries[k].name_hash_64 != entries[i as int].name_hash_64);
                    assert(file_map@[entries[k].name_hash_64] == before[entries[k].name_hash_64]);
                }
            }
        }
        i += 1;
    }
    proof {
        assert(entries.subrange(0, i as int) == entries);
    }
}

/// Whether a diff lists no file.
pub fn is_empty_diff(diff: &Diff) -> (empty: bool)
    ensures
        empty == (diff.deleted@.len() + diff.added@.len() + diff.changed@.len() == 0),
{
    diff.deleted.len() == 0 && diff.added.len() == 0 && diff.changed.len() == 0
}

} // verus!
