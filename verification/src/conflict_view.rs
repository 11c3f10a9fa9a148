//! The state of the conflict view: the load order it shows, and the
//! conflicts that belong to it.

use vstd::prelude::*;
use vstd::string::StringSliceAdditionalSpecFns;
use vstd::utf8::encode_utf8;
use std::collections::HashMap;
use crate::archive::{entry_map, hashes_of, in_hash_order, lemma_hashes_rise, Archive};
use crate::conflicts::{copy_hashes, is_resolution, neutral, resolve, ArchiveViewModel};
use crate::hash::{fnv1a64, hash_path};
use crate::load_order::{
    files_with, get_files, is_load_order_of, load_order_of, write_lines, written, FolderEntry,
};
use crate::rules::Name;
use crate::text::{copy_names, decimal, lines_of, names, same_names, split_lines, to_decimal};

verus! {

/// How the archives that share a file are shown.
#[derive(Debug, Clone, Copy, PartialEq, Eq, Structural)]
pub enum ETooltipVisuals {
    Tooltip,
    Inline,
    Collapsing,
}

impl Default for ETooltipVisuals {
    fn default() -> (visuals: ETooltipVisuals)
        ensures
            visuals == ETooltipVisuals::Collapsing,
    {
        ETooltipVisuals::Collapsing
    }
}

/// What has to be done before the conflicts can be shown.
#[derive(Debug, Clone, Copy, PartialEq, Eq, Structural)]
pub enum Refresh {
    /// The conflicts belong to the load order as it is.
    UpToDate,
    /// The load order has changed: the conflicts have to be resolved again,
    /// and the load order has to be written.
    Resolve,
    /// Nothing was loaded yet: the load order has to be read first.
    Reload,
}

/// The conflict view.
pub struct TemplateApp {
    /// The folder of the archives
    pub game_path: String,
    pub show_no_conflicts: bool,
    /// How conflicts are shown
    pub tooltips_visuals: ETooltipVisuals,
    /// Whether the load order is kept in a list file
    pub enable_modlist: bool,
    /// The names of files by their hashes
    pub hashes: HashMap<u64, String>,
    /// The archives by their identities
    pub archives: HashMap<u64, ArchiveViewModel>,
    /// The archives that share a file, by the hash of the file
    pub conflicts: HashMap<u64, Vec<u64>>,
    /// The file names of the archives, in load order
    pub load_order: Vec<String>,
    /// The load order that the conflicts belong to
    pub last_load_order: Option<Vec<String>>,
    pub text_filter: String,
    pub file_filter: String,
}

impl Default for TemplateApp {
    fn default() -> (app: TemplateApp)
        ensures
            app.load_order@.len() == 0,
            app.last_load_order is None,
            app.archives@ == Map::<u64, ArchiveViewModel>::empty(),
            app.conflicts@ == Map::<u64, Vec<u64>>::empty(),
            !app.enable_modlist,
            !app.show_no_conflicts,
            app.tooltips_visuals == ETooltipVisuals::Collapsing,
    {
        TemplateApp {
            game_path: String::new(),
            show_no_conflicts: false,
            tooltips_visuals: ETooltipVisuals::Collapsing,
            enable_modlist: false,
            hashes: HashMap::new(),
            archives: HashMap::new(),
            conflicts: HashMap::new(),
            load_order: Vec::new(),
            last_load_order: None,
            text_filter: String::new(),
            file_filter: String::new(),
        }
    }
}

/// The identities of the archives at these paths: for each path the
/// FNV-1a hash of its UTF-8 bytes.
pub open spec fn path_ids(paths: Seq<Name>) -> Seq<u64> {
    paths.map_values(|path: Name| fnv1a64(encode_utf8(path)))
}

/// The identities of the archives at these paths.
pub fn hash_paths(paths: &Vec<String>) -> (ids: Vec<u64>)
    ensures
        ids@ == path_ids(names(paths@)),
{
    let mut ids: Vec<u64> = Vec::new();
    let mut i: usize = 0;
    while i < paths.len()
        invariant
            i <= paths.len(),
            ids@ == path_ids(names(paths@)).subrange(0, i as int),
        decreases paths.len() - i,
    {
        let id: u64 = hash_path(paths[i].as_str());
        proof {
            let all = path_ids(names(paths@));
            assert(all[i as int] == id);
            assert(all.subrange(0, i + 1) == all.subrange(0, i as int).push(id));
        }
        ids.push(id);
        i += 1;
    }
    proof {
        let all = path_ids(names(paths@));
        assert(all.subrange(0, i as int) == all);
    }
    ids
}

/// Each hash is below the hashes behind it.
pub open spec fn is_rising(list: Seq<u64>) -> bool {
    forall|i: int, j: int| 0 <= i < j < list.len() ==> list[i] < list[j]
}

/// Whether each hash of `list` is below the hashes behind it. A list that
/// rises holds no hash twice.
pub fn rises(list: &Vec<u64>) -> (rising: bool)
    ensures
        rising == is_rising(list@),
        rising ==> list@.no_duplicates(),
{
    let mut i: usize = 1;
    while i < list.len()
        invariant
            1 <= i,
            forall|a: int, b: int| 0 <= a < b < i && b < list@.len() ==> list@[a] < list@[b],
        decreases list.len() - i,
    {
        if list[i - 1] >= list[i] {
            return false;
        }
        proof {
            assert forall|a: int, b: int| 0 <= a < b < i + 1 && b < list@.len() implies list@[a]
                < list@[b] by {
                if b == i && a < i - 1 {
                    assert(list@[a] < list@[i - 1]);
                }
            }
        }
        i += 1;
    }
    true
}

/// The archive `archive` of the file `file_name` as the conflicts take it:
/// with the content hashes of its files, and no wins and loses yet. For an
/// archive that was read the hashes rise: they are the hashes that the
/// index maps to an entry, sorted, each once.
pub fn scanned_archive(file_name: String, archive: &Archive) -> (scanned: ArchiveViewModel)
    ensures
        scanned.file_name == file_name,
        scanned.files@ == hashes_of(archive.index.file_entries@),
        scanned.wins@.len() == 0,
        scanned.loses@.len() == 0,
        in_hash_order(archive.index.file_entries@) ==> {
            &&& is_rising(scanned.files@)
            &&& scanned.files@.no_duplicates()
            &&& forall|h: u64|
                scanned.files@.contains(h) <==> entry_map(
                    archive.index.file_entries@,
                ).contains_key(h)
        },
{
    proof {
        if in_hash_order(archive.index.file_entries@) {
            lemma_hashes_rise(archive.index.file_entries@);
        }
    }
    ArchiveViewModel {
        file_name,
        wins: Vec::new(),
        loses: Vec::new(),
        files: archive.content_hashes(),
    }
}

/// The elements of `list` that are not `key`.
pub open spec fn without(list: Seq<u64>, key: u64) -> Seq<u64>
    decreases list.len(),
{
    if list.len() == 0 {
        Seq::empty()
    } else if list.last() == key {
        without(list.drop_last(), key)
    } else {
        without(list.drop_last(), key).push(list.last())
    }
}

/// The elements of `list` behind the first `key`, without any `key`.
pub open spec fn after_first(list: Seq<u64>, key: u64) -> Seq<u64>
    decreases list.len(),
{
    if list.len() == 0 {
        Seq::empty()
    } else if list[0] == key {
        without(list.drop_first(), key)
    } else {
        after_first(list.drop_first(), key)
    }
}

/// The archives to show beside `key` under a file that `key` wins or loses.
///
/// `archives` are the archives that hold the file, in the order of the
/// conflict map. For a file that `key` wins these are the archives before
/// `key`, the nearest first. For a file that it loses they are the
/// archives behind `key`, the farthest first.
pub open spec fn shown_beside(winning: bool, archives: Seq<u64>, key: u64) -> Seq<u64> {
    if winning {
        after_first(archives.reverse(), key)
    } else {
        after_first(archives, key).reverse()
    }
}

/// `list` from its last element to its first.
pub fn reversed(list: &[u64]) -> (back: Vec<u64>)
    ensures
        back@ == list@.reverse(),
{
    let mut back: Vec<u64> = Vec::new();
    let mut i: usize = list.len();
    while i > 0
        invariant
            i <= list.len(),
            back.len() == list.len() - i,
            forall|k: int| 0 <= k < back.len() ==> back[k] == list[list.len() - 1 - k],
        decreases i,
    {
        i -= 1;
        back.push(list[i]);
    }
    proof {
        assert(back@ =~= list@.reverse());
    }
    back
}

/// The elements of `list` behind the first `key`, without any `key`.
pub fn skip_to(list: &Vec<u64>, key: u64) -> (rest: Vec<u64>)
    ensures
        rest@ == after_first(list@, key),
{
    let mut rest: Vec<u64> = Vec::new();
    let mut i: usize = 0;
    proof {
        assert(list@.subrange(0, list@.len() as int) == list@);
    }
    while i < list.len() && list[i] != key
        invariant
            i <= list.len(),
            after_first(list@, key) == after_first(list@.subrange(i as int, list@.len() as int), key),
        decreases list.len() - i,
    {
        proof {
            let todo = list@.subrange(i as int, list@.len() as int);
            assert(todo[0] == list@[i as int]);
            assert(todo.drop_first() == list@.subrange(i + 1, list@.len() as int));
        }
        i += 1;
    }
    if i == list.len() {
        proof {
            assert(list@.subrange(i as int, list@.len() as int).len() == 0);
        }
        return rest;
    }
    let ghost tail = list@.subrange(i + 1, list@.len() as int);
    proof {
        let todo = list@.subrange(i as int, list@.len() as int);
        assert(todo[0] == key);
        assert(todo.drop_first() == tail);
        assert(without(tail.subrange(0, 0), key) == rest@);
        assert(after_first(list@, key) == without(tail, key));
    }
    i += 1;
    let start: usize = i;
    while i < list.len()
        invariant
            start <= i <= list.len(),
            tail == list@.subrange(start as int, list@.len() as int),
            rest@ == without(tail.subrange(0, i - start), key),
        decreases list.len() - i,
    {
        proof {
            let done = tail.subrange(0, i - start);
            let next = tail.subrange(0, i + 1 - start);
            assert(next.drop_last() == done);
            assert(next.last() == list@[i as int]);
        }
        if list[i] != key {
            rest.push(list[i]);
        }
        i += 1;
    }
    proof {
        assert(tail.subrange(0, i - start) == tail);
    }
    rest
}

/// The archives to show beside `key` under a file that it wins or loses.
pub fn get_archive_hashes_for_ui(winning: bool, archives: &[u64], key: &u64) -> (shown: Vec<u64>)
    ensures
        shown@ == shown_beside(winning, archives@, *key),
{
    if winning {
        let back = reversed(archives);
        skip_to(&back, *key)
    } else {
        let mut forth: Vec<u64> = Vec::new();
        let mut i: usize = 0;
        while i < archives.len()
            invariant
                i <= archives.len(),
                forth@ == archives@.subrange(0, i as int),
            decreases archives.len() - i,
        {
            forth.push(archives[i]);
            proof {
                assert(archives@.subrange(0, i + 1) == archives@.subrange(0, i as int).push(
                    archives@[i as int],
                ));
            }
            i += 1;
        }
        proof {
            assert(archives@.subrange(0, i as int) == archives@);
        }
        let rest = skip_to(&forth, *key);
        reversed(rest.as_slice())
    }
}

impl TemplateApp {
    /// What has to be done before the conflicts can be shown.
    pub fn pending(&self) -> (work: Refresh)
        ensures
            work == match self.last_load_order {
                None => Refresh::Reload,
                Some(last) => if names(last@) == names(self.load_order@) {
                    Refresh::UpToDate
                } else {
                    Refresh::Resolve
                },
            },
    {
        match &self.last_load_order {
            None => Refresh::Reload,
            Some(last) => {
                if same_names(last, &self.load_order) {
                    Refresh::UpToDate
                } else {
                    Refresh::Resolve
                }
            },
        }
    }

    /// Notes that the conflicts belong to the load order as it is now.
    /// Nothing else changes.
    pub fn mark_resolved(&mut self)
        ensures
            final(self).last_load_order is Some,
            names(final(self).last_load_order->0@) == names(old(self).load_order@),
            final(self).load_order == old(self).load_order,
            final(self).archives == old(self).archives,
            final(self).conflicts == old(self).conflicts,
            final(self).game_path == old(self).game_path,
            final(self).hashes == old(self).hashes,
            final(self).show_no_conflicts == old(self).show_no_conflicts,
            final(self).tooltips_visuals == old(self).tooltips_visuals,
            final(self).enable_modlist == old(self).enable_modlist,
            final(self).text_filter == old(self).text_filter,
            final(self).file_filter == old(self).file_filter,
    {
        self.last_load_order = Some(copy_names(&self.load_order));
    }

    /// The archive `id` as the last run knew it, with no wins and no loses,
    /// or `None` where the last run did not know it and it has to be read.
    pub fn cached_archive(&self, id: u64) -> (cached: Option<ArchiveViewModel>)
        ensures
            cached is Some <==> self.archives@.contains_key(id),
            cached matches Some(vm) ==> vm.file_name@ == self.archives@[id].file_name@ && vm.files@
                == self.archives@[id].files@ && vm.wins@.len() == 0 && vm.loses@.len() == 0,
    {
        broadcast use vstd::std_specs::hash::group_hash_axioms;

        match self.archives.get(&id) {
            Some(archive) => Some(
                ArchiveViewModel {
                    file_name: archive.file_name.clone(),
                    wins: Vec::new(),
                    loses: Vec::new(),
                    files: copy_hashes(&archive.files),
                },
            ),
            None => None,
        }
    }

    /// Resolves the conflicts of the load order anew.
    ///
    /// `paths` are the paths of the archives of the load order, in load
    /// order, and `scanned` holds, under its identity, every archive that
    /// could be read or was known from the last run. The identity of an
    /// archive is the hash of its path, so every archive that the view
    /// holds afterwards stands under the hash of one of the paths. Only the
    /// archives and the conflicts change.
    pub fn generate_conflict_map(
        &mut self,
        paths: &Vec<String>,
        scanned: &HashMap<u64, ArchiveViewModel>,
    )
        requires
            forall|a: u64|
                scanned@.contains_key(a) ==> (#[trigger] scanned@[a]).files@.no_duplicates(),
        ensures
            is_resolution(
                path_ids(names(paths@)),
                scanned@,
                final(self).conflicts@,
                final(self).archives@,
            ),
            forall|id: u64| #[trigger]
                final(self).archives@.contains_key(id) ==> scanned@.contains_key(id)
                    && exists|i: int|
                    0 <= i < paths@.len() && id == fnv1a64(encode_utf8(#[trigger] paths@[i]@)),
            final(self).load_order == old(self).load_order,
            final(self).last_load_order == old(self).last_load_order,
            final(self).game_path == old(self).game_path,
            final(self).hashes == old(self).hashes,
            final(self).show_no_conflicts == old(self).show_no_conflicts,
            final(self).tooltips_visuals == old(self).tooltips_visuals,
            final(self).enable_modlist == old(self).enable_modlist,
            final(self).text_filter == old(self).text_filter,
            final(self).file_filter == old(self).file_filter,
    {
        let ids = hash_paths(paths);
        let (conflicts, archives) = resolve(&ids, scanned);
        proof {
            let wanted = path_ids(names(paths@));
            assert forall|id: u64| #[trigger] archives@.contains_key(id) implies scanned@.contains_key(
                id,
            ) && exists|i: int|
                0 <= i < paths@.len() && id == fnv1a64(encode_utf8(#[trigger] paths@[i]@)) by {
                assert(wanted.contains(id));
                let i = choose|i: int| 0 <= i < wanted.len() && wanted[i] == id;
                assert(id == fnv1a64(encode_utf8(paths@[i]@)));
            }
        }
        self.archives = archives;
        self.conflicts = conflicts;
    }

    /// Sets the load order of the archives of the folder.
    ///
    /// `entries` is what the folder holds; its archives are its files with
    /// the extension `archive`. `modlist` is the text of the list file of
    /// the folder, or `None` where the folder has none that can be read.
    /// The archives that the list file names come first, in the order of
    /// its lines, and the others follow in binary order. Only the load
    /// order changes.
    pub fn reload_load_order(&mut self, entries: &Vec<FolderEntry>, modlist: Option<&str>)
        ensures
            is_load_order_of(
                files_with(entries@, "archive"@),
                match modlist {
                    Some(text) => Some(lines_of(text@)),
                    None => None,
                },
                names(final(self).load_order@),
            ),
            final(self).last_load_order == old(self).last_load_order,
            final(self).archives == old(self).archives,
            final(self).conflicts == old(self).conflicts,
            final(self).game_path == old(self).game_path,
            final(self).hashes == old(self).hashes,
            final(self).show_no_conflicts == old(self).show_no_conflicts,
            final(self).tooltips_visuals == old(self).tooltips_visuals,
            final(self).enable_modlist == old(self).enable_modlist,
            final(self).text_filter == old(self).text_filter,
            final(self).file_filter == old(self).file_filter,
    {
        let extension = "archive".to_owned();
        let found = get_files(entries, &extension);
        match modlist {
            Some(text) => {
                let lines = split_lines(text);
                self.load_order = load_order_of(&found, Some(&lines));
            },
            None => {
                self.load_order = load_order_of(&found, None);
            },
        }
    }

    /// The name to show for the file of this hash: its name where the
    /// names of the files know it, else the hash in decimal digits.
    pub fn file_label(&self, hash: u64) -> (label: String)
        ensures
            label@ == if self.hashes@.contains_key(hash) {
                self.hashes@[hash]@
            } else {
                decimal(hash as nat)
            },
    {
        broadcast use vstd::std_specs::hash::group_hash_axioms;

        match self.hashes.get(&hash) {
            Some(name) => name.clone(),
            None => to_decimal(hash),
        }
    }

    /// The name to show for the archive of this identity: its file name
    /// where it was scanned, else the identity in decimal digits.
    pub fn archive_label(&self, id: u64) -> (label: String)
        ensures
            label@ == if self.archives@.contains_key(id) {
                self.archives@[id].file_name@
            } else {
                decimal(id as nat)
            },
    {
        broadcast use vstd::std_specs::hash::group_hash_axioms;

        match self.archives.get(&id) {
            Some(archive) => archive.file_name.clone(),
            None => to_decimal(id),
        }
    }

    /// The text to write to the list file, or `None` where the load order
    /// is not kept in a list file.
    pub fn serialize_load_order(&self) -> (text: Option<String>)
        ensures
            text is Some <==> self.enable_modlist,
            text matches Some(t) ==> t@ == written(names(self.load_order@)),
    {
        if !self.enable_modlist {
            return None;
        }
        Some(write_lines(&self.load_order))
    }
}

/// The heading of an archive: its file name with the numbers of the files
/// that it wins and loses, and with the number of its neutral files where
/// these are shown.
pub open spec fn heading(archive: ArchiveViewModel, with_neutral: bool) -> Seq<char> {
    let counts = archive.file_name@ + " (w: "@ + decimal(archive.wins@.len()) + ", l: "@
        + decimal(archive.loses@.len());
    if with_neutral {
        counts + ", u: "@ + decimal(
            neutral(archive.files@, archive.wins@, archive.loses@).len(),
        ) + ")"@
    } else {
        counts + ")"@
    }
}

/// Writes the heading of an archive.
pub fn archive_heading(archive: &ArchiveViewModel, with_neutral: bool) -> (text: String)
    ensures
        text@ == heading(*archive, with_neutral),
{
    let mut text = archive.file_name.clone();
    text.append(" (w: ");
    text.append(to_decimal(archive.wins.len() as u64).as_str());
    text.append(", l: ");
    text.append(to_decimal(archive.loses.len() as u64).as_str());
    if with_neutral {
        let count: usize = archive.get_no_conflicts().len();
        text.append(", u: ");
        text.append(to_decimal(count as u64).as_str());
    }
    text.append(")");
    proof {
        assert(text@ =~= heading(*archive, with_neutral));
    }
    text
}

/// Whether nothing of the archive survives: it loses every file and wins
/// none.
pub fn is_obsolete(archive: &ArchiveViewModel) -> (obsolete: bool)
    ensures
        obsolete == (archive.files@.len() == archive.loses@.len() && archive.wins@.len() == 0),
{
    archive.files.len() == archive.loses.len() && archive.wins.is_empty()
}

/// Whether the archive wins or loses a file.
pub fn has_conflicts(archive: &ArchiveViewModel) -> (any: bool)
    ensures
        any == (archive.wins@.len() + archive.loses@.len() != 0),
{
    !archive.wins.is_empty() || !archive.loses.is_empty()
}

} // verus!
