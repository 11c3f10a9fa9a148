//! The conflict resolution engine.
//!
//! Archives are applied in load order, and where two archives hold a file
//! of the same content hash only one copy survives. `resolve` scans the
//! load order from its last archive to its first. An archive that brings a
//! hash which the scan has met already wins that hash, and every archive in
//! which the scan met it before loses it.

use vstd::prelude::*;
use std::collections::HashMap;

verus! {

broadcast use vstd::std_specs::hash::group_hash_axioms;

/// An archive and how its files fare in the load order.
#[derive(Debug)]
pub struct ArchiveViewModel {
    pub file_name: String,
    /// Hashes of the files for which this archive overrides another
    pub wins: Vec<u64>,
    /// Hashes of the files that another archive overrides
    pub loses: Vec<u64>,
    /// Hashes of all files of the archive
    pub files: Vec<u64>,
}

/// The file hashes of every archive.
pub open spec fn file_sets(contents: Map<u64, ArchiveViewModel>) -> Map<u64, Seq<u64>> {
    Map::new(|a: u64| contents.contains_key(a), |a: u64| contents[a].files@)
}

/// `archive` is known and holds a file of this hash.
pub open spec fn provides(files: Map<u64, Seq<u64>>, archive: u64, hash: u64) -> bool {
    files.contains_key(archive) && files[archive].contains(hash)
}

/// `list` with `id` at its end, unless `list` holds `id` already.
pub open spec fn push_new(list: Seq<u64>, id: u64) -> Seq<u64> {
    if list.contains(id) {
        list
    } else {
        list.push(id)
    }
}

/// The archives at `lo ..` of the load order that hold `hash`, each once,
/// from the one that stands last to the one that stands first.
pub open spec fn providers_from(order: Seq<u64>, lo: int, files: Map<u64, Seq<u64>>, hash: u64) -> Seq<
    u64,
>
    decreases order.len() - lo,
{
    if lo < 0 || lo >= order.len() {
        Seq::empty()
    } else {
        let later = providers_from(order, lo + 1, files, hash);
        if provides(files, order[lo], hash) {
            push_new(later, order[lo])
        } else {
            later
        }
    }
}

/// The archives of the load order that hold `hash`, each once, from the
/// one that stands last to the one that stands first.
pub open spec fn providers(order: Seq<u64>, files: Map<u64, Seq<u64>>, hash: u64) -> Seq<u64> {
    providers_from(order, 0, files, hash)
}

/// `archive` stands at `lo` or behind it.
pub open spec fn listed_from(order: Seq<u64>, lo: int, archive: u64) -> bool {
    exists|k: int| lo <= k < order.len() && #[trigger] order[k] == archive
}

/// An archive at one of the positions `lo .. hi` holds `hash`.
pub open spec fn given_between(
    order: Seq<u64>,
    files: Map<u64, Seq<u64>>,
    lo: int,
    hi: int,
    hash: u64,
) -> bool {
    exists|k: int| lo <= k < hi && k < order.len() && provides(files, #[trigger] order[k], hash)
}

/// An archive behind position `p` holds `hash`.
pub open spec fn given_after(order: Seq<u64>, files: Map<u64, Seq<u64>>, p: int, hash: u64) -> bool {
    given_between(order, files, p + 1, order.len() as int, hash)
}

/// An archive before position `p` holds `hash`.
pub open spec fn given_before(order: Seq<u64>, files: Map<u64, Seq<u64>>, p: int, hash: u64) -> bool {
    given_between(order, files, 0, p, hash)
}

/// No position from `lo` up to `p` holds the archive that stands at `p`.
pub open spec fn is_first_from(order: Seq<u64>, lo: int, p: int) -> bool {
    &&& 0 <= lo <= p < order.len()
    &&& forall|k: int| lo <= k < p ==> #[trigger] order[k] != order[p]
}

/// The archive at `p` does not stand before `p` as well.
pub open spec fn is_first_position(order: Seq<u64>, p: int) -> bool {
    is_first_from(order, 0, p)
}

/// The hashes that the archive at `p` wins: those of its files that an
/// archive behind it holds too, in the order of its file list.
pub open spec fn wins_of(order: Seq<u64>, files: Map<u64, Seq<u64>>, p: int) -> Seq<u64> {
    files[order[p]].filter(|h: u64| given_after(order, files, p, h))
}

/// `loses` holds, each once, the hashes that the archive at `p` loses:
/// those of its files that an archive at `lo .. p` holds too, and those
/// in `done`.
pub open spec fn loses_are(
    loses: Seq<u64>,
    order: Seq<u64>,
    files: Map<u64, Seq<u64>>,
    lo: int,
    p: int,
    done: Seq<u64>,
) -> bool {
    &&& loses.no_duplicates()
    &&& forall|h: u64| #[trigger]
        loses.contains(h) <==> files[order[p]].contains(h) && (given_between(
            order,
            files,
            lo,
            p,
            h,
        ) || done.contains(h))
}

/// The conflict map of a load order: every hash that two or more archives
/// hold, with these archives.
pub open spec fn conflict_map(order: Seq<u64>, files: Map<u64, Seq<u64>>) -> Map<u64, Seq<u64>> {
    Map::new(
        |h: u64| providers(order, files, h).len() >= 2,
        |h: u64| providers(order, files, h),
    )
}

/// `conflicts` and `views` are what resolving `order` over `contents`
/// gives.
///
/// `conflicts` is the conflict map. `views` holds every archive of the load
/// order that `contents` knows, with its name and files as `contents` has
/// them. Where an archive stands more than once in the load order, its
/// first position counts.
pub open spec fn is_resolution(
    order: Seq<u64>,
    contents: Map<u64, ArchiveViewModel>,
    conflicts: Map<u64, Vec<u64>>,
    views: Map<u64, ArchiveViewModel>,
) -> bool {
    let files = file_sets(contents);
    &&& forall|h: u64| #[trigger]
        conflicts.contains_key(h) <==> conflict_map(order, files).contains_key(h)
    &&& forall|h: u64| #[trigger]
        conflicts.contains_key(h) ==> conflicts[h]@ == conflict_map(order, files)[h]
    &&& forall|a: u64| #[trigger]
        views.contains_key(a) <==> order.contains(a) && contents.contains_key(a)
    &&& forall|p: int| #[trigger]
        is_first_position(order, p) && contents.contains_key(order[p]) ==> {
            let vm = views[order[p]];
            &&& vm.file_name@ == contents[order[p]].file_name@
            &&& vm.files@ == files[order[p]]
            &&& vm.wins@ == wins_of(order, files, p)
            &&& loses_are(vm.loses@, order, files, 0, p, Seq::empty())
        }
}

/// The hashes of `files` that are in no conflict: neither won nor lost.
pub open spec fn neutral(files: Seq<u64>, wins: Seq<u64>, loses: Seq<u64>) -> Seq<u64> {
    files.filter(|h: u64| !wins.contains(h) && !loses.contains(h))
}

/// The neutral hashes are the hashes of the files that are neither won nor
/// lost.
pub proof fn lemma_neutral(files: Seq<u64>, wins: Seq<u64>, loses: Seq<u64>, hash: u64)
    ensures
        neutral(files, wins, loses).contains(hash) <==> files.contains(hash) && !wins.contains(
            hash,
        ) && !loses.contains(hash),
{
    let keep = |h: u64| !wins.contains(h) && !loses.contains(h);
    let kept = files.filter(keep);
    if kept.contains(hash) {
        let at = kept.index_of(hash);
        files.lemma_filter_pred(keep, at);
        files.lemma_filter_contains_rev(keep, hash);
    }
    if files.contains(hash) && keep(hash) {
        let at = files.index_of(hash);
        files.lemma_filter_contains(keep, at);
    }
}

/// The hashes that the archive at `p` wins are the hashes of its files
/// that an archive behind it holds too.
pub proof fn lemma_wins(order: Seq<u64>, files: Map<u64, Seq<u64>>, p: int, hash: u64)
    ensures
        wins_of(order, files, p).contains(hash) <==> files[order[p]].contains(hash) && given_after(
            order,
            files,
            p,
            hash,
        ),
{
    let held = files[order[p]];
    let won = |h: u64| given_after(order, files, p, h);
    let kept = held.filter(won);
    if kept.contains(hash) {
        let at = kept.index_of(hash);
        held.lemma_filter_pred(won, at);
        held.lemma_filter_contains_rev(won, hash);
    }
    if held.contains(hash) && won(hash) {
        let at = held.index_of(hash);
        held.lemma_filter_contains(won, at);
    }
}

/// An archive is among the providers of a hash exactly when it is listed
/// and holds the hash, and it is there once.
pub proof fn lemma_providers(order: Seq<u64>, lo: int, files: Map<u64, Seq<u64>>, hash: u64)
    requires
        0 <= lo,
    ensures
        providers_from(order, lo, files, hash).no_duplicates(),
        forall|b: u64| #[trigger]
            providers_from(order, lo, files, hash).contains(b) <==> listed_from(order, lo, b)
                && provides(files, b, hash),
        providers_from(order, lo, files, hash).len() > 0 <==> given_between(
            order,
            files,
            lo,
            order.len() as int,
            hash,
        ),
    decreases order.len() - lo,
{
    let here = providers_from(order, lo, files, hash);
    if lo < order.len() {
        lemma_providers(order, lo + 1, files, hash);
        let later = providers_from(order, lo + 1, files, hash);
        assert forall|b: u64| #[trigger]
            here.contains(b) <==> listed_from(order, lo, b) && provides(files, b, hash) by {
            if here.contains(b) {
                if later.contains(b) {
                    let k = choose|k: int| lo + 1 <= k < order.len() && #[trigger] order[k] == b;
                    assert(lo <= k < order.len() && order[k] == b);
                } else {
                    let i = choose|i: int| 0 <= i < here.len() && here[i] == b;
                    assert(b == order[lo]);
                }
            }
            if listed_from(order, lo, b) && provides(files, b, hash) {
                let k = choose|k: int| lo <= k < order.len() && #[trigger] order[k] == b;
                if k > lo {
                    assert(listed_from(order, lo + 1, b));
                    assert(later.contains(b));
                    let i = choose|i: int| 0 <= i < later.len() && later[i] == b;
                    assert(here[i] == b);
                } else {
                    if later.contains(b) {
                        let i = choose|i: int| 0 <= i < later.len() && later[i] == b;
                        assert(here[i] == b);
                    } else {
                        assert(here[later.len() as int] == b);
                    }
                }
            }
        }
        if here.len() > 0 {
            assert(here.contains(here[0]));
            let k = choose|k: int| lo <= k < order.len() && #[trigger] order[k] == here[0];
            assert(provides(files, order[k], hash));
        }
        if given_between(order, files, lo, order.len() as int, hash) {
            let k = choose|k: int|
                lo <= k < order.len() && k < order.len() && provides(
                    files,
                    #[trigger] order[k],
                    hash,
                );
            assert(listed_from(order, lo, order[k]));
            assert(here.contains(order[k]));
        }
    }
}

/// What `push_new` keeps and adds.
pub proof fn lemma_push_new(list: Seq<u64>, id: u64)
    ensures
        forall|x: u64| #[trigger] push_new(list, id).contains(x) <==> list.contains(x) || x == id,
        list.no_duplicates() ==> push_new(list, id).no_duplicates(),
        push_new(push_new(list, id), id) == push_new(list, id),
{
    let grown = push_new(list, id);
    assert forall|x: u64| #[trigger] grown.contains(x) <==> list.contains(x) || x == id by {
        if list.contains(x) {
            let i = choose|i: int| 0 <= i < list.len() && list[i] == x;
            assert(grown[i] == x);
        }
        if x == id && !list.contains(id) {
            assert(grown[list.len() as int] == id);
        }
        if grown.contains(x) {
            let i = choose|i: int| 0 <= i < grown.len() && grown[i] == x;
            if i < list.len() {
                assert(list[i] == x);
            }
        }
    }
}

/// Of two archives that hold a hash, the one that stands behind in the load
/// order comes first among the providers of the hash.
pub proof fn lemma_providers_order(
    order: Seq<u64>,
    lo: int,
    files: Map<u64, Seq<u64>>,
    hash: u64,
    i: int,
    j: int,
)
    requires
        order.no_duplicates(),
        0 <= lo <= i < j < order.len(),
        provides(files, order[i], hash),
        provides(files, order[j], hash),
    ensures
        providers_from(order, lo, files, hash).contains(order[i]),
        providers_from(order, lo, files, hash).contains(order[j]),
        providers_from(order, lo, files, hash).index_of(order[j]) < providers_from(
            order,
            lo,
            files,
            hash,
        ).index_of(order[i]),
    decreases i - lo,
{
    let here = providers_from(order, lo, files, hash);
    let later = providers_from(order, lo + 1, files, hash);
    lemma_providers(order, lo, files, hash);
    lemma_providers(order, lo + 1, files, hash);
    lemma_push_new(later, order[lo]);
    assert(listed_from(order, lo, order[i]));
    assert(listed_from(order, lo, order[j]));
    assert(listed_from(order, lo + 1, order[j]));
    assert(later.contains(order[j]));
    assert(here.contains(order[i]) && here.contains(order[j]));
    if lo == i {
        assert(!later.contains(order[i])) by {
            if listed_from(order, lo + 1, order[i]) {
                let k = choose|k: int| lo + 1 <= k < order.len() && #[trigger] order[k] == order[i];
                assert(order[k] == order[i] && k != i);
            }
        }
        let at = later.index_of(order[j]);
        assert(here[at] == order[j]);
        assert(here[later.len() as int] == order[i]);
    } else {
        lemma_providers_order(order, lo + 1, files, hash, i, j);
        assert(later.contains(order[i]));
        let at_i = later.index_of(order[i]);
        let at_j = later.index_of(order[j]);
        assert(here[at_i] == order[i]);
        assert(here[at_j] == order[j]);
    }
}

/// Conflict symmetry: of two archives of a load order that hold a file of
/// the same hash, the one that stands first wins the hash and the one
/// behind it loses it. The conflict map lists both under the hash, the one
/// that stands behind first.
pub proof fn lemma_conflict_symmetry(
    order: Seq<u64>,
    contents: Map<u64, ArchiveViewModel>,
    conflicts: Map<u64, Vec<u64>>,
    views: Map<u64, ArchiveViewModel>,
    i: int,
    j: int,
    hash: u64,
)
    requires
        is_resolution(order, contents, conflicts, views),
        order.no_duplicates(),
        0 <= i < j < order.len(),
        provides(file_sets(contents), order[i], hash),
        provides(file_sets(contents), order[j], hash),
    ensures
        views.contains_key(order[i]) && views[order[i]].wins@.contains(hash),
        views.contains_key(order[j]) && views[order[j]].loses@.contains(hash),
        conflicts.contains_key(hash),
        conflicts[hash]@.contains(order[i]),
        conflicts[hash]@.contains(order[j]),
        conflicts[hash]@.index_of(order[j]) < conflicts[hash]@.index_of(order[i]),
{
    let files = file_sets(contents);
    let held = files[order[i]];
    assert(order.contains(order[i]) && order.contains(order[j]));
    assert(is_first_position(order, i));
    assert(is_first_position(order, j));
    // the first one wins
    assert(given_after(order, files, i, hash)) by {
        assert(i + 1 <= j < order.len() && provides(files, order[j], hash));
    }
    lemma_wins(order, files, i, hash);
    // the one behind loses
    assert(given_before(order, files, j, hash)) by {
        assert(0 <= i < j && provides(files, order[i], hash));
    }
    // both are listed, the one behind first
    lemma_providers_order(order, 0, files, hash, i, j);
    lemma_providers(order, 0, files, hash);
    let listed = providers(order, files, hash);
    assert(listed.len() >= 2) by {
        let a = listed.index_of(order[i]);
        let b = listed.index_of(order[j]);
        assert(a != b);
    }
    assert(conflict_map(order, files).contains_key(hash));
    assert(conflicts.contains_key(hash));
    assert(conflicts[hash]@ == listed);
}

/// No false conflicts: a hash that one archive of the load order holds,
/// and no archive at another position, is not in the conflict map, and it
/// is neutral for that archive.
pub proof fn lemma_no_false_conflicts(
    order: Seq<u64>,
    contents: Map<u64, ArchiveViewModel>,
    conflicts: Map<u64, Vec<u64>>,
    views: Map<u64, ArchiveViewModel>,
    p: int,
    hash: u64,
)
    requires
        is_resolution(order, contents, conflicts, views),
        0 <= p < order.len(),
        provides(file_sets(contents), order[p], hash),
        forall|k: int|
            0 <= k < order.len() && k != p ==> !provides(
                file_sets(contents),
                #[trigger] order[k],
                hash,
            ),
    ensures
        !conflicts.contains_key(hash),
        views.contains_key(order[p]),
        !views[order[p]].wins@.contains(hash),
        !views[order[p]].loses@.contains(hash),
        neutral(
            views[order[p]].files@,
            views[order[p]].wins@,
            views[order[p]].loses@,
        ).contains(hash),
{
    let files = file_sets(contents);
    let held = files[order[p]];
    let vm = views[order[p]];
    assert(order.contains(order[p]));
    assert(is_first_position(order, p));
    // one provider only
    lemma_providers(order, 0, files, hash);
    let listed = providers(order, files, hash);
    assert(listed.len() < 2) by {
        if listed.len() >= 2 {
            assert(listed.contains(listed[0]) && listed.contains(listed[1]));
            let k0 = choose|k: int| 0 <= k < order.len() && #[trigger] order[k] == listed[0];
            let k1 = choose|k: int| 0 <= k < order.len() && #[trigger] order[k] == listed[1];
            assert(k0 == p && k1 == p);
        }
    }
    assert(!conflict_map(order, files).contains_key(hash));
    // neither won nor lost
    let won = |h: u64| given_after(order, files, p, h);
    assert(!given_after(order, files, p, hash));
    assert(!given_before(order, files, p, hash));
    lemma_wins(order, files, p, hash);
    lemma_neutral(vm.files@, vm.wins@, vm.loses@, hash);
}

/// Whether `list` holds `hash`.
pub fn contains_hash(list: &Vec<u64>, hash: u64) -> (found: bool)
    ensures
        found == list@.contains(hash),
{
    let mut i: usize = 0;
    while i < list.len()
        invariant
            i <= list.len(),
            forall|k: int| 0 <= k < i ==> list@[k] != hash,
        decreases list.len() - i,
    {
        if list[i] == hash {
            return true;
        }
        i += 1;
    }
    false
}

/// A copy of `list`.
pub fn copy_hashes(list: &Vec<u64>) -> (copy: Vec<u64>)
    ensures
        copy@ == list@,
{
    let mut copy: Vec<u64> = Vec::new();
    let mut i: usize = 0;
    while i < list.len()
        invariant
            i <= list.len(),
            copy@ == list@.subrange(0, i as int),
        decreases list.len() - i,
    {
        copy.push(list[i]);
        proof {
            assert(list@.subrange(0, i + 1) == list@.subrange(0, i as int).push(list@[i as int]));
        }
        i += 1;
    }
    proof {
        assert(list@.subrange(0, i as int) == list@);
    }
    copy
}

impl ArchiveViewModel {
    /// The hashes of the files that are in no conflict: those that the
    /// archive neither wins nor loses, in the order of its file list.
    pub fn get_no_conflicts(&self) -> (neutral: Vec<u64>)
        ensures
            neutral@ == self::neutral(self.files@, self.wins@, self.loses@),
            forall|h: u64|
                neutral@.contains(h) <==> self.files@.contains(h) && !self.wins@.contains(h)
                    && !self.loses@.contains(h),
    {
        proof {
            assert forall|h: u64|
                self::neutral(self.files@, self.wins@, self.loses@).contains(h)
                    <==> self.files@.contains(h) && !self.wins@.contains(h)
                    && !self.loses@.contains(h) by {
                lemma_neutral(self.files@, self.wins@, self.loses@, h);
            }
        }
        let ghost keep = |h: u64| !self.wins@.contains(h) && !self.loses@.contains(h);
        let mut result: Vec<u64> = Vec::new();
        let mut i: usize = 0;
        proof {
            assert(self.files@.subrange(0, 0).filter(keep) == Seq::<u64>::empty());
        }
        while i < self.files.len()
            invariant
                i <= self.files.len(),
                keep == |h: u64| !self.wins@.contains(h) && !self.loses@.contains(h),
                result@ == self.files@.subrange(0, i as int).filter(keep),
            decreases self.files.len() - i,
        {
            let h: u64 = self.files[i];
            proof {
                let done = self.files@.subrange(0, i as int);
                assert(self.files@.subrange(0, i + 1) == done.push(h));
                done.lemma_filter_push(h, keep);
            }
            if !contains_hash(&self.wins, h) && !contains_hash(&self.loses, h) {
                result.push(h);
            }
            i += 1;
        }
        proof {
            assert(self.files@.subrange(0, i as int) == self.files@);
        }
        result
    }
}

/// Notes `hash` as lost in every archive of `list` but `current`.
fn mark_losers(
    views: &mut HashMap<u64, ArchiveViewModel>,
    list: &Vec<u64>,
    current: u64,
    hash: u64,
)
    requires
        forall|i: int|
            0 <= i < list.len() && list[i] != current ==> old(views)@.contains_key(
                #[trigger] list[i],
            ),
    ensures
        forall|b: u64| final(views)@.contains_key(b) <==> old(views)@.contains_key(b),
        forall|b: u64| #[trigger]
            final(views)@.contains_key(b) ==> if list@.contains(b) && b != current {
                &&& final(views)@[b].file_name == old(views)@[b].file_name
                &&& final(views)@[b].wins == old(views)@[b].wins
                &&& final(views)@[b].files == old(views)@[b].files
                &&& final(views)@[b].loses@ == push_new(old(views)@[b].loses@, hash)
            } else {
                final(views)@[b] == old(views)@[b]
            },
{
    let mut r: usize = 0;
    while r < list.len()
        invariant
            r <= list.len(),
            forall|b: u64| views@.contains_key(b) <==> old(views)@.contains_key(b),
            forall|i: int|
                0 <= i < list.len() && list[i] != current ==> old(views)@.contains_key(
                    #[trigger] list[i],
                ),
            forall|b: u64| #[trigger]
                views@.contains_key(b) ==> if list@.subrange(0, r as int).contains(b) && b
                    != current {
                    &&& views@[b].file_name == old(views)@[b].file_name
                    &&& views@[b].wins == old(views)@[b].wins
                    &&& views@[b].files == old(views)@[b].files
                    &&& views@[b].loses@ == push_new(old(views)@[b].loses@, hash)
                } else {
                    views@[b] == old(views)@[b]
                },
        decreases list.len() - r,
    {
        let id: u64 = list[r];
        let ghost done = list@.subrange(0, r as int);
        let ghost next = list@.subrange(0, r + 1);
        let ghost before = views@;
        proof {
            assert(next == done.push(id));
            assert forall|b: u64| next.contains(b) <==> done.contains(b) || b == id by {
                if done.contains(b) {
                    let i = choose|i: int| 0 <= i < done.len() && done[i] == b;
                    assert(next[i] == b);
                }
                if next.contains(b) {
                    let i = choose|i: int| 0 <= i < next.len() && next[i] == b;
                    if i < done.len() {
                        assert(done[i] == b);
                    }
                }
                assert(next[r as int] == id);
            }
        }
        if id != current {
            assert(views@.contains_key(list[r as int]));
            match views.remove(&id) {
                Some(mut vm) => {
                    let ghost was = vm;
                    if !contains_hash(&vm.loses, hash) {
                        vm.loses.push(hash);
                    }
                    proof {
                        assert(vm.loses@ == push_new(was.loses@, hash));
                        lemma_push_new(old(views)@[id].loses@, hash);
                    }
                    views.insert(id, vm);
                    proof {
                        assert(views@ == before.remove(id).insert(id, vm));
                    }
                },
                None => {},
            }
        }
        r += 1;
    }
    proof {
        assert(list@.subrange(0, r as int) == list@);
    }
}

/// The archives that the scan has met with `hash` when the archives at
/// `lo ..` have been scanned and, of the archive before them, the hashes in
/// `done`.
spec fn met_so_far(
    order: Seq<u64>,
    lo: int,
    files: Map<u64, Seq<u64>>,
    done: Seq<u64>,
    hash: u64,
) -> Seq<u64> {
    if done.contains(hash) {
        providers_from(order, lo - 1, files, hash)
    } else {
        providers_from(order, lo, files, hash)
    }
}

/// The accumulator holds, at that moment, every hash that the scan has met
/// with the archives it met it in.
spec fn acc_holds(
    acc: Map<u64, Vec<u64>>,
    order: Seq<u64>,
    lo: int,
    files: Map<u64, Seq<u64>>,
    done: Seq<u64>,
) -> bool {
    &&& forall|h: u64|
        acc.contains_key(h) <==> (#[trigger] met_so_far(order, lo, files, done, h)).len() > 0
    &&& forall|h: u64|
        acc.contains_key(h) ==> acc[h]@ == #[trigger] met_so_far(order, lo, files, done, h)
}

/// What the views hold at the same moment. The archive `current` is the
/// one that is being scanned; its own view is written when its scan ends.
spec fn views_hold(
    views: Map<u64, ArchiveViewModel>,
    contents: Map<u64, ArchiveViewModel>,
    order: Seq<u64>,
    lo: int,
    current: Option<u64>,
    done: Seq<u64>,
) -> bool {
    let files = file_sets(contents);
    &&& forall|b: u64| #[trigger]
        views.contains_key(b) <==> listed_from(order, lo, b) && contents.contains_key(b)
    &&& forall|f: int| #[trigger]
        is_first_from(order, lo, f) && contents.contains_key(order[f]) && Some(order[f])
            != current ==> {
            let vm = views[order[f]];
            &&& vm.file_name@ == contents[order[f]].file_name@
            &&& vm.files@ == files[order[f]]
            &&& vm.wins@ == wins_of(order, files, f)
            &&& loses_are(vm.loses@, order, files, lo, f, done)
        }
}

/// Scans the files of the archive `id`, which stands at `p`.
fn scan_archive(
    acc: &mut HashMap<u64, Vec<u64>>,
    views: &mut HashMap<u64, ArchiveViewModel>,
    load_order: &Vec<u64>,
    contents: &HashMap<u64, ArchiveViewModel>,
    p: usize,
    source: &ArchiveViewModel,
) -> (wins: Vec<u64>)
    requires
        p < load_order.len(),
        contents@.contains_key(load_order[p as int]),
        contents@[load_order[p as int]] == *source,
        source.files@.no_duplicates(),
        acc_holds(old(acc)@, load_order@, p + 1, file_sets(contents@), Seq::empty()),
        views_hold(old(views)@, contents@, load_order@, p + 1, None, Seq::empty()),
    ensures
        acc_holds(final(acc)@, load_order@, p + 1, file_sets(contents@), source.files@),
        views_hold(
            final(views)@,
            contents@,
            load_order@,
            p + 1,
            Some(load_order[p as int]),
            source.files@,
        ),
        wins@ == wins_of(load_order@, file_sets(contents@), p as int),
{
    let ghost order = load_order@;
    let ghost files = file_sets(contents@);
    let ghost all = source.files@;
    let ghost won = |h: u64| given_after(order, files, p as int, h);
    let id: u64 = load_order[p];
    let mut wins: Vec<u64> = Vec::new();
    let mut q: usize = 0;
    proof {
        assert(all.subrange(0, 0) =~= Seq::<u64>::empty());
        assert(all.subrange(0, 0).filter(won) == Seq::<u64>::empty()) by {
            reveal(Seq::filter);
        }
        assert(files[id] == all);
        assert forall|f: int| #[trigger]
            is_first_from(order, p + 1, f) && contents@.contains_key(order[f]) && Some(order[f])
                != Some(id) implies {
            let vm = views@[order[f]];
            &&& vm.file_name@ == contents@[order[f]].file_name@
            &&& vm.files@ == files[order[f]]
            &&& vm.wins@ == wins_of(order, files, f)
            &&& loses_are(vm.loses@, order, files, p + 1, f, Seq::empty())
        } by {
            assert(Some(order[f]) != None::<u64>);
        }
    }
    while q < source.files.len()
        invariant
            q <= source.files.len(),
            p < load_order.len(),
            order == load_order@,
            files == file_sets(contents@),
            all == source.files@,
            all.no_duplicates(),
            id == order[p as int],
            files.contains_key(id),
            files[id] == all,
            won == |h: u64| given_after(order, files, p as int, h),
            acc_holds(acc@, order, p + 1, files, all.subrange(0, q as int)),
            views_hold(views@, contents@, order, p + 1, Some(id), all.subrange(0, q as int)),
            wins@ == all.subrange(0, q as int).filter(won),
        decreases source.files.len() - q,
    {
        let h: u64 = source.files[q];
        let ghost done = all.subrange(0, q as int);
        let ghost next = all.subrange(0, q + 1);
        let ghost met = providers_from(order, p + 1, files, h);
        let ghost old_acc = acc@;
        proof {
            assert(met_so_far(order, p + 1, files, all.subrange(0, q as int), h) == met) by {
                if all.subrange(0, q as int).contains(h) {
                    let i = choose|i: int|
                        0 <= i < q && all.subrange(0, q as int)[i] == h;
                    assert(all[i] == h && all[q as int] == h);
                }
            }
        }
        let ghost old_views = views@;
        proof {
            assert(next == done.push(h));
            assert forall|x: u64| next.contains(x) <==> done.contains(x) || x == h by {
                if done.contains(x) {
                    let i = choose|i: int| 0 <= i < done.len() && done[i] == x;
                    assert(next[i] == x);
                }
                if next.contains(x) {
                    let i = choose|i: int| 0 <= i < next.len() && next[i] == x;
                    if i < done.len() {
                        assert(done[i] == x);
                    }
                }
                assert(next[q as int] == h);
            }
            assert(!done.contains(h)) by {
                if done.contains(h) {
                    let i = choose|i: int| 0 <= i < done.len() && done[i] == h;
                    assert(all[i] == h && all[q as int] == h);
                }
            }
            assert(all.contains(h)) by {
                assert(all[q as int] == h);
            }
            assert(provides(files, id, h));
            lemma_providers(order, p + 1, files, h);
            lemma_push_new(met, id);
            assert(providers_from(order, p as int, files, h) == push_new(met, id));
            assert(won(h) == (met.len() > 0));
            done.lemma_filter_push(h, won);
        }
        let found = match acc.get(&h) {
            Some(list) => Some(copy_hashes(list)),
            None => None,
        };
        match found {
            Some(list) => {
                let mut list = list;
                assert(list@ == met);
                proof {
                    assert forall|i: int| 0 <= i < list.len() && list[i] != id implies views@.contains_key(
                        #[trigger] list[i],
                    ) by {
                        assert(met.contains(list[i]));
                    }
                }
                mark_losers(views, &list, id, h);
                if !contains_hash(&list, id) {
                    list.push(id);
                }
                assert(list@ == push_new(met, id));
                acc.insert(h, list);
                wins.push(h);
            },
            None => {
                assert(met.len() == 0);
                let mut list: Vec<u64> = Vec::new();
                list.push(id);
                assert(list@ == push_new(met, id));
                acc.insert(h, list);
            },
        }
        proof {
            assert(acc@.contains_key(h));
            assert(acc@[h]@ == providers_from(order, p as int, files, h));
            assert forall|x: u64|
                {
                    let known = #[trigger] met_so_far(order, p + 1, files, next, x);
                    &&& acc@.contains_key(x) <==> known.len() > 0
                    &&& acc@.contains_key(x) ==> acc@[x]@ == known
                } by {
                let was = met_so_far(order, p + 1, files, done, x);
                if x != h {
                    assert(acc@.contains_key(x) == old_acc.contains_key(x));
                    assert(acc@.contains_key(x) ==> acc@[x] == old_acc[x]);
                    assert(next.contains(x) == done.contains(x));
                    assert(old_acc.contains_key(x) <==> was.len() > 0);
                    assert(old_acc.contains_key(x) ==> old_acc[x]@ == was);
                } else {
                    assert(next.contains(x));
                    assert(push_new(met, id).contains(id));
                    assert(providers_from(order, p + 1 - 1, files, x).len() > 0);
                }
            }
            assert forall|b: u64| #[trigger]
                views@.contains_key(b) <==> listed_from(order, p + 1, b) && contents@.contains_key(
                    b,
                ) by {
                assert(views@.contains_key(b) == old_views.contains_key(b));
            }
            assert forall|f: int| #[trigger]
                is_first_from(order, p + 1, f) && contents@.contains_key(order[f]) && Some(order[f])
                    != Some(id) implies {
                let vm = views@[order[f]];
                &&& vm.file_name@ == contents@[order[f]].file_name@
                &&& vm.files@ == files[order[f]]
                &&& vm.wins@ == wins_of(order, files, f)
                &&& loses_are(vm.loses@, order, files, p + 1, f, next)
            } by {
                let b = order[f];
                let was = old_views[b];
                let vm = views@[b];
                assert(listed_from(order, p + 1, b));
                assert(old_views.contains_key(b));
                assert(views@.contains_key(b));
                assert(loses_are(was.loses@, order, files, p + 1, f, done));
                assert(met.contains(b) <==> provides(files, b, h));
                if met.len() > 0 && met.contains(b) {
                    lemma_push_new(was.loses@, h);
                    assert(vm.loses@ == push_new(was.loses@, h));
                    assert forall|x: u64| #[trigger]
                        vm.loses@.contains(x) <==> files[b].contains(x) && (given_between(
                            order,
                            files,
                            p + 1,
                            f,
                            x,
                        ) || next.contains(x)) by {
                        assert(was.loses@.contains(x) <==> files[b].contains(x) && (given_between(
                            order,
                            files,
                            p + 1,
                            f,
                            x,
                        ) || done.contains(x)));
                    }
                } else {
                    assert(vm == was);
                    assert forall|x: u64| #[trigger]
                        vm.loses@.contains(x) <==> files[b].contains(x) && (given_between(
                            order,
                            files,
                            p + 1,
                            f,
                            x,
                        ) || next.contains(x)) by {
                        assert(was.loses@.contains(x) <==> files[b].contains(x) && (given_between(
                            order,
                            files,
                            p + 1,
                            f,
                            x,
                        ) || done.contains(x)));
                    }
                }
            }
        }
        q += 1;
    }
    proof {
        assert(all.subrange(0, q as int) == all);
    }
    wins
}

/// The hashes that the scan met in two or more archives, out of those in
/// the file lists of the archives of the load order.
fn keep_conflicts(
    acc: &HashMap<u64, Vec<u64>>,
    load_order: &Vec<u64>,
    contents: &HashMap<u64, ArchiveViewModel>,
) -> (conflicts: HashMap<u64, Vec<u64>>)
    ensures
        forall|h: u64| #[trigger]
            conflicts@.contains_key(h) <==> acc@.contains_key(h) && acc@[h]@.len() >= 2
                && given_between(
                load_order@,
                file_sets(contents@),
                0,
                load_order@.len() as int,
                h,
            ),
        forall|h: u64| #[trigger] conflicts@.contains_key(h) ==> conflicts@[h]@ == acc@[h]@,
{
    let ghost order = load_order@;
    let ghost files = file_sets(contents@);
    let mut conflicts: HashMap<u64, Vec<u64>> = HashMap::new();
    let mut p: usize = 0;
    while p < load_order.len()
        invariant
            p <= load_order.len(),
            order == load_order@,
            files == file_sets(contents@),
            forall|h: u64| #[trigger]
                conflicts@.contains_key(h) <==> acc@.contains_key(h) && acc@[h]@.len() >= 2
                    && given_between(order, files, 0, p as int, h),
            forall|h: u64| #[trigger] conflicts@.contains_key(h) ==> conflicts@[h]@ == acc@[h]@,
        decreases load_order.len() - p,
    {
        let id: u64 = load_order[p];
        let ghost none = Seq::<u64>::empty();
        let ghost all = if files.contains_key(id) {
            files[id]
        } else {
            none
        };
        proof {
            assert forall|h: u64|
                given_between(order, files, 0, p + 1, h) <==> given_between(
                    order,
                    files,
                    0,
                    p as int,
                    h,
                ) || all.contains(h) by {
                if given_between(order, files, 0, p + 1, h) {
                    let k = choose|k: int|
                        0 <= k < p + 1 && k < order.len() && provides(files, #[trigger] order[k], h);
                    if k < p {
                        assert(given_between(order, files, 0, p as int, h));
                    }
                }
                if given_between(order, files, 0, p as int, h) {
                    let k = choose|k: int|
                        0 <= k < p && k < order.len() && provides(files, #[trigger] order[k], h);
                    assert(0 <= k < p + 1 && provides(files, order[k], h));
                }
                if all.contains(h) {
                    assert(provides(files, order[p as int], h));
                }
            }
        }
        match contents.get(&id) {
            Some(source) => {
                let mut q: usize = 0;
                assert(source.files@ == all);
                while q < source.files.len()
                    invariant
                        q <= source.files.len(),
                        source.files@ == all,
                        forall|h: u64| #[trigger]
                            conflicts@.contains_key(h) <==> acc@.contains_key(h) && acc@[h]@.len()
                                >= 2 && (given_between(order, files, 0, p as int, h)
                                || all.subrange(0, q as int).contains(h)),
                        forall|h: u64| #[trigger]
                            conflicts@.contains_key(h) ==> conflicts@[h]@ == acc@[h]@,
                    decreases source.files.len() - q,
                {
                    let h: u64 = source.files[q];
                    let ghost done = all.subrange(0, q as int);
                    let ghost next = all.subrange(0, q + 1);
                    proof {
                        assert(next == done.push(h));
                        assert forall|x: u64| next.contains(x) <==> done.contains(x) || x == h by {
                            if done.contains(x) {
                                let i = choose|i: int| 0 <= i < done.len() && done[i] == x;
                                assert(next[i] == x);
                            }
                            if next.contains(x) {
                                let i = choose|i: int| 0 <= i < next.len() && next[i] == x;
                                if i < done.len() {
                                    assert(done[i] == x);
                                }
                            }
                            assert(next[q as int] == h);
                        }
                    }
                    match acc.get(&h) {
                        Some(list) => {
                            if list.len() > 1 {
                                conflicts.insert(h, copy_hashes(list));
                            }
                        },
                        None => {},
                    }
                    q += 1;
                }
                proof {
                    assert(all.subrange(0, q as int) == all);
                }
            },
            None => {},
        }
        p += 1;
    }
    conflicts
}

/// Resolves the conflicts of a load order.
///
/// `load_order` lists the archives by their identities, and `contents`
/// holds the name and the file hashes of every archive that could be read.
/// An archive of the load order that `contents` does not know is passed
/// over. The wins and loses that `contents` may hold from an earlier run
/// are not read.
///
/// The result is the conflict map and, for every archive that was
/// scanned, its view with the hashes it wins and the hashes it loses.
pub fn resolve(load_order: &Vec<u64>, contents: &HashMap<u64, ArchiveViewModel>) -> (report: (
    HashMap<u64, Vec<u64>>,
    HashMap<u64, ArchiveViewModel>,
))
    requires
        forall|a: u64|
            contents@.contains_key(a) ==> (#[trigger] contents@[a]).files@.no_duplicates(),
    ensures
        is_resolution(load_order@, contents@, report.0@, report.1@),
{
    let ghost order = load_order@;
    let ghost files = file_sets(contents@);
    let ghost none = Seq::<u64>::empty();
    let mut acc: HashMap<u64, Vec<u64>> = HashMap::new();
    let mut views: HashMap<u64, ArchiveViewModel> = HashMap::new();
    let mut p: usize = load_order.len();
    while p > 0
        invariant
            p <= load_order.len(),
            order == load_order@,
            files == file_sets(contents@),
            none == Seq::<u64>::empty(),
            forall|a: u64|
                contents@.contains_key(a) ==> (#[trigger] contents@[a]).files@.no_duplicates(),
            acc_holds(acc@, order, p as int, files, none),
            views_hold(views@, contents@, order, p as int, None, none),
        decreases p,
    {
        p -= 1;
        let id: u64 = load_order[p];
        let ghost old_views = views@;
        match contents.get(&id) {
            Some(source) => {
                let wins = scan_archive(&mut acc, &mut views, load_order, contents, p, source);
                let ghost scanned = views@;
                let vm = ArchiveViewModel {
                    file_name: source.file_name.clone(),
                    wins,
                    loses: Vec::new(),
                    files: copy_hashes(&source.files),
                };
                views.insert(id, vm);
                proof {
                    let all = source.files@;
                    assert(files[id] == all);
                    assert forall|h: u64|
                        met_so_far(order, p + 1, files, all, h) == #[trigger] met_so_far(
                            order,
                            p as int,
                            files,
                            none,
                            h,
                        ) by {
                        assert(provides(files, id, h) == all.contains(h));
                    }
                    assert forall|b: u64| #[trigger]
                        views@.contains_key(b) <==> listed_from(order, p as int, b)
                            && contents@.contains_key(b) by {
                        assert(scanned.contains_key(b) <==> listed_from(order, p + 1, b)
                            && contents@.contains_key(b));
                        if listed_from(order, p as int, b) {
                            let k = choose|k: int| p <= k < order.len() && #[trigger] order[k] == b;
                            if k > p {
                                assert(listed_from(order, p + 1, b));
                            }
                        }
                        if listed_from(order, p + 1, b) {
                            let k = choose|k: int|
                                p + 1 <= k < order.len() && #[trigger] order[k] == b;
                            assert(p <= k < order.len() && order[k] == b);
                        }
                        assert(order[p as int] == id);
                    }
                    assert forall|f: int| #[trigger]
                        is_first_from(order, p as int, f) && contents@.contains_key(order[f])
                            && Some(order[f]) != None::<u64> implies {
                        let vm = views@[order[f]];
                        &&& vm.file_name@ == contents@[order[f]].file_name@
                        &&& vm.files@ == files[order[f]]
                        &&& vm.wins@ == wins_of(order, files, f)
                        &&& loses_are(vm.loses@, order, files, p as int, f, none)
                    } by {
                        if f == p {
                            assert(views@[order[f]] == vm);
                        } else {
                            let b = order[f];
                            assert(order[p as int] != b);
                            assert(is_first_from(order, p + 1, f));
                            assert(views@[b] == scanned[b]);
                            assert(loses_are(scanned[b].loses@, order, files, p + 1, f, all));
                            assert forall|x: u64|
                                given_between(order, files, p as int, f, x) <==> given_between(
                                    order,
                                    files,
                                    p + 1,
                                    f,
                                    x,
                                ) || all.contains(x) by {
                                if given_between(order, files, p as int, f, x) {
                                    let k = choose|k: int|
                                        p <= k < f && k < order.len() && provides(
                                            files,
                                            #[trigger] order[k],
                                            x,
                                        );
                                    if k > p {
                                        assert(p + 1 <= k < f && provides(files, order[k], x));
                                    }
                                }
                                if given_between(order, files, p + 1, f, x) {
                                    let k = choose|k: int|
                                        p + 1 <= k < f && k < order.len() && provides(
                                            files,
                                            #[trigger] order[k],
                                            x,
                                        );
                                    assert(p <= k < f && provides(files, order[k], x));
                                }
                                if all.contains(x) {
                                    assert(provides(files, order[p as int], x));
                                }
                            }
                        }
                    }
                }
            },
            None => {
                proof {
                    assert(!files.contains_key(id));
                    assert forall|h: u64|
                        met_so_far(order, p + 1, files, none, h) == #[trigger] met_so_far(
                            order,
                            p as int,
                            files,
                            none,
                            h,
                        ) by {
                        assert(!provides(files, id, h));
                    }
                    assert forall|b: u64| #[trigger]
                        views@.contains_key(b) <==> listed_from(order, p as int, b)
                            && contents@.contains_key(b) by {
                        if listed_from(order, p as int, b) && contents@.contains_key(b) {
                            let k = choose|k: int| p <= k < order.len() && #[trigger] order[k] == b;
                            assert(listed_from(order, p + 1, b));
                        }
                        if listed_from(order, p + 1, b) {
                            let k = choose|k: int|
                                p + 1 <= k < order.len() && #[trigger] order[k] == b;
                            assert(p <= k < order.len() && order[k] == b);
                        }
                    }
                    assert forall|f: int| #[trigger]
                        is_first_from(order, p as int, f) && contents@.contains_key(order[f])
                            && Some(order[f]) != None::<u64> implies {
                        let vm = views@[order[f]];
                        &&& vm.file_name@ == contents@[order[f]].file_name@
                        &&& vm.files@ == files[order[f]]
                        &&& vm.wins@ == wins_of(order, files, f)
                        &&& loses_are(vm.loses@, order, files, p as int, f, none)
                    } by {
                        let b = order[f];
                        assert(f != p);
                        assert(order[p as int] != b);
                        assert(is_first_from(order, p + 1, f));
                        assert(loses_are(views@[b].loses@, order, files, p + 1, f, none));
                        assert forall|x: u64|
                            given_between(order, files, p as int, f, x) <==> given_between(
                                order,
                                files,
                                p + 1,
                                f,
                                x,
                            ) by {
                            if given_between(order, files, p as int, f, x) {
                                let k = choose|k: int|
                                    p <= k < f && k < order.len() && provides(
                                        files,
                                        #[trigger] order[k],
                                        x,
                                    );
                                assert(p + 1 <= k < f && provides(files, order[k], x));
                            }
                            if given_between(order, files, p + 1, f, x) {
                                let k = choose|k: int|
                                    p + 1 <= k < f && k < order.len() && provides(
                                        files,
                                        #[trigger] order[k],
                                        x,
                                    );
                                assert(p <= k < f && provides(files, order[k], x));
                            }
                        }
                    }
                }
            },
        }
    }
    let conflicts = keep_conflicts(&acc, load_order, contents);
    proof {
        assert forall|h: u64| acc@.contains_key(h) implies given_between(
            order,
            files,
            0,
            order.len() as int,
            h,
        ) by {
            lemma_providers(order, 0, files, h);
            assert(met_so_far(order, 0, files, none, h) == providers(order, files, h));
        }
        assert forall|h: u64| #[trigger]
            conflicts@.contains_key(h) <==> conflict_map(order, files).contains_key(h) by {
            assert(met_so_far(order, 0, files, none, h) == providers(order, files, h));
        }
        assert forall|h: u64| #[trigger] conflicts@.contains_key(h) implies conflicts@[h]@
            == conflict_map(order, files)[h] by {
            assert(met_so_far(order, 0, files, none, h) == providers(order, files, h));
        }
        assert forall|a: u64| #[trigger]
            views@.contains_key(a) <==> order.contains(a) && contents@.contains_key(a) by {
            if order.contains(a) {
                let k = choose|k: int| 0 <= k < order.len() && order[k] == a;
                assert(listed_from(order, 0, a));
            }
            if listed_from(order, 0, a) {
                let k = choose|k: int| 0 <= k < order.len() && #[trigger] order[k] == a;
                assert(order.contains(a));
            }
        }
        assert forall|f: int| #[trigger]
            is_first_position(order, f) && contents@.contains_key(order[f]) implies {
            let vm = views@[order[f]];
            &&& vm.file_name@ == contents@[order[f]].file_name@
            &&& vm.files@ == files[order[f]]
            &&& vm.wins@ == wins_of(order, files, f)
            &&& loses_are(vm.loses@, order, files, 0, f, Seq::empty())
        } by {
            assert(is_first_from(order, 0, f));
            assert(Some(order[f]) != None::<u64>);
        }
    }
    (conflicts, views)
}

} // verus!
