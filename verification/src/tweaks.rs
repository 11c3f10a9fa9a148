//! Tweak records and the hierarchy that their bases give them.
//!
//! A record belongs to a package and may name a base. The base is looked
//! for in the package of the record first and then in the packages that
//! the record imports, and the first record found is the parent.

use vstd::prelude::*;
use vstd::utf8::encode_utf8;
use std::collections::HashMap;
use crate::hash::{fnv1a64, hash_name};
use crate::load_order::{is_strictly_sorted, sorted_distinct};
use crate::rules::Name;
use crate::text::{chars_of, find_char, names, split_on, split_text, string_of};

verus! {

broadcast use vstd::std_specs::hash::group_hash_axioms;

/// A record as it stands in a tweak file.
#[derive(Debug, PartialEq, Eq)]
pub struct TweakRecord {
    pub name: String,
    pub base: Option<String>,
    pub package: String,
    pub imports: Vec<String>,
}

/// A record as plain values.
pub struct TweakRecordView {
    pub name: Name,
    pub base: Option<Name>,
    pub package: Name,
    pub imports: Seq<Name>,
}

impl View for TweakRecord {
    type V = TweakRecordView;

    open spec fn view(&self) -> TweakRecordView {
        TweakRecordView {
            name: self.name@,
            base: match self.base {
                Some(base) => Some(base@),
                None => None,
            },
            package: self.package@,
            imports: names(self.imports@),
        }
    }
}

/// The name of a record within a package.
pub open spec fn qualified(package: Name, name: Name) -> Name {
    package + seq!['.'] + name
}

/// The names under which the base of a record may be found: in its own
/// package first, then in each package it imports.
pub open spec fn candidates(package: Name, imports: Seq<Name>, base: Name) -> Seq<Name> {
    seq![qualified(package, base)] + imports.map_values(|from: Name| qualified(from, base))
}

/// The name of `name` within `package`.
pub fn qualify(package: &String, name: &String) -> (full: String)
    ensures
        full@ == qualified(package@, name@),
{
    let mut full = package.clone();
    proof {
        reveal_strlit(".");
        assert("."@ == seq!['.']);
    }
    full.append(".");
    full.append(name.as_str());
    full
}

impl TweakRecord {
    /// The name of the record within its package.
    pub fn full_name(&self) -> (full: String)
        ensures
            full@ == qualified(self.package@, self.name@),
    {
        qualify(&self.package, &self.name)
    }

    /// The names under which the base of the record may be found, or
    /// `None` for a record without a base.
    pub fn possible_base_names(&self) -> (found: Option<Vec<String>>)
        ensures
            found is Some <==> self.base is Some,
            found matches Some(list) ==> names(list@) == candidates(
                self.package@,
                names(self.imports@),
                self.base->0@,
            ),
    {
        match &self.base {
            None => None,
            Some(base) => {
                let ghost wanted = candidates(self.package@, names(self.imports@), base@);
                let mut results: Vec<String> = Vec::new();
                let first = qualify(&self.package, base);
                proof {
                    assert(names(results@.push(first)) == names(results@).push(first@));
                }
                results.push(first);
                let mut i: usize = 0;
                proof {
                    assert(names(results@) == wanted.subrange(0, 1));
                }
                while i < self.imports.len()
                    invariant
                        i <= self.imports.len(),
                        wanted == candidates(self.package@, names(self.imports@), base@),
                        names(results@) == wanted.subrange(0, i + 1),
                    decreases self.imports.len() - i,
                {
                    let next = qualify(&self.imports[i], base);
                    proof {
                        assert(names(results@.push(next)) == names(results@).push(next@));
                        assert(wanted.subrange(0, i + 2) == wanted.subrange(0, i + 1).push(next@));
                    }
                    results.push(next);
                    i += 1;
                }
                proof {
                    assert(wanted.subrange(0, i + 1) == wanted);
                }
                Some(results)
            },
        }
    }
}

/// The place of a record in the hierarchy.
#[derive(Debug, PartialEq, Eq)]
pub struct TweakRecordVm {
    /// The records whose base this record is
    pub children: Option<Vec<String>>,
    /// The base of this record
    pub parent: Option<String>,
}

/// The place of a record in the hierarchy as plain values.
pub struct TweakRecordVmView {
    pub children: Option<Seq<Name>>,
    pub parent: Option<Name>,
}

impl View for TweakRecordVm {
    type V = TweakRecordVmView;

    open spec fn view(&self) -> TweakRecordVmView {
        TweakRecordVmView {
            children: match self.children {
                Some(list) => Some(names(list@)),
                None => None,
            },
            parent: match self.parent {
                Some(parent) => Some(parent@),
                None => None,
            },
        }
    }
}

/// The records of a hierarchy by their full names.
///
/// The records stand in slots by the hashes of their names, so that a
/// record is found without a look at the others. The slots are a map from
/// numbers: of a hash map that is keyed by strings nothing could be proved,
/// since the library of the verifier knows how keys are hashed and compared
/// for numbers only.
#[derive(Debug, PartialEq, Eq)]
pub struct Hierarchy {
    /// The names of the records, in the order in which they were listed
    names: Vec<String>,
    /// Each hash with the records whose names have it
    slots: HashMap<u64, Vec<(String, TweakRecordVm)>>,
}

/// The characters of a name that may be there.
pub open spec fn name_of(name: Option<String>) -> Option<Name> {
    match name {
        Some(name) => Some(name@),
        None => None,
    }
}

/// The hash of a name.
pub open spec fn name_hash(name: Name) -> u64 {
    fnv1a64(encode_utf8(name))
}

/// Whether a record of this name is listed.
pub open spec fn lists_name(entries: Seq<(String, TweakRecordVm)>, name: Name) -> bool {
    exists|i: int| 0 <= i < entries.len() && (#[trigger] entries[i]).0@ == name
}

/// The place at which the record of this name is listed.
pub open spec fn place_of(entries: Seq<(String, TweakRecordVm)>, name: Name) -> int {
    choose|i: int| 0 <= i < entries.len() && (#[trigger] entries[i]).0@ == name
}

/// No two entries have the same name.
pub open spec fn distinct_names(entries: Seq<(String, TweakRecordVm)>) -> bool {
    forall|i: int, j: int|
        0 <= i < j < entries.len() ==> (#[trigger] entries[i]).0@ != (#[trigger] entries[j]).0@
}

/// The names of all entries have the hash `hash`.
pub open spec fn hashed_to(entries: Seq<(String, TweakRecordVm)>, hash: u64) -> bool {
    forall|i: int| 0 <= i < entries.len() ==> name_hash((#[trigger] entries[i]).0@) == hash
}

/// The records of one slot by their names.
pub open spec fn slot_map(entries: Seq<(String, TweakRecordVm)>) -> Map<Name, TweakRecordVmView> {
    Map::new(
        |name: Name| lists_name(entries, name),
        |name: Name| entries[place_of(entries, name)].1@,
    )
}

/// The records of the slot of `hash`.
pub open spec fn slot_of(
    slots: Map<u64, Vec<(String, TweakRecordVm)>>,
    hash: u64,
) -> Seq<(String, TweakRecordVm)> {
    if slots.contains_key(hash) {
        slots[hash]@
    } else {
        Seq::empty()
    }
}

/// The records of all slots by their names.
pub open spec fn slots_map(slots: Map<u64, Vec<(String, TweakRecordVm)>>) -> Map<
    Name,
    TweakRecordVmView,
> {
    Map::new(
        |name: Name| lists_name(slot_of(slots, name_hash(name)), name),
        |name: Name| slot_map(slot_of(slots, name_hash(name)))[name],
    )
}

impl View for Hierarchy {
    type V = Map<Name, TweakRecordVmView>;

    closed spec fn view(&self) -> Map<Name, TweakRecordVmView> {
        slots_map(self.slots@)
    }
}

/// What a slot holds when the entry at `at` got another place in the
/// hierarchy.
proof fn lemma_entry_changed(
    before: Seq<(String, TweakRecordVm)>,
    after: Seq<(String, TweakRecordVm)>,
    at: int,
)
    requires
        distinct_names(before),
        0 <= at < before.len(),
        after.len() == before.len(),
        after[at].0@ == before[at].0@,
        forall|k: int| 0 <= k < before.len() && k != at ==> after[k] == #[trigger] before[k],
    ensures
        distinct_names(after),
        slot_map(after) == slot_map(before).insert(before[at].0@, after[at].1@),
        forall|hash: u64| hashed_to(before, hash) ==> hashed_to(after, hash),
{
    let key = before[at].0@;
    assert forall|k: int| 0 <= k < after.len() implies (#[trigger] after[k]).0@ == before[k].0@ by {}
    assert forall|n: Name| lists_name(after, n) <==> lists_name(before, n) by {
        if lists_name(after, n) {
            let k = place_of(after, n);
            assert(before[k].0@ == n);
        }
        if lists_name(before, n) {
            let k = place_of(before, n);
            assert(after[k].0@ == n);
        }
    }
    assert forall|n: Name| lists_name(after, n) implies #[trigger] slot_map(after)[n] == slot_map(
        before,
    ).insert(key, after[at].1@)[n] by {
        let k = place_of(after, n);
        assert(before[k].0@ == n);
        assert(place_of(before, n) == k);
        if n == key {
            assert(k == at);
        }
    }
    assert(slot_map(after) =~= slot_map(before).insert(key, after[at].1@));
}

/// What a slot holds when it got one more entry.
proof fn lemma_entry_added(before: Seq<(String, TweakRecordVm)>, entry: (String, TweakRecordVm))
    requires
        distinct_names(before),
        !lists_name(before, entry.0@),
    ensures
        distinct_names(before.push(entry)),
        slot_map(before.push(entry)) == slot_map(before).insert(entry.0@, entry.1@),
        forall|hash: u64|
            hashed_to(before, hash) && name_hash(entry.0@) == hash ==> hashed_to(
                before.push(entry),
                hash,
            ),
{
    let after = before.push(entry);
    let key = entry.0@;
    assert forall|k: int| 0 <= k < before.len() implies after[k] == #[trigger] before[k] by {}
    assert(after[before.len() as int] == entry);
    assert forall|n: Name| lists_name(after, n) <==> lists_name(before, n) || n == key by {
        if lists_name(after, n) && n != key {
            let k = place_of(after, n);
            assert(before[k].0@ == n);
        }
        if lists_name(before, n) {
            let k = place_of(before, n);
            assert(after[k].0@ == n);
        }
    }
    assert forall|n: Name| lists_name(after, n) implies #[trigger] slot_map(after)[n] == slot_map(
        before,
    ).insert(key, entry.1@)[n] by {
        let k = place_of(after, n);
        if n == key {
            assert(k == before.len());
        } else {
            assert(before[k] == after[k]);
            assert(place_of(before, n) == k);
        }
    }
    assert(slot_map(after) =~= slot_map(before).insert(key, entry.1@));
}

/// What a hierarchy holds when the slot of `hash` got the entries `after`,
/// with which it holds `value` under `key`.
proof fn lemma_slot_changed(
    slots: Map<u64, Vec<(String, TweakRecordVm)>>,
    hash: u64,
    after: Vec<(String, TweakRecordVm)>,
    key: Name,
    value: TweakRecordVmView,
)
    requires
        name_hash(key) == hash,
        slot_map(after@) == slot_map(slot_of(slots, hash)).insert(key, value),
    ensures
        slots_map(slots.insert(hash, after)) == slots_map(slots).insert(key, value),
{
    let changed = slots.insert(hash, after);
    assert forall|n: Name|
        slots_map(changed).contains_key(n) <==> slots_map(slots).insert(key, value).contains_key(
            n,
        ) by {
        if name_hash(n) == hash {
            assert(slot_of(changed, hash) == after@);
            assert(slot_map(after@).contains_key(n) <==> slot_map(slot_of(slots, hash)).insert(
                key,
                value,
            ).contains_key(n));
        } else {
            assert(slot_of(changed, name_hash(n)) == slot_of(slots, name_hash(n)));
        }
    }
    assert forall|n: Name| slots_map(changed).contains_key(n) implies #[trigger] slots_map(
        changed,
    )[n] == slots_map(slots).insert(key, value)[n] by {
        if name_hash(n) == hash {
            assert(slot_of(changed, hash) == after@);
            assert(slot_map(after@)[n] == slot_map(slot_of(slots, hash)).insert(key, value)[n]);
        } else {
            assert(slot_of(changed, name_hash(n)) == slot_of(slots, name_hash(n)));
        }
    }
    assert(slots_map(changed) =~= slots_map(slots).insert(key, value));
}

/// The place at which a slot lists the record `name`.
fn find_in(entries: &Vec<(String, TweakRecordVm)>, name: &String) -> (found: Option<usize>)
    ensures
        found is Some <==> lists_name(entries@, name@),
        found matches Some(i) ==> i < entries@.len() && entries@[i as int].0@ == name@,
{
    let mut i: usize = 0;
    while i < entries.len()
        invariant
            i <= entries.len(),
            forall|k: int| 0 <= k < i ==> (#[trigger] entries@[k]).0@ != name@,
        decreases entries.len() - i,
    {
        if entries[i].0 == *name {
            return Some(i);
        }
        i += 1;
    }
    None
}

impl Hierarchy {
    /// The names of the records, in the order in which they were listed.
    pub closed spec fn listed(&self) -> Seq<Name> {
        names(self.names@)
    }

    /// Every record stands once in the slot of its name, and the names
    /// list every record once.
    pub closed spec fn well_formed(&self) -> bool {
        &&& forall|hash: u64| #[trigger]
            self.slots@.contains_key(hash) ==> distinct_names(self.slots@[hash]@) && hashed_to(
                self.slots@[hash]@,
                hash,
            )
        &&& names(self.names@).no_duplicates()
        &&& forall|name: Name| names(self.names@).contains(name) <==> self@.contains_key(name)
    }

    /// What the names of a hierarchy say of its records.
    pub proof fn lemma_listed(&self)
        requires
            self.well_formed(),
        ensures
            self.listed().no_duplicates(),
            forall|name: Name| self.listed().contains(name) <==> self@.contains_key(name),
    {
    }

    /// A hierarchy without records.
    pub fn new() -> (made: Hierarchy)
        ensures
            made.well_formed(),
            made@ == Map::<Name, TweakRecordVmView>::empty(),
            made.listed().len() == 0,
    {
        let made = Hierarchy { names: Vec::new(), slots: HashMap::new() };
        proof {
            assert(made@ =~= Map::<Name, TweakRecordVmView>::empty());
        }
        made
    }

    /// The number of records.
    pub fn len(&self) -> (count: usize)
        ensures
            count == self.listed().len(),
    {
        self.names.len()
    }

    /// Whether there is no record.
    pub fn is_empty(&self) -> (empty: bool)
        ensures
            empty == (self.listed().len() == 0),
    {
        self.names.len() == 0
    }

    /// The names of the records, in the order in which they were listed.
    pub fn names(&self) -> (list: &Vec<String>)
        ensures
            names(list@) == self.listed(),
    {
        &self.names
    }

    /// The place of the record `name` in the hierarchy.
    pub fn get(&self, name: &String) -> (found: Option<&TweakRecordVm>)
        requires
            self.well_formed(),
        ensures
            found is Some <==> self@.contains_key(name@),
            found matches Some(vm) ==> vm@ == self@[name@],
    {
        let hash: u64 = hash_name(name.as_str());
        match self.slots.get(&hash) {
            Some(entries) => match find_in(entries, name) {
                Some(i) => {
                    assert(place_of(entries@, name@) == i);
                    Some(&entries[i].1)
                },
                None => None,
            },
            None => None,
        }
    }

    /// Whether the record `name` is listed.
    pub fn contains_key(&self, name: &String) -> (found: bool)
        ensures
            found == self@.contains_key(name@),
    {
        let hash: u64 = hash_name(name.as_str());
        match self.slots.get(&hash) {
            Some(entries) => find_in(entries, name).is_some(),
            None => false,
        }
    }

    /// Takes the slot of `hash` out of the hierarchy.
    fn take_slot(&mut self, hash: u64) -> (entries: Vec<(String, TweakRecordVm)>)
        ensures
            entries@ == slot_of(old(self).slots@, hash),
            final(self).slots@ == old(self).slots@.remove(hash),
            final(self).listed() == old(self).listed(),
    {
        match self.slots.remove(&hash) {
            Some(entries) => entries,
            None => Vec::new(),
        }
    }

    /// Lists the record `name` with the place `vm`, in the stead of the
    /// record of that name where there is one.
    pub fn insert(&mut self, name: String, vm: TweakRecordVm)
        requires
            old(self).well_formed(),
        ensures
            final(self).well_formed(),
            final(self)@ == old(self)@.insert(name@, vm@),
            final(self).listed() == if old(self)@.contains_key(name@) {
                old(self).listed()
            } else {
                old(self).listed().push(name@)
            },
    {
        let ghost key = name@;
        let ghost value = vm@;
        let ghost slots = self.slots@;
        let ghost listed = names(self.names@);
        let hash: u64 = hash_name(name.as_str());
        let mut entries = self.take_slot(hash);
        let ghost before = entries@;
        match find_in(&entries, &name) {
            Some(i) => {
                proof {
                    assert(name_hash(key) == hash);
                    assert(lists_name(slot_of(slots, hash), key));
                    assert(old(self)@.contains_key(key));
                    assert(listed.contains(key));
                }
                entries.set(i, (name, vm));
                proof {
                    lemma_entry_changed(before, entries@, i as int);
                }
            },
            None => {
                let label = name.clone();
                proof {
                    lemma_entry_added(before, (name, vm));
                    assert(name_hash(key) == hash);
                    assert(!lists_name(slot_of(slots, hash), key));
                    assert(!old(self)@.contains_key(key));
                    assert(!listed.contains(key));
                    assert(names(self.names@.push(label)) == listed.push(key));
                }
                self.names.push(label);
                entries.push((name, vm));
            },
        }
        self.slots.insert(hash, entries);
        proof {
            assert(self.slots@ =~= slots.insert(hash, entries));
            lemma_slot_changed(slots, hash, entries, key, value);
            let now = names(self.names@);
            assert forall|n: Name| now.contains(n) <==> self@.contains_key(n) by {
                if now.len() > listed.len() {
                    assert(now == listed.push(key));
                    if listed.contains(n) {
                        let k = choose|k: int| 0 <= k < listed.len() && listed[k] == n;
                        assert(now[k] == n);
                    }
                    if now.contains(n) {
                        let k = choose|k: int| 0 <= k < now.len() && now[k] == n;
                        if k < listed.len() {
                            assert(listed[k] == n);
                        }
                    }
                    assert(now[listed.len() as int] == key);
                } else {
                    assert(now == listed);
                    assert(listed.contains(key));
                }
            }
        }
    }

    /// Gives the record `name` one more child.
    fn add_child(&mut self, name: &String, child: String)
        requires
            old(self).well_formed(),
            old(self)@.contains_key(name@),
        ensures
            final(self).well_formed(),
            final(self)@ == old(self)@.insert(name@, with_child(old(self)@[name@], child@)),
            final(self).listed() == old(self).listed(),
    {
        let ghost slots = self.slots@;
        let hash: u64 = hash_name(name.as_str());
        let mut entries = self.take_slot(hash);
        let ghost before = entries@;
        if let Some(at) = find_in(&entries, name) {
            proof {
                assert(place_of(before, name@) == at);
            }
            match &mut entries[at].1.children {
                Some(children) => {
                    proof {
                        assert(names(children@.push(child)) == names(children@).push(child@));
                    }
                    children.push(child);
                },
                none => {
                    let mut list: Vec<String> = Vec::new();
                    proof {
                        assert(names(list@.push(child)) == seq![child@]);
                    }
                    list.push(child);
                    *none = Some(list);
                },
            }
            proof {
                assert(entries@[at as int].0 == before[at as int].0);
                assert(entries@[at as int].1@ == with_child(before[at as int].1@, child@));
                lemma_entry_changed(before, entries@, at as int);
            }
        }
        self.slots.insert(hash, entries);
        proof {
            assert(self.slots@ =~= slots.insert(hash, entries));
            lemma_slot_changed(slots, hash, entries, name@, with_child(old(self)@[name@], child@));
        }
    }

    /// Sets the parent of the record `name`.
    fn set_parent(&mut self, name: &String, parent: Option<String>)
        requires
            old(self).well_formed(),
            old(self)@.contains_key(name@),
        ensures
            final(self).well_formed(),
            final(self)@ == old(self)@.insert(
                name@,
                with_parent(old(self)@[name@], name_of(parent)),
            ),
            final(self).listed() == old(self).listed(),
    {
        let ghost slots = self.slots@;
        let ghost wanted = with_parent(old(self)@[name@], name_of(parent));
        let hash: u64 = hash_name(name.as_str());
        let mut entries = self.take_slot(hash);
        let ghost before = entries@;
        if let Some(at) = find_in(&entries, name) {
            proof {
                assert(place_of(before, name@) == at);
            }
            entries[at].1.parent = parent;
            proof {
                assert(entries@[at as int].0 == before[at as int].0);
                assert(entries@[at as int].1@ == wanted);
                lemma_entry_changed(before, entries@, at as int);
            }
        }
        self.slots.insert(hash, entries);
        proof {
            assert(self.slots@ =~= slots.insert(hash, entries));
            lemma_slot_changed(slots, hash, entries, name@, wanted);
        }
    }
}

/// A record with one more child.
pub open spec fn with_child(vm: TweakRecordVmView, child: Name) -> TweakRecordVmView {
    TweakRecordVmView {
        children: Some(
            match vm.children {
                Some(list) => list.push(child),
                None => seq![child],
            },
        ),
        parent: vm.parent,
    }
}

/// A record with this parent.
pub open spec fn with_parent(vm: TweakRecordVmView, parent: Option<Name>) -> TweakRecordVmView {
    TweakRecordVmView { children: vm.children, parent }
}

/// The records by their full names, each without parent and children. Of
/// two records with the same full name one is listed.
pub open spec fn registered(records: Seq<TweakRecord>) -> Map<Name, TweakRecordVmView>
    decreases records.len(),
{
    if records.len() == 0 {
        Map::empty()
    } else {
        registered(records.drop_last()).insert(
            qualified(records.last().package@, records.last().name@),
            TweakRecordVmView { children: None, parent: None },
        )
    }
}

/// The first of `names` that is the full name of a record.
pub open spec fn first_known(list: Seq<Name>, known: Map<Name, TweakRecordVmView>) -> Option<Name>
    decreases list.len(),
{
    if list.len() == 0 {
        None
    } else if known.contains_key(list[0]) {
        Some(list[0])
    } else {
        first_known(list.drop_first(), known)
    }
}

/// The hierarchy `vms` with the record `r` linked to its base: the first
/// record that one of its possible base names names gets `r` as a child and
/// becomes its parent. A record without a base stays as it is, and one
/// whose base is not found has no parent.
pub open spec fn linked(vms: Map<Name, TweakRecordVmView>, r: TweakRecordView) -> Map<
    Name,
    TweakRecordVmView,
> {
    let full = qualified(r.package, r.name);
    match r.base {
        None => vms,
        Some(base) => {
            let parent = first_known(candidates(r.package, r.imports, base), vms);
            let adopted = match parent {
                Some(p) => vms.insert(p, with_child(vms[p], full)),
                None => vms,
            };
            if adopted.contains_key(full) {
                adopted.insert(full, with_parent(adopted[full], parent))
            } else {
                adopted
            }
        },
    }
}

/// The hierarchy `vms` with each of `records` linked to its base, in the
/// order of the records.
pub open spec fn linked_all(vms: Map<Name, TweakRecordVmView>, records: Seq<TweakRecord>) -> Map<
    Name,
    TweakRecordVmView,
>
    decreases records.len(),
{
    if records.len() == 0 {
        vms
    } else {
        linked(linked_all(vms, records.drop_last()), records.last()@)
    }
}

/// The hierarchy of the records.
pub open spec fn hierarchy_of(records: Seq<TweakRecord>) -> Map<Name, TweakRecordVmView> {
    linked_all(registered(records), records)
}

/// Whether one of the records has this full name.
pub open spec fn names_record(records: Seq<TweakRecord>, full: Name) -> bool {
    exists|i: int|
        0 <= i < records.len() && qualified(
            (#[trigger] records[i]).package@,
            records[i].name@,
        ) == full
}

/// The registered records are those that the list names.
pub proof fn lemma_registered_names(records: Seq<TweakRecord>, full: Name)
    ensures
        registered(records).contains_key(full) <==> names_record(records, full),
    decreases records.len(),
{
    if records.len() > 0 {
        let earlier = records.drop_last();
        lemma_registered_names(earlier, full);
        if names_record(earlier, full) {
            let i = choose|i: int|
                0 <= i < earlier.len() && qualified(
                    (#[trigger] earlier[i]).package@,
                    earlier[i].name@,
                ) == full;
            assert(records[i] == earlier[i]);
        }
        if names_record(records, full) {
            let i = choose|i: int|
                0 <= i < records.len() && qualified(
                    (#[trigger] records[i]).package@,
                    records[i].name@,
                ) == full;
            if i < earlier.len() {
                assert(earlier[i] == records[i]);
            }
        }
        assert(records[records.len() - 1] == records.last());
    }
}

/// Linking keeps the records that a hierarchy holds.
pub proof fn lemma_linked_keeps_names(
    vms: Map<Name, TweakRecordVmView>,
    records: Seq<TweakRecord>,
    full: Name,
)
    ensures
        linked_all(vms, records).contains_key(full) <==> vms.contains_key(full),
    decreases records.len(),
{
    if records.len() > 0 {
        let before = linked_all(vms, records.drop_last());
        lemma_linked_keeps_names(vms, records.drop_last(), full);
        let r = records.last()@;
        if r.base is Some {
            lemma_first_known_is_known(candidates(r.package, r.imports, r.base->0), before);
        }
    }
}

/// The first known name of a list is a known name.
pub proof fn lemma_first_known_is_known(list: Seq<Name>, known: Map<Name, TweakRecordVmView>)
    ensures
        first_known(list, known) matches Some(name) ==> known.contains_key(name),
    decreases list.len(),
{
    if list.len() > 0 && !known.contains_key(list[0]) {
        lemma_first_known_is_known(list.drop_first(), known);
    }
}

/// A copy of `name`.
fn copy_name(name: &String) -> (copy: String)
    ensures
        copy@ == name@,
{
    name.clone()
}

/// Builds the hierarchy of the records. It holds every record that the
/// list names, once.
pub fn get_hierarchy(records: Vec<TweakRecord>) -> (vms: Hierarchy)
    ensures
        vms.well_formed(),
        vms@ == hierarchy_of(records@),
        forall|full: Name| #[trigger] vms@.contains_key(full) <==> names_record(records@, full),
{
    let mut vms = Hierarchy::new();
    let mut i: usize = 0;
    proof {
        assert(records@.subrange(0, 0) =~= Seq::<TweakRecord>::empty());
    }
    while i < records.len()
        invariant
            i <= records.len(),
            vms.well_formed(),
            vms@ == registered(records@.subrange(0, i as int)),
        decreases records.len() - i,
    {
        proof {
            let next = records@.subrange(0, i + 1);
            assert(next.drop_last() == records@.subrange(0, i as int));
            assert(next.last() == records@[i as int]);
        }
        let v = TweakRecordVm { children: None, parent: None };
        vms.insert(records[i].full_name(), v);
        i += 1;
    }
    let ghost start = vms@;
    let mut k: usize = 0;
    proof {
        assert(records@.subrange(0, i as int) == records@);
        assert(records@.subrange(0, 0) =~= Seq::<TweakRecord>::empty());
    }
    while k < records.len()
        invariant
            k <= records.len(),
            vms.well_formed(),
            start == registered(records@),
            vms@ == linked_all(start, records@.subrange(0, k as int)),
        decreases records.len() - k,
    {
        let r = &records[k];
        let ghost before = vms@;
        proof {
            let next = records@.subrange(0, k + 1);
            assert(next.drop_last() == records@.subrange(0, k as int));
            assert(next.last() == records@[k as int]);
        }
        if let Some(base_names) = r.possible_base_names() {
            let full = r.full_name();
            let ghost wanted = names(base_names@);
            let mut parent_name: Option<String> = None;
            let mut b: usize = 0;
            proof {
                assert(wanted.subrange(0, wanted.len() as int) == wanted);
            }
            while b < base_names.len()
                invariant_except_break
                    vms@ == before,
                    parent_name is None,
                    first_known(wanted, before) == first_known(
                        wanted.subrange(b as int, wanted.len() as int),
                        before,
                    ),
                invariant
                    b <= base_names.len(),
                    vms.well_formed(),
                    wanted == names(base_names@),
                ensures
                    vms.well_formed(),
                    match parent_name {
                        Some(p) => first_known(wanted, before) == Some(p@) && vms@
                            == before.insert(p@, with_child(before[p@], full@)),
                        None => first_known(wanted, before) is None && vms@ == before,
                    },
                decreases base_names.len() - b,
            {
                let ghost todo = wanted.subrange(b as int, wanted.len() as int);
                proof {
                    assert(todo[0] == base_names[b as int]@);
                    assert(todo.drop_first() == wanted.subrange(b + 1, wanted.len() as int));
                }
                let base_name = &base_names[b];
                if vms.contains_key(base_name) {
                    vms.add_child(base_name, copy_name(&full));
                    parent_name = Some(copy_name(base_name));
                    break ;
                }
                b += 1;
            }
            if vms.contains_key(&full) {
                vms.set_parent(&full, parent_name);
            }
        }
        k += 1;
    }
    proof {
        assert(records@.subrange(0, k as int) == records@);
        assert forall|full: Name| #[trigger]
            vms@.contains_key(full) <==> names_record(records@, full) by {
            lemma_linked_keeps_names(start, records@, full);
            lemma_registered_names(records@, full);
        }
    }
    vms
}

/// The record `name`, its parent, the parent of its parent and so on, as
/// far as they are records of the hierarchy, and `fuel` records at most.
pub open spec fn ancestry(vms: Map<Name, TweakRecordVmView>, name: Name, fuel: nat) -> Seq<Name>
    decreases fuel,
{
    if fuel == 0 || !vms.contains_key(name) {
        Seq::empty()
    } else {
        seq![name] + match vms[name].parent {
            Some(parent) => ancestry(vms, parent, (fuel - 1) as nat),
            None => Seq::empty(),
        }
    }
}

/// The record and its ancestors, the nearest first. The list has as many
/// names as the hierarchy has records at most, so that it ends where the
/// parents run in a circle.
pub fn get_parents(vms: &Hierarchy, record: &String) -> (result: Vec<String>)
    requires
        vms.well_formed(),
    ensures
        names(result@) == ancestry(vms@, record@, vms.listed().len()),
{
    let mut result: Vec<String> = Vec::new();
    let mut current = copy_name(record);
    let mut fuel: usize = vms.len();
    let ghost whole = ancestry(vms@, record@, vms.listed().len());
    proof {
        assert(names(result@) + whole == whole);
    }
    while fuel > 0
        invariant_except_break
            whole == names(result@) + ancestry(vms@, current@, fuel as nat),
        invariant
            vms.well_formed(),
        ensures
            whole == names(result@),
        decreases fuel,
    {
        let ghost so_far = names(result@);
        match vms.get(&current) {
            None => {
                proof {
                    assert(so_far + Seq::<Name>::empty() == so_far);
                }
                break ;
            },
            Some(vm) => {
                let item = copy_name(&current);
                proof {
                    assert(names(result@.push(item)) == so_far.push(current@));
                }
                result.push(item);
                match &vm.parent {
                    Some(parent) => {
                        proof {
                            let rest = ancestry(vms@, parent@, (fuel - 1) as nat);
                            assert(so_far + (seq![current@] + rest) == so_far.push(current@) + rest);
                        }
                        current = copy_name(parent);
                    },
                    None => {
                        proof {
                            assert(so_far + (seq![current@] + Seq::<Name>::empty())
                                == so_far.push(current@));
                        }
                        break ;
                    },
                }
            },
        }
        fuel -= 1;
    }
    proof {
        if fuel == 0 {
            assert(names(result@) + Seq::<Name>::empty() == names(result@));
        }
    }
    result
}

/// The records below the record `name`: its children, each followed by
/// the records below it, down to `fuel` generations.
pub open spec fn below(vms: Map<Name, TweakRecordVmView>, name: Name, fuel: nat) -> Seq<Name>
    decreases fuel, 0nat,
{
    if fuel == 0 || !vms.contains_key(name) {
        Seq::empty()
    } else {
        match vms[name].children {
            Some(list) => below_each(vms, list, (fuel - 1) as nat),
            None => Seq::empty(),
        }
    }
}

/// Each record of `list`, followed by the records below it.
pub open spec fn below_each(vms: Map<Name, TweakRecordVmView>, list: Seq<Name>, fuel: nat) -> Seq<
    Name,
>
    decreases fuel, list.len() + 1,
{
    if list.len() == 0 {
        Seq::empty()
    } else {
        below_each(vms, list.drop_last(), fuel) + seq![list.last()] + below(
            vms,
            list.last(),
            fuel,
        )
    }
}

/// Appends the records below `name` to `out`.
fn collect_below(vms: &Hierarchy, name: &String, fuel: usize, out: &mut Vec<String>)
    requires
        vms.well_formed(),
    ensures
        names(final(out)@) == names(old(out)@) + below(vms@, name@, fuel as nat),
    decreases fuel,
{
    let ghost start = names(out@);
    proof {
        assert(start + Seq::<Name>::empty() == start);
    }
    if fuel == 0 {
        return ;
    }
    if let Some(vm) = vms.get(name) {
        if let Some(children) = &vm.children {
            let ghost list = names(children@);
            let mut i: usize = 0;
            proof {
                assert(list.subrange(0, 0) =~= Seq::<Name>::empty());
            }
            while i < children.len()
                invariant
                    i <= children.len(),
                    vms.well_formed(),
                    fuel > 0,
                    list == names(children@),
                    names(out@) == start + below_each(
                        vms@,
                        list.subrange(0, i as int),
                        (fuel - 1) as nat,
                    ),
                decreases children.len() - i,
            {
                let ghost done = below_each(vms@, list.subrange(0, i as int), (fuel - 1) as nat);
                let ghost so_far = names(out@);
                let child = &children[i];
                let item = copy_name(child);
                proof {
                    let next = list.subrange(0, i + 1);
                    assert(next.drop_last() == list.subrange(0, i as int));
                    assert(next.last() == child@);
                    assert(names(out@.push(item)) == so_far.push(child@));
                    let under = below(vms@, child@, (fuel - 1) as nat);
                    assert(start + (done + seq![child@] + under) == (start + done).push(child@)
                        + under);
                }
                out.push(item);
                collect_below(vms, child, fuel - 1, out);
                i += 1;
            }
            proof {
                assert(list.subrange(0, i as int) == list);
            }
        }
    }
}

/// The records below `record` with the records below them, in binary
/// order, each once. The search goes as many generations down as the
/// hierarchy has records, which reaches every record below.
pub fn get_children_recursive(vms: &Hierarchy, record: &String) -> (result: Vec<String>)
    requires
        vms.well_formed(),
    ensures
        is_strictly_sorted(names(result@)),
        forall|x: Name|
            names(result@).contains(x) <==> below(vms@, record@, vms.listed().len()).contains(x),
{
    let mut found: Vec<String> = Vec::new();
    let fuel: usize = vms.len();
    proof {
        assert(names(found@) + below(vms@, record@, fuel as nat) == below(
            vms@,
            record@,
            fuel as nat,
        ));
    }
    collect_below(vms, record, fuel, &mut found);
    sorted_distinct(&found)
}

/// The packages of all names that hold a dot.
pub open spec fn packages_of(list: Seq<Name>) -> Seq<Name>
    decreases list.len(),
{
    if list.len() == 0 {
        Seq::empty()
    } else if list.last().contains('.') {
        packages_of(list.drop_last()).push(first_part(list.last()))
    } else {
        packages_of(list.drop_last())
    }
}

/// The place of the first dot of `full`, or its length where it has none.
pub open spec fn first_dot(full: Name) -> int
    decreases full.len(),
{
    if full.len() == 0 {
        0
    } else if full[0] == '.' {
        0
    } else {
        1 + first_dot(full.drop_first())
    }
}

/// The part of a name before its first dot.
pub open spec fn first_part(full: Name) -> Name {
    full.subrange(0, first_dot(full))
}

/// The first dot of a name stands where no dot stands before.
pub proof fn lemma_first_dot(full: Name, at: int)
    requires
        0 <= at < full.len(),
        full[at] == '.',
        forall|k: int| 0 <= k < at ==> full[k] != '.',
    ensures
        first_dot(full) == at,
    decreases full.len(),
{
    if at > 0 {
        lemma_first_dot(full.drop_first(), at - 1);
    }
}

/// The packages of the records `list`, in binary order, each once. A name
/// without a dot names no package.
pub fn get_package_names(list: &Vec<String>) -> (packages: Vec<String>)
    ensures
        is_strictly_sorted(names(packages@)),
        forall|x: Name| names(packages@).contains(x) <==> packages_of(names(list@)).contains(x),
{
    let mut found: Vec<String> = Vec::new();
    let mut i: usize = 0;
    proof {
        assert(names(list@).subrange(0, 0) =~= Seq::<Name>::empty());
    }
    while i < list.len()
        invariant
            i <= list.len(),
            names(found@) == packages_of(names(list@).subrange(0, i as int)),
        decreases list.len() - i,
    {
        let text = list[i].as_str();
        proof {
            let next = names(list@).subrange(0, i + 1);
            assert(next.drop_last() == names(list@).subrange(0, i as int));
            assert(next.last() == text@);
        }
        match find_char(text, '.') {
            Some(at) => {
                let chars = chars_of(text);
                let package = string_of(&chars, 0, at);
                proof {
                    lemma_first_dot(text@, at as int);
                    assert(text@.contains('.'));
                    assert(names(found@.push(package)) == names(found@).push(package@));
                }
                found.push(package);
            },
            None => {},
        }
        i += 1;
    }
    proof {
        assert(names(list@).subrange(0, i as int) == names(list@));
    }
    sorted_distinct(&found)
}

/// The line that lists the record `name` as an instance.
pub open spec fn instance_line(name: Name) -> Seq<char> {
    "    - { name: "@ + name + " }\n"@
}

/// The instance lines of those of `children` that belong to `package`.
pub open spec fn instance_lines(children: Seq<Name>, package: Name) -> Seq<char>
    decreases children.len(),
{
    if children.len() == 0 {
        Seq::empty()
    } else {
        let parts = split_on(children.last(), "."@);
        let earlier = instance_lines(children.drop_last(), package);
        if parts.len() >= 2 && parts[0] == package {
            earlier + instance_line(parts[1])
        } else {
            earlier
        }
    }
}

/// The text that lists the record `current` and its children of the same
/// package as instances. A record whose name holds no dot has none.
pub open spec fn instances_of(current: Name, children: Seq<Name>) -> Option<Seq<char>> {
    let parts = split_on(current, "."@);
    if parts.len() >= 2 {
        Some(
            parts[0] + ".$(name):\n  $instances:\n"@ + instance_line(parts[1]) + instance_lines(
                children,
                parts[0],
            ),
        )
    } else {
        None
    }
}

/// Writes the text that lists a record and its children of the same
/// package as instances.
pub fn instances_text(current: &String, children: &Vec<String>) -> (text: Option<String>)
    ensures
        match text {
            Some(t) => instances_of(current@, names(children@)) == Some(t@),
            None => instances_of(current@, names(children@)) is None,
        },
{
    proof {
        reveal_strlit(".");
    }
    let parts = split_text(current.as_str(), ".");
    if parts.len() < 2 {
        return None;
    }
    let package = &parts[0];
    let ghost listed = names(children@);
    let mut text = package.clone();
    text.append(".$(name):\n  $instances:\n");
    text.append("    - { name: ");
    text.append(parts[1].as_str());
    text.append(" }\n");
    let ghost head = text@;
    let mut i: usize = 0;
    proof {
        assert(head =~= package@ + ".$(name):\n  $instances:\n"@ + instance_line(parts@[1]@));
        assert(listed.subrange(0, 0) =~= Seq::<Name>::empty());
        assert(head + Seq::<char>::empty() == head);
    }
    while i < children.len()
        invariant
            i <= children.len(),
            "."@.len() == 1,
            listed == names(children@),
            text@ == head + instance_lines(listed.subrange(0, i as int), package@),
        decreases children.len() - i,
    {
        let ghost done = instance_lines(listed.subrange(0, i as int), package@);
        proof {
            let next = listed.subrange(0, i + 1);
            assert(next.drop_last() == listed.subrange(0, i as int));
            assert(next.last() == children@[i as int]@);
        }
        let child = split_text(children[i].as_str(), ".");
        if child.len() >= 2 && child[0] == *package {
            text.append("    - { name: ");
            text.append(child[1].as_str());
            text.append(" }\n");
            proof {
                assert(text@ =~= head + (done + instance_line(child@[1]@)));
            }
        }
        i += 1;
    }
    proof {
        assert(listed.subrange(0, i as int) == listed);
    }
    Some(text)
}

/// The tweak browser.
pub struct TemplateApp {
    /// The hierarchy of the records, once it was built
    pub vms: Option<Hierarchy>,
    /// The folder of the tweak files
    pub gamepath: String,
    pub show_setup: bool,
    /// The packages of all records
    pub packages: Vec<String>,
    /// The packages of the records that the query finds
    pub filtered_packages: Vec<String>,
    /// Whether the filtered packages have to be set anew
    pub regenerate_filtered_packages: bool,
    pub filter: String,
    pub filter_package: String,
    pub query: String,
    /// The record that is shown
    pub current_record_name: String,
}

impl Default for TemplateApp {
    fn default() -> (app: TemplateApp)
        ensures
            app.vms is None,
            app.regenerate_filtered_packages,
            !app.show_setup,
            app.packages@.len() == 0,
            app.gamepath@.len() == 0,
    {
        TemplateApp {
            vms: None,
            gamepath: String::new(),
            show_setup: false,
            packages: Vec::new(),
            filtered_packages: Vec::new(),
            regenerate_filtered_packages: true,
            filter: String::new(),
            filter_package: String::new(),
            query: String::new(),
            current_record_name: String::new(),
        }
    }
}

impl TemplateApp {
    /// Whether the setup was done: the folder of the tweak files is there,
    /// and the hierarchy holds a record.
    pub fn check_health(&self, folder_exists: bool) -> (healthy: bool)
        ensures
            healthy == (folder_exists && self.vms is Some && self.vms->0.listed().len() > 0),
    {
        if !folder_exists {
            return false;
        }
        if let Some(vms) = &self.vms {
            return !vms.is_empty();
        }
        false
    }

    /// Builds the hierarchy from the records that were read in the folder
    /// of the tweak files. Nothing is done where the folder is not there,
    /// and nothing but the hierarchy changes where it is.
    pub fn first_setup(&mut self, folder_exists: bool, records: Vec<TweakRecord>)
        ensures
            !folder_exists ==> final(self).vms == old(self).vms,
            folder_exists ==> final(self).vms is Some && final(self).vms->0.well_formed()
                && final(self).vms->0@ == hierarchy_of(records@),
            final(self).gamepath == old(self).gamepath,
            final(self).show_setup == old(self).show_setup,
            final(self).packages == old(self).packages,
            final(self).filtered_packages == old(self).filtered_packages,
            final(self).regenerate_filtered_packages == old(self).regenerate_filtered_packages,
            final(self).filter == old(self).filter,
            final(self).filter_package == old(self).filter_package,
            final(self).query == old(self).query,
            final(self).current_record_name == old(self).current_record_name,
    {
        if !folder_exists {
            return ;
        }
        let vms = get_hierarchy(records);
        self.vms = Some(vms);
    }
}

} // verus!