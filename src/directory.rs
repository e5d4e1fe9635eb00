//! The mods directory: the package index keyed by name together with the
//! enablement records that are persisted in the mod list.

use vstd::prelude::*;
use crate::version::{opt_req_matches, opt_matches, Requirement, Version};
use crate::index::{
    sorted_insert, strictly_ascending, versions_of, lemma_sorted_insert, ModEntry, ModIdent,
};
use crate::settings::ModSettings;

verus! {

/// One mod name with its installed versions, ascending.
#[derive(Debug)]
pub struct ModSlot {
    pub name: Vec<u8>,
    pub entries: Vec<ModEntry>,
}

/// One enablement record of the mod list.
#[derive(Clone, Debug)]
pub struct ModListJsonMod {
    pub name: Vec<u8>,
    pub version: Option<Version>,
    pub enabled: bool,
}

/// The persisted mod list.
#[derive(Clone, Debug)]
pub struct ModListJson {
    pub mods: Vec<ModListJsonMod>,
}

/// Why an operation on the directory failed.
#[derive(Clone, Debug)]
pub enum ModError {
    /// No installed version of the named mod answers the request.
    NotFound(Vec<u8>),
    /// A requirement on the named mod matches no installed version.
    NoMatchingVersion(Vec<u8>),
    /// The mod `name` declares itself incompatible with the enabled `other`.
    DependencyConflict { name: Vec<u8>, other: Vec<u8> },
    /// The descriptor of the named mod is not available.
    InvalidDescriptor(Vec<u8>),
}

/// What a record says: name, pinned version, enabled.
pub type RecordView = (Seq<u8>, Option<Version>, bool);

pub open spec fn record_view(r: ModListJsonMod) -> RecordView {
    (r.name@, r.version, r.enabled)
}

pub open spec fn records_view(l: Seq<ModListJsonMod>) -> Seq<RecordView> {
    l.map_values(|r: ModListJsonMod| record_view(r))
}

/// The name of the game's own package.
pub open spec fn base_name() -> Seq<u8> {
    seq![98u8, 97u8, 115u8, 101u8]
}

pub open spec fn names_unique(l: Seq<RecordView>) -> bool {
    forall|i: int, j: int| 0 <= i < j < l.len() ==> (#[trigger] l[i]).0 != (#[trigger] l[j]).0
}

pub open spec fn has_record(l: Seq<RecordView>, name: Seq<u8>) -> bool {
    exists|i: int| 0 <= i < l.len() && (#[trigger] l[i]).0 == name
}

pub open spec fn record_at(l: Seq<RecordView>, name: Seq<u8>) -> int {
    choose|i: int| 0 <= i < l.len() && (#[trigger] l[i]).0 == name
}

/// True when the record of `name` says enabled.
pub open spec fn is_enabled(l: Seq<RecordView>, name: Seq<u8>) -> bool {
    exists|i: int| 0 <= i < l.len() && (#[trigger] l[i]).0 == name && l[i].2
}

/// The records after enabling `name` with the pin `pin`; an enabled record
/// stays as it is.
pub open spec fn enable_records(l: Seq<RecordView>, name: Seq<u8>, pin: Option<Version>) -> Seq<
    RecordView,
> {
    if has_record(l, name) {
        if l[record_at(l, name)].2 {
            l
        } else {
            l.update(record_at(l, name), (name, pin, true))
        }
    } else {
        l.push((name, pin, true))
    }
}

/// The records after disabling `name`, if it has a record.
pub open spec fn disable_records(l: Seq<RecordView>, name: Seq<u8>) -> Seq<RecordView> {
    if has_record(l, name) {
        l.update(record_at(l, name), (name, None, false))
    } else {
        l
    }
}

/// The records after a new version of `name` was added: disabled, unpinned.
pub open spec fn add_records(l: Seq<RecordView>, name: Seq<u8>) -> Seq<RecordView> {
    if has_record(l, name) {
        l.update(record_at(l, name), (name, None, false))
    } else {
        l.push((name, None, false))
    }
}

/// The records after disabling all, keeping base's unless `include_base`.
pub open spec fn disable_all_records(l: Seq<RecordView>, include_base: bool) -> Seq<RecordView> {
    l.map_values(
        |r: RecordView|
            if r.0 == base_name() && !include_base {
                r
            } else {
                (r.0, None, false)
            },
    )
}

pub open spec fn slot_names_unique(mods: Seq<ModSlot>) -> bool {
    forall|i: int, j: int|
        0 <= i < j < mods.len() ==> (#[trigger] mods[i]).name@ != (#[trigger] mods[j]).name@
}

pub open spec fn slots_wf(mods: Seq<ModSlot>) -> bool {
    &&& slot_names_unique(mods)
    &&& forall|i: int|
        0 <= i < mods.len() ==> strictly_ascending(versions_of((#[trigger] mods[i]).entries@))
}

pub open spec fn has_slot(mods: Seq<ModSlot>, name: Seq<u8>) -> bool {
    exists|i: int| 0 <= i < mods.len() && (#[trigger] mods[i]).name@ == name
}

/// The index as a map from mod name to its installed versions.
pub open spec fn index_view(mods: Seq<ModSlot>) -> Map<Seq<u8>, Seq<Version>> {
    Map::new(
        |n: Seq<u8>| has_slot(mods, n),
        |n: Seq<u8>|
            versions_of(
                mods[choose|i: int| 0 <= i < mods.len() && (#[trigger] mods[i]).name@ == n].entries@,
            ),
    )
}

/// The versions installed for `name`, empty when there is none.
pub open spec fn installed(mods: Seq<ModSlot>, name: Seq<u8>) -> Seq<Version> {
    if index_view(mods).contains_key(name) {
        index_view(mods)[name]
    } else {
        Seq::empty()
    }
}

/// Whether a request for `version` (exact) or `req` (range) accepts `v`.
pub open spec fn wanted(version: Option<Version>, req: Option<Requirement>, v: Version) -> bool {
    match version {
        Some(x) => v == x,
        None => opt_req_matches(req, v),
    }
}

/// `r` is the last position of `vs` that the request accepts, or `None` when
/// it accepts none.
pub open spec fn is_choice(
    vs: Seq<Version>,
    version: Option<Version>,
    req: Option<Requirement>,
    r: Option<int>,
) -> bool {
    match r {
        Some(i) => 0 <= i < vs.len() && wanted(version, req, vs[i]) && forall|j: int|
            i < j < vs.len() ==> !wanted(version, req, #[trigger] vs[j]),
        None => forall|j: int| 0 <= j < vs.len() ==> !wanted(version, req, #[trigger] vs[j]),
    }
}

/// The version that a request resolves to among `vs`.
pub open spec fn resolve(vs: Seq<Version>, version: Option<Version>, req: Option<Requirement>) -> Option<
    Version,
> {
    if exists|i: int| 0 <= i < vs.len() && wanted(version, req, #[trigger] vs[i]) {
        Some(
            vs[choose|i: int|
                is_choice(vs, version, req, Some(i))],
        )
    } else {
        None
    }
}

pub fn bytes_eq(a: &[u8], b: &[u8]) -> (r: bool)
    ensures
        r == (a@ == b@),
{
    if a.len() != b.len() {
        return false;
    }
    let mut k: usize = 0;
    while k < a.len()
        invariant
            a.len() == b.len(),
            k <= a.len(),
            a@.subrange(0, k as int) == b@.subrange(0, k as int),
        decreases a.len() - k,
    {
        if a[k] != b[k] {
            assert(a@[k as int] != b@[k as int]);
            return false;
        }
        assert(a@.subrange(0, k + 1) =~= a@.subrange(0, k as int).push(a@[k as int]));
        assert(b@.subrange(0, k + 1) =~= b@.subrange(0, k as int).push(b@[k as int]));
        k = k + 1;
    }
    assert(a@ =~= a@.subrange(0, k as int));
    assert(b@ =~= b@.subrange(0, k as int));
    true
}

pub fn copy_bytes(a: &[u8]) -> (r: Vec<u8>)
    ensures
        r@ == a@,
{
    let mut r: Vec<u8> = Vec::new();
    let mut k: usize = 0;
    while k < a.len()
        invariant
            k <= a.len(),
            r@ == a@.subrange(0, k as int),
        decreases a.len() - k,
    {
        r.push(a[k]);
        k = k + 1;
        assert(r@ =~= a@.subrange(0, k as int));
    }
    assert(a@ =~= a@.subrange(0, k as int));
    r
}

pub fn is_base(name: &[u8]) -> (r: bool)
    ensures
        r == (name@ == base_name()),
{
    let r = name.len() == 4 && name[0] == 98 && name[1] == 97 && name[2] == 115 && name[3] == 101;
    if r {
        assert(name@ =~= base_name());
    }
    r
}

/// The last entry of an ascending slot that the request accepts.
pub fn get_mod_version(entries: &Vec<ModEntry>, version: &Option<Version>, req: &Option<Requirement>) -> (r: Option<usize>)
    ensures
        is_choice(versions_of(entries@), *version, *req, match r { Some(i) => Some(i as int), None => None }),
{
    let mut k = entries.len();
    while k > 0
        invariant
            k <= entries.len(),
            forall|j: int| k <= j < entries.len() ==> !wanted(*version, *req, #[trigger] versions_of(entries@)[j]),
        decreases k,
    {
        let v = entries[k - 1].version;
        let ok = match version {
            Some(x) => v.same(x),
            None => opt_matches(req, &v),
        };
        if ok {
            return Some(k - 1);
        }
        k = k - 1;
    }
    None
}

/// The last of `versions` that `req` accepts: the release to fetch.
pub fn latest_matching(versions: &Vec<Version>, req: &Option<Requirement>) -> (r: Option<usize>)
    ensures
        is_choice(versions@, None, *req, match r { Some(i) => Some(i as int), None => None }),
{
    let mut k = versions.len();
    while k > 0
        invariant
            k <= versions.len(),
            forall|j: int| k <= j < versions.len() ==> !wanted(None, *req, #[trigger] versions@[j]),
        decreases k,
    {
        if opt_matches(req, &versions[k - 1]) {
            return Some(k - 1);
        }
        k = k - 1;
    }
    None
}

proof fn lemma_choice_unique(vs: Seq<Version>, version: Option<Version>, req: Option<Requirement>, i: int)
    requires
        is_choice(vs, version, req, Some(i)),
    ensures
        resolve(vs, version, req) == Some(vs[i]),
{
    let k = choose|k: int| is_choice(vs, version, req, Some(k));
    assert(k == i) by {
        if k < i {
            assert(!wanted(version, req, vs[i]));
        } else if k > i {
            assert(!wanted(version, req, vs[k]));
        }
    }
}

proof fn lemma_choice_none(vs: Seq<Version>, version: Option<Version>, req: Option<Requirement>)
    requires
        is_choice(vs, version, req, None),
    ensures
        resolve(vs, version, req) is None,
{
}

/// The slots after adding `e` under `name`: other slots unchanged, the slot
/// of `name` as `kept_or_inserted` says, or a new slot holding just `e`
/// at the end.
pub open spec fn slots_after_add(old: Seq<ModSlot>, new: Seq<ModSlot>, name: Seq<u8>, e: ModEntry) -> bool {
    &&& forall|s: int| 0 <= s < old.len() && (#[trigger] old[s]).name@ != name ==> new[s] == old[s]
    &&& forall|s: int| 0 <= s < old.len() && (#[trigger] old[s]).name@ == name ==> new[s].name@ == name
        && kept_or_inserted(old[s].entries@, new[s].entries@, e)
    &&& if has_slot(old, name) {
        new.len() == old.len()
    } else {
        new.len() == old.len() + 1 && new[old.len() as int].name@ == name && new[old.len() as int].entries@
            == seq![e]
    }
}

/// Places `e` in the ascending `entries`; an entry of the same version stays.
pub fn insert_entry(entries: &mut Vec<ModEntry>, e: ModEntry)
    requires
        strictly_ascending(versions_of(old(entries)@)),
    ensures
        versions_of(final(entries)@) == sorted_insert(versions_of(old(entries)@), e.version),
        strictly_ascending(versions_of(final(entries)@)),
        kept_or_inserted(old(entries)@, final(entries)@, e),
{
    let ghost vs = versions_of(entries@);
    let mut k: usize = 0;
    while k < entries.len()
        invariant
            k <= entries.len(),
            vs == versions_of(entries@),
            strictly_ascending(vs),
            forall|j: int| 0 <= j < k ==> version_lt_at(vs, j, e.version),
        ensures
            k <= entries.len(),
            vs == versions_of(entries@),
            forall|j: int| 0 <= j < k ==> version_lt_at(vs, j, e.version),
            k < entries.len() ==> !crate::version::version_lt(vs[k as int], e.version),
        decreases entries.len() - k,
    {
        if !entries[k].version.less_than(&e.version) {
            break;
        }
        k = k + 1;
    }
    proof {
        lemma_sorted_insert_at(vs, e.version, k as int);
        lemma_sorted_insert(vs, e.version);
    }
    if k < entries.len() && entries[k].version.same(&e.version) {
        assert(vs[k as int] == e.version);
        return;
    }
    proof {
        assert forall|j: int| 0 <= j < vs.len() implies vs[j] != e.version by {
            if j < k {
                assert(version_lt_at(vs, j, e.version));
            } else if j > k {
                assert(crate::version::version_lt(vs[k as int], vs[j]));
            }
        }
    }
    let ghost before = entries@;
    let ghost ge = e;
    entries.insert(k, e);
    proof {
        assert(versions_of(entries@) =~= vs.insert(k as int, e.version));
        assert(entries@ == before.insert(k as int, ge));
    }
}

/// `new` is `old` when `old` holds the version of `e` already (the entry
/// seen first stays), else `old` with `e` inserted at some position.
pub open spec fn kept_or_inserted(old: Seq<ModEntry>, new: Seq<ModEntry>, e: ModEntry) -> bool {
    if versions_of(old).contains(e.version) {
        new == old
    } else {
        exists|k: int| 0 <= k <= old.len() && new == old.insert(k, e)
    }
}

pub open spec fn version_lt_at(vs: Seq<Version>, j: int, v: Version) -> bool {
    crate::version::version_lt(vs[j], v)
}

proof fn lemma_sorted_insert_at(vs: Seq<Version>, v: Version, k: int)
    requires
        strictly_ascending(vs),
        0 <= k <= vs.len(),
        forall|j: int| 0 <= j < k ==> version_lt_at(vs, j, v),
        k < vs.len() ==> !crate::version::version_lt(vs[k], v),
    ensures
        sorted_insert(vs, v) == if k < vs.len() && vs[k] == v {
            vs
        } else {
            vs.insert(k, v)
        },
    decreases vs.len(),
{
    if vs.len() == 0 {
        assert(seq![v] =~= vs.insert(0, v));
    } else if k == 0 {
        if crate::version::version_lt(v, vs[0]) {
            assert(seq![v] + vs =~= vs.insert(0, v));
        }
    } else {
        assert(version_lt_at(vs, 0, v));
        let t = vs.drop_first();
        assert forall|j: int| 0 <= j < k - 1 implies version_lt_at(t, j, v) by {
            assert(version_lt_at(vs, j + 1, v));
        }
        assert(strictly_ascending(t)) by {
            assert forall|i: int, j: int| 0 <= i < j < t.len() implies crate::version::version_lt(
                #[trigger] t[i],
                #[trigger] t[j],
            ) by {
                assert(t[i] == vs[i + 1] && t[j] == vs[j + 1]);
            }
        }
        lemma_sorted_insert_at(t, v, k - 1);
        if k < vs.len() && vs[k] == v {
            assert(seq![vs[0]] + t =~= vs);
        } else {
            assert(seq![vs[0]] + t.insert(k - 1, v) =~= vs.insert(k, v));
        }
    }
}

/// The versions of the entries named `n`, in the order given.
pub open spec fn entries_named(es: Seq<(Vec<u8>, ModEntry)>, n: Seq<u8>) -> Seq<Version>
    decreases es.len(),
{
    if es.len() == 0 {
        Seq::empty()
    } else if es.last().0@ == n {
        entries_named(es.drop_last(), n).push(es.last().1.version)
    } else {
        entries_named(es.drop_last(), n)
    }
}

/// `e` is one of the entries found under the name `n`.
pub open spec fn from_found(f: Seq<(Vec<u8>, ModEntry)>, n: Seq<u8>, e: ModEntry) -> bool {
    exists|m: int| 0 <= m < f.len() && (#[trigger] f[m]).0@ == n && f[m].1 == e
}

proof fn lemma_from_found_prefix(f: Seq<(Vec<u8>, ModEntry)>, a: int, b: int, n: Seq<u8>, e: ModEntry)
    requires
        0 <= a <= b <= f.len(),
        from_found(f.subrange(0, a), n, e),
    ensures
        from_found(f.subrange(0, b), n, e),
{
    let m = choose|m: int| 0 <= m < a && (#[trigger] f.subrange(0, a)[m]).0@ == n && f.subrange(0, a)[m].1 == e;
    assert(f.subrange(0, b)[m] == f.subrange(0, a)[m]);
}

/// The records with every record dropped whose name an earlier one has.
pub open spec fn first_records(l: Seq<RecordView>) -> Seq<RecordView>
    decreases l.len(),
{
    if l.len() == 0 {
        Seq::empty()
    } else if has_record(first_records(l.drop_last()), l.last().0) {
        first_records(l.drop_last())
    } else {
        first_records(l.drop_last()).push(l.last())
    }
}

pub proof fn lemma_record_at_pub(l: Seq<RecordView>, i: int)
    requires
        names_unique(l),
        0 <= i < l.len(),
    ensures
        has_record(l, l[i].0),
        record_at(l, l[i].0) == i,
{
    lemma_record_at(l, i);
}

proof fn lemma_record_at(l: Seq<RecordView>, i: int)
    requires
        names_unique(l),
        0 <= i < l.len(),
    ensures
        has_record(l, l[i].0),
        record_at(l, l[i].0) == i,
{
    assert(l[i].0 == l[i].0);
    let k = record_at(l, l[i].0);
    if k != i {
        if k < i {
            assert(l[k].0 != l[i].0);
        } else {
            assert(l[i].0 != l[k].0);
        }
    }
}

pub proof fn lemma_installed_at_pub(mods: Seq<ModSlot>, i: int)
    requires
        slot_names_unique(mods),
        0 <= i < mods.len(),
    ensures
        has_slot(mods, mods[i].name@),
        installed(mods, mods[i].name@) == versions_of(mods[i].entries@),
{
    lemma_installed_at(mods, i);
}

proof fn lemma_installed_at(mods: Seq<ModSlot>, i: int)
    requires
        slot_names_unique(mods),
        0 <= i < mods.len(),
    ensures
        has_slot(mods, mods[i].name@),
        installed(mods, mods[i].name@) == versions_of(mods[i].entries@),
{
    let n = mods[i].name@;
    assert(has_slot(mods, n));
    assert(index_view(mods).contains_key(n));
    let k = choose|k: int| 0 <= k < mods.len() && (#[trigger] mods[k]).name@ == n;
    if k != i {
        if k < i {
            assert(mods[k].name@ != mods[i].name@);
        } else {
            assert(mods[i].name@ != mods[k].name@);
        }
    }
}

/// The index keyed by name, the enablement records, and the settings document.
#[derive(Debug)]
pub struct Directory {
    pub mods: Vec<ModSlot>,
    pub mod_list: Vec<ModListJsonMod>,
    pub mod_settings: ModSettings,
}

impl Directory {
    /// Slots have distinct names and ascending versions; records have
    /// distinct names.
    pub open spec fn wf(&self) -> bool {
        slots_wf(self.mods@) && names_unique(self.records())
    }

    pub open spec fn records(&self) -> Seq<RecordView> {
        records_view(self.mod_list@)
    }

    /// The versions installed for `name`.
    pub open spec fn versions(&self, name: Seq<u8>) -> Seq<Version> {
        installed(self.mods@, name)
    }

    pub fn find_slot(&self, name: &[u8]) -> (r: Option<usize>)
        ensures
            match r {
                Some(i) => i < self.mods.len() && self.mods@[i as int].name@ == name@,
                None => !has_slot(self.mods@, name@),
            },
    {
        let mut k: usize = 0;
        while k < self.mods.len()
            invariant
                k <= self.mods.len(),
                forall|j: int| 0 <= j < k ==> (#[trigger] self.mods@[j]).name@ != name@,
            decreases self.mods.len() - k,
        {
            if bytes_eq(self.mods[k].name.as_slice(), name) {
                return Some(k);
            }
            k = k + 1;
        }
        None
    }

    pub fn find_record(&self, name: &[u8]) -> (r: Option<usize>)
        ensures
            match r {
                Some(i) => i < self.mod_list.len() && self.records()[i as int].0 == name@,
                None => !has_record(self.records(), name@),
            },
    {
        let mut k: usize = 0;
        while k < self.mod_list.len()
            invariant
                k <= self.mod_list.len(),
                forall|j: int| 0 <= j < k ==> (#[trigger] self.records()[j]).0 != name@,
            decreases self.mod_list.len() - k,
        {
            if bytes_eq(self.mod_list[k].name.as_slice(), name) {
                return Some(k);
            }
            k = k + 1;
        }
        None
    }

    /// Adds `e` to the slot of `name`, creating the slot if needed; the
    /// records are left as they are.
    pub fn add_entry(&mut self, name: &[u8], e: ModEntry)
        requires
            old(self).wf(),
        ensures
            final(self).mod_settings == old(self).mod_settings,
            final(self).wf(),
            final(self).records() == old(self).records(),
            final(self).versions(name@) == sorted_insert(old(self).versions(name@), e.version),
            forall|n: Seq<u8>| n != name@ ==> final(self).versions(n) == old(self).versions(n),
            slots_after_add(old(self).mods@, final(self).mods@, name@, e),
    {
        let ghost v = e.version;
        let ghost ge = e;
        match self.find_slot(name) {
            Some(i) => {
                proof {
                    lemma_installed_at(self.mods@, i as int);
                }
                let ghost old_mods = self.mods@;
                let mut slot = self.mods.remove(i);
                insert_entry(&mut slot.entries, e);
                self.mods.insert(i, slot);
                proof {
                    assert(self.mods@ =~= old_mods.update(i as int, self.mods@[i as int]));
                    assert(slots_wf(self.mods@)) by {
                        assert forall|a: int, b: int| 0 <= a < b < self.mods@.len() implies
                            (#[trigger] self.mods@[a]).name@ != (#[trigger] self.mods@[b]).name@ by {
                            assert(old_mods[a].name@ != old_mods[b].name@);
                        }
                    }
                    lemma_installed_at(self.mods@, i as int);
                    assert forall|n: Seq<u8>| n != name@ implies installed(self.mods@, n) == installed(old_mods, n) by {
                        if has_slot(old_mods, n) {
                            let k = choose|k: int| 0 <= k < old_mods.len() && (#[trigger] old_mods[k]).name@ == n;
                            lemma_installed_at(old_mods, k);
                            lemma_installed_at(self.mods@, k);
                        } else {
                            if has_slot(self.mods@, n) {
                                let k = choose|k: int| 0 <= k < self.mods@.len() && (#[trigger] self.mods@[k]).name@ == n;
                                assert(old_mods[k].name@ == n);
                            }
                        }
                    }
                }
            },
            None => {
                let ghost old_mods = self.mods@;
                let mut entries: Vec<ModEntry> = Vec::new();
                entries.push(e);
                let slot = ModSlot { name: copy_bytes(name), entries };
                self.mods.push(slot);
                proof {
                    let m = self.mods@;
                    assert(versions_of(m[old_mods.len() as int].entries@) =~= seq![v]);
                    assert(slots_wf(m)) by {
                        assert forall|a: int, b: int| 0 <= a < b < m.len() implies
                            (#[trigger] m[a]).name@ != (#[trigger] m[b]).name@ by {
                            if b < old_mods.len() {
                                assert(old_mods[a].name@ != old_mods[b].name@);
                            } else {
                                assert(old_mods[a] == m[a]);
                            }
                        }
                        assert forall|a: int| 0 <= a < m.len() implies strictly_ascending(
                            versions_of((#[trigger] m[a]).entries@)) by {
                            if a < old_mods.len() {
                                assert(old_mods[a] == m[a]);
                            }
                        }
                    }
                    lemma_installed_at(m, old_mods.len() as int);
                    assert(installed(old_mods, name@) =~= Seq::empty());
                    assert forall|n: Seq<u8>| n != name@ implies installed(m, n) == installed(old_mods, n) by {
                        if has_slot(old_mods, n) {
                            let k = choose|k: int| 0 <= k < old_mods.len() && (#[trigger] old_mods[k]).name@ == n;
                            lemma_installed_at(old_mods, k);
                            lemma_installed_at(m, k);
                        } else {
                            if has_slot(m, n) {
                                let k = choose|k: int| 0 <= k < m.len() && (#[trigger] m[k]).name@ == n;
                                assert(old_mods[k].name@ == n);
                            }
                        }
                    }
                }
            },
        }
    }
    /// Sets the record of `name` as `enable_records` says.
    pub fn set_enabled(&mut self, name: &[u8], pin: Option<Version>)
        requires
            old(self).wf(),
        ensures
            final(self).mod_settings == old(self).mod_settings,
            final(self).wf(),
            final(self).mods@ == old(self).mods@,
            final(self).records() == enable_records(old(self).records(), name@, pin),
    {
        let ghost l = self.records();
        match self.find_record(name) {
            Some(i) => {
                proof {
                    lemma_record_at(l, i as int);
                }
                if !self.mod_list[i].enabled {
                    self.mod_list[i].enabled = true;
                    self.mod_list[i].version = pin;
                    assert(self.records() =~= l.update(i as int, (name@, pin, true)));
                }
            },
            None => {
                self.mod_list.push(ModListJsonMod { name: copy_bytes(name), version: pin, enabled: true });
                assert(self.records() =~= l.push((name@, pin, true)));
            },
        }
    }

    /// Sets the record of `name`, if any, to disabled and unpinned.
    pub fn disable_record(&mut self, name: &[u8])
        requires
            old(self).wf(),
        ensures
            final(self).mod_settings == old(self).mod_settings,
            final(self).wf(),
            final(self).mods@ == old(self).mods@,
            final(self).records() == disable_records(old(self).records(), name@),
    {
        self.clear_record(name, false);
    }

    /// Sets the record of `name`, if any, to disabled and unpinned; creates a
    /// disabled one when `create` and there is none.
    fn clear_record(&mut self, name: &[u8], create: bool)
        requires
            old(self).wf(),
        ensures
            final(self).mod_settings == old(self).mod_settings,
            final(self).wf(),
            final(self).mods@ == old(self).mods@,
            final(self).records() == if create {
                add_records(old(self).records(), name@)
            } else {
                disable_records(old(self).records(), name@)
            },
    {
        let ghost l = self.records();
        match self.find_record(name) {
            Some(i) => {
                proof {
                    lemma_record_at(l, i as int);
                }
                self.mod_list[i].enabled = false;
                self.mod_list[i].version = None;
                assert(self.records() =~= l.update(i as int, (name@, None, false)));
            },
            None => {
                if create {
                    self.mod_list.push(ModListJsonMod { name: copy_bytes(name), version: None, enabled: false });
                    assert(self.records() =~= l.push((name@, None, false)));
                }
            },
        }
    }

    /// Builds the directory from the entries found on disk, each with its
    /// mod name, and the records read from the mod list. A record whose name
    /// an earlier record has is dropped.
    pub fn new(found: Vec<(Vec<u8>, ModEntry)>, mod_list: Vec<ModListJsonMod>, mod_settings: ModSettings) -> (r: Directory)
        ensures
            r.wf(),
            r.records() == first_records(records_view(mod_list@)),
            r.mod_settings == mod_settings,
            forall|n: Seq<u8>| r.versions(n) == crate::index::insert_all(entries_named(found@, n)),
            forall|s: int| 0 <= s < r.mods@.len() ==> (#[trigger] r.mods@[s]).entries@.len() > 0,
            forall|s: int, x: int| 0 <= s < r.mods@.len() && 0 <= x < r.mods@[s].entries@.len() ==> from_found(
                found@,
                r.mods@[s].name@,
                #[trigger] r.mods@[s].entries@[x],
            ),
    {
        let ghost settings0 = mod_settings;
        let mut d = Directory { mods: Vec::new(), mod_list: Vec::new(), mod_settings };
        let ghost input = found@;
        let mut found = found;
        proof {
            assert forall|n: Seq<u8>| installed(d.mods@, n) == crate::index::insert_all(entries_named(input.subrange(0, 0), n)) by {
                assert(input.subrange(0, 0) =~= Seq::<(Vec<u8>, ModEntry)>::empty());
                assert(installed(d.mods@, n) =~= Seq::empty());
            }
            assert(input.subrange(0, input.len() as int) =~= input);
        }
        while found.len() > 0
            invariant
                d.wf(),
                d.mod_settings == settings0,
                d.records().len() == 0,
                forall|s: int| 0 <= s < d.mods@.len() ==> (#[trigger] d.mods@[s]).entries@.len() > 0,
                forall|s: int, x: int| 0 <= s < d.mods@.len() && 0 <= x < d.mods@[s].entries@.len() ==> from_found(
                    input.subrange(0, input.len() - found@.len()),
                    d.mods@[s].name@,
                    #[trigger] d.mods@[s].entries@[x],
                ),
                found@.len() <= input.len(),
                found@ == input.subrange(input.len() - found@.len(), input.len() as int),
                forall|n: Seq<u8>| installed(d.mods@, n) == crate::index::insert_all(entries_named(input.subrange(0, input.len() - found@.len()), n)),
            decreases found.len(),
        {
            let ghost k = input.len() - found@.len();
            let ghost before_mods = d.mods@;
            let x = found.remove(0);
            proof {
                assert(input[k] == x);
                assert(input.subrange(0, k + 1).drop_last() =~= input.subrange(0, k));
                assert(found@ =~= input.subrange(input.len() - found@.len(), input.len() as int));
            }
            let ghost gx = x;
            let (name, entry) = x;
            let ghost gname = name@;
            let ghost gv = entry.version;
            let ghost before_d = d;
            d.add_entry(name.as_slice(), entry);
            proof {
                let p1 = input.subrange(0, k + 1);
                assert(p1[k] == gx);
                assert forall|s: int| 0 <= s < d.mods@.len() implies (#[trigger] d.mods@[s]).entries@.len() > 0 by {
                    if s < before_d.mods@.len() && before_d.mods@[s].name@ == gname {
                        if !versions_of(before_d.mods@[s].entries@).contains(gv) {
                            let q = choose|q: int| 0 <= q <= before_d.mods@[s].entries@.len() && d.mods@[s].entries@ == before_d.mods@[s].entries@.insert(q, gx.1);
                        }
                    }
                }
                assert forall|s: int, x: int| 0 <= s < d.mods@.len() && 0 <= x < d.mods@[s].entries@.len() implies from_found(
                    p1, d.mods@[s].name@, #[trigger] d.mods@[s].entries@[x]) by {
                    if s < before_d.mods@.len() {
                        let ob = before_d.mods@[s];
                        if ob.name@ != gname {
                            lemma_from_found_prefix(input, k, k + 1, ob.name@, ob.entries@[x]);
                        } else if versions_of(ob.entries@).contains(gv) {
                            lemma_from_found_prefix(input, k, k + 1, ob.name@, ob.entries@[x]);
                        } else {
                            let q = choose|q: int| 0 <= q <= ob.entries@.len() && d.mods@[s].entries@ == ob.entries@.insert(q, gx.1);
                            if x < q {
                                lemma_from_found_prefix(input, k, k + 1, ob.name@, ob.entries@[x]);
                            } else if x == q {
                                assert(p1[k].0@ == d.mods@[s].name@ && p1[k].1 == d.mods@[s].entries@[x]);
                            } else {
                                assert(d.mods@[s].entries@[x] == ob.entries@[x - 1]);
                                lemma_from_found_prefix(input, k, k + 1, ob.name@, ob.entries@[x - 1]);
                            }
                        }
                    } else {
                        assert(p1[k].0@ == d.mods@[s].name@ && p1[k].1 == d.mods@[s].entries@[x]);
                    }
                }
                assert(gname == gx.0@ && gv == gx.1.version);
                assert(installed(d.mods@, gname) == sorted_insert(installed(before_mods, gname), gv));
                let p = input.subrange(0, k + 1);
                assert forall|n: Seq<u8>| installed(d.mods@, n) == crate::index::insert_all(entries_named(p, n)) by {
                    assert(p.drop_last() =~= input.subrange(0, k));
                    assert(p.last() == gx);
                    let q = entries_named(input.subrange(0, k), n);
                    assert(installed(before_mods, n) == crate::index::insert_all(q));
                    if n == gx.0@ {
                        let e = entries_named(p, n);
                        assert(e == q.push(gx.1.version));
                        assert(e.drop_last() =~= q);
                        assert(crate::index::insert_all(e) == sorted_insert(crate::index::insert_all(q), gx.1.version));
                    } else {
                        assert(entries_named(p, n) == q);
                        assert(d.versions(n) == before_d.versions(n));
                    }
                }
            }
        }
        let ghost total = input.len();
        assert(input.subrange(0, input.len() as int) =~= input);
        assert(d.records() =~= Seq::<RecordView>::empty());
        assert(input.subrange(0, total as int) =~= input);
        let ghost src = records_view(mod_list@);
        let mut k: usize = 0;
        while k < mod_list.len()
            invariant
                k <= mod_list.len(),
                src == records_view(mod_list@),
                d.wf(),
                d.mod_settings == settings0,
                forall|s: int| 0 <= s < d.mods@.len() ==> (#[trigger] d.mods@[s]).entries@.len() > 0,
                forall|s: int, x: int| 0 <= s < d.mods@.len() && 0 <= x < d.mods@[s].entries@.len() ==> from_found(
                    input,
                    d.mods@[s].name@,
                    #[trigger] d.mods@[s].entries@[x],
                ),
                forall|n: Seq<u8>| installed(d.mods@, n) == crate::index::insert_all(entries_named(input, n)),
                d.records() == first_records(src.subrange(0, k as int)),
            decreases mod_list.len() - k,
        {
            let ghost before = d.records();
            assert(src.subrange(0, k + 1).drop_last() =~= src.subrange(0, k as int));
            let rec = &mod_list[k];
            match d.find_record(rec.name.as_slice()) {
                Some(_) => {},
                None => {
                    d.mod_list.push(ModListJsonMod { name: copy_bytes(rec.name.as_slice()), version: rec.version, enabled: rec.enabled });
                    proof {
                        assert(d.records() =~= before.push(src[k as int]));
                        assert forall|a: int, b: int| 0 <= a < b < d.records().len() implies
                            (#[trigger] d.records()[a]).0 != (#[trigger] d.records()[b]).0 by {
                            if b == before.len() {
                                assert(before[a].0 != src[k as int].0);
                            } else {
                                assert(before[a].0 != before[b].0);
                            }
                        }
                    }
                },
            }
            k = k + 1;
        }
        assert(src.subrange(0, k as int) =~= src);
        d
    }

    /// Adds an installed version of `name`; the mod's record is reset to
    /// disabled and unpinned, or created so.
    pub fn add(&mut self, name: Vec<u8>, entry: ModEntry)
        requires
            old(self).wf(),
        ensures
            final(self).mod_settings == old(self).mod_settings,
            final(self).wf(),
            final(self).records() == add_records(old(self).records(), name@),
            final(self).versions(name@) == sorted_insert(old(self).versions(name@), entry.version),
            forall|n: Seq<u8>| n != name@ ==> final(self).versions(n) == old(self).versions(n),
            slots_after_add(old(self).mods@, final(self).mods@, name@, entry),
    {
        self.clear_record(name.as_slice(), true);
        self.add_entry(name.as_slice(), entry);
    }

    /// Disables the named mod when it is base or installed, and reports
    /// whether it was one of those.
    pub fn disable(&mut self, ident: &ModIdent) -> (r: bool)
        requires
            old(self).wf(),
        ensures
            final(self).mod_settings == old(self).mod_settings,
            final(self).wf(),
            final(self).mods@ == old(self).mods@,
            r == (ident.name@ == base_name() || has_slot(old(self).mods@, ident.name@)),
            final(self).records() == if r {
                disable_records(old(self).records(), ident.name@)
            } else {
                old(self).records()
            },
    {
        let name = ident.name.as_slice();
        if is_base(name) || self.find_slot(name).is_some() {
            self.clear_record(name, false);
            true
        } else {
            false
        }
    }

    /// Disables every record, base's too only when `include_base`.
    pub fn disable_all(&mut self, include_base: bool)
        requires
            old(self).wf(),
        ensures
            final(self).mod_settings == old(self).mod_settings,
            final(self).wf(),
            final(self).mods@ == old(self).mods@,
            final(self).records() == disable_all_records(old(self).records(), include_base),
    {
        let ghost l = self.records();
        let mut k: usize = 0;
        while k < self.mod_list.len()
            invariant
                k <= self.mod_list.len() == l.len(),
                forall|j: int| 0 <= j < k ==> #[trigger] self.records()[j] == disable_all_records(l, include_base)[j],
                forall|j: int| k <= j < l.len() ==> #[trigger] self.records()[j] == l[j],
                self.mods@ == old(self).mods@,
                self.mod_settings == old(self).mod_settings,
            decreases self.mod_list.len() - k,
        {
            let ghost before = self.records();
            let ghost old_list = self.mod_list@;
            assert(before[k as int] == l[k as int]);
            assert(old_list[k as int].name@ == l[k as int].0);
            if include_base || !is_base(self.mod_list[k].name.as_slice()) {
                self.mod_list[k].enabled = false;
                self.mod_list[k].version = None;
            }
            proof {
                let nl = disable_all_records(l, include_base);
                assert(self.records()[k as int] == nl[k as int]);
                assert forall|j: int| 0 <= j < l.len() && j != k implies #[trigger] self.records()[j] == before[j] by {
                    assert(self.mod_list@[j] == old_list[j]);
                }
            }
            k = k + 1;
        }
        assert(self.records() =~= disable_all_records(l, include_base));
        assert(names_unique(self.records())) by {
            assert forall|a: int, b: int| 0 <= a < b < self.records().len() implies
                (#[trigger] self.records()[a]).0 != (#[trigger] self.records()[b]).0 by {
                assert(l[a].0 != l[b].0);
            }
        }
    }

    /// The slot and the entry that a request resolves to: the exact version,
    /// else the latest one that the requirement accepts.
    pub fn resolve_entry(&self, name: &[u8], version: &Option<Version>, req: &Option<Requirement>) -> (r: Option<(usize, usize)>)
        requires
            self.wf(),
        ensures
            match r {
                Some((i, j)) => i < self.mods.len() && j < self.mods@[i as int].entries.len()
                    && self.mods@[i as int].name@ == name@
                    && resolve(self.versions(name@), *version, *req) == Some(self.mods@[i as int].entries@[j as int].version),
                None => resolve(self.versions(name@), *version, *req) is None,
            },
    {
        match self.find_slot(name) {
            Some(i) => {
                proof {
                    lemma_installed_at(self.mods@, i as int);
                }
                match get_mod_version(&self.mods[i].entries, version, req) {
                    Some(j) => {
                        proof {
                            lemma_choice_unique(self.versions(name@), *version, *req, j as int);
                        }
                        Some((i, j))
                    },
                    None => {
                        proof {
                            lemma_choice_none(self.versions(name@), *version, *req);
                        }
                        None
                    },
                }
            },
            None => {
                assert(self.versions(name@) =~= Seq::empty());
                None
            },
        }
    }

    /// Enables the mod that `ident` names, without looking at dependencies:
    /// an exact version in the request is pinned, otherwise the record
    /// tracks the latest version.
    pub fn enable(&mut self, ident: &ModIdent) -> (r: Result<(), ModError>)
        requires
            old(self).wf(),
        ensures
            final(self).mod_settings == old(self).mod_settings,
            final(self).wf(),
            final(self).mods@ == old(self).mods@,
            match resolve(old(self).versions(ident.name@), ident.version, ident.version_req) {
                Some(v) => r is Ok && final(self).records() == enable_records(
                    old(self).records(),
                    ident.name@,
                    if ident.version is Some { Some(v) } else { None },
                ),
                None => r is Err && r->Err_0 is NotFound && r->Err_0->NotFound_0@ == ident.name@
                    && final(self).records() == old(self).records(),
            },
    {
        match self.resolve_entry(ident.name.as_slice(), &ident.version, &ident.version_req) {
            Some((i, j)) => {
                let v = self.mods[i].entries[j].version;
                let pin = if ident.version.is_some() { Some(v) } else { None };
                self.set_enabled(ident.name.as_slice(), pin);
                Ok(())
            },
            None => Err(ModError::NotFound(copy_bytes(ident.name.as_slice()))),
        }
    }

    /// The whole mod list, in order, as it is to be written back.
    pub fn save(&self) -> (r: ModListJson)
        ensures
            records_view(r.mods@) == self.records(),
    {
        let mut mods: Vec<ModListJsonMod> = Vec::new();
        let mut k: usize = 0;
        while k < self.mod_list.len()
            invariant
                k <= self.mod_list.len(),
                records_view(mods@) == self.records().subrange(0, k as int),
            decreases self.mod_list.len() - k,
        {
            let r = &self.mod_list[k];
            let ghost before = mods@;
            let copy = ModListJsonMod { name: copy_bytes(r.name.as_slice()), version: r.version, enabled: r.enabled };
            assert(record_view(copy) == self.records()[k as int]);
            mods.push(copy);
            assert(records_view(mods@) =~= records_view(before).push(record_view(copy)));
            k = k + 1;
            assert(records_view(mods@) =~= self.records().subrange(0, k as int));
        }
        assert(self.records().subrange(0, k as int) =~= self.records());
        ModListJson { mods }
    }

    /// Whether the index holds the mod, at the exact version when one is given.
    pub fn contains(&self, ident: &ModIdent) -> (r: bool)
        requires
            self.wf(),
        ensures
            r == match ident.version {
                Some(v) => self.versions(ident.name@).contains(v),
                None => self.versions(ident.name@).len() > 0,
            },
    {
        match self.find_slot(ident.name.as_slice()) {
            Some(i) => {
                proof {
                    lemma_installed_at(self.mods@, i as int);
                }
                let entries = &self.mods[i].entries;
                match ident.version {
                    Some(v) => {
                        let none: Option<Requirement> = None;
                        let found = get_mod_version(entries, &ident.version, &none);
                        proof {
                            let vs = versions_of(entries@);
                            if vs.contains(v) {
                                let k = choose|k: int| 0 <= k < vs.len() && vs[k] == v;
                                assert(wanted(ident.version, none, vs[k]));
                            }
                        }
                        found.is_some()
                    },
                    None => entries.len() > 0,
                }
            },
            None => {
                assert(self.versions(ident.name@) =~= Seq::empty());
                false
            },
        }
    }
}

} // verus!
