//! Removing installed versions, deduplicating archives, and merging setting
//! overrides into the directory's settings document.

use vstd::prelude::*;
use crate::version::{version_lt, Version};
use crate::index::{strictly_ascending, versions_of, ModEntry, ModEntryStructure, ModIdent};
use crate::directory::{
    copy_bytes, disable_records, has_record, has_slot, record_at, installed, names_unique, resolve, slots_wf, Directory,
    ModError, ModSlot, RecordView,
};
use crate::resolver::{lemma_resolved_unique, resolved_at};
use crate::settings::{merged_document, tree_of, SettingsError, SettingsValue};

verus! {

pub open spec fn not_zip(e: ModEntry) -> bool {
    e.structure != ModEntryStructure::Zip
}

/// The entries that are not archives.
pub open spec fn unzipped(es: Seq<ModEntry>) -> Seq<ModEntry>
    decreases es.len(),
{
    if es.len() == 0 {
        es
    } else if not_zip(es.last()) {
        unzipped(es.drop_last()).push(es.last())
    } else {
        unzipped(es.drop_last())
    }
}

/// The entries that are archives.
pub open spec fn zips(es: Seq<ModEntry>) -> Seq<ModEntry>
    decreases es.len(),
{
    if es.len() == 0 {
        es
    } else if not_zip(es.last()) {
        zips(es.drop_last())
    } else {
        zips(es.drop_last()).push(es.last())
    }
}

/// The archives that deduplication drops from an ascending slot: every
/// archive below the highest version.
pub open spec fn dropped(es: Seq<ModEntry>) -> Seq<ModEntry> {
    if es.len() == 0 {
        es
    } else {
        zips(es.drop_last())
    }
}

/// The archives dropped from each slot, in slot order.
pub open spec fn dropped_all(mods: Seq<ModSlot>) -> Seq<ModEntry>
    decreases mods.len(),
{
    if mods.len() == 0 {
        Seq::empty()
    } else {
        dropped_all(mods.drop_last()) + dropped(mods.last().entries@)
    }
}

/// The entries of an ascending slot that deduplication keeps: the highest
/// version, and every entry below it that is not an archive.
pub open spec fn dedup_slot(es: Seq<ModEntry>) -> Seq<ModEntry> {
    if es.len() == 0 {
        es
    } else {
        unzipped(es.drop_last()).push(es.last())
    }
}

proof fn lemma_filter_ascending(es: Seq<ModEntry>, bound: Version)
    requires
        strictly_ascending(versions_of(es)),
        forall|i: int| 0 <= i < es.len() ==> version_lt((#[trigger] es[i]).version, bound),
    ensures
        strictly_ascending(versions_of(unzipped(es))),
        forall|i: int| 0 <= i < unzipped(es).len() ==> version_lt(
            (#[trigger] unzipped(es)[i]).version,
            bound,
        ),
    decreases es.len(),
{
    if es.len() > 0 {
        let t = es.drop_last();
        assert(strictly_ascending(versions_of(t))) by {
            assert forall|i: int, j: int| 0 <= i < j < versions_of(t).len() implies version_lt(
                #[trigger] versions_of(t)[i],
                #[trigger] versions_of(t)[j],
            ) by {
                assert(versions_of(es)[i] == versions_of(t)[i]);
                assert(versions_of(es)[j] == versions_of(t)[j]);
            }
        }
        let last = es.last();
        assert(version_lt(last.version, bound)) by {
            assert(es[es.len() - 1] == last);
        }
        assert forall|i: int| 0 <= i < t.len() implies version_lt((#[trigger] t[i]).version, last.version) by {
            assert(versions_of(es)[i] == t[i].version);
            assert(versions_of(es)[es.len() - 1] == last.version);
        }
        lemma_filter_ascending(t, last.version);
        let f = unzipped(t);
        assert forall|i: int| 0 <= i < f.len() implies version_lt((#[trigger] f[i]).version, bound) by {
            assert(version_lt(f[i].version, last.version));
        }
        if not_zip(last) {
            let g = f.push(last);
            assert(unzipped(es) == g);
            assert forall|i: int, j: int| 0 <= i < j < versions_of(g).len() implies version_lt(
                #[trigger] versions_of(g)[i],
                #[trigger] versions_of(g)[j],
            ) by {
                if j == f.len() {
                    assert(versions_of(g)[i] == f[i].version);
                } else {
                    assert(versions_of(g)[i] == versions_of(f)[i]);
                    assert(versions_of(g)[j] == versions_of(f)[j]);
                }
            }
        }
    }
}

proof fn lemma_dedup_slot_ascending(es: Seq<ModEntry>)
    requires
        strictly_ascending(versions_of(es)),
    ensures
        strictly_ascending(versions_of(dedup_slot(es))),
{
    if es.len() > 0 {
        let t = es.drop_last();
        let last = es.last();
        assert(strictly_ascending(versions_of(t))) by {
            assert forall|i: int, j: int| 0 <= i < j < versions_of(t).len() implies version_lt(
                #[trigger] versions_of(t)[i],
                #[trigger] versions_of(t)[j],
            ) by {
                assert(versions_of(es)[i] == versions_of(t)[i]);
                assert(versions_of(es)[j] == versions_of(t)[j]);
            }
        }
        assert forall|i: int| 0 <= i < t.len() implies version_lt((#[trigger] t[i]).version, last.version) by {
            assert(versions_of(es)[i] == t[i].version);
            assert(versions_of(es)[es.len() - 1] == last.version);
        }
        lemma_filter_ascending(t, last.version);
        let f = unzipped(t);
        let g = f.push(last);
        assert forall|i: int, j: int| 0 <= i < j < versions_of(g).len() implies version_lt(
            #[trigger] versions_of(g)[i],
            #[trigger] versions_of(g)[j],
        ) by {
            if j == f.len() {
                assert(versions_of(g)[i] == f[i].version);
            } else {
                assert(versions_of(g)[i] == versions_of(f)[i]);
                assert(versions_of(g)[j] == versions_of(f)[j]);
            }
        }
    }
}

/// The record of `name` is pinned to `v`.
pub open spec fn pinned_to(l: Seq<RecordView>, name: Seq<u8>, v: Version) -> bool {
    has_record(l, name) && l[record_at(l, name)].1 == Some(v)
}

impl Directory {
    /// Deduplicates one slot, moving the archives it drops into `removed`.
    fn dedup_entries(entries: Vec<ModEntry>, removed: &mut Vec<ModEntry>) -> (r: Vec<ModEntry>)
        ensures
            r@ == dedup_slot(entries@),
            final(removed)@ == old(removed)@ + dropped(entries@),
    {
        let ghost es = entries@;
        if entries.len() == 0 {
            assert(removed@ =~= old(removed)@ + dropped(entries@));
            return entries;
        }
        let mut entries = entries;
        let last = entries.pop().unwrap();
        let ghost t = entries@;
        assert(t == es.drop_last());
        let mut kept: Vec<ModEntry> = Vec::new();
        assert(unzipped(t.subrange(0, 0)) =~= Seq::<ModEntry>::empty());
        assert(t.subrange(0, t.len() as int) =~= t);
        while entries.len() > 0
            invariant
                entries@.len() <= t.len(),
                entries@ == t.subrange(t.len() - entries@.len(), t.len() as int),
                kept@ == unzipped(t.subrange(0, t.len() - entries@.len())),
                removed@ == old(removed)@ + zips(t.subrange(0, t.len() - entries@.len())),
            decreases entries.len(),
        {
            let ghost k = t.len() - entries@.len();
            let e = entries.remove(0);
            proof {
                assert(t[k] == e);
                assert(t.subrange(0, k + 1).drop_last() =~= t.subrange(0, k));
                assert(entries@ =~= t.subrange(t.len() - entries@.len(), t.len() as int));
            }
            match e.structure {
                ModEntryStructure::Zip => {
                    let ghost r0 = removed@;
                    removed.push(e);
                    assert(removed@ =~= r0.push(e));
                },
                _ => {
                    kept.push(e);
                },
            }
        }
        assert(t.subrange(0, t.len() as int) =~= t);
        assert(removed@ =~= old(removed)@ + dropped(es));
        kept.push(last);
        kept
    }

    /// Keeps, for every mod, its highest version and the versions below it
    /// that are not archives; returns the archives dropped, whose files are to
    /// be deleted. A record pinned to a version that is gone is pinned to the
    /// mod's highest version.
    pub fn dedup(&mut self) -> (r: Vec<ModEntry>)
        requires
            old(self).wf(),
        ensures
            final(self).wf(),
            final(self).mods@.len() == old(self).mods@.len(),
            forall|i: int| 0 <= i < old(self).mods@.len() ==> (#[trigger] final(self).mods@[i]).name@ == old(self).mods@[i].name@
                && final(self).mods@[i].entries@ == dedup_slot(old(self).mods@[i].entries@),
            r@ == dropped_all(old(self).mods@),
            final(self).records().len() == old(self).records().len(),
            forall|i: int| 0 <= i < old(self).records().len() ==> {
                let o = #[trigger] old(self).records()[i];
                let vs = final(self).versions(o.0);
                final(self).records()[i] == if o.1 is Some && vs.len() > 0 && !vs.contains(o.1->Some_0) {
                    (o.0, Some(vs.last()), o.2)
                } else {
                    o
                }
            },
    {
        let ghost old_mods = self.mods@;
        let mut removed: Vec<ModEntry> = Vec::new();
        let mut k: usize = 0;
        while k < self.mods.len()
            invariant
                k <= self.mods@.len() == old_mods.len(),
                forall|i: int| 0 <= i < k ==> (#[trigger] self.mods@[i]).name@ == old_mods[i].name@
                    && self.mods@[i].entries@ == dedup_slot(old_mods[i].entries@),
                forall|i: int| k <= i < old_mods.len() ==> #[trigger] self.mods@[i] == old_mods[i],
                removed@ == dropped_all(old_mods.subrange(0, k as int)),
                slots_wf(old_mods),
                self.mod_list == old(self).mod_list,
            decreases old_mods.len() - k,
        {
            let ghost before = self.mods@;
            let slot = self.mods.remove(k);
            let ModSlot { name, entries } = slot;
            assert(entries@ == old_mods[k as int].entries@);
            let kept = Self::dedup_entries(entries, &mut removed);
            assert(old_mods.subrange(0, k + 1).drop_last() =~= old_mods.subrange(0, k as int));
            self.mods.insert(k, ModSlot { name, entries: kept });
            proof {
                assert forall|i: int| 0 <= i < self.mods@.len() && i != k implies #[trigger] self.mods@[i] == before[i] by {}
            }
            k = k + 1;
        }
        assert(old_mods.subrange(0, k as int) =~= old_mods);
        proof {
            assert(slots_wf(self.mods@)) by {
                assert forall|a: int, b: int| 0 <= a < b < self.mods@.len() implies
                    (#[trigger] self.mods@[a]).name@ != (#[trigger] self.mods@[b]).name@ by {
                    assert(old_mods[a].name@ != old_mods[b].name@);
                }
                assert forall|a: int| 0 <= a < self.mods@.len() implies strictly_ascending(
                    versions_of((#[trigger] self.mods@[a]).entries@)) by {
                    assert(strictly_ascending(versions_of(old_mods[a].entries@)));
                    lemma_dedup_slot_ascending(old_mods[a].entries@);
                }
            }
        }
        self.repin();
        removed
    }

    /// Pins each pinned record whose version is no longer installed to the
    /// mod's highest version.
    fn repin(&mut self)
        requires
            old(self).wf(),
        ensures
            final(self).wf(),
            final(self).mods@ == old(self).mods@,
            final(self).records().len() == old(self).records().len(),
            forall|i: int| 0 <= i < old(self).records().len() ==> {
                let o = #[trigger] old(self).records()[i];
                let vs = final(self).versions(o.0);
                final(self).records()[i] == if o.1 is Some && vs.len() > 0 && !vs.contains(o.1->Some_0) {
                    (o.0, Some(vs.last()), o.2)
                } else {
                    o
                }
            },
    {
        let ghost l = self.records();
        let mut k: usize = 0;
        while k < self.mod_list.len()
            invariant
                self.wf(),
                self.mods@ == old(self).mods@,
                k <= self.mod_list@.len() == l.len(),
                names_unique(l),
                forall|j: int| 0 <= j < self.records().len() ==> (#[trigger] self.records()[j]).0 == l[j].0,
                forall|i: int| 0 <= i < k ==> {
                    let o = #[trigger] l[i];
                    let vs = self.versions(o.0);
                    self.records()[i] == if o.1 is Some && vs.len() > 0 && !vs.contains(o.1->Some_0) {
                        (o.0, Some(vs.last()), o.2)
                    } else {
                        o
                    }
                },
                forall|i: int| k <= i < l.len() ==> #[trigger] self.records()[i] == l[i],
            decreases l.len() - k,
        {
            let ghost before = self.records();
            let ghost old_list = self.mod_list@;
            assert(before[k as int] == l[k as int]);
            if let Some(v) = self.mod_list[k].version {
                let ident = ModIdent { name: copy_bytes(self.mod_list[k].name.as_slice()), version: Some(v), version_req: None };
                if !self.contains(&ident) {
                    let latest = ModIdent { name: ident.name, version: None, version_req: None };
                    if let Some(i) = self.find_slot(latest.name.as_slice()) {
                        proof {
                            crate::directory::lemma_installed_at_pub(self.mods@, i as int);
                        }
                        let n = self.mods[i].entries.len();
                        if n > 0 {
                            let top = self.mods[i].entries[n - 1].version;
                            self.mod_list[k].version = Some(top);
                            proof {
                                assert(versions_of(self.mods@[i as int].entries@).last() == top);
                            }
                        }
                    } else {
                        assert(self.versions(l[k as int].0) =~= Seq::empty());
                    }
                }
            }
            proof {
                assert forall|j: int| 0 <= j < l.len() && j != k implies #[trigger] self.records()[j] == before[j] by {
                    assert(self.mod_list@[j] == old_list[j]);
                }
                assert(names_unique(self.records())) by {
                    assert forall|a: int, b: int| 0 <= a < b < self.records().len() implies
                        (#[trigger] self.records()[a]).0 != (#[trigger] self.records()[b]).0 by {
                        assert(l[a].0 != l[b].0);
                    }
                }
            }
            k = k + 1;
        }
    }

    /// Takes the version that `ident` resolves to (the exact one, else the
    /// latest) out of the index and returns it, so that its files can be
    /// deleted. A record pinned to that version is disabled.
    pub fn remove(&mut self, ident: &ModIdent) -> (r: Result<ModEntry, ModError>)
        requires
            old(self).wf(),
        ensures
            final(self).wf(),
            match resolve(old(self).versions(ident.name@), ident.version, ident.version_req) {
                Some(v) => r is Ok && r->Ok_0.version == v
                    && (forall|i: int, j: int| resolved_at(*old(self), ident.name@, ident.version, ident.version_req, i, j)
                        ==> r->Ok_0 == #[trigger] old(self).mods@[i].entries@[j])
                    && final(self).records() == if pinned_to(old(self).records(), ident.name@, v) {
                        disable_records(old(self).records(), ident.name@)
                    } else {
                        old(self).records()
                    }
                    && final(self).versions(ident.name@) == old(self).versions(ident.name@).remove(
                        old(self).versions(ident.name@).index_of(v))
                    && (forall|n: Seq<u8>| n != ident.name@ ==> final(self).versions(n) == old(self).versions(n)),
                None => r is Err && r->Err_0 is NotFound && final(self).mods@ == old(self).mods@
                    && final(self).records() == old(self).records(),
            },
    {
        match self.resolve_entry(ident.name.as_slice(), &ident.version, &ident.version_req) {
            Some((i, j)) => {
                let ghost old_mods = self.mods@;
                let ghost old_self = *self;
                let ghost vs = versions_of(old_mods[i as int].entries@);
                proof {
                    assert forall|i2: int, j2: int| resolved_at(old_self, ident.name@, ident.version, ident.version_req, i2, j2)
                        implies i2 == i && j2 == j by {
                        lemma_resolved_unique(old_self, ident.name@, ident.version, ident.version_req, i as int, j as int, i2, j2);
                    }
                }
                proof {
                    crate::directory::lemma_installed_at_pub(old_mods, i as int);
                }
                let mut slot = self.mods.remove(i);
                let entry = slot.entries.remove(j);
                self.mods.insert(i, slot);
                proof {
                    let m = self.mods@;
                    assert(versions_of(m[i as int].entries@) =~= vs.remove(j as int));
                    assert(vs.index_of(entry.version) == j) by {
                        let x = vs.index_of(entry.version);
                        assert(vs.contains(entry.version)) by { assert(vs[j as int] == entry.version); }
                        if x != j as int {
                            if x < j { assert(version_lt(vs[x], vs[j as int])); } else { assert(version_lt(vs[j as int], vs[x])); }
                        }
                    }
                    assert(slots_wf(m)) by {
                        assert forall|a: int, b: int| 0 <= a < b < m.len() implies
                            (#[trigger] m[a]).name@ != (#[trigger] m[b]).name@ by {
                            assert(old_mods[a].name@ != old_mods[b].name@);
                        }
                        assert forall|a: int| 0 <= a < m.len() implies strictly_ascending(
                            versions_of((#[trigger] m[a]).entries@)) by {
                            if a == i {
                                let w = vs.remove(j as int);
                                assert forall|x: int, y: int| 0 <= x < y < w.len() implies version_lt(#[trigger] w[x], #[trigger] w[y]) by {
                                    let x2 = if x < j { x } else { x + 1 };
                                    let y2 = if y < j { y } else { y + 1 };
                                    assert(w[x] == vs[x2] && w[y] == vs[y2]);
                                }
                            } else {
                                assert(m[a] == old_mods[a]);
                            }
                        }
                    }
                    crate::directory::lemma_installed_at_pub(m, i as int);
                    assert forall|n: Seq<u8>| n != ident.name@ implies installed(m, n) == installed(old_mods, n) by {
                        if has_slot(old_mods, n) {
                            let k = choose|k: int| 0 <= k < old_mods.len() && (#[trigger] old_mods[k]).name@ == n;
                            crate::directory::lemma_installed_at_pub(old_mods, k);
                            crate::directory::lemma_installed_at_pub(m, k);
                        } else if has_slot(m, n) {
                            let k = choose|k: int| 0 <= k < m.len() && (#[trigger] m[k]).name@ == n;
                            assert(old_mods[k].name@ == n);
                        }
                    }
                }
                let pinned = match self.find_record(ident.name.as_slice()) {
                    Some(x) => {
                        proof {
                            crate::directory::lemma_record_at_pub(self.records(), x as int);
                        }
                        match self.mod_list[x].version {
                            Some(pv) => pv.same(&entry.version),
                            None => false,
                        }
                    },
                    None => false,
                };
                if pinned {
                    let disable = ModIdent { name: copy_bytes(ident.name.as_slice()), version: None, version_req: None };
                    self.disable_record(disable.name.as_slice());
                }
                Ok(entry)
            },
            None => Err(ModError::NotFound(copy_bytes(ident.name.as_slice()))),
        }
    }

    /// Merges `save_settings`, a dictionary, into the startup group of the
    /// settings document; see `ModSettings::merge_startup`.
    pub fn sync_settings(&mut self, save_settings: &SettingsValue) -> (r: Result<(), SettingsError>)
        ensures
            final(self).mods@ == old(self).mods@,
            final(self).mod_list@ == old(self).mod_list@,
            match merged_document(old(self).mod_settings.tree()->Dict_0, tree_of(*save_settings)) {
                Ok(t) => r is Ok && final(self).mod_settings.tree() == t,
                Err(e) => r == Err::<(), SettingsError>(e) && final(self).mod_settings.tree() == old(self).mod_settings.tree(),
            },
    {
        self.mod_settings.merge_startup(save_settings)
    }
}

} // verus!
