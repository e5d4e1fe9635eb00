//! Enabling a mod together with what its descriptor asks for: required
//! dependencies, optional ones that are installed, and incompatibilities.

use vstd::prelude::*;
use crate::version::{Requirement, Version};
use crate::index::{strictly_ascending, versions_of, DependencyKind, ModDependency, ModEntry, ModIdent};
use crate::directory::{
    base_name, copy_bytes, enable_records, has_record, has_slot, is_base, is_enabled, names_unique, record_at,
    resolve, Directory, ModError, RecordView,
};

verus! {

/// The number of names not yet visited.
pub open spec fn unvisited(v: Seq<bool>) -> nat
    decreases v.len(),
{
    if v.len() == 0 {
        0
    } else {
        unvisited(v.drop_last()) + if v.last() {
            0nat
        } else {
            1nat
        }
    }
}

/// `b` marks at least what `a` marks.
pub open spec fn grows(a: Seq<bool>, b: Seq<bool>) -> bool {
    a.len() == b.len() && forall|i: int| 0 <= i < a.len() && #[trigger] a[i] ==> b[i]
}

proof fn lemma_unvisited_grows(a: Seq<bool>, b: Seq<bool>)
    requires
        grows(a, b),
    ensures
        unvisited(b) <= unvisited(a),
    decreases a.len(),
{
    if a.len() > 0 {
        assert(grows(a.drop_last(), b.drop_last())) by {
            assert forall|i: int| 0 <= i < a.drop_last().len() && #[trigger] a.drop_last()[i] implies b.drop_last()[i] by {
                assert(a[i]);
            }
        }
        lemma_unvisited_grows(a.drop_last(), b.drop_last());
        assert(a.last() ==> b.last()) by {
            assert(a[a.len() - 1] ==> b[a.len() - 1]);
        }
    }
}

proof fn lemma_unvisited_mark(a: Seq<bool>, i: int)
    requires
        0 <= i < a.len(),
        !a[i],
    ensures
        unvisited(a.update(i, true)) + 1 == unvisited(a),
    decreases a.len(),
{
    let b = a.update(i, true);
    if i == a.len() - 1 {
        assert(b.drop_last() =~= a.drop_last());
    } else {
        assert(b.drop_last() =~= a.drop_last().update(i, true));
        lemma_unvisited_mark(a.drop_last(), i);
    }
}

proof fn lemma_trans_grows(a: Seq<bool>, b: Seq<bool>, c: Seq<bool>)
    requires
        grows(a, b),
        grows(b, c),
    ensures
        grows(a, c),
{
    assert forall|i: int| 0 <= i < a.len() && #[trigger] a[i] implies c[i] by {
        assert(b[i]);
    }
}

proof fn lemma_enable_records_enables(l: Seq<RecordView>, name: Seq<u8>, pin: Option<Version>)
    requires
        names_unique(l),
    ensures
        is_enabled(enable_records(l, name, pin), name),
        names_unique(enable_records(l, name, pin)),
{
    let r = enable_records(l, name, pin);
    if has_record(l, name) {
        let i = record_at(l, name);
        assert(r[i].0 == name && r[i].2);
    } else {
        assert(r[l.len() as int].0 == name);
        assert forall|a: int, b: int| 0 <= a < b < r.len() implies (#[trigger] r[a]).0 != (#[trigger] r[b]).0 by {
            if b == l.len() {
                assert(l[a].0 != name) by {
                    assert(!(0 <= a < l.len() && l[a].0 == name));
                }
            } else {
                assert(l[a].0 != l[b].0);
            }
        }
    }
}

/// Each old record keeps its name, an enabled one stays as it was, and a
/// changed or new record is enabled.
pub open spec fn only_enables(old: Seq<RecordView>, new: Seq<RecordView>) -> bool {
    &&& old.len() <= new.len()
    &&& forall|i: int| 0 <= i < old.len() ==> (#[trigger] new[i]).0 == old[i].0 && (old[i].2 ==> new[i] == old[i]) && (new[i] != old[i] ==> new[i].2)
    &&& forall|i: int| old.len() <= i < new.len() ==> (#[trigger] new[i]).2
}

proof fn lemma_only_enables_step(a: Seq<RecordView>, b: Seq<RecordView>, name: Seq<u8>, pin: Option<Version>)
    requires
        only_enables(a, b),
        names_unique(b),
    ensures
        only_enables(a, enable_records(b, name, pin)),
{
    let c = enable_records(b, name, pin);
    if has_record(b, name) {
        let k = record_at(b, name);
        assert forall|i: int| 0 <= i < a.len() implies (#[trigger] c[i]).0 == a[i].0 && (a[i].2 ==> c[i] == a[i]) && (c[i] != a[i] ==> c[i].2) by {
            assert(b[i].0 == a[i].0);
        }
        assert forall|i: int| a.len() <= i < c.len() implies (#[trigger] c[i]).2 by {
            assert(b[i].2);
        }
    } else {
        assert forall|i: int| 0 <= i < a.len() implies (#[trigger] c[i]).0 == a[i].0 && (a[i].2 ==> c[i] == a[i]) && (c[i] != a[i] ==> c[i].2) by {
            assert(c[i] == b[i]);
        }
        assert forall|i: int| a.len() <= i < c.len() implies (#[trigger] c[i]).2 by {
            if i < b.len() {
                assert(c[i] == b[i]);
            }
        }
    }
}

/// The loaded descriptor of `e` declares itself incompatible with a mod
/// whose record in `records` is enabled.
pub open spec fn conflicts(records: Seq<RecordView>, e: ModEntry) -> bool {
    e.info_json is Some && exists|k: int|
        0 <= k < e.info_json->Some_0.dependencies@.len() && conflict_clause(
            records,
            #[trigger] e.info_json->Some_0.dependencies@[k],
        )
}

/// The clause declares an incompatibility with a mod whose record is enabled.
pub open spec fn conflict_clause(records: Seq<RecordView>, c: ModDependency) -> bool {
    c.kind == DependencyKind::Incompatible && is_enabled(records, c.name@)
}

/// The clause requires a mod other than base of which no installed version
/// meets its requirement.
pub open spec fn missing_clause(d: Directory, c: ModDependency) -> bool {
    c.kind == DependencyKind::Required && c.name@ != base_name() && resolve(
        d.versions(c.name@),
        None,
        c.requirement,
    ) is None
}

/// The clause asks for its mod to be enabled: a required one other than
/// base, or an optional one of which an accepted version is installed.
pub open spec fn walked_clause(d: Directory, c: ModDependency) -> bool {
    c.name@ != base_name() && (c.kind == DependencyKind::Required || ((c.kind
        == DependencyKind::Optional || c.kind == DependencyKind::OptionalHidden) && resolve(
        d.versions(c.name@),
        None,
        c.requirement,
    ) is Some))
}

/// The mod that a `NotFound` or `NoMatchingVersion` error names.
pub open spec fn missing_name(e: ModError) -> Option<Seq<u8>> {
    match e {
        ModError::NotFound(n) => Some(n@),
        ModError::NoMatchingVersion(n) => Some(n@),
        _ => None,
    }
}

pub open spec fn deps_of(e: ModEntry) -> Seq<ModDependency> {
    e.info_json->Some_0.dependencies@
}

/// The descriptor of `e` is loaded and names no dependency but base.
pub open spec fn no_dependencies(e: ModEntry) -> bool {
    e.info_json is Some && forall|k: int|
        0 <= k < e.info_json->Some_0.dependencies@.len() ==> (#[trigger] e.info_json->Some_0.dependencies@[k]).name@
            == base_name() && e.info_json->Some_0.dependencies@[k].kind != DependencyKind::Incompatible
}

/// Every clause of the loaded descriptor of `e` can be met: a required
/// dependency resolves within its requirement, and an incompatible mod is
/// neither installed nor enabled. Clauses on base are always met.
pub open spec fn entry_sound(d: Directory, e: ModEntry) -> bool {
    e.info_json is Some && forall|k: int|
        0 <= k < e.info_json->Some_0.dependencies@.len() ==> {
            let c = #[trigger] e.info_json->Some_0.dependencies@[k];
            !missing_clause(d, c) && (c.kind == DependencyKind::Incompatible ==> !has_slot(
                d.mods@,
                c.name@,
            ) && !is_enabled(d.records(), c.name@))
        }
}

/// Every installed version's descriptor is loaded and can be met.
pub open spec fn index_sound(d: Directory) -> bool {
    forall|i: int, j: int|
        0 <= i < d.mods@.len() && 0 <= j < d.mods@[i].entries@.len() ==> entry_sound(
            d,
            #[trigger] d.mods@[i].entries@[j],
        )
}

/// The entry at slot `i`, position `j` is the one that the request for
/// `name` resolves to.
pub open spec fn resolved_at(
    d: Directory,
    name: Seq<u8>,
    version: Option<Version>,
    req: Option<Requirement>,
    i: int,
    j: int,
) -> bool {
    0 <= i < d.mods@.len() && d.mods@[i].name@ == name && 0 <= j < d.mods@[i].entries@.len()
        && resolve(d.versions(name), version, req) == Some(d.mods@[i].entries@[j].version)
}

pub proof fn lemma_resolved_unique(
    d: Directory,
    name: Seq<u8>,
    version: Option<Version>,
    req: Option<Requirement>,
    i: int,
    j: int,
    i2: int,
    j2: int,
)
    requires
        d.wf(),
        resolved_at(d, name, version, req, i, j),
        resolved_at(d, name, version, req, i2, j2),
    ensures
        i == i2 && j == j2,
{
    if i != i2 {
        if i < i2 {
            assert(d.mods@[i].name@ != d.mods@[i2].name@);
        } else {
            assert(d.mods@[i2].name@ != d.mods@[i].name@);
        }
    }
    let vs = versions_of(d.mods@[i].entries@);
    assert(strictly_ascending(vs));
    if j != j2 {
        assert(vs[j] == d.mods@[i].entries@[j].version);
        assert(vs[j2] == d.mods@[i].entries@[j2].version);
        if j < j2 {
            assert(crate::version::version_lt(vs[j], vs[j2]));
        } else {
            assert(crate::version::version_lt(vs[j2], vs[j]));
        }
    }
}

/// Some slot named `n` is marked in `vis`.
pub open spec fn visited_named(vis: Seq<bool>, mods: Seq<crate::directory::ModSlot>, n: Seq<u8>) -> bool {
    exists|s: int| 0 <= s < mods.len() && s < vis.len() && (#[trigger] mods[s]).name@ == n && vis[s]
}

/// Slot `s` is part of `p`.
pub open spec fn in_plan(p: Seq<(usize, Option<Version>)>, s: int) -> bool {
    exists|m: int| 0 <= m < p.len() && (#[trigger] p[m]).0 == s
}

/// `q` begins with `p`.
pub open spec fn extends(p: Seq<(usize, Option<Version>)>, q: Seq<(usize, Option<Version>)>) -> bool {
    p.len() <= q.len() && forall|m: int| 0 <= m < p.len() ==> #[trigger] q[m] == p[m]
}

proof fn lemma_extends_trans(a: Seq<(usize, Option<Version>)>, b: Seq<(usize, Option<Version>)>, c: Seq<(usize, Option<Version>)>)
    requires
        extends(a, b),
        extends(b, c),
    ensures
        extends(a, c),
{
    assert forall|m: int| 0 <= m < a.len() implies #[trigger] c[m] == a[m] by {
        assert(b[m] == a[m]);
    }
}

proof fn lemma_in_plan_extends(p: Seq<(usize, Option<Version>)>, q: Seq<(usize, Option<Version>)>, s: int)
    requires
        extends(p, q),
        in_plan(p, s),
    ensures
        in_plan(q, s),
{
    let m = choose|m: int| 0 <= m < p.len() && (#[trigger] p[m]).0 == s;
    assert(q[m] == p[m]);
}

proof fn lemma_visited_named_grows(a: Seq<bool>, b: Seq<bool>, mods: Seq<crate::directory::ModSlot>, n: Seq<u8>)
    requires
        grows(a, b),
        visited_named(a, mods, n),
    ensures
        visited_named(b, mods, n),
{
    let s = choose|s: int| 0 <= s < mods.len() && s < a.len() && (#[trigger] mods[s]).name@ == n && a[s];
    assert(b[s]);
}

impl Directory {
    /// Whether slot `slot` is already part of `plan`.
    fn planned(plan: &Vec<(usize, Option<Version>)>, slot: usize) -> (r: bool)
        ensures
            r == exists|k: int| 0 <= k < plan@.len() && (#[trigger] plan@[k]).0 == slot,
    {
        let mut k: usize = 0;
        while k < plan.len()
            invariant
                k <= plan.len(),
                forall|j: int| 0 <= j < k ==> (#[trigger] plan@[j]).0 != slot,
            decreases plan.len() - k,
        {
            if plan[k].0 == slot {
                return true;
            }
            k = k + 1;
        }
        false
    }

    /// Whether the record of `name` is enabled.
    pub fn enabled(&self, name: &[u8]) -> (r: bool)
        requires
            self.wf(),
        ensures
            r == is_enabled(self.records(), name@),
    {
        match self.find_record(name) {
            Some(i) => {
                let r = self.mod_list[i].enabled;
                proof {
                    if is_enabled(self.records(), name@) {
                        let k = choose|k: int| 0 <= k < self.records().len() && (#[trigger] self.records()[k]).0 == name@ && self.records()[k].2;
                        if k != i {
                            if k < i {
                                assert(self.records()[k].0 != self.records()[i as int].0);
                            } else {
                                assert(self.records()[i as int].0 != self.records()[k].0);
                            }
                        }
                    }
                }
                r
            },
            None => false,
        }
    }

    /// The first clause of `deps` that declares an incompatibility with an
    /// enabled mod.
    fn first_conflict(&self, deps: &Vec<ModDependency>) -> (r: Option<usize>)
        requires
            self.wf(),
        ensures
            match r {
                Some(k) => k < deps@.len() && conflict_clause(self.records(), deps@[k as int]),
                None => forall|k: int| 0 <= k < deps@.len() ==> !conflict_clause(self.records(), #[trigger] deps@[k]),
            },
    {
        let mut k: usize = 0;
        while k < deps.len()
            invariant
                self.wf(),
                k <= deps@.len(),
                forall|m: int| 0 <= m < k ==> !conflict_clause(self.records(), #[trigger] deps@[m]),
            decreases deps.len() - k,
        {
            let dep = &deps[k];
            if dep.kind == DependencyKind::Incompatible && self.enabled(dep.name.as_slice()) {
                return Some(k);
            }
            k = k + 1;
        }
        None
    }

    /// The first clause of `deps` that requires a mod, other than base, of
    /// which no installed version meets the requirement.
    fn first_missing(&self, deps: &Vec<ModDependency>) -> (r: Option<usize>)
        requires
            self.wf(),
        ensures
            match r {
                Some(k) => k < deps@.len() && missing_clause(*self, deps@[k as int]),
                None => forall|k: int| 0 <= k < deps@.len() ==> !missing_clause(*self, #[trigger] deps@[k]),
            },
    {
        let mut k: usize = 0;
        while k < deps.len()
            invariant
                self.wf(),
                k <= deps@.len(),
                forall|m: int| 0 <= m < k ==> !missing_clause(*self, #[trigger] deps@[m]),
            decreases deps.len() - k,
        {
            let dep = &deps[k];
            if dep.kind == DependencyKind::Required && !is_base(dep.name.as_slice())
                && self.resolve_entry(dep.name.as_slice(), &None, &dep.requirement).is_none() {
                return Some(k);
            }
            k = k + 1;
        }
        None
    }

    /// Walks the dependencies of the mod that the request names and appends
    /// to `plan` each mod to enable, dependencies before dependents, with the
    /// version to pin: the chosen one when `pin_version`, else none. A mod
    /// whose slot is marked in `visited` is not walked again, so circular
    /// declarations end.
    fn plan_enable(
        &self,
        name: &[u8],
        version: Option<Version>,
        req: Option<Requirement>,
        pin_version: bool,
        visited: &mut Vec<bool>,
        plan: &mut Vec<(usize, Option<Version>)>,
    ) -> (r: Result<(), ModError>)
        requires
            self.wf(),
            old(visited)@.len() == self.mods@.len(),
            forall|k: int| 0 <= k < old(plan)@.len() ==> (#[trigger] old(plan)@[k]).0 < self.mods@.len(),
        ensures
            grows(old(visited)@, final(visited)@),
            forall|k: int| 0 <= k < final(plan)@.len() ==> (#[trigger] final(plan)@[k]).0 < self.mods@.len(),
            extends(old(plan)@, final(plan)@),
            resolve(self.versions(name@), version, req) is None ==> r is Err,
            (exists|i: int, j: int|
                resolved_at(*self, name@, version, req, i, j) && no_dependencies(#[trigger] self.mods@[i].entries@[j])) ==> r is Ok,
            index_sound(*self) && resolve(self.versions(name@), version, req) is Some ==> r is Ok,
            r is Ok ==> visited_named(final(visited)@, self.mods@, name@),
            r is Ok ==> forall|s: int|
                0 <= s < final(visited)@.len() && #[trigger] final(visited)@[s] && !old(visited)@[s] ==> in_plan(final(plan)@, s),
            r is Ok ==> forall|i: int, j: int|
                resolved_at(*self, name@, version, req, i, j) && !old(visited)@[i] ==> !conflicts(
                    self.records(),
                    #[trigger] self.mods@[i].entries@[j],
                ) && forall|k: int| 0 <= k < deps_of(self.mods@[i].entries@[j]).len() && walked_clause(*self, #[trigger] deps_of(self.mods@[i].entries@[j])[k])
                    ==> visited_named(final(visited)@, self.mods@, deps_of(self.mods@[i].entries@[j])[k].name@),
        decreases unvisited(old(visited)@),
    {
        let (i, j) = match self.resolve_entry(name, &version, &req) {
            Some(found) => found,
            None => {
                if req.is_some() {
                    return Err(ModError::NoMatchingVersion(copy_bytes(name)));
                }
                return Err(ModError::NotFound(copy_bytes(name)));
            },
        };
        if visited[i] {
            proof {
                assert forall|i2: int, j2: int|
                    resolved_at(*self, name@, version, req, i2, j2) && !old(visited)@[i2] implies !conflicts(
                        self.records(),
                        #[trigger] self.mods@[i2].entries@[j2],
                    ) by {
                    lemma_resolved_unique(*self, name@, version, req, i as int, j as int, i2, j2);
                }
                assert(visited_named(visited@, self.mods@, name@)) by {
                    assert(self.mods@[i as int].name@ == name@ && visited@[i as int]);
                }
                assert(extends(plan@, plan@));
            }
            return Ok(());
        }
        proof {
            assert forall|i2: int, j2: int| #[trigger] resolved_at(*self, name@, version, req, i2, j2) implies i2 == i && j2 == j by {
                lemma_resolved_unique(*self, name@, version, req, i as int, j as int, i2, j2);
            }
        }
        let ghost start = visited@;
        let ghost plan0 = plan@;
        visited.set(i, true);
        proof {
            lemma_unvisited_mark(start, i as int);
            assert(grows(start, visited@));
        }
        let entry = &self.mods[i].entries[j];
        proof {
            if index_sound(*self) {
                assert(entry_sound(*self, self.mods@[i as int].entries@[j as int]));
            }
        }
        let info = match entry.get_info_json() {
            Some(info) => info,
            None => {
                return Err(ModError::InvalidDescriptor(copy_bytes(name)));
            },
        };
        let ghost deps = info.dependencies@;
        assert(entry.info_json == Some(*info));
        assert(extends(plan0, plan@));
        let mut k: usize = 0;
        while k < info.dependencies.len()
            invariant
                self.wf(),
                i < self.mods@.len(),
                start == old(visited)@,
                plan0 == old(plan)@,
                grows(start, visited@),
                visited@[i as int],
                unvisited(visited@) < unvisited(start),
                visited@.len() == self.mods@.len(),
                forall|m: int| 0 <= m < plan@.len() ==> (#[trigger] plan@[m]).0 < self.mods@.len(),
                extends(plan0, plan@),
                forall|s: int| 0 <= s < visited@.len() && #[trigger] visited@[s] && !start[s] && s != i ==> in_plan(plan@, s),
                k <= deps.len(),
                deps == info.dependencies@,
                i < self.mods@.len() && j < self.mods@[i as int].entries@.len(),
                self.mods@[i as int].entries@[j as int].info_json == Some(*info),
                index_sound(*self) ==> entry_sound(*self, self.mods@[i as int].entries@[j as int]),
                forall|i2: int, j2: int| #[trigger] resolved_at(*self, name@, version, req, i2, j2) ==> i2 == i && j2 == j,
                forall|m: int| 0 <= m < k ==> !conflict_clause(self.records(), #[trigger] deps[m]),
                forall|m: int| 0 <= m < k && walked_clause(*self, #[trigger] deps[m]) ==> visited_named(visited@, self.mods@, deps[m].name@),
            decreases info.dependencies.len() - k,
        {
            let dep = &info.dependencies[k];
            let dname = dep.name.as_slice();
            assert(deps[k as int] == *dep);
            proof {
                if index_sound(*self) {
                    assert(entry_sound(*self, self.mods@[i as int].entries@[j as int]));
                }
            }
            if dep.kind == DependencyKind::Incompatible {
                assert(!no_dependencies(self.mods@[i as int].entries@[j as int]));
                let conflict = match self.find_slot(dname) {
                    Some(s) => Self::planned(plan, s),
                    None => false,
                };
                if conflict || self.enabled(dname) {
                    return Err(ModError::DependencyConflict { name: copy_bytes(name), other: copy_bytes(dname) });
                }
            } else if !is_base(dname) {
                assert(!no_dependencies(self.mods@[i as int].entries@[j as int])) by {
                    assert(deps[k as int].name@ != base_name());
                }
                let walk = match dep.kind {
                    DependencyKind::Required => true,
                    _ => self.resolve_entry(dname, &None, &dep.requirement).is_some(),
                };
                if walk {
                    let ghost before = visited@;
                    let ghost plan1 = plan@;
                    let res = self.plan_enable(dname, None, dep.requirement, dep.requirement.is_some(), visited, plan);
                    proof {
                        lemma_unvisited_grows(before, visited@);
                        lemma_trans_grows(start, before, visited@);
                        lemma_extends_trans(plan0, plan1, plan@);
                    }
                    if res.is_err() {
                        return res;
                    }
                    proof {
                        assert forall|s: int| 0 <= s < visited@.len() && #[trigger] visited@[s] && !start[s] && s != i implies in_plan(plan@, s) by {
                            if before[s] {
                                lemma_in_plan_extends(plan1, plan@, s);
                            }
                        }
                        assert forall|m: int| 0 <= m < k && walked_clause(*self, #[trigger] deps[m]) implies visited_named(visited@, self.mods@, deps[m].name@) by {
                            lemma_visited_named_grows(before, visited@, self.mods@, deps[m].name@);
                        }
                    }
                }
            }
            k = k + 1;
        }
        let pin = if pin_version {
            Some(self.mods[i].entries[j].version)
        } else {
            None
        };
        let ghost plan2 = plan@;
        plan.push((i, pin));
        proof {
            assert(extends(plan2, plan@));
            lemma_extends_trans(plan0, plan2, plan@);
            assert forall|s: int| 0 <= s < visited@.len() && #[trigger] visited@[s] && !start[s] implies in_plan(plan@, s) by {
                if s == i {
                    assert(plan@[plan2.len() as int].0 == s);
                } else {
                    lemma_in_plan_extends(plan2, plan@, s);
                }
            }
            assert(visited_named(visited@, self.mods@, name@)) by {
                assert(self.mods@[i as int].name@ == name@ && visited@[i as int]);
            }
            assert forall|i2: int, j2: int|
                resolved_at(*self, name@, version, req, i2, j2) && !old(visited)@[i2] implies !conflicts(
                    self.records(),
                    #[trigger] self.mods@[i2].entries@[j2],
                ) && forall|k2: int| 0 <= k2 < deps_of(self.mods@[i2].entries@[j2]).len() && walked_clause(*self, #[trigger] deps_of(self.mods@[i2].entries@[j2])[k2])
                    ==> visited_named(visited@, self.mods@, deps_of(self.mods@[i2].entries@[j2])[k2].name@) by {
                lemma_resolved_unique(*self, name@, version, req, i as int, j as int, i2, j2);
                let e = self.mods@[i as int].entries@[j as int];
                assert(e.info_json->Some_0.dependencies@ == deps);
                assert(deps_of(e) == deps);
            }
        }
        Ok(())
    }

    /// Enables the mod that `ident` names together with its dependencies.
    /// The requested version's own clauses are checked first: a declared
    /// incompatibility with an enabled mod (base included) is a
    /// `DependencyConflict` naming both mods, and a required mod other than
    /// base with no installed version in range is `NoMatchingVersion` (or
    /// `NotFound` when the clause has no requirement) naming that mod. Then
    /// required dependencies, and optional ones of which an accepted version
    /// is installed, are walked and enabled; each name is walked once. A
    /// dependency with a requirement is pinned to the version chosen for it;
    /// the requested mod is pinned only when the request gives an exact
    /// version. On an error the records are left exactly as they were. The
    /// call succeeds whenever the request resolves and every installed
    /// descriptor is loaded and can be met (`index_sound`).
    pub fn enable_with_dependencies(&mut self, ident: &ModIdent) -> (r: Result<(), ModError>)
        requires
            old(self).wf(),
        ensures
            final(self).wf(),
            final(self).mods@ == old(self).mods@,
            final(self).mod_settings == old(self).mod_settings,
            r is Err ==> final(self).records() == old(self).records(),
            resolve(old(self).versions(ident.name@), ident.version, ident.version_req) is None ==> (r matches Err(
                ModError::NotFound(n),
            ) && n@ == ident.name@),
            r is Ok ==> is_enabled(final(self).records(), ident.name@),
            r is Ok ==> only_enables(old(self).records(), final(self).records()),
            r is Ok && !is_enabled(old(self).records(), ident.name@) ==> final(self).records().contains(
                (
                    ident.name@,
                    if ident.version is Some {
                        resolve(old(self).versions(ident.name@), ident.version, ident.version_req)
                    } else {
                        None
                    },
                    true,
                ),
            ),
            forall|i: int, j: int|
                resolved_at(*old(self), ident.name@, ident.version, ident.version_req, i, j)
                    && conflicts(old(self).records(), #[trigger] old(self).mods@[i].entries@[j]) ==> (r matches Err(
                    ModError::DependencyConflict { name, other },
                ) && name@ == ident.name@ && exists|k: int|
                    0 <= k < deps_of(old(self).mods@[i].entries@[j]).len() && conflict_clause(
                        old(self).records(),
                        #[trigger] deps_of(old(self).mods@[i].entries@[j])[k],
                    ) && deps_of(old(self).mods@[i].entries@[j])[k].name@ == other@),
            forall|i: int, j: int|
                resolved_at(*old(self), ident.name@, ident.version, ident.version_req, i, j)
                    && (#[trigger] old(self).mods@[i].entries@[j]).info_json is Some && !conflicts(
                    old(self).records(),
                    old(self).mods@[i].entries@[j],
                ) && (exists|k: int|
                    0 <= k < deps_of(old(self).mods@[i].entries@[j]).len() && missing_clause(
                        *old(self),
                        #[trigger] deps_of(old(self).mods@[i].entries@[j])[k],
                    )) ==> (r matches Err(e) && missing_name(e) is Some
                    && exists|k: int|
                    0 <= k < deps_of(old(self).mods@[i].entries@[j]).len() && missing_clause(
                        *old(self),
                        #[trigger] deps_of(old(self).mods@[i].entries@[j])[k],
                    ) && deps_of(old(self).mods@[i].entries@[j])[k].name@ == missing_name(e)->Some_0),
            r is Ok ==> forall|i: int, j: int, k: int|
                resolved_at(*old(self), ident.name@, ident.version, ident.version_req, i, j)
                    && 0 <= k < deps_of(old(self).mods@[i].entries@[j]).len()
                    && walked_clause(*old(self), #[trigger] deps_of(old(self).mods@[i].entries@[j])[k])
                    ==> is_enabled(final(self).records(), deps_of(old(self).mods@[i].entries@[j])[k].name@),
            (exists|i: int, j: int|
                resolved_at(*old(self), ident.name@, ident.version, ident.version_req, i, j)
                    && no_dependencies(#[trigger] old(self).mods@[i].entries@[j])) ==> r is Ok,
            index_sound(*old(self)) && resolve(old(self).versions(ident.name@), ident.version, ident.version_req) is Some
                ==> r is Ok,
    {
        let name = ident.name.as_slice();
        let (ri, rj) = match self.resolve_entry(name, &ident.version, &ident.version_req) {
            Some(found) => found,
            None => {
                return Err(ModError::NotFound(copy_bytes(name)));
            },
        };
        proof {
            assert forall|i2: int, j2: int| #[trigger] resolved_at(*self, name@, ident.version, ident.version_req, i2, j2) implies i2 == ri && j2 == rj by {
                lemma_resolved_unique(*self, name@, ident.version, ident.version_req, ri as int, rj as int, i2, j2);
            }
            if index_sound(*self) {
                assert(entry_sound(*self, self.mods@[ri as int].entries@[rj as int]));
            }
        }
        let root_version = self.mods[ri].entries[rj].version;
        match self.mods[ri].entries[rj].get_info_json() {
            None => {
                return Err(ModError::InvalidDescriptor(copy_bytes(name)));
            },
            Some(info) => {
                let ghost deps = info.dependencies@;
                assert(deps_of(self.mods@[ri as int].entries@[rj as int]) == deps);
                if let Some(k) = self.first_conflict(&info.dependencies) {
                    assert(deps[k as int] == info.dependencies@[k as int]);
                    return Err(ModError::DependencyConflict {
                        name: copy_bytes(name),
                        other: copy_bytes(info.dependencies[k].name.as_slice()),
                    });
                }
                if let Some(k) = self.first_missing(&info.dependencies) {
                    let dep = &info.dependencies[k];
                    if dep.requirement.is_some() {
                        return Err(ModError::NoMatchingVersion(copy_bytes(dep.name.as_slice())));
                    }
                    return Err(ModError::NotFound(copy_bytes(dep.name.as_slice())));
                }
            },
        }
        let mut visited: Vec<bool> = Vec::new();
        let mut k: usize = 0;
        while k < self.mods.len()
            invariant
                k <= self.mods.len(),
                visited@.len() == k,
                forall|x: int| 0 <= x < k ==> !visited@[x],
            decreases self.mods.len() - k,
        {
            visited.push(false);
            k = k + 1;
        }
        let ghost all_false = visited@;
        let ghost old_self = *self;
        let mut plan: Vec<(usize, Option<Version>)> = Vec::new();
        let res = self.plan_enable(name, ident.version, ident.version_req, ident.version.is_some(), &mut visited, &mut plan);
        if res.is_err() {
            return res;
        }
        let root_pin = if ident.version.is_some() {
            Some(root_version)
        } else {
            None
        };
        let ghost start = self.records();
        let ghost mods = self.mods@;
        let mut m: usize = 0;
        while m < plan.len()
            invariant
                self.wf(),
                self.mods@ == mods,
                self.mod_settings == old(self).mod_settings,
                m <= plan.len(),
                forall|x: int| 0 <= x < plan@.len() ==> (#[trigger] plan@[x]).0 < mods.len(),
                only_enables(start, self.records()),
                !is_enabled(start, name@) ==> !is_enabled(self.records(), name@),
                forall|x: int| 0 <= x < m && mods[(#[trigger] plan@[x]).0 as int].name@ != name@ ==> is_enabled(self.records(), mods[plan@[x].0 as int].name@),
            decreases plan.len() - m,
        {
            let (slot, pin) = plan[m];
            let slot_name = copy_bytes(self.mods[slot].name.as_slice());
            // The requested mod's own record is set last, with its own pin.
            if !crate::directory::bytes_eq(slot_name.as_slice(), name) {
                let ghost before = self.records();
                self.set_enabled(slot_name.as_slice(), pin);
                proof {
                    lemma_only_enables_step(start, before, slot_name@, pin);
                    lemma_enable_records_enables(before, slot_name@, pin);
                    if !is_enabled(before, name@) {
                        lemma_enable_keeps_disabled(before, slot_name@, pin, name@);
                    }
                    assert forall|x: int| 0 <= x < m + 1 && mods[(#[trigger] plan@[x]).0 as int].name@ != name@ implies is_enabled(self.records(), mods[plan@[x].0 as int].name@) by {
                        if x < m {
                            lemma_enable_keeps_enabled(before, slot_name@, pin, mods[plan@[x].0 as int].name@);
                        }
                    }
                }
            }
            m = m + 1;
        }
        let ghost before = self.records();
        self.set_enabled(name, root_pin);
        proof {
            lemma_only_enables_step(start, before, name@, root_pin);
            lemma_enable_records_enables(before, name@, root_pin);
            assert(root_pin == if ident.version is Some {
                resolve(old_self.versions(name@), ident.version, ident.version_req)
            } else {
                None
            });
            if !is_enabled(start, name@) {
                let l = before;
                if has_record(l, name@) {
                    let q = record_at(l, name@);
                    if l[q].2 {
                        assert(is_enabled(l, name@));
                    }
                    assert(self.records()[q] == (name@, root_pin, true));
                } else {
                    assert(self.records()[l.len() as int] == (name@, root_pin, true));
                }
            }
            assert forall|i: int, j: int, k: int|
                resolved_at(old_self, name@, ident.version, ident.version_req, i, j)
                    && 0 <= k < deps_of(old_self.mods@[i].entries@[j]).len()
                    && walked_clause(old_self, #[trigger] deps_of(old_self.mods@[i].entries@[j])[k])
                    implies is_enabled(self.records(), deps_of(old_self.mods@[i].entries@[j])[k].name@) by {
                let dn = deps_of(old_self.mods@[i].entries@[j])[k].name@;
                assert(!all_false[i]);
                assert(visited_named(visited@, mods, dn));
                let s = choose|s: int| 0 <= s < mods.len() && s < visited@.len() && (#[trigger] mods[s]).name@ == dn && visited@[s];
                assert(!all_false[s]);
                assert(in_plan(plan@, s));
                let x = choose|x: int| 0 <= x < plan@.len() && (#[trigger] plan@[x]).0 == s;
                if dn != name@ {
                    assert(is_enabled(before, mods[plan@[x].0 as int].name@));
                    lemma_enable_keeps_enabled(before, name@, root_pin, dn);
                }
            }
        }
        Ok(())
    }
}

proof fn lemma_enable_keeps_disabled(l: Seq<RecordView>, name: Seq<u8>, pin: Option<Version>, n: Seq<u8>)
    requires
        names_unique(l),
        !is_enabled(l, n),
        name != n,
    ensures
        !is_enabled(enable_records(l, name, pin), n),
{
    let r = enable_records(l, name, pin);
    if is_enabled(r, n) {
        let k = choose|k: int| 0 <= k < r.len() && (#[trigger] r[k]).0 == n && r[k].2;
        if has_record(l, name) {
            let q = record_at(l, name);
            if k != q {
                assert(r[k] == l[k]);
            }
        } else if k < l.len() {
            assert(r[k] == l[k]);
        }
    }
}

proof fn lemma_enable_keeps_enabled(l: Seq<RecordView>, name: Seq<u8>, pin: Option<Version>, n: Seq<u8>)
    requires
        names_unique(l),
        is_enabled(l, n),
    ensures
        is_enabled(enable_records(l, name, pin), n),
{
    let r = enable_records(l, name, pin);
    let k = choose|k: int| 0 <= k < l.len() && (#[trigger] l[k]).0 == n && l[k].2;
    if has_record(l, name) {
        let i = record_at(l, name);
        assert(r[k].0 == n && r[k].2);
    } else {
        assert(r[k] == l[k]);
    }
}

} // verus!
