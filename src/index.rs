//! The package index: for each mod name, its installed versions in ascending
//! order, each with its on-disk structure and its lazily loaded descriptor.

use vstd::prelude::*;
use crate::version::{version_lt, Requirement, Version};

verus! {

/// How one installed version is laid out on disk.
#[derive(Clone, Copy, Debug, PartialEq, Eq, Structural)]
pub enum ModEntryStructure {
    Directory,
    Symlink,
    Zip,
}

impl ModEntryStructure {
    /// Classifies an entry from the facts inspected on disk: an archive by its
    /// extension, then a symlink, then a directory holding a descriptor.
    pub fn parse(has_zip_extension: bool, is_symlink: bool, has_descriptor: bool) -> (r: Option<
        ModEntryStructure,
    >)
        ensures
            r == if has_zip_extension {
                Some(ModEntryStructure::Zip)
            } else if is_symlink {
                Some(ModEntryStructure::Symlink)
            } else if has_descriptor {
                Some(ModEntryStructure::Directory)
            } else {
                None
            },
    {
        if has_zip_extension {
            Some(ModEntryStructure::Zip)
        } else if is_symlink {
            Some(ModEntryStructure::Symlink)
        } else if has_descriptor {
            Some(ModEntryStructure::Directory)
        } else {
            None
        }
    }
}

/// The role a declared dependency plays.
#[derive(Clone, Copy, Debug, PartialEq, Eq, Structural)]
pub enum DependencyKind {
    Required,
    Optional,
    OptionalHidden,
    Incompatible,
}

/// One dependency clause of a descriptor.
#[derive(Clone, Debug)]
pub struct ModDependency {
    pub name: Vec<u8>,
    pub requirement: Option<Requirement>,
    pub kind: DependencyKind,
}

/// The declared identity and dependencies of one installed version.
#[derive(Clone, Debug)]
pub struct InfoJson {
    pub name: Vec<u8>,
    pub version: Version,
    pub dependencies: Vec<ModDependency>,
}

/// A mod name with an optional exact version and an optional requirement.
#[derive(Clone, Debug)]
pub struct ModIdent {
    pub name: Vec<u8>,
    pub version: Option<Version>,
    pub version_req: Option<Requirement>,
}

/// One installed version of one mod.
#[derive(Debug)]
pub struct ModEntry {
    /// The entry's path, as bytes.
    pub path: Vec<u8>,
    pub structure: ModEntryStructure,
    pub version: Version,
    /// The descriptor, once it has been loaded.
    pub info_json: Option<InfoJson>,
}

impl ModEntry {
    pub fn new(path: Vec<u8>, structure: ModEntryStructure, version: Version) -> (r: ModEntry)
        ensures
            r.path@ == path@,
            r.structure == structure,
            r.version == version,
            r.info_json is None,
    {
        ModEntry { path, structure, version, info_json: None }
    }

    pub fn get_version(&self) -> (r: Version)
        ensures
            r == self.version,
    {
        self.version
    }

    /// The cached descriptor, if it was loaded.
    pub fn get_info_json(&self) -> (r: Option<&InfoJson>)
        ensures
            match r {
                Some(x) => self.info_json == Some(*x),
                None => self.info_json is None,
            },
    {
        self.info_json.as_ref()
    }

    /// Stores a loaded descriptor in the cache.
    pub fn set_info_json(&mut self, info: InfoJson)
        ensures
            final(self).info_json == Some(info),
            final(self).version == old(self).version,
            final(self).path == old(self).path,
            final(self).structure == old(self).structure,
    {
        self.info_json = Some(info);
    }
}

/// The versions of a sequence of entries, in order.
pub open spec fn versions_of(es: Seq<ModEntry>) -> Seq<Version> {
    es.map_values(|e: ModEntry| e.version)
}

pub open spec fn strictly_ascending(vs: Seq<Version>) -> bool {
    forall|i: int, j: int| 0 <= i < j < vs.len() ==> version_lt(#[trigger] vs[i], #[trigger] vs[j])
}

/// `v` inserted at its place in the ascending sequence `vs`; nothing if present.
pub open spec fn sorted_insert(vs: Seq<Version>, v: Version) -> Seq<Version>
    decreases vs.len(),
{
    if vs.len() == 0 {
        seq![v]
    } else if version_lt(v, vs[0]) {
        seq![v] + vs
    } else if v == vs[0] {
        vs
    } else {
        seq![vs[0]] + sorted_insert(vs.drop_first(), v)
    }
}

/// The versions held after inserting each of `vs`, in order, into an empty slot.
pub open spec fn insert_all(vs: Seq<Version>) -> Seq<Version>
    decreases vs.len(),
{
    if vs.len() == 0 {
        Seq::empty()
    } else {
        sorted_insert(insert_all(vs.drop_last()), vs.last())
    }
}

proof fn lemma_lt_trans(a: Version, b: Version, c: Version)
    requires
        version_lt(a, b),
        version_lt(b, c),
    ensures
        version_lt(a, c),
{
}

/// Inserting into an ascending sequence keeps it ascending and adds exactly `v`.
pub proof fn lemma_sorted_insert(vs: Seq<Version>, v: Version)
    requires
        strictly_ascending(vs),
    ensures
        strictly_ascending(sorted_insert(vs, v)),
        sorted_insert(vs, v).to_set() == vs.to_set().insert(v),
    decreases vs.len(),
{
    if vs.len() == 0 {
        assert(seq![v].to_set() =~= Set::empty().insert(v)) by {
            assert(seq![v][0] == v);
        }
        assert(vs.to_set() =~= Set::empty());
    } else if version_lt(v, vs[0]) {
        let r = seq![v] + vs;
        assert forall|i: int, j: int| 0 <= i < j < r.len() implies version_lt(
            #[trigger] r[i],
            #[trigger] r[j],
        ) by {
            if i == 0 && j > 1 {
                lemma_lt_trans(v, vs[0], vs[j - 1]);
            }
        }
        assert(r.to_set() =~= vs.to_set().insert(v)) by {
            assert forall|x: Version| r.to_set().contains(x) implies vs.to_set().insert(v).contains(x) by {
                let i = choose|i: int| 0 <= i < r.len() && r[i] == x;
                if i > 0 {
                    assert(vs[i - 1] == x);
                }
            }
            assert forall|x: Version| vs.to_set().insert(v).contains(x) implies r.to_set().contains(x) by {
                if x == v {
                    assert(r[0] == x);
                } else {
                    let i = choose|i: int| 0 <= i < vs.len() && vs[i] == x;
                    assert(r[i + 1] == x);
                }
            }
        }
    } else if v == vs[0] {
        assert(vs.to_set().contains(vs[0]));
        assert(vs.to_set() =~= vs.to_set().insert(v));
    } else {
        let t = vs.drop_first();
        assert(strictly_ascending(t)) by {
            assert forall|i: int, j: int| 0 <= i < j < t.len() implies version_lt(
                #[trigger] t[i],
                #[trigger] t[j],
            ) by {
                assert(t[i] == vs[i + 1] && t[j] == vs[j + 1]);
            }
        }
        lemma_sorted_insert(t, v);
        let s = sorted_insert(t, v);
        let r = seq![vs[0]] + s;
        assert forall|i: int, j: int| 0 <= i < j < r.len() implies version_lt(
            #[trigger] r[i],
            #[trigger] r[j],
        ) by {
            if i == 0 {
                assert(s.to_set().contains(s[j - 1]));
                assert(t.to_set().insert(v).contains(s[j - 1]));
                if s[j - 1] != v {
                    let k = choose|k: int| 0 <= k < t.len() && t[k] == s[j - 1];
                    assert(vs[k + 1] == t[k]);
                }
            } else {
                assert(r[i] == s[i - 1] && r[j] == s[j - 1]);
            }
        }
        assert(r.to_set() =~= vs.to_set().insert(v)) by {
            assert forall|x: Version| r.to_set().contains(x) implies vs.to_set().insert(v).contains(x) by {
                let i = choose|i: int| 0 <= i < r.len() && r[i] == x;
                if i == 0 {
                    assert(vs[0] == x);
                } else {
                    assert(s[i - 1] == x);
                    assert(s.to_set().contains(x));
                    if x != v {
                        let k = choose|k: int| 0 <= k < t.len() && t[k] == x;
                        assert(vs[k + 1] == x);
                    }
                }
            }
            assert forall|x: Version| vs.to_set().insert(v).contains(x) implies r.to_set().contains(x) by {
                if x == vs[0] {
                    assert(r[0] == x);
                } else {
                    if x != v {
                        let k = choose|k: int| 0 <= k < vs.len() && vs[k] == x;
                        assert(t[k - 1] == x);
                    }
                    assert(t.to_set().insert(v).contains(x));
                    assert(s.to_set().contains(x));
                    let m = choose|m: int| 0 <= m < s.len() && s[m] == x;
                    assert(r[m + 1] == x);
                }
            }
        }
    }
}

/// Whatever versions are inserted into one name's slot, and in whatever
/// order, the slot ends strictly ascending and holds each of them once.
pub proof fn lemma_insert_all_sorted(vs: Seq<Version>)
    ensures
        strictly_ascending(insert_all(vs)),
        insert_all(vs).to_set() == vs.to_set(),
    decreases vs.len(),
{
    if vs.len() == 0 {
        assert(vs.to_set() =~= Set::empty());
        assert(insert_all(vs).to_set() =~= Set::empty());
    } else {
        let p = vs.drop_last();
        lemma_insert_all_sorted(p);
        lemma_sorted_insert(insert_all(p), vs.last());
        assert(vs =~= p.push(vs.last()));
        assert(vs.to_set() =~= p.to_set().insert(vs.last())) by {
            Seq::lemma_to_set_insert_commutes(p, vs.last());
        }
    }
}

} // verus!
