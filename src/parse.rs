//! Textual forms of mod identities: entry file names (`name_1.2.3` or
//! `name_1.2.3.zip`), requests (`name` or `name@1.2.3`) and dependency
//! clauses (`[! | ? | (?) | ~] name [op version]`).

use vstd::prelude::*;
use crate::version::{parse_version, parse_version_spec, find_byte, ReqOp, Requirement, Version};
use crate::index::{DependencyKind, InfoJson, ModDependency, ModIdent};
use crate::settings::copy_range;

verus! {

pub const UNDERSCORE: u8 = 95;
pub const AT: u8 = 64;
pub const SPACE: u8 = 32;

/// The last index of `b` in `s`, or -1.
pub open spec fn rfind_byte(s: Seq<u8>, b: u8) -> int
    decreases s.len(),
{
    if s.len() == 0 {
        -1
    } else if s.last() == b {
        s.len() - 1
    } else {
        rfind_byte(s.drop_last(), b)
    }
}

pub open spec fn zip_suffix() -> Seq<u8> {
    seq![46u8, 122u8, 105u8, 112u8]
}

/// `s` without a trailing `.zip`.
pub open spec fn strip_zip(s: Seq<u8>) -> Seq<u8> {
    if s.len() >= 4 && s.subrange(s.len() - 4, s.len() as int) == zip_suffix() {
        s.subrange(0, s.len() - 4)
    } else {
        s
    }
}

/// The name and version that an entry's file name states.
pub open spec fn file_name_spec(s: Seq<u8>) -> Option<(Seq<u8>, Version)> {
    let base = strip_zip(s);
    let u = rfind_byte(base, UNDERSCORE);
    if u <= 0 {
        None
    } else {
        match parse_version_spec(base.subrange(u + 1, base.len() as int)) {
            Some(v) => Some((base.subrange(0, u), v)),
            None => None,
        }
    }
}

/// The name and optional version of a request.
pub open spec fn request_spec(s: Seq<u8>) -> Option<(Seq<u8>, Option<Version>)> {
    let i = find_byte(s, AT, 0);
    if i == 0 || s.len() == 0 {
        None
    } else if i >= s.len() {
        Some((s, None))
    } else {
        match parse_version_spec(s.subrange(i + 1, s.len() as int)) {
            Some(v) => Some((s.subrange(0, i), Some(v))),
            None => None,
        }
    }
}

fn rfind_exec(s: &[u8], b: u8) -> (r: i64)
    requires
        s@.len() < i64::MAX,
    ensures
        r == rfind_byte(s@, b),
        -1 <= r < s@.len(),
{
    let mut k = s.len();
    assert(s@.subrange(0, k as int) =~= s@);
    while k > 0
        invariant
            k <= s@.len() < i64::MAX,
            rfind_byte(s@, b) == rfind_byte(s@.subrange(0, k as int), b),
        decreases k,
    {
        let ghost t = s@.subrange(0, k as int);
        assert(t.drop_last() =~= s@.subrange(0, k - 1));
        assert(t.last() == s@[k - 1]);
        if s[k - 1] == b {
            return (k - 1) as i64;
        }
        k = k - 1;
    }
    assert(s@.subrange(0, 0) =~= Seq::<u8>::empty());
    -1
}

impl ModIdent {
    /// Reads `name_major.minor.patch`, with an optional `.zip` extension.
    pub fn from_file_name(s: &[u8]) -> (r: Option<ModIdent>)
        requires
            s@.len() < i64::MAX,
        ensures
            match file_name_spec(s@) {
                Some((n, v)) => r is Some && r->Some_0.name@ == n && r->Some_0.version == Some(v)
                    && r->Some_0.version_req is None,
                None => r is None,
            },
    {
        let n = s.len();
        let zip = n >= 4 && s[n - 4] == 46 && s[n - 3] == 122 && s[n - 2] == 105 && s[n - 1] == 112;
        proof {
            if n >= 4 {
                let t = s@.subrange(n - 4, n as int);
                if zip {
                    assert(t =~= zip_suffix());
                } else {
                    assert(t != zip_suffix()) by {
                        if t == zip_suffix() {
                            assert(t[0] == s@[n - 4] && t[1] == s@[n - 3] && t[2] == s@[n - 2] && t[3] == s@[n - 1]);
                        }
                    }
                }
            }
        }
        let end = if zip { n - 4 } else { n };
        let base = copy_range(s, 0, end);
        assert(base@ =~= strip_zip(s@));
        let u = rfind_exec(base.as_slice(), UNDERSCORE);
        if u <= 0 {
            return None;
        }
        let u = u as usize;
        let tail = copy_range(base.as_slice(), u + 1, base.len());
        match parse_version(tail.as_slice()) {
            Some(v) => Some(ModIdent { name: copy_range(base.as_slice(), 0, u), version: Some(v), version_req: None }),
            None => None,
        }
    }

    /// The identity of a directory entry: the one its file name states, else
    /// the one its descriptor declares; `None` when it has neither, as a
    /// stray file does.
    pub fn identify(file_name: &[u8], descriptor: Option<&InfoJson>) -> (r: Option<ModIdent>)
        requires
            file_name@.len() < i64::MAX,
        ensures
            match file_name_spec(file_name@) {
                Some((n, v)) => r is Some && r->Some_0.name@ == n && r->Some_0.version == Some(v),
                None => match descriptor {
                    Some(info) => r is Some && r->Some_0.name@ == info.name@ && r->Some_0.version == Some(info.version),
                    None => r is None,
                },
            },
            r is Some ==> r->Some_0.version is Some && r->Some_0.version_req is None,
    {
        match Self::from_file_name(file_name) {
            Some(ident) => Some(ident),
            None => match descriptor {
                Some(info) => Some(ModIdent {
                    name: copy_range(info.name.as_slice(), 0, info.name.len()),
                    version: Some(info.version),
                    version_req: None,
                }),
                None => None,
            },
        }
    }

    /// Reads a request: `name` or `name@major.minor.patch`.
    pub fn parse(s: &[u8]) -> (r: Option<ModIdent>)
        ensures
            match request_spec(s@) {
                Some((n, v)) => r is Some && r->Some_0.name@ == n && r->Some_0.version == v
                    && r->Some_0.version_req is None,
                None => r is None,
            },
    {
        let i = crate::version::find_byte_pub(s, AT, 0);
        if i == 0 || s.len() == 0 {
            return None;
        }
        if i >= s.len() {
            let name = copy_range(s, 0, s.len());
            assert(name@ =~= s@);
            return Some(ModIdent { name, version: None, version_req: None });
        }
        let tail = copy_range(s, i + 1, s.len());
        match parse_version(tail.as_slice()) {
            Some(v) => Some(ModIdent { name: copy_range(s, 0, i), version: Some(v), version_req: None }),
            None => None,
        }
    }
}

/// `s` without its leading spaces.
pub open spec fn skip_spaces(s: Seq<u8>) -> Seq<u8>
    decreases s.len(),
{
    if s.len() > 0 && s[0] == SPACE {
        skip_spaces(s.drop_first())
    } else {
        s
    }
}

/// The qualifier that a clause starts with, and its length.
pub open spec fn prefix_spec(s: Seq<u8>) -> (DependencyKind, int) {
    if s.len() >= 3 && s[0] == 40 && s[1] == 63 && s[2] == 41 {
        (DependencyKind::OptionalHidden, 3)
    } else if s.len() >= 1 && s[0] == 33 {
        (DependencyKind::Incompatible, 1)
    } else if s.len() >= 1 && s[0] == 63 {
        (DependencyKind::Optional, 1)
    } else if s.len() >= 1 && s[0] == 126 {
        (DependencyKind::Required, 1)
    } else {
        (DependencyKind::Required, 0)
    }
}

/// The comparison operator that `s` starts with, and its length.
pub open spec fn op_spec(s: Seq<u8>) -> Option<(ReqOp, int)> {
    if s.len() >= 2 && s[0] == 60 && s[1] == 61 {
        Some((ReqOp::Le, 2))
    } else if s.len() >= 2 && s[0] == 62 && s[1] == 61 {
        Some((ReqOp::Ge, 2))
    } else if s.len() >= 1 && s[0] == 60 {
        Some((ReqOp::Lt, 1))
    } else if s.len() >= 1 && s[0] == 62 {
        Some((ReqOp::Gt, 1))
    } else if s.len() >= 1 && s[0] == 61 {
        Some((ReqOp::Eq, 1))
    } else {
        None
    }
}

/// The qualifier, name and requirement that a dependency clause states.
pub open spec fn dependency_spec(s: Seq<u8>) -> Option<(DependencyKind, Seq<u8>, Option<Requirement>)> {
    let (kind, n) = prefix_spec(s);
    let r = skip_spaces(s.subrange(n, s.len() as int));
    let e = find_byte(r, SPACE, 0);
    let t = skip_spaces(r.subrange(e, r.len() as int));
    if e == 0 {
        None
    } else if t.len() == 0 {
        Some((kind, r.subrange(0, e), None))
    } else {
        match op_spec(t) {
            Some((op, m)) => match parse_version_spec(skip_spaces(t.subrange(m, t.len() as int))) {
                Some(v) => Some((kind, r.subrange(0, e), Some(Requirement { op, version: v }))),
                None => None,
            },
            None => None,
        }
    }
}

fn skip_spaces_exec(s: &[u8]) -> (r: Vec<u8>)
    ensures
        r@ == skip_spaces(s@),
{
    let mut k: usize = 0;
    assert(s@.subrange(0, s@.len() as int) =~= s@);
    while k < s.len() && s[k] == SPACE
        invariant
            k <= s@.len(),
            skip_spaces(s@.subrange(k as int, s@.len() as int)) == skip_spaces(s@),
        decreases s.len() - k,
    {
        assert(s@.subrange(k as int, s@.len() as int).drop_first() =~= s@.subrange(k + 1, s@.len() as int));
        k = k + 1;
    }
    copy_range(s, k, s.len())
}

fn op_exec(t: &[u8]) -> (r: Option<(ReqOp, usize)>)
    ensures
        match op_spec(t@) {
            Some((op, m)) => r == Some((op, m as usize)),
            None => r is None,
        },
{
    let n = t.len();
    if n >= 2 && t[0] == 60 && t[1] == 61 {
        Some((ReqOp::Le, 2))
    } else if n >= 2 && t[0] == 62 && t[1] == 61 {
        Some((ReqOp::Ge, 2))
    } else if n >= 1 && t[0] == 60 {
        Some((ReqOp::Lt, 1))
    } else if n >= 1 && t[0] == 62 {
        Some((ReqOp::Gt, 1))
    } else if n >= 1 && t[0] == 61 {
        Some((ReqOp::Eq, 1))
    } else {
        None
    }
}

impl ModDependency {
    /// Reads a dependency clause: an optional qualifier (`!` incompatible,
    /// `?` optional, `(?)` hidden optional, `~` required), the name, and an
    /// optional requirement such as `>= 1.2.0`, separated by spaces.
    pub fn parse(s: &[u8]) -> (r: Option<ModDependency>)
        ensures
            match dependency_spec(s@) {
                Some((kind, name, req)) => r is Some && r->Some_0.kind == kind && r->Some_0.name@ == name
                    && r->Some_0.requirement == req,
                None => r is None,
            },
    {
        let n = s.len();
        let (kind, skip): (DependencyKind, usize) = if n >= 3 && s[0] == 40 && s[1] == 63 && s[2] == 41 {
            (DependencyKind::OptionalHidden, 3)
        } else if n >= 1 && s[0] == 33 {
            (DependencyKind::Incompatible, 1)
        } else if n >= 1 && s[0] == 63 {
            (DependencyKind::Optional, 1)
        } else if n >= 1 && s[0] == 126 {
            (DependencyKind::Required, 1)
        } else {
            (DependencyKind::Required, 0)
        };
        let rest = copy_range(s, skip, n);
        let r = skip_spaces_exec(rest.as_slice());
        let e = crate::version::find_byte_pub(r.as_slice(), SPACE, 0);
        let tail = copy_range(r.as_slice(), e, r.len());
        let t = skip_spaces_exec(tail.as_slice());
        if e == 0 {
            return None;
        }
        let name = copy_range(r.as_slice(), 0, e);
        if t.len() == 0 {
            return Some(ModDependency { name, requirement: None, kind });
        }
        match op_exec(t.as_slice()) {
            Some((op, m)) => {
                let after = copy_range(t.as_slice(), m, t.len());
                let vtext = skip_spaces_exec(after.as_slice());
                match parse_version(vtext.as_slice()) {
                    Some(v) => Some(ModDependency { name, requirement: Some(Requirement { op, version: v }), kind }),
                    None => None,
                }
            },
            None => None,
        }
    }
}

} // verus!
