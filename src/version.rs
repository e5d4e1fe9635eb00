//! Three-component versions, version requirements and their textual forms.

use vstd::prelude::*;

verus! {

/// A `major.minor.patch` version.
#[derive(Clone, Copy, Debug, PartialEq, Eq, Structural)]
pub struct Version {
    pub major: u64,
    pub minor: u64,
    pub patch: u64,
}

/// Strict lexicographic order on versions.
pub open spec fn version_lt(a: Version, b: Version) -> bool {
    a.major < b.major || (a.major == b.major && (a.minor < b.minor || (a.minor == b.minor
        && a.patch < b.patch)))
}

pub open spec fn version_le(a: Version, b: Version) -> bool {
    version_lt(a, b) || a == b
}

impl Version {
    pub fn new(major: u64, minor: u64, patch: u64) -> (r: Version)
        ensures
            r == (Version { major, minor, patch }),
    {
        Version { major, minor, patch }
    }

    /// True when `self` orders strictly before `other`.
    pub fn less_than(&self, other: &Version) -> (r: bool)
        ensures
            r == version_lt(*self, *other),
    {
        self.major < other.major || (self.major == other.major && (self.minor < other.minor || (
        self.minor == other.minor && self.patch < other.patch)))
    }

    pub fn same(&self, other: &Version) -> (r: bool)
        ensures
            r == (*self == *other),
    {
        self.major == other.major && self.minor == other.minor && self.patch == other.patch
    }
}

/// The comparison operator of a requirement.
#[derive(Clone, Copy, Debug, PartialEq, Eq, Structural)]
pub enum ReqOp {
    Lt,
    Le,
    Eq,
    Ge,
    Gt,
}

/// A requirement such as `>= 1.0.0`.
#[derive(Clone, Copy, Debug, PartialEq, Eq, Structural)]
pub struct Requirement {
    pub op: ReqOp,
    pub version: Version,
}

pub open spec fn req_matches(r: Requirement, v: Version) -> bool {
    match r.op {
        ReqOp::Lt => version_lt(v, r.version),
        ReqOp::Le => version_le(v, r.version),
        ReqOp::Eq => v == r.version,
        ReqOp::Ge => version_le(r.version, v),
        ReqOp::Gt => version_lt(r.version, v),
    }
}

/// An optional requirement: absent means that every version matches.
pub open spec fn opt_req_matches(r: Option<Requirement>, v: Version) -> bool {
    match r {
        Some(q) => req_matches(q, v),
        None => true,
    }
}

impl Requirement {
    pub fn matches(&self, v: &Version) -> (r: bool)
        ensures
            r == req_matches(*self, *v),
    {
        match self.op {
            ReqOp::Lt => v.less_than(&self.version),
            ReqOp::Le => v.less_than(&self.version) || v.same(&self.version),
            ReqOp::Eq => v.same(&self.version),
            ReqOp::Ge => self.version.less_than(v) || v.same(&self.version),
            ReqOp::Gt => self.version.less_than(v),
        }
    }
}

pub fn opt_matches(r: &Option<Requirement>, v: &Version) -> (b: bool)
    ensures
        b == opt_req_matches(*r, *v),
{
    match r {
        Some(q) => q.matches(v),
        None => true,
    }
}

// ---- textual forms ----

/// The first index at or after `from` where `s` holds `b`, or `s.len()`.
pub open spec fn find_byte(s: Seq<u8>, b: u8, from: int) -> int
    decreases s.len() - from,
{
    if from < 0 || from >= s.len() {
        s.len() as int
    } else if s[from] == b {
        from
    } else {
        find_byte(s, b, from + 1)
    }
}

/// What `semver::Version::parse` makes of `s`, read as UTF-8: the major,
/// minor and patch numbers, or `None` when it refuses the text.
pub uninterp spec fn semver_triple(s: Seq<u8>) -> Option<(u64, u64, u64)>;

/// The version that the text `s` states.
pub open spec fn parse_version_spec(s: Seq<u8>) -> Option<Version> {
    match semver_triple(s) {
        Some((a, b, c)) => Some(Version { major: a, minor: b, patch: c }),
        None => None,
    }
}

proof fn lemma_find_byte_bounds(s: Seq<u8>, b: u8, from: int)
    requires
        0 <= from,
    ensures
        from <= find_byte(s, b, from) <= s.len() || (from > s.len() && find_byte(s, b, from)
            == s.len()),
        find_byte(s, b, from) < s.len() ==> s[find_byte(s, b, from)] == b,
    decreases s.len() - from,
{
    if from < s.len() && s[from] != b {
        lemma_find_byte_bounds(s, b, from + 1);
    }
}

/// First index in `s[from..]` holding `b`, or `s.len()`.
fn find_byte_exec(s: &[u8], b: u8, from: usize) -> (r: usize)
    ensures
        r as int == find_byte(s@, b, from as int),
{
    let mut k = from;
    if k > s.len() {
        return s.len();
    }
    while k < s.len()
        invariant
            from <= k <= s.len(),
            find_byte(s@, b, k as int) == find_byte(s@, b, from as int),
        decreases s.len() - k,
    {
        if s[k] == b {
            return k;
        }
        k = k + 1;
    }
    k
}

/// The first index at or after `from` where `s` holds `b`, or `s.len()`.
pub fn find_byte_pub(s: &[u8], b: u8, from: usize) -> (r: usize)
    ensures
        r as int == find_byte(s@, b, from as int),
        from <= s@.len() ==> from <= r <= s@.len(),
        r < s@.len() ==> s@[r as int] == b,
{
    proof {
        lemma_find_byte_bounds(s@, b, from as int);
    }
    find_byte_exec(s, b, from)
}

/// Reads a `major.minor.patch` version.
///
/// Relies on `semver::Version::parse`, which accepts exactly three numeric
/// components without leading zeros, each fitting a `u64`, optionally
/// followed by pre-release and build parts, which are not kept.
#[verifier::external_body]
pub fn parse_version(s: &[u8]) -> (r: Option<Version>)
    ensures
        r == match semver_triple(s@) {
            Some((a, b, c)) => Some(Version { major: a, minor: b, patch: c }),
            None => None,
        },
{
    match std::str::from_utf8(s) {
        Ok(text) => match semver::Version::parse(text) {
            Ok(v) => Some(Version { major: v.major, minor: v.minor, patch: v.patch }),
            Err(_) => None,
        },
        Err(_) => None,
    }
}

} // verus!
