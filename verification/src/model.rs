//! The data model: where a package comes from (`SourceId`), what package it
//! is (`PackageId`), and the loaded unit itself (`Package` with its declared
//! dependency requirements and its buildable `Target`s).
//!
//! Each exec type has a mathematical view (`@`), and every contract in this
//! crate speaks over those views.

use vstd::prelude::*;

verus! {

/// The kind of place a package is obtained from.
#[derive(Clone, Copy, Debug, PartialEq, Eq, Structural)]
pub enum SourceKind {
    Path,
    Registry,
    VersionControl,
}

/// Identifies where a package comes from: a kind together with a location.
/// Two `SourceId`s are the same source exactly when both fields agree.
#[derive(Debug, PartialEq, Eq)]
pub struct SourceId {
    pub kind: SourceKind,
    pub location: String,
}

#[verifier::ext_equal]
pub struct SourceIdV {
    pub kind: SourceKind,
    pub location: Seq<char>,
}

impl View for SourceId {
    type V = SourceIdV;

    open spec fn view(&self) -> SourceIdV {
        SourceIdV { kind: self.kind, location: self.location@ }
    }
}

impl SourceId {
    /// A path-kind source for the given filesystem location.
    pub fn for_path(location: String) -> (r: SourceId)
        ensures
            r@.kind == SourceKind::Path,
            r@.location == location@,
    {
        SourceId { kind: SourceKind::Path, location }
    }

    pub fn dup(&self) -> (r: SourceId)
        ensures
            r@ == self@,
    {
        SourceId { kind: self.kind, location: self.location.clone() }
    }

    pub fn same_as(&self, other: &SourceId) -> (r: bool)
        ensures
            r == (self@ == other@),
    {
        let r = self.kind == other.kind && self.location == other.location;
        proof {
            if r {
                assert(self@ =~= other@);
            }
        }
        r
    }
}

/// A package version; versions are ordered lexicographically by
/// (major, minor, patch).
#[derive(Clone, Copy, Debug, PartialEq, Eq, Structural)]
pub struct Version {
    pub major: u64,
    pub minor: u64,
    pub patch: u64,
}

impl Version {
    /// Strict lexicographic order on (major, minor, patch).
    pub open spec fn spec_lt(self, other: Version) -> bool {
        ||| self.major < other.major
        ||| (self.major == other.major && self.minor < other.minor)
        ||| (self.major == other.major && self.minor == other.minor && self.patch < other.patch)
    }

    pub fn lt(&self, other: &Version) -> (r: bool)
        ensures
            r == self.spec_lt(*other),
    {
        if self.major != other.major {
            self.major < other.major
        } else if self.minor != other.minor {
            self.minor < other.minor
        } else {
            self.patch < other.patch
        }
    }
}

/// A version constraint inside a dependency requirement.
#[derive(Clone, Copy, Debug, PartialEq, Eq, Structural)]
pub enum VersionReq {
    /// Any version is acceptable.
    Any,
    /// Exactly this version.
    Exact(Version),
    /// This version or any later one.
    AtLeast(Version),
}

impl VersionReq {
    pub open spec fn spec_matches(self, v: Version) -> bool {
        match self {
            VersionReq::Any => true,
            VersionReq::Exact(w) => v == w,
            VersionReq::AtLeast(w) => v == w || w.spec_lt(v),
        }
    }

    pub fn matches(&self, v: &Version) -> (r: bool)
        ensures
            r == self.spec_matches(*v),
    {
        match self {
            VersionReq::Any => true,
            VersionReq::Exact(w) => *w == *v,
            VersionReq::AtLeast(w) => *w == *v || w.lt(v),
        }
    }
}

/// Identifies what package: name, version, and the source it comes from.
/// Two ids with equal name and version but different sources are distinct
/// packages.
#[derive(Debug, PartialEq, Eq)]
pub struct PackageId {
    pub name: String,
    pub version: Version,
    pub source: SourceId,
}

#[verifier::ext_equal]
pub struct PackageIdV {
    pub name: Seq<char>,
    pub version: Version,
    pub source: SourceIdV,
}

impl View for PackageId {
    type V = PackageIdV;

    open spec fn view(&self) -> PackageIdV {
        PackageIdV { name: self.name@, version: self.version, source: self.source@ }
    }
}

impl PackageId {
    pub fn dup(&self) -> (r: PackageId)
        ensures
            r@ == self@,
    {
        PackageId { name: self.name.clone(), version: self.version, source: self.source.dup() }
    }

    pub fn same_as(&self, other: &PackageId) -> (r: bool)
        ensures
            r == (self@ == other@),
    {
        let r = self.name == other.name && self.version == other.version && self.source.same_as(
            &other.source,
        );
        proof {
            if r {
                assert(self@ =~= other@);
            }
        }
        r
    }
}

/// The build profile of a target: the environment the target belongs to
/// (for example "compile" or "test"), and whether it is a test executable.
#[derive(Debug, PartialEq, Eq)]
pub struct Profile {
    pub env: String,
    pub is_test: bool,
}

#[verifier::ext_equal]
pub struct ProfileV {
    pub env: Seq<char>,
    pub is_test: bool,
}

impl View for Profile {
    type V = ProfileV;

    open spec fn view(&self) -> ProfileV {
        ProfileV { env: self.env@, is_test: self.is_test }
    }
}

impl Profile {
    pub fn dup(&self) -> (r: Profile)
        ensures
            r@ == self@,
    {
        Profile { env: self.env.clone(), is_test: self.is_test }
    }
}

/// The kind of artifact a target builds.
#[derive(Clone, Copy, Debug, PartialEq, Eq, Structural)]
pub enum TargetKind {
    Library,
    Binary,
    Test,
    Example,
}

/// One buildable unit within a package.
#[derive(Debug, PartialEq, Eq)]
pub struct Target {
    pub name: String,
    pub kind: TargetKind,
    pub profile: Profile,
}

#[verifier::ext_equal]
pub struct TargetV {
    pub name: Seq<char>,
    pub kind: TargetKind,
    pub profile: ProfileV,
}

impl View for Target {
    type V = TargetV;

    open spec fn view(&self) -> TargetV {
        TargetV { name: self.name@, kind: self.kind, profile: self.profile@ }
    }
}

impl Target {
    pub fn dup(&self) -> (r: Target)
        ensures
            r@ == self@,
    {
        Target { name: self.name.clone(), kind: self.kind, profile: self.profile.dup() }
    }
}

/// The views of a sequence of viewable values, in order.
pub open spec fn views_of<T: View>(s: Seq<T>) -> Seq<T::V> {
    s.map_values(|x: T| x@)
}

pub proof fn lemma_views_push<T: View>(s: Seq<T>, x: T)
    ensures
        views_of(s.push(x)) =~= views_of(s).push(x@),
{
}

/// A declared dependency requirement: a package name, a version constraint,
/// and the candidate sources the dependency may come from. An empty candidate
/// list admits any source.
#[derive(Debug, PartialEq, Eq)]
pub struct Dependency {
    pub name: String,
    pub req: VersionReq,
    pub sources: Vec<SourceId>,
}

#[verifier::ext_equal]
pub struct DependencyV {
    pub name: Seq<char>,
    pub req: VersionReq,
    pub sources: Seq<SourceIdV>,
}

impl View for Dependency {
    type V = DependencyV;

    open spec fn view(&self) -> DependencyV {
        DependencyV { name: self.name@, req: self.req, sources: views_of(self.sources@) }
    }
}

impl Dependency {
    pub fn dup(&self) -> (r: Dependency)
        ensures
            r@ == self@,
    {
        let r = Dependency {
            name: self.name.clone(),
            req: self.req,
            sources: dup_source_ids(&self.sources),
        };
        proof {
            assert(r@ =~= self@);
        }
        r
    }
}

/// A loaded package: its identity, its declared dependency requirements and
/// source ids, its build targets, and the unrecognized manifest keys found
/// while loading it (surfaced to the caller as non-fatal warnings).
#[derive(Debug, PartialEq, Eq)]
pub struct Package {
    pub id: PackageId,
    pub dependencies: Vec<Dependency>,
    pub source_ids: Vec<SourceId>,
    pub targets: Vec<Target>,
    pub unused_keys: Vec<String>,
}

#[verifier::ext_equal]
pub struct PackageV {
    pub id: PackageIdV,
    pub dependencies: Seq<DependencyV>,
    pub source_ids: Seq<SourceIdV>,
    pub targets: Seq<TargetV>,
    pub unused_keys: Seq<Seq<char>>,
}

impl View for Package {
    type V = PackageV;

    open spec fn view(&self) -> PackageV {
        PackageV {
            id: self.id@,
            dependencies: views_of(self.dependencies@),
            source_ids: views_of(self.source_ids@),
            targets: views_of(self.targets@),
            unused_keys: views_of(self.unused_keys@),
        }
    }
}

impl Package {
    pub fn dup(&self) -> (r: Package)
        ensures
            r@ == self@,
    {
        let r = Package {
            id: self.id.dup(),
            dependencies: dup_dependencies(&self.dependencies),
            source_ids: dup_source_ids(&self.source_ids),
            targets: dup_targets(&self.targets),
            unused_keys: dup_strings(&self.unused_keys),
        };
        proof {
            assert(r@ =~= self@);
        }
        r
    }
}

pub fn dup_source_ids(v: &Vec<SourceId>) -> (r: Vec<SourceId>)
    ensures
        views_of(r@) == views_of(v@),
{
    let mut r: Vec<SourceId> = Vec::new();
    let mut i: usize = 0;
    while i < v.len()
        invariant
            i <= v.len(),
            views_of(r@) == views_of(v@.take(i as int)),
        decreases v.len() - i,
    {
        let ghost prev = r@;
        r.push(v[i].dup());
        proof {
            lemma_views_push(prev, r@.last());
            assert(v@.take(i + 1 as int) =~= v@.take(i as int).push(v@[i as int]));
            lemma_views_push(v@.take(i as int), v@[i as int]);
            assert(views_of(r@) =~= views_of(v@.take(i + 1 as int)));
        }
        i = i + 1;
    }
    proof {
        assert(v@.take(v@.len() as int) =~= v@);
    }
    r
}

pub fn dup_dependencies(v: &Vec<Dependency>) -> (r: Vec<Dependency>)
    ensures
        views_of(r@) == views_of(v@),
{
    let mut r: Vec<Dependency> = Vec::new();
    let mut i: usize = 0;
    while i < v.len()
        invariant
            i <= v.len(),
            views_of(r@) == views_of(v@.take(i as int)),
        decreases v.len() - i,
    {
        let ghost prev = r@;
        r.push(v[i].dup());
        proof {
            lemma_views_push(prev, r@.last());
            assert(v@.take(i + 1 as int) =~= v@.take(i as int).push(v@[i as int]));
            lemma_views_push(v@.take(i as int), v@[i as int]);
            assert(views_of(r@) =~= views_of(v@.take(i + 1 as int)));
        }
        i = i + 1;
    }
    proof {
        assert(v@.take(v@.len() as int) =~= v@);
    }
    r
}

pub fn dup_targets(v: &Vec<Target>) -> (r: Vec<Target>)
    ensures
        views_of(r@) == views_of(v@),
{
    let mut r: Vec<Target> = Vec::new();
    let mut i: usize = 0;
    while i < v.len()
        invariant
            i <= v.len(),
            views_of(r@) == views_of(v@.take(i as int)),
        decreases v.len() - i,
    {
        let ghost prev = r@;
        r.push(v[i].dup());
        proof {
            lemma_views_push(prev, r@.last());
            assert(v@.take(i + 1 as int) =~= v@.take(i as int).push(v@[i as int]));
            lemma_views_push(v@.take(i as int), v@[i as int]);
            assert(views_of(r@) =~= views_of(v@.take(i + 1 as int)));
        }
        i = i + 1;
    }
    proof {
        assert(v@.take(v@.len() as int) =~= v@);
    }
    r
}

pub fn dup_strings(v: &Vec<String>) -> (r: Vec<String>)
    ensures
        views_of(r@) == views_of(v@),
{
    let mut r: Vec<String> = Vec::new();
    let mut i: usize = 0;
    while i < v.len()
        invariant
            i <= v.len(),
            views_of(r@) == views_of(v@.take(i as int)),
        decreases v.len() - i,
    {
        let ghost prev = r@;
        r.push(v[i].clone());
        proof {
            lemma_views_push(prev, r@.last());
            assert(v@.take(i + 1 as int) =~= v@.take(i as int).push(v@[i as int]));
            lemma_views_push(v@.take(i as int), v@[i as int]);
            assert(views_of(r@) =~= views_of(v@.take(i + 1 as int)));
        }
        i = i + 1;
    }
    proof {
        assert(v@.take(v@.len() as int) =~= v@);
    }
    r
}

pub fn dup_packages(v: &Vec<Package>) -> (r: Vec<Package>)
    ensures
        views_of(r@) == views_of(v@),
{
    let mut r: Vec<Package> = Vec::new();
    let mut i: usize = 0;
    while i < v.len()
        invariant
            i <= v.len(),
            views_of(r@) == views_of(v@.take(i as int)),
        decreases v.len() - i,
    {
        let ghost prev = r@;
        r.push(v[i].dup());
        proof {
            lemma_views_push(prev, r@.last());
            assert(v@.take(i + 1 as int) =~= v@.take(i as int).push(v@[i as int]));
            lemma_views_push(v@.take(i as int), v@[i as int]);
            assert(views_of(r@) =~= views_of(v@.take(i + 1 as int)));
        }
        i = i + 1;
    }
    proof {
        assert(v@.take(v@.len() as int) =~= v@);
    }
    r
}

} // verus!
