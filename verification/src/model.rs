//! Dependency graph model and metadata ingestion.
//!
//! Raw metadata records (one per package, one per resolved dependency edge)
//! are turned into an immutable [`Graph`]: a flat package collection sorted
//! by (name, version) key, and edges stored as index pairs into it.
//! Ingestion fails with [`MetadataError::MalformedMetadata`] when a required
//! field is absent, when two packages share a key, or when an edge references
//! an unknown package; dev-only edges are dropped here so later stages never
//! see them.

use vstd::prelude::*;
use vstd::string::*;
use crate::order::{lex_le, str_le, lemma_lex_le_total, lemma_lex_le_antisym, lemma_lex_le_trans};

verus! {

/// Mathematical view of a package identity.
#[verifier::ext_equal]
pub ghost struct KeyV {
    pub name: Seq<char>,
    pub version: Seq<char>,
}

/// A package identity: name plus exact resolved version.
#[derive(Debug)]
pub struct PkgKey {
    pub name: String,
    pub version: String,
}

impl View for PkgKey {
    type V = KeyV;

    open spec fn view(&self) -> KeyV {
        KeyV { name: self.name@, version: self.version@ }
    }
}

/// Total order on package keys: by name, then by version.
pub open spec fn key_le(a: KeyV, b: KeyV) -> bool {
    if a.name == b.name {
        lex_le(a.version, b.version)
    } else {
        lex_le(a.name, b.name)
    }
}

/// Strict part of `key_le`.
pub open spec fn key_lt(a: KeyV, b: KeyV) -> bool {
    key_le(a, b) && a != b
}

pub proof fn lemma_key_le_total(a: KeyV, b: KeyV)
    ensures
        key_le(a, b) || key_le(b, a),
{
    lemma_lex_le_total(a.name, b.name);
    lemma_lex_le_total(a.version, b.version);
}

pub proof fn lemma_key_le_antisym(a: KeyV, b: KeyV)
    requires
        key_le(a, b),
        key_le(b, a),
    ensures
        a == b,
{
    if a.name == b.name {
        lemma_lex_le_antisym(a.version, b.version);
        assert(a =~= b);
    } else {
        lemma_lex_le_antisym(a.name, b.name);
    }
}

pub proof fn lemma_key_le_trans(a: KeyV, b: KeyV, c: KeyV)
    requires
        key_le(a, b),
        key_le(b, c),
    ensures
        key_le(a, c),
{
    if a.name == b.name && b.name == c.name {
        lemma_lex_le_trans(a.version, b.version, c.version);
    } else if a.name == b.name {
        // names: a == b, b != c; order decided on names either way
    } else if b.name == c.name {
    } else if a.name == c.name {
        lemma_lex_le_antisym(a.name, b.name);
    } else {
        lemma_lex_le_trans(a.name, b.name, c.name);
    }
}

/// Where a package's sources come from.
#[derive(Clone, Copy, PartialEq, Eq, Structural, Debug)]
pub enum SourceKind {
    Workspace,
    Registry,
    Git,
    Path,
}

/// Role of a dependency edge. Dev-only edges never survive ingestion.
#[derive(Clone, Copy, PartialEq, Eq, Structural, Debug)]
pub enum Role {
    Normal,
    Build,
    Dev,
}

/// Mathematical view of a package record.
#[verifier::ext_equal]
pub ghost struct PackageV {
    pub key: KeyV,
    pub edition: Seq<char>,
    pub license: Seq<char>,
    pub features: Seq<Seq<char>>,
    pub has_build_step: bool,
    pub source: SourceKind,
    pub local_path: Seq<char>,
    pub remote_url: Seq<char>,
    pub checksum: Seq<char>,
}

/// One resolved package. Immutable once constructed from metadata.
pub struct Package {
    pub key: PkgKey,
    pub edition: String,
    pub license: String,
    pub features: Vec<String>,
    pub has_build_step: bool,
    pub source: SourceKind,
    pub local_path: String,
    pub remote_url: String,
    pub checksum: String,
}

impl View for Package {
    type V = PackageV;

    open spec fn view(&self) -> PackageV {
        PackageV {
            key: self.key@,
            edition: self.edition@,
            license: self.license@,
            features: self.features.deep_view(),
            has_build_step: self.has_build_step,
            source: self.source,
            local_path: self.local_path@,
            remote_url: self.remote_url@,
            checksum: self.checksum@,
        }
    }
}

/// Mathematical view of a dependency edge.
#[verifier::ext_equal]
pub ghost struct EdgeV {
    pub from: int,
    pub to: int,
    pub features: Seq<Seq<char>>,
    pub predicate: Option<Seq<char>>,
    pub role: Role,
    pub rename: Option<Seq<char>>,
}

/// A directed dependency edge between two packages, stored as index pairs
/// into the graph's package collection.
pub struct DependencyEdge {
    pub from: usize,
    pub to: usize,
    pub features: Vec<String>,
    pub predicate: Option<String>,
    pub role: Role,
    pub rename: Option<String>,
}

impl View for DependencyEdge {
    type V = EdgeV;

    open spec fn view(&self) -> EdgeV {
        EdgeV {
            from: self.from as int,
            to: self.to as int,
            features: self.features.deep_view(),
            predicate: self.predicate.deep_view(),
            role: self.role,
            rename: self.rename.deep_view(),
        }
    }
}

/// View of a package sequence.
pub open spec fn pkg_views(s: Seq<Package>) -> Seq<PackageV> {
    s.map_values(|p: Package| p@)
}

/// View of an edge sequence.
pub open spec fn edge_views(s: Seq<DependencyEdge>) -> Seq<EdgeV> {
    s.map_values(|e: DependencyEdge| e@)
}

/// Packages sorted by key, ascending.
pub open spec fn pkgs_sorted(s: Seq<PackageV>) -> bool {
    forall|i: int, j: int| 0 <= i < j < s.len() ==> key_le(#[trigger] s[i].key, #[trigger] s[j].key)
}

/// No two packages share a key.
pub open spec fn keys_distinct(s: Seq<PackageV>) -> bool {
    forall|i: int, j: int| 0 <= i < j < s.len() ==> #[trigger] s[i].key != #[trigger] s[j].key
}

/// Mathematical view of a graph.
#[verifier::ext_equal]
pub ghost struct GraphV {
    pub packages: Seq<PackageV>,
    pub edges: Seq<EdgeV>,
}

impl GraphV {
    /// Well-formedness: packages sorted and keyed uniquely; every edge is an
    /// in-range index pair and no dev-only edge remains.
    pub open spec fn wf(self) -> bool {
        &&& pkgs_sorted(self.packages)
        &&& keys_distinct(self.packages)
        &&& forall|i: int| 0 <= i < self.edges.len() ==> {
            &&& 0 <= #[trigger] self.edges[i].from < self.packages.len()
            &&& 0 <= self.edges[i].to < self.packages.len()
            &&& self.edges[i].role != Role::Dev
        }
    }
}

/// The dependency graph model: a flat, key-sorted package collection and
/// the dependency edges between packages, as index pairs.
pub struct Graph {
    pub packages: Vec<Package>,
    pub edges: Vec<DependencyEdge>,
}

impl View for Graph {
    type V = GraphV;

    open spec fn view(&self) -> GraphV {
        GraphV { packages: pkg_views(self.packages@), edges: edge_views(self.edges@) }
    }
}

/// Raw metadata record for one package, as the metadata fetcher hands it
/// over; required fields may be absent.
pub struct RawPackage {
    pub name: Option<String>,
    pub version: Option<String>,
    pub edition: Option<String>,
    pub license: Option<String>,
    pub features: Vec<String>,
    pub has_build_step: bool,
    pub source: SourceKind,
    pub local_path: Option<String>,
    pub remote_url: Option<String>,
    pub checksum: Option<String>,
}

/// Mathematical view of a raw package record.
#[verifier::ext_equal]
pub ghost struct RawPackageV {
    pub name: Option<Seq<char>>,
    pub version: Option<Seq<char>>,
    pub edition: Option<Seq<char>>,
    pub license: Option<Seq<char>>,
    pub features: Seq<Seq<char>>,
    pub has_build_step: bool,
    pub source: SourceKind,
    pub local_path: Option<Seq<char>>,
    pub remote_url: Option<Seq<char>>,
    pub checksum: Option<Seq<char>>,
}

impl View for RawPackage {
    type V = RawPackageV;

    open spec fn view(&self) -> RawPackageV {
        RawPackageV {
            name: self.name.deep_view(),
            version: self.version.deep_view(),
            edition: self.edition.deep_view(),
            license: self.license.deep_view(),
            features: self.features.deep_view(),
            has_build_step: self.has_build_step,
            source: self.source,
            local_path: self.local_path.deep_view(),
            remote_url: self.remote_url.deep_view(),
            checksum: self.checksum.deep_view(),
        }
    }
}

/// Raw metadata record for one resolved dependency edge.
pub struct RawEdge {
    pub from_name: Option<String>,
    pub from_version: Option<String>,
    pub to_name: Option<String>,
    pub to_version: Option<String>,
    pub features: Vec<String>,
    pub predicate: Option<String>,
    pub role: Role,
    pub rename: Option<String>,
}

/// Mathematical view of a raw edge record.
#[verifier::ext_equal]
pub ghost struct RawEdgeV {
    pub from_name: Option<Seq<char>>,
    pub from_version: Option<Seq<char>>,
    pub to_name: Option<Seq<char>>,
    pub to_version: Option<Seq<char>>,
    pub features: Seq<Seq<char>>,
    pub predicate: Option<Seq<char>>,
    pub role: Role,
    pub rename: Option<Seq<char>>,
}

impl View for RawEdge {
    type V = RawEdgeV;

    open spec fn view(&self) -> RawEdgeV {
        RawEdgeV {
            from_name: self.from_name.deep_view(),
            from_version: self.from_version.deep_view(),
            to_name: self.to_name.deep_view(),
            to_version: self.to_version.deep_view(),
            features: self.features.deep_view(),
            predicate: self.predicate.deep_view(),
            role: self.role,
            rename: self.rename.deep_view(),
        }
    }
}

/// A raw package record carries its required fields.
pub open spec fn raw_pkg_complete(r: RawPackageV) -> bool {
    r.name is Some && r.version is Some
}

/// The package a complete raw record denotes, with defaults for optional
/// fields.
pub open spec fn pkg_of_raw(r: RawPackageV) -> PackageV {
    PackageV {
        key: KeyV { name: opt_or(r.name, Seq::<char>::empty()), version: opt_or(r.version, Seq::<char>::empty()) },
        edition: opt_or(r.edition, "2015"@),
        license: opt_or(r.license, Seq::<char>::empty()),
        features: r.features,
        has_build_step: r.has_build_step,
        source: r.source,
        local_path: opt_or(r.local_path, Seq::<char>::empty()),
        remote_url: opt_or(r.remote_url, Seq::<char>::empty()),
        checksum: opt_or(r.checksum, Seq::<char>::empty()),
    }
}

/// The value of an option, or a default.
pub open spec fn opt_or<T>(o: Option<T>, d: T) -> T {
    match o {
        Some(v) => v,
        None => d,
    }
}

/// A raw edge record carries its required fields.
pub open spec fn raw_edge_complete(e: RawEdgeV) -> bool {
    e.from_name is Some && e.from_version is Some && e.to_name is Some && e.to_version is Some
}

/// First index in `pkgs` whose key is (name, version); `pkgs.len()` if none.
pub open spec fn find_key(pkgs: Seq<PackageV>, name: Seq<char>, version: Seq<char>) -> int
    decreases pkgs.len(),
{
    if pkgs.len() == 0 {
        0
    } else if pkgs[0].key == (KeyV { name, version }) {
        0
    } else {
        1 + find_key(pkgs.skip(1), name, version)
    }
}

/// Whether some package in `pkgs` has key (name, version).
pub open spec fn has_key(pkgs: Seq<PackageV>, name: Seq<char>, version: Seq<char>) -> bool {
    exists|i: int| 0 <= i < pkgs.len() && #[trigger] pkgs[i].key == (KeyV { name, version })
}

/// `find_key` finds a match exactly when one exists.
pub proof fn lemma_find_key(pkgs: Seq<PackageV>, name: Seq<char>, version: Seq<char>)
    ensures
        has_key(pkgs, name, version) <==> 0 <= find_key(pkgs, name, version) < pkgs.len(),
        has_key(pkgs, name, version) ==> pkgs[find_key(pkgs, name, version)].key == (KeyV { name, version }),
        0 <= find_key(pkgs, name, version) <= pkgs.len(),
    decreases pkgs.len(),
{
    if pkgs.len() == 0 {
    } else if pkgs[0].key == (KeyV { name, version }) {
    } else {
        lemma_find_key(pkgs.skip(1), name, version);
        assert forall|i: int| 0 <= i < pkgs.len() && #[trigger] pkgs[i].key == (KeyV { name, version })
            implies 0 <= find_key(pkgs, name, version) < pkgs.len() by {
            assert(i != 0);
            assert(pkgs.skip(1)[i - 1].key == (KeyV { name, version }));
        }
        if has_key(pkgs.skip(1), name, version) {
            assert(has_key(pkgs, name, version)) by {
                let i = choose|i: int| 0 <= i < pkgs.skip(1).len()
                    && #[trigger] pkgs.skip(1)[i].key == (KeyV { name, version });
                assert(pkgs[i + 1].key == (KeyV { name, version }));
            }
        }
    }
}

/// Whether a complete raw edge resolves against the packages: both of its
/// endpoints name a present key.
pub open spec fn raw_edge_resolves(e: RawEdgeV, pkgs: Seq<PackageV>) -> bool {
    has_key(pkgs, opt_or(e.from_name, Seq::<char>::empty()), opt_or(e.from_version, Seq::<char>::empty()))
        && has_key(pkgs, opt_or(e.to_name, Seq::<char>::empty()), opt_or(e.to_version, Seq::<char>::empty()))
}

/// The resolved edge a complete raw edge denotes.
pub open spec fn edge_of_raw(e: RawEdgeV, pkgs: Seq<PackageV>) -> EdgeV {
    EdgeV {
        from: find_key(pkgs, opt_or(e.from_name, Seq::<char>::empty()), opt_or(e.from_version, Seq::<char>::empty())),
        to: find_key(pkgs, opt_or(e.to_name, Seq::<char>::empty()), opt_or(e.to_version, Seq::<char>::empty())),
        features: e.features,
        predicate: e.predicate,
        role: e.role,
        rename: e.rename,
    }
}

/// The edges a raw edge sequence resolves to: dev-only edges dropped, the
/// rest resolved in order.
pub open spec fn resolve_edges(es: Seq<RawEdgeV>, pkgs: Seq<PackageV>) -> Seq<EdgeV>
    decreases es.len(),
{
    if es.len() == 0 {
        Seq::empty()
    } else if es.last().role == Role::Dev {
        resolve_edges(es.drop_last(), pkgs)
    } else {
        resolve_edges(es.drop_last(), pkgs).push(edge_of_raw(es.last(), pkgs))
    }
}

/// Ingestion succeeds exactly on this condition: every package record
/// complete, no duplicate package key, every edge record complete and
/// resolving to known packages.
pub open spec fn raw_ok(ps: Seq<RawPackageV>, es: Seq<RawEdgeV>) -> bool {
    &&& forall|i: int| 0 <= i < ps.len() ==> raw_pkg_complete(#[trigger] ps[i])
    &&& forall|i: int, j: int| 0 <= i < j < ps.len()
        ==> pkg_of_raw(#[trigger] ps[i]).key != pkg_of_raw(#[trigger] ps[j]).key
    &&& forall|i: int| 0 <= i < es.len() && (#[trigger] es[i]).role != Role::Dev
        ==> raw_edge_complete(es[i])
    &&& forall|i: int| 0 <= i < es.len() && (#[trigger] es[i]).role != Role::Dev
        ==> raw_edge_resolves(es[i], raw_pkg_targets(ps))
}

/// The packages a raw package sequence denotes, in input order.
pub open spec fn raw_pkg_targets(ps: Seq<RawPackageV>) -> Seq<PackageV> {
    ps.map_values(|r: RawPackageV| pkg_of_raw(r))
}

/// Ingestion error: the metadata cannot be formed into a well-formed graph.
#[derive(Debug)]
pub enum MetadataError {
    /// A required field is absent, a package key occurs twice, or an edge
    /// references an unknown package. Carries the offending identity text.
    MalformedMetadata(String),
}

/// View of a raw package sequence.
pub open spec fn raw_pkg_views(s: Seq<RawPackage>) -> Seq<RawPackageV> {
    s.map_values(|r: RawPackage| r@)
}

/// View of a raw edge sequence.
pub open spec fn raw_edge_views(s: Seq<RawEdge>) -> Seq<RawEdgeV> {
    s.map_values(|r: RawEdge| r@)
}

/// Some position of `s` holds `x`.
pub open spec fn contains_pkg(s: Seq<PackageV>, x: PackageV) -> bool {
    exists|i: int| 0 <= i < s.len() && #[trigger] s[i] == x
}

/// Every package in `pvs` is denoted by one of the first `n` raw records.
pub open spec fn from_raw_prefix(pvs: Seq<PackageV>, rpv: Seq<RawPackageV>, n: int) -> bool {
    forall|m: int| 0 <= m < pvs.len() ==> exists|j: int|
        0 <= j < n && #[trigger] pvs[m] == pkg_of_raw(rpv[j])
}

/// Clone a string, preserving its view.
pub fn clone_string(s: &String) -> (r: String)
    ensures
        r@ == s@,
{
    s.clone()
}

/// Clone a string vector, preserving its element views.
pub fn clone_strings(v: &Vec<String>) -> (r: Vec<String>)
    ensures
        r.deep_view() == v.deep_view(),
{
    let mut r: Vec<String> = Vec::new();
    let mut i: usize = 0;
    while i < v.len()
        invariant
            i <= v.len(),
            r@.len() == i,
            forall|j: int| 0 <= j < i ==> #[trigger] r.deep_view()[j] == v.deep_view()[j],
        decreases v.len() - i,
    {
        let ghost prev = r.deep_view();
        let s = clone_string(&v[i]);
        assert(s@ == v@[i as int]@);
        r.push(s);
        i = i + 1;
        assert forall|j: int| 0 <= j < i implies #[trigger] r.deep_view()[j] == v.deep_view()[j] by {
            if j < i - 1 {
                assert(r.deep_view()[j] == prev[j]);
            }
        }
    }
    assert(r.deep_view() =~= v.deep_view());
    r
}

/// Clone an optional string, preserving its view.
pub fn clone_opt_string(o: &Option<String>) -> (r: Option<String>)
    ensures
        r.deep_view() == o.deep_view(),
{
    match o {
        Some(s) => Some(s.clone()),
        None => None,
    }
}

/// Executable `key_le` on package keys.
pub fn key_le_exec(a: &PkgKey, b: &PkgKey) -> (r: bool)
    ensures
        r == key_le(a@, b@),
{
    if a.name == b.name {
        str_le(a.version.as_str(), b.version.as_str())
    } else {
        str_le(a.name.as_str(), b.name.as_str())
    }
}

/// Executable key equality, deciding view equality.
pub fn key_eq_exec(a: &PkgKey, b: &PkgKey) -> (r: bool)
    ensures
        r == (a@ == b@),
{
    let r = a.name == b.name && a.version == b.version;
    proof {
        if a.name@ == b.name@ && a.version@ == b.version@ {
            assert(a@ =~= b@);
        }
    }
    r
}

/// Executable strict key order.
pub fn key_lt_exec(a: &PkgKey, b: &PkgKey) -> (r: bool)
    ensures
        r == key_lt(a@, b@),
{
    let le = key_le_exec(a, b);
    let eq = key_eq_exec(a, b);
    le && !eq
}

/// The package a complete raw record denotes; fails on a record missing its
/// name or version.
fn make_package(raw: &RawPackage) -> (r: Result<Package, MetadataError>)
    ensures
        match r {
            Ok(p) => raw_pkg_complete(raw@) && p@ == pkg_of_raw(raw@),
            Err(_) => !raw_pkg_complete(raw@),
        },
{
    let name = match &raw.name {
        Some(n) => n.clone(),
        None => {
            return Err(MetadataError::MalformedMetadata(String::from_str("package record missing name")));
        },
    };
    let version = match &raw.version {
        Some(v) => v.clone(),
        None => {
            return Err(MetadataError::MalformedMetadata(String::from_str("package record missing version")));
        },
    };
    let edition = match &raw.edition {
        Some(e) => e.clone(),
        None => String::from_str("2015"),
    };
    let license = match &raw.license {
        Some(l) => l.clone(),
        None => String::new(),
    };
    let local_path = match &raw.local_path {
        Some(p) => p.clone(),
        None => String::new(),
    };
    let remote_url = match &raw.remote_url {
        Some(u) => u.clone(),
        None => String::new(),
    };
    let checksum = match &raw.checksum {
        Some(c) => c.clone(),
        None => String::new(),
    };
    let p = Package {
        key: PkgKey { name, version },
        edition,
        license,
        features: clone_strings(&raw.features),
        has_build_step: raw.has_build_step,
        source: raw.source,
        local_path,
        remote_url,
        checksum,
    };
    proof {
        assert(p@ =~= pkg_of_raw(raw@));
    }
    Ok(p)
}

/// `find_key` returns the position of a match whose predecessors all miss.
proof fn lemma_find_key_first(pkgs: Seq<PackageV>, name: Seq<char>, version: Seq<char>, i: int)
    requires
        0 <= i < pkgs.len(),
        pkgs[i].key == (KeyV { name, version }),
        forall|m: int| 0 <= m < i ==> #[trigger] pkgs[m].key != (KeyV { name, version }),
    ensures
        find_key(pkgs, name, version) == i,
    decreases i,
{
    if i == 0 {
    } else {
        assert(pkgs[0].key != (KeyV { name, version }));
        assert forall|m: int| 0 <= m < i - 1 implies #[trigger] pkgs.skip(1)[m].key != (KeyV { name, version }) by {
            assert(pkgs.skip(1)[m] == pkgs[m + 1]);
        }
        assert(pkgs.skip(1)[i - 1] == pkgs[i]);
        lemma_find_key_first(pkgs.skip(1), name, version, i - 1);
    }
}

/// First position in `pkgs` carrying key (name, version), if any.
pub fn find_package(pkgs: &Vec<Package>, name: &String, version: &String) -> (r: Option<usize>)
    ensures
        match r {
            Some(i) => {
                &&& (i as int) < pkgs@.len()
                &&& pkg_views(pkgs@)[i as int].key == (KeyV { name: name@, version: version@ })
                &&& i as int == find_key(pkg_views(pkgs@), name@, version@)
            },
            None => !has_key(pkg_views(pkgs@), name@, version@),
        },
{
    let ghost goal = KeyV { name: name@, version: version@ };
    let mut i: usize = 0;
    while i < pkgs.len()
        invariant
            i <= pkgs@.len(),
            goal == (KeyV { name: name@, version: version@ }),
            forall|m: int| 0 <= m < i ==> #[trigger] pkg_views(pkgs@)[m].key != goal,
        decreases pkgs@.len() - i,
    {
        let p = &pkgs[i];
        let name_eq = p.key.name == *name;
        let version_eq = p.key.version == *version;
        if name_eq && version_eq {
            proof {
                assert(pkg_views(pkgs@)[i as int].key =~= goal);
                lemma_find_key_first(pkg_views(pkgs@), name@, version@, i as int);
            }
            return Some(i);
        }
        proof {
            assert(pkg_views(pkgs@)[i as int].key != goal);
        }
        i = i + 1;
    }
    proof {
        if has_key(pkg_views(pkgs@), name@, version@) {
            let m = choose|m: int| 0 <= m < pkg_views(pkgs@).len()
                && #[trigger] pkg_views(pkgs@)[m].key == (KeyV { name: name@, version: version@ });
            assert(pkg_views(pkgs@)[m].key != goal);
        }
    }
    None
}

/// Insert a package into a key-sorted, duplicate-free collection, keeping it
/// sorted; refuses a package whose key is already present.
fn insert_sorted_unique(pkgs: &mut Vec<Package>, p: Package) -> (r: bool)
    requires
        pkgs_sorted(pkg_views(old(pkgs)@)),
        keys_distinct(pkg_views(old(pkgs)@)),
    ensures
        r == !has_key(pkg_views(old(pkgs)@), p@.key.name, p@.key.version),
        !r ==> final (pkgs)@ == old(pkgs)@,
        r ==> {
            &&& pkgs_sorted(pkg_views(final (pkgs)@))
            &&& keys_distinct(pkg_views(final (pkgs)@))
            &&& final (pkgs)@.len() == old(pkgs)@.len() + 1
            &&& forall|x: PackageV| contains_pkg(pkg_views(final (pkgs)@), x)
                <==> contains_pkg(pkg_views(old(pkgs)@), x) || x == p@
        },
{
    let ghost ovs = pkg_views(old(pkgs)@);
    let mut pos: usize = 0;
    while pos < pkgs.len() && key_lt_exec(&pkgs[pos].key, &p.key)
        invariant
            pkgs@ == old(pkgs)@,
            pos <= pkgs@.len(),
            forall|m: int| 0 <= m < pos ==> key_lt(#[trigger] pkg_views(pkgs@)[m].key, p@.key),
        decreases pkgs@.len() - pos,
    {
        pos = pos + 1;
    }
    proof {
        assert(pkg_views(pkgs@) == ovs);
    }
    if pos < pkgs.len() && key_eq_exec(&pkgs[pos].key, &p.key) {
        proof {
            assert(ovs[pos as int].key =~= (KeyV { name: p@.key.name, version: p@.key.version }));
        }
        return false;
    }
    // At `pos` every earlier entry is strictly below `p` and, if `pos` is in
    // range, the entry there is strictly above `p`.
    proof {
        if pos < pkgs@.len() {
            lemma_key_le_total(ovs[pos as int].key, p@.key);
            assert(key_lt(p@.key, ovs[pos as int].key)) by {
                assert(!key_lt(ovs[pos as int].key, p@.key));
                assert(ovs[pos as int].key != p@.key) by {
                    assert(!(pkgs[pos as int].key@ == p.key@));
                }
            }
        }
        // No element of the old collection carries p's key.
        assert forall|m: int| 0 <= m < ovs.len() implies ovs[m].key != p@.key by {
            if m < pos {
            } else if m == pos {
            } else if pos < ovs.len() {
                assert(key_le(ovs[pos as int].key, ovs[m].key));
                if ovs[m].key == p@.key {
                    lemma_key_le_antisym(p@.key, ovs[pos as int].key);
                    lemma_key_le_trans(p@.key, ovs[pos as int].key, ovs[m].key);
                    lemma_key_le_antisym(ovs[pos as int].key, ovs[m].key);
                }
            }
        }
        assert(!has_key(ovs, p@.key.name, p@.key.version)) by {
            if has_key(ovs, p@.key.name, p@.key.version) {
                let i = choose|i: int| 0 <= i < ovs.len()
                    && #[trigger] ovs[i].key == (KeyV { name: p@.key.name, version: p@.key.version });
                assert(ovs[i].key =~= p@.key);
            }
        }
    }
    let ghost pv = p@;
    pkgs.insert(pos, p);
    proof {
        let nvs = pkg_views(pkgs@);
        assert(nvs.len() == ovs.len() + 1);
        assert forall|m: int| 0 <= m < nvs.len() implies nvs[m] == (if m < pos {
            ovs[m]
        } else if m == pos {
            pv
        } else {
            ovs[m - 1]
        }) by {
            if m < pos {
                assert(pkgs@[m] == old(pkgs)@[m]);
            } else if m > pos {
                assert(pkgs@[m] == old(pkgs)@[m - 1]);
            }
        }
        assert forall|i: int, j: int| 0 <= i < j < nvs.len() implies key_le(#[trigger] nvs[i].key, #[trigger] nvs[j].key) && nvs[i].key != nvs[j].key by {
            let a = if i < pos { ovs[i].key } else if i == pos { pv.key } else { ovs[i - 1].key };
            let b = if j < pos { ovs[j].key } else if j == pos { pv.key } else { ovs[j - 1].key };
            assert(nvs[i].key == a);
            assert(nvs[j].key == b);
            if j == pos {
                // i < pos: strictly below p
                assert(key_lt(ovs[i].key, pv.key));
            } else if i == pos {
                // j > pos: p strictly below the old entry at pos, which is
                // at or below the old entry at j - 1
                assert(key_lt(pv.key, ovs[pos as int].key));
                if j - 1 > pos {
                    assert(key_le(ovs[pos as int].key, ovs[j - 1].key));
                    lemma_key_le_trans(pv.key, ovs[pos as int].key, ovs[j - 1].key);
                    if pv.key == ovs[j - 1].key {
                        lemma_key_le_antisym(ovs[pos as int].key, ovs[j - 1].key);
                    }
                }
            } else if i < pos && j > pos {
                assert(key_lt(ovs[i].key, pv.key));
                assert(key_lt(pv.key, ovs[pos as int].key));
                assert(key_le(a, b));
                assert(a != b);
            }
        }
        assert(pkgs_sorted(nvs));
        assert(keys_distinct(nvs));
        assert forall|x: PackageV| contains_pkg(nvs, x) implies contains_pkg(ovs, x) || x == pv by {
            let i = choose|i: int| 0 <= i < nvs.len() && #[trigger] nvs[i] == x;
            if i < pos {
                assert(ovs[i] == x);
            } else if i > pos {
                assert(ovs[i - 1] == x);
            }
        }
        assert forall|x: PackageV| contains_pkg(ovs, x) || x == pv implies contains_pkg(nvs, x) by {
            if x == pv {
                assert(nvs[pos as int] == x);
            } else {
                let i = choose|i: int| 0 <= i < ovs.len() && #[trigger] ovs[i] == x;
                if i < pos {
                    assert(nvs[i] == x);
                } else {
                    assert(nvs[i + 1] == x);
                }
            }
        }
    }
    true
}

/// Build the dependency graph from raw metadata records.
///
/// Succeeds exactly when the records are well formed: every package record
/// complete, no two packages sharing a key, every edge record complete and
/// resolving to known packages. The graph holds the packages sorted by key
/// and the non-dev edges resolved to index pairs, in input order.
pub fn build_graph(raw_pkgs: &Vec<RawPackage>, raw_edges: &Vec<RawEdge>) -> (r: Result<
    Graph,
    MetadataError,
>)
    ensures
        match r {
            Ok(g) => {
                &&& raw_ok(raw_pkg_views(raw_pkgs@), raw_edge_views(raw_edges@))
                &&& g@.wf()
                &&& g@.packages.len() == raw_pkgs@.len()
                &&& forall|i: int| 0 <= i < raw_pkgs@.len() ==> contains_pkg(
                    g@.packages,
                    pkg_of_raw(#[trigger] raw_pkg_views(raw_pkgs@)[i]),
                )
                &&& from_raw_prefix(g@.packages, raw_pkg_views(raw_pkgs@), raw_pkgs@.len() as int)
                &&& g@.edges == resolve_edges(raw_edge_views(raw_edges@), g@.packages)
            },
            Err(_) => !raw_ok(raw_pkg_views(raw_pkgs@), raw_edge_views(raw_edges@)),
        },
{
    let ghost rpv = raw_pkg_views(raw_pkgs@);
    let ghost rev = raw_edge_views(raw_edges@);
    let mut pkgs: Vec<Package> = Vec::new();
    let mut i: usize = 0;
    while i < raw_pkgs.len()
        invariant
            i <= raw_pkgs@.len(),
            rpv == raw_pkg_views(raw_pkgs@),
            pkgs@.len() == i,
            pkgs_sorted(pkg_views(pkgs@)),
            keys_distinct(pkg_views(pkgs@)),
            forall|j: int| 0 <= j < i ==> raw_pkg_complete(#[trigger] rpv[j]),
            forall|a: int, b: int| 0 <= a < b < i ==> pkg_of_raw(#[trigger] rpv[a]).key
                != pkg_of_raw(#[trigger] rpv[b]).key,
            forall|j: int| 0 <= j < i ==> contains_pkg(pkg_views(pkgs@), pkg_of_raw(#[trigger] rpv[j])),
            from_raw_prefix(pkg_views(pkgs@), rpv, i as int),
        decreases raw_pkgs@.len() - i,
    {
        let p = match make_package(&raw_pkgs[i]) {
            Ok(p) => p,
            Err(e) => {
                return Err(e);
            },
        };
        let dup_name = clone_string(&p.key.name);
        let ghost ovs = pkg_views(pkgs@);
        let ghost pv = p@;
        let ok = insert_sorted_unique(&mut pkgs, p);
        if !ok {
            proof {
                let k = choose|k: int| 0 <= k < ovs.len()
                    && #[trigger] ovs[k].key == (KeyV { name: pv.key.name, version: pv.key.version });
                let j = choose|j: int| 0 <= j < i && #[trigger] ovs[k] == pkg_of_raw(rpv[j]);
                assert(pkg_of_raw(rpv[j]).key =~= pkg_of_raw(rpv[i as int]).key);
            }
            return Err(MetadataError::MalformedMetadata(dup_name));
        }
        proof {
            assert forall|a: int, b: int| 0 <= a < b < i + 1 implies pkg_of_raw(#[trigger] rpv[a]).key
                != pkg_of_raw(#[trigger] rpv[b]).key by {
                if b == i {
                    let k = choose|k: int| 0 <= k < ovs.len() && #[trigger] ovs[k] == pkg_of_raw(rpv[a]);
                    if pkg_of_raw(rpv[a]).key == pkg_of_raw(rpv[i as int]).key {
                        assert(ovs[k].key == (KeyV { name: pv.key.name, version: pv.key.version }));
                    }
                }
            }
            let nvs = pkg_views(pkgs@);
            assert forall|j: int| 0 <= j < i + 1 implies contains_pkg(nvs, pkg_of_raw(#[trigger] rpv[j])) by {
                if j < i {
                    assert(contains_pkg(ovs, pkg_of_raw(rpv[j])));
                } else {
                    assert(pkg_of_raw(rpv[j]) == pv);
                }
            }
            assert forall|m: int| 0 <= m < nvs.len() implies exists|j: int|
                0 <= j < i + 1 && #[trigger] nvs[m] == pkg_of_raw(rpv[j]) by {
                assert(contains_pkg(nvs, nvs[m]));
                if contains_pkg(ovs, nvs[m]) {
                    let mo = choose|mo: int| 0 <= mo < ovs.len() && #[trigger] ovs[mo] == nvs[m];
                    let j = choose|j: int| 0 <= j < i && #[trigger] ovs[mo] == pkg_of_raw(rpv[j]);
                    assert(nvs[m] == pkg_of_raw(rpv[j]));
                } else {
                    assert(nvs[m] == pv);
                    assert(nvs[m] == pkg_of_raw(rpv[i as int]));
                }
            }
        }
        i = i + 1;
    }
    let ghost pvs = pkg_views(pkgs@);
    let mut edges: Vec<DependencyEdge> = Vec::new();
    proof {
        assert(rev.take(0) =~= Seq::<RawEdgeV>::empty());
        assert(edge_views(edges@) =~= Seq::<EdgeV>::empty());
        assert(edge_views(edges@) == resolve_edges(rev.take(0), pvs));
    }
    let mut k: usize = 0;
    while k < raw_edges.len()
        invariant
            k <= raw_edges@.len(),
            rev == raw_edge_views(raw_edges@),
            rpv == raw_pkg_views(raw_pkgs@),
            pvs == pkg_views(pkgs@),
            pkgs@.len() == raw_pkgs@.len(),
            pkgs_sorted(pvs),
            keys_distinct(pvs),
            forall|j: int| 0 <= j < rpv.len() ==> raw_pkg_complete(#[trigger] rpv[j]),
            forall|a: int, b: int| 0 <= a < b < rpv.len() ==> pkg_of_raw(#[trigger] rpv[a]).key
                != pkg_of_raw(#[trigger] rpv[b]).key,
            forall|j: int| 0 <= j < rpv.len() ==> contains_pkg(pvs, pkg_of_raw(#[trigger] rpv[j])),
            from_raw_prefix(pvs, rpv, rpv.len() as int),
            edge_views(edges@) == resolve_edges(rev.take(k as int), pvs),
            forall|m: int| 0 <= m < k && (#[trigger] rev[m]).role != Role::Dev
                ==> raw_edge_complete(rev[m]),
            forall|m: int| 0 <= m < k && (#[trigger] rev[m]).role != Role::Dev
                ==> raw_edge_resolves(rev[m], raw_pkg_targets(rpv)),
            forall|m: int| 0 <= m < edges@.len() ==> {
                &&& 0 <= #[trigger] edge_views(edges@)[m].from < pvs.len()
                &&& 0 <= edge_views(edges@)[m].to < pvs.len()
                &&& edge_views(edges@)[m].role != Role::Dev
            },
        decreases raw_edges@.len() - k,
    {
        let re = &raw_edges[k];
        let is_dev = match re.role {
            Role::Dev => true,
            _ => false,
        };
        if is_dev {
            proof {
                assert(rev.take(k + 1).drop_last() =~= rev.take(k as int));
                assert(rev.take(k + 1).last() == rev[k as int]);
                assert(edge_views(edges@) == resolve_edges(rev.take(k + 1), pvs));
            }
        } else {
            let fname = match &re.from_name {
                Some(n) => n,
                None => {
                    return Err(MetadataError::MalformedMetadata(String::from_str(
                        "dependency edge missing source name",
                    )));
                },
            };
            let fversion = match &re.from_version {
                Some(v) => v,
                None => {
                    return Err(MetadataError::MalformedMetadata(String::from_str(
                        "dependency edge missing source version",
                    )));
                },
            };
            let tname = match &re.to_name {
                Some(n) => n,
                None => {
                    return Err(MetadataError::MalformedMetadata(String::from_str(
                        "dependency edge missing target name",
                    )));
                },
            };
            let tversion = match &re.to_version {
                Some(v) => v,
                None => {
                    return Err(MetadataError::MalformedMetadata(String::from_str(
                        "dependency edge missing target version",
                    )));
                },
            };
            let fi = match find_package(&pkgs, fname, fversion) {
                Some(i) => i,
                None => {
                    proof {
                        lemma_missing_key_transfers(rpv, pvs, fname@, fversion@);
                    }
                    return Err(MetadataError::MalformedMetadata(clone_string(fname)));
                },
            };
            let ti = match find_package(&pkgs, tname, tversion) {
                Some(i) => i,
                None => {
                    proof {
                        lemma_missing_key_transfers(rpv, pvs, tname@, tversion@);
                    }
                    return Err(MetadataError::MalformedMetadata(clone_string(tname)));
                },
            };
            let e = DependencyEdge {
                from: fi,
                to: ti,
                features: clone_strings(&re.features),
                predicate: clone_opt_string(&re.predicate),
                role: re.role,
                rename: clone_opt_string(&re.rename),
            };
            proof {
                assert(e@ =~= edge_of_raw(rev[k as int], pvs));
                assert(has_key(pvs, fname@, fversion@)) by {
                    assert(pvs[fi as int].key == (KeyV { name: fname@, version: fversion@ }));
                }
                assert(has_key(pvs, tname@, tversion@)) by {
                    assert(pvs[ti as int].key == (KeyV { name: tname@, version: tversion@ }));
                }
                lemma_present_key_transfers(rpv, pvs, fname@, fversion@);
                lemma_present_key_transfers(rpv, pvs, tname@, tversion@);
            }
            let ghost old_edges = edge_views(edges@);
            edges.push(e);
            proof {
                assert(edge_views(edges@) =~= old_edges.push(e@));
                assert(rev.take(k + 1).drop_last() =~= rev.take(k as int));
                assert(rev.take(k + 1).last() == rev[k as int]);
                assert(edge_views(edges@) == resolve_edges(rev.take(k + 1), pvs));
            }
        }
        k = k + 1;
    }
    proof {
        assert(rev.take(raw_edges@.len() as int) =~= rev);
    }
    Ok(Graph { packages: pkgs, edges })
}

/// A key absent from the graph's packages is absent from the packages the
/// raw records denote, given the correspondence between the two.
proof fn lemma_missing_key_transfers(
    rpv: Seq<RawPackageV>,
    pvs: Seq<PackageV>,
    name: Seq<char>,
    version: Seq<char>,
)
    requires
        forall|j: int| 0 <= j < rpv.len() ==> contains_pkg(pvs, pkg_of_raw(#[trigger] rpv[j])),
        !has_key(pvs, name, version),
    ensures
        !has_key(raw_pkg_targets(rpv), name, version),
{
    if has_key(raw_pkg_targets(rpv), name, version) {
        let j = choose|j: int| 0 <= j < raw_pkg_targets(rpv).len()
            && #[trigger] raw_pkg_targets(rpv)[j].key == (KeyV { name, version });
        assert(contains_pkg(pvs, pkg_of_raw(rpv[j])));
        let m = choose|m: int| 0 <= m < pvs.len() && #[trigger] pvs[m] == pkg_of_raw(rpv[j]);
        assert(pvs[m].key == (KeyV { name, version }));
    }
}

/// A key present in the graph's packages is present among the packages the
/// raw records denote, given the correspondence between the two.
proof fn lemma_present_key_transfers(
    rpv: Seq<RawPackageV>,
    pvs: Seq<PackageV>,
    name: Seq<char>,
    version: Seq<char>,
)
    requires
        from_raw_prefix(pvs, rpv, rpv.len() as int),
        has_key(pvs, name, version),
    ensures
        has_key(raw_pkg_targets(rpv), name, version),
{
    let m = choose|m: int| 0 <= m < pvs.len() && #[trigger] pvs[m].key == (KeyV { name, version });
    let j = choose|j: int| 0 <= j < rpv.len() && #[trigger] pvs[m] == pkg_of_raw(rpv[j]);
    assert(raw_pkg_targets(rpv)[j].key == (KeyV { name, version }));
}

} // verus!
