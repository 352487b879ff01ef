//! Build planner.
//!
//! The planner walks the dependency graph together with the user override
//! settings and the platform resolver, and produces a planned build: one
//! planned package per graph node, each carrying its final dependency
//! lists — an always-present universal list, conditional lists grouped
//! under the platform predicate they are keyed by (kept sorted so output
//! is reproducible), and build-step dependencies. Per-package patch
//! overrides are applied here: skips remove an edge outright, force
//! includes bypass platform classification, renames give the dependency
//! its local alias. A cycle among build-time edges is fatal; an override
//! naming an unknown package is collected as a diagnostic and planning
//! proceeds.
//!
//! Assumption: an edge that is both feature-gated and platform-gated
//! reaches the planner with its feature gate already resolved by the
//! metadata resolver — the edge carries its active feature set — so only
//! the platform predicate remains to be decided here; where both gates
//! apply, both must hold.

use vstd::prelude::*;
use crate::model::{
    EdgeV, Graph, GraphV, KeyV, Package, PackageV, PkgKey, Role, clone_opt_string,
    clone_string, clone_strings, find_package, has_key, keys_distinct, pkg_views,
    pkgs_sorted,
};
use crate::order::lex_le;
use crate::platform::{ClassV, Classification, Platform, PlatformV, classify, classify_spec, platform_views};
use crate::settings::{
    OverrideV, PkgOverride, Settings, SettingsV, key_in, key_in_exec, key_views, override_for,
    override_views, rename_for, rename_for_exec, rename_views,
};

verus! {

/// Mathematical view of a planned dependency.
#[verifier::ext_equal]
pub ghost struct DepV {
    pub target: int,
    pub alias: Option<Seq<char>>,
    pub features: Seq<Seq<char>>,
}

/// One resolved dependency of a planned package: the target package (an
/// index into the plan's package collection), the local alias a rename
/// override gave it, if any, and the features active on the edge.
pub struct PlannedDep {
    pub target: usize,
    pub alias: Option<String>,
    pub features: Vec<String>,
}

impl View for PlannedDep {
    type V = DepV;

    open spec fn view(&self) -> DepV {
        DepV {
            target: self.target as int,
            alias: self.alias.deep_view(),
            features: self.features.deep_view(),
        }
    }
}

/// View of a planned dependency sequence.
pub open spec fn dep_views(s: Seq<PlannedDep>) -> Seq<DepV> {
    s.map_values(|d: PlannedDep| d@)
}

/// Mathematical view of a conditional dependency group.
#[verifier::ext_equal]
pub ghost struct GroupV {
    pub predicate: Seq<char>,
    pub deps: Seq<DepV>,
}

/// Dependencies active only under one platform predicate; rendered as one
/// select-construct entry keyed by the predicate text.
pub struct CondGroup {
    pub predicate: String,
    pub deps: Vec<PlannedDep>,
}

impl View for CondGroup {
    type V = GroupV;

    open spec fn view(&self) -> GroupV {
        GroupV { predicate: self.predicate@, deps: dep_views(self.deps@) }
    }
}

/// View of a group sequence.
pub open spec fn group_views(s: Seq<CondGroup>) -> Seq<GroupV> {
    s.map_values(|g: CondGroup| g@)
}

/// Mathematical view of a planned package.
#[verifier::ext_equal]
pub ghost struct PlannedPackageV {
    pub universal: Seq<DepV>,
    pub conditional: Seq<GroupV>,
    pub build_deps: Seq<DepV>,
    pub has_build_rule: bool,
    pub flags: Seq<Seq<char>>,
}

/// Planning output for one package: its platform-normalized dependency
/// lists, whether a synthetic build-step rule must be emitted, and the
/// extra build flags an override granted it.
pub struct PlannedPackage {
    pub universal: Vec<PlannedDep>,
    pub conditional: Vec<CondGroup>,
    pub build_deps: Vec<PlannedDep>,
    pub has_build_rule: bool,
    pub flags: Vec<String>,
}

impl View for PlannedPackage {
    type V = PlannedPackageV;

    open spec fn view(&self) -> PlannedPackageV {
        PlannedPackageV {
            universal: dep_views(self.universal@),
            conditional: group_views(self.conditional@),
            build_deps: dep_views(self.build_deps@),
            has_build_rule: self.has_build_rule,
            flags: self.flags.deep_view(),
        }
    }
}

/// View of a planned package sequence.
pub open spec fn planned_views(s: Seq<PlannedPackage>) -> Seq<PlannedPackageV> {
    s.map_values(|p: PlannedPackage| p@)
}

/// Mathematical view of the workspace context.
#[verifier::ext_equal]
pub ghost struct WorkspaceContextV {
    pub workspace_path: Seq<char>,
}

/// The resolved workspace identity, carried through so rendered references
/// stay consistent.
pub struct WorkspaceContext {
    pub workspace_path: String,
}

impl View for WorkspaceContext {
    type V = WorkspaceContextV;

    open spec fn view(&self) -> WorkspaceContextV {
        WorkspaceContextV { workspace_path: self.workspace_path@ }
    }
}

/// Mathematical view of a planned build.
#[verifier::ext_equal]
pub ghost struct PlannedBuildV {
    pub ctx: WorkspaceContextV,
    pub packages: Seq<PackageV>,
    pub planned: Seq<PlannedPackageV>,
}

/// All dependency targets of a planned package lie below `n`.
pub open spec fn targets_in_range(p: PlannedPackageV, n: int) -> bool {
    &&& forall|j: int| 0 <= j < p.universal.len() ==> 0 <= (#[trigger] p.universal[j]).target < n
    &&& forall|j: int| 0 <= j < p.build_deps.len() ==> 0 <= (#[trigger] p.build_deps[j]).target < n
    &&& forall|g: int, j: int| 0 <= g < p.conditional.len() && 0 <= j
        < p.conditional[g].deps.len() ==> 0 <= (#[trigger] p.conditional[g].deps[j]).target < n
}

impl PlannedBuildV {
    /// Well-formedness: one planned package per package, packages sorted
    /// and keyed uniquely, and the closure invariant — every dependency
    /// target of every planned package resolves to a package of this plan.
    pub open spec fn wf(self) -> bool {
        &&& self.planned.len() == self.packages.len()
        &&& pkgs_sorted(self.packages)
        &&& keys_distinct(self.packages)
        &&& forall|i: int| 0 <= i < self.planned.len() ==> targets_in_range(
            #[trigger] self.planned[i],
            self.packages.len() as int,
        )
    }
}

/// The normalized, platform-resolved build plan, ready for rendering.
pub struct PlannedBuild {
    pub ctx: WorkspaceContext,
    pub packages: Vec<Package>,
    pub planned: Vec<PlannedPackage>,
}

impl View for PlannedBuild {
    type V = PlannedBuildV;

    open spec fn view(&self) -> PlannedBuildV {
        PlannedBuildV {
            ctx: self.ctx@,
            packages: pkg_views(self.packages@),
            planned: planned_views(self.planned@),
        }
    }
}

/// A non-fatal planning finding, reported alongside the plan.
#[derive(Debug)]
pub enum Diagnostic {
    /// A Settings override references a package identity absent from the
    /// graph; planning proceeded for all other packages.
    UnknownOverrideTarget(PkgKey),
}

/// Mathematical view of a diagnostic: the unknown identity it names.
pub open spec fn diag_views(s: Seq<Diagnostic>) -> Seq<KeyV> {
    s.map_values(
        |d: Diagnostic|
            match d {
                Diagnostic::UnknownOverrideTarget(k) => k@,
            },
    )
}

/// Fatal planning error.
#[derive(Debug)]
pub enum PlanError {
    /// The build-time-role edges contain a cycle, so no rule graph can be
    /// linearized. Carries the identities still entangled in the cycle.
    CyclicBuildDependency(Vec<PkgKey>),
}

// ---------------------------------------------------------------------
// Specification of planning, per package
// ---------------------------------------------------------------------

/// The dependency an edge contributes: its target, the alias the override's
/// rename map gives that target, and the edge's feature set.
pub open spec fn dep_of_edge(e: EdgeV, ov: Option<OverrideV>, pkgs: Seq<PackageV>) -> DepV {
    DepV {
        target: e.to,
        alias: match ov {
            Some(o) => rename_for(o.renames, pkgs[e.to].key),
            None => None,
        },
        features: e.features,
    }
}

/// First position in `deps` with the given target; `deps.len()` if none.
pub open spec fn dep_index(deps: Seq<DepV>, target: int) -> int
    decreases deps.len(),
{
    if deps.len() == 0 {
        0
    } else if deps[0].target == target {
        0
    } else {
        1 + dep_index(deps.skip(1), target)
    }
}

/// Whether `fs` holds feature `f`.
pub open spec fn contains_feat(fs: Seq<Seq<char>>, f: Seq<char>) -> bool {
    exists|i: int| 0 <= i < fs.len() && #[trigger] fs[i] == f
}

/// Union of two feature sets: `a`, extended in order by the members of `b`
/// not already present. Duplicate feature requests are idempotent.
pub open spec fn feat_union(a: Seq<Seq<char>>, b: Seq<Seq<char>>) -> Seq<Seq<char>>
    decreases b.len(),
{
    if b.len() == 0 {
        a
    } else if contains_feat(a, b[0]) {
        feat_union(a, b.skip(1))
    } else {
        feat_union(a.push(b[0]), b.skip(1))
    }
}

/// Add a dependency to a list, merging with an existing entry for the same
/// target under a union of features.
pub open spec fn add_dep(deps: Seq<DepV>, d: DepV) -> Seq<DepV> {
    let i = dep_index(deps, d.target);
    if 0 <= i < deps.len() {
        deps.update(
            i,
            DepV {
                target: deps[i].target,
                alias: deps[i].alias,
                features: feat_union(deps[i].features, d.features),
            },
        )
    } else {
        deps.push(d)
    }
}

/// First position in `groups` keyed by exactly `pred`; `groups.len()` if
/// none.
pub open spec fn group_pos(groups: Seq<GroupV>, pred: Seq<char>) -> int
    decreases groups.len(),
{
    if groups.len() == 0 {
        0
    } else if groups[0].predicate == pred {
        0
    } else {
        1 + group_pos(groups.skip(1), pred)
    }
}

/// First position whose predicate is at or above `pred` in the lexicographic
/// order; `groups.len()` if none. On a sorted group list this is where a new
/// group keyed by `pred` belongs.
pub open spec fn group_insert_pos(groups: Seq<GroupV>, pred: Seq<char>) -> int
    decreases groups.len(),
{
    if groups.len() == 0 {
        0
    } else if lex_le(pred, groups[0].predicate) {
        0
    } else {
        1 + group_insert_pos(groups.skip(1), pred)
    }
}

/// Add a dependency to the group keyed by `pred`, creating the group at its
/// sorted position when absent.
pub open spec fn add_group_dep(groups: Seq<GroupV>, pred: Seq<char>, d: DepV) -> Seq<GroupV> {
    let i = group_pos(groups, pred);
    if 0 <= i < groups.len() {
        groups.update(i, GroupV { predicate: groups[i].predicate, deps: add_dep(groups[i].deps, d) })
    } else {
        groups.insert(group_insert_pos(groups, pred), GroupV { predicate: pred, deps: seq![d] })
    }
}

/// The three dependency lists a package accumulates while its edges are
/// processed.
#[verifier::ext_equal]
pub ghost struct ListsV {
    pub universal: Seq<DepV>,
    pub groups: Seq<GroupV>,
    pub build: Seq<DepV>,
}

/// How one edge changes package `i`'s dependency lists: edges of other
/// packages leave them unchanged; a skip override drops the edge; a
/// force-include override adds it regardless of platform classification;
/// otherwise the classification routes it — universal edges and build-time
/// edges to their flat lists, conditional edges to the group keyed by their
/// predicate, excluded edges nowhere.
pub open spec fn step_edge(
    l: ListsV,
    e: EdgeV,
    i: int,
    ov: Option<OverrideV>,
    pkgs: Seq<PackageV>,
    ps: Seq<PlatformV>,
) -> ListsV {
    if e.from != i {
        l
    } else {
        let tkey = pkgs[e.to].key;
        let skipped = match ov {
            Some(o) => key_in(o.skip_deps, tkey),
            None => false,
        };
        let forced = match ov {
            Some(o) => key_in(o.force_deps, tkey),
            None => false,
        };
        let d = dep_of_edge(e, ov, pkgs);
        if skipped {
            l
        } else if e.role == Role::Dev {
            l
        } else if e.role == Role::Build {
            if forced || !(classify_spec(e.predicate, ps) is Excluded) {
                ListsV { universal: l.universal, groups: l.groups, build: add_dep(l.build, d) }
            } else {
                l
            }
        } else {
            if forced {
                ListsV { universal: add_dep(l.universal, d), groups: l.groups, build: l.build }
            } else {
                match classify_spec(e.predicate, ps) {
                    ClassV::Universal => ListsV {
                        universal: add_dep(l.universal, d),
                        groups: l.groups,
                        build: l.build,
                    },
                    ClassV::Conditional(p) => ListsV {
                        universal: l.universal,
                        groups: add_group_dep(l.groups, p, d),
                        build: l.build,
                    },
                    ClassV::Excluded => l,
                }
            }
        }
    }
}

/// Package `i`'s dependency lists after the first `n` edges of the graph.
pub open spec fn plan_lists(
    g: GraphV,
    i: int,
    ov: Option<OverrideV>,
    ps: Seq<PlatformV>,
    n: int,
) -> ListsV
    decreases n,
{
    if n <= 0 {
        ListsV { universal: Seq::empty(), groups: Seq::empty(), build: Seq::empty() }
    } else {
        step_edge(plan_lists(g, i, ov, ps, n - 1), g.edges[n - 1], i, ov, g.packages, ps)
    }
}

/// The planned package for graph node `i` under override `ov` and the
/// requested platforms.
pub open spec fn plan_pkg_spec(
    g: GraphV,
    i: int,
    ov: Option<OverrideV>,
    ps: Seq<PlatformV>,
) -> PlannedPackageV {
    let l = plan_lists(g, i, ov, ps, g.edges.len() as int);
    PlannedPackageV {
        universal: l.universal,
        conditional: l.groups,
        build_deps: l.build,
        has_build_rule: g.packages[i].has_build_step,
        flags: match ov {
            Some(o) => o.extra_flags,
            None => Seq::empty(),
        },
    }
}

/// The override that applies to the package keyed `k`, if any.
pub open spec fn ov_for_pkg(s: SettingsV, k: KeyV) -> Option<OverrideV> {
    override_for(s.overrides, k.name, k.version)
}

/// The identities of the overrides that reference no package of the graph,
/// in override order.
pub open spec fn diags_spec(ovs: Seq<OverrideV>, pkgs: Seq<PackageV>) -> Seq<KeyV>
    decreases ovs.len(),
{
    if ovs.len() == 0 {
        Seq::empty()
    } else if has_key(pkgs, ovs.last().name, ovs.last().version) {
        diags_spec(ovs.drop_last(), pkgs)
    } else {
        diags_spec(ovs.drop_last(), pkgs).push(
            KeyV { name: ovs.last().name, version: ovs.last().version },
        )
    }
}

// ---------------------------------------------------------------------
// Executable planning
// ---------------------------------------------------------------------

/// Whether the features hold `f`, decided executably.
fn contains_feat_exec(fs: &Vec<String>, f: &String) -> (r: bool)
    ensures
        r == contains_feat(fs.deep_view(), f@),
{
    let mut i: usize = 0;
    while i < fs.len()
        invariant
            i <= fs@.len(),
            forall|m: int| 0 <= m < i ==> #[trigger] fs.deep_view()[m] != f@,
        decreases fs@.len() - i,
    {
        if fs[i] == *f {
            proof {
                assert(fs.deep_view()[i as int] == f@);
            }
            return true;
        }
        proof {
            assert(fs.deep_view()[i as int] != f@);
        }
        i = i + 1;
    }
    false
}

/// Extend `a` by the members of `b` it does not yet hold.
fn feat_union_exec(a: &Vec<String>, b: &Vec<String>) -> (r: Vec<String>)
    ensures
        r.deep_view() == feat_union(a.deep_view(), b.deep_view()),
{
    let mut acc = clone_strings(a);
    let ghost bv = b.deep_view();
    proof {
        assert(bv.skip(0) =~= bv);
    }
    let mut j: usize = 0;
    while j < b.len()
        invariant
            j <= b@.len(),
            bv == b.deep_view(),
            feat_union(a.deep_view(), bv) == feat_union(acc.deep_view(), bv.skip(j as int)),
        decreases b@.len() - j,
    {
        let ghost acc0 = acc.deep_view();
        proof {
            assert(bv.skip(j as int)[0] == bv[j as int]);
            assert(bv.skip(j as int).skip(1) =~= bv.skip(j + 1));
        }
        if !contains_feat_exec(&acc, &b[j]) {
            acc.push(clone_string(&b[j]));
            proof {
                assert(acc.deep_view() =~= acc0.push(bv[j as int]));
            }
        }
        j = j + 1;
    }
    proof {
        assert(bv.skip(b@.len() as int) =~= Seq::<Seq<char>>::empty());
    }
    acc
}

/// Clone a planned dependency, preserving its view.
fn clone_dep(d: &PlannedDep) -> (r: PlannedDep)
    ensures
        r@ == d@,
{
    let r = PlannedDep {
        target: d.target,
        alias: clone_opt_string(&d.alias),
        features: clone_strings(&d.features),
    };
    proof {
        assert(r@ =~= d@);
    }
    r
}

/// `dep_index` returns the position of a match whose predecessors all miss.
proof fn lemma_dep_index_first(deps: Seq<DepV>, target: int, i: int)
    requires
        0 <= i < deps.len(),
        deps[i].target == target,
        forall|m: int| 0 <= m < i ==> (#[trigger] deps[m]).target != target,
    ensures
        dep_index(deps, target) == i,
    decreases i,
{
    if i > 0 {
        assert forall|m: int| 0 <= m < i - 1 implies (#[trigger] deps.skip(1)[m]).target != target by {
            assert(deps.skip(1)[m] == deps[m + 1]);
        }
        assert(deps.skip(1)[i - 1] == deps[i]);
        lemma_dep_index_first(deps.skip(1), target, i - 1);
    }
}

/// `dep_index` runs off the end when no position matches.
proof fn lemma_dep_index_none(deps: Seq<DepV>, target: int)
    requires
        forall|m: int| 0 <= m < deps.len() ==> (#[trigger] deps[m]).target != target,
    ensures
        dep_index(deps, target) == deps.len(),
    decreases deps.len(),
{
    if deps.len() > 0 {
        assert forall|m: int| 0 <= m < deps.len() - 1 implies (#[trigger] deps.skip(1)[m]).target
            != target by {
            assert(deps.skip(1)[m] == deps[m + 1]);
        }
        lemma_dep_index_none(deps.skip(1), target);
    }
}

/// Add a dependency to a list, merging features on an existing entry for
/// the same target.
fn add_dep_exec(deps: &mut Vec<PlannedDep>, d: PlannedDep)
    ensures
        dep_views(final (deps)@) == add_dep(dep_views(old(deps)@), d@),
{
    let ghost ovs = dep_views(deps@);
    let mut i: usize = 0;
    while i < deps.len()
        invariant
            i <= deps@.len(),
            deps@ == old(deps)@,
            ovs == dep_views(deps@),
            forall|m: int| 0 <= m < i ==> (#[trigger] ovs[m]).target != d@.target,
        decreases deps@.len() - i,
    {
        if deps[i].target == d.target {
            proof {
                assert(ovs[i as int].target == d@.target);
                lemma_dep_index_first(ovs, d@.target, i as int);
            }
            let merged = PlannedDep {
                target: deps[i].target,
                alias: clone_opt_string(&deps[i].alias),
                features: feat_union_exec(&deps[i].features, &d.features),
            };
            proof {
                assert(merged@ =~= (DepV {
                    target: ovs[i as int].target,
                    alias: ovs[i as int].alias,
                    features: feat_union(ovs[i as int].features, d@.features),
                }));
            }
            deps.set(i, merged);
            proof {
                assert(dep_views(deps@) =~= add_dep(ovs, d@));
            }
            return ;
        }
        proof {
            assert(ovs[i as int].target != d@.target);
        }
        i = i + 1;
    }
    proof {
        lemma_dep_index_none(ovs, d@.target);
    }
    deps.push(d);
    proof {
        assert(dep_views(deps@) =~= ovs.push(d@));
    }
}

/// `group_pos` returns the position of a match whose predecessors all miss.
proof fn lemma_group_pos_first(groups: Seq<GroupV>, pred: Seq<char>, i: int)
    requires
        0 <= i < groups.len(),
        groups[i].predicate == pred,
        forall|m: int| 0 <= m < i ==> (#[trigger] groups[m]).predicate != pred,
    ensures
        group_pos(groups, pred) == i,
    decreases i,
{
    if i > 0 {
        assert forall|m: int| 0 <= m < i - 1 implies (#[trigger] groups.skip(1)[m]).predicate
            != pred by {
            assert(groups.skip(1)[m] == groups[m + 1]);
        }
        assert(groups.skip(1)[i - 1] == groups[i]);
        lemma_group_pos_first(groups.skip(1), pred, i - 1);
    }
}

/// `group_pos` runs off the end when no group matches.
proof fn lemma_group_pos_none(groups: Seq<GroupV>, pred: Seq<char>)
    requires
        forall|m: int| 0 <= m < groups.len() ==> (#[trigger] groups[m]).predicate != pred,
    ensures
        group_pos(groups, pred) == groups.len(),
    decreases groups.len(),
{
    if groups.len() > 0 {
        assert forall|m: int| 0 <= m < groups.len() - 1 implies (#[trigger] groups.skip(
            1,
        )[m]).predicate != pred by {
            assert(groups.skip(1)[m] == groups[m + 1]);
        }
        lemma_group_pos_none(groups.skip(1), pred);
    }
}

/// `group_insert_pos` returns the first position at or above `pred`.
proof fn lemma_group_insert_pos_first(groups: Seq<GroupV>, pred: Seq<char>, i: int)
    requires
        0 <= i < groups.len(),
        lex_le(pred, groups[i].predicate),
        forall|m: int| 0 <= m < i ==> !lex_le(pred, (#[trigger] groups[m]).predicate),
    ensures
        group_insert_pos(groups, pred) == i,
    decreases i,
{
    if i > 0 {
        assert forall|m: int| 0 <= m < i - 1 implies !lex_le(
            pred,
            (#[trigger] groups.skip(1)[m]).predicate,
        ) by {
            assert(groups.skip(1)[m] == groups[m + 1]);
        }
        assert(groups.skip(1)[i - 1] == groups[i]);
        lemma_group_insert_pos_first(groups.skip(1), pred, i - 1);
    }
}

/// `group_insert_pos` runs off the end when every predicate is below `pred`.
proof fn lemma_group_insert_pos_none(groups: Seq<GroupV>, pred: Seq<char>)
    requires
        forall|m: int| 0 <= m < groups.len() ==> !lex_le(pred, (#[trigger] groups[m]).predicate),
    ensures
        group_insert_pos(groups, pred) == groups.len(),
    decreases groups.len(),
{
    if groups.len() > 0 {
        assert forall|m: int| 0 <= m < groups.len() - 1 implies !lex_le(
            pred,
            (#[trigger] groups.skip(1)[m]).predicate,
        ) by {
            assert(groups.skip(1)[m] == groups[m + 1]);
        }
        lemma_group_insert_pos_none(groups.skip(1), pred);
    }
}

/// Clone a planned dependency list, preserving its views.
fn clone_deps(v: &Vec<PlannedDep>) -> (r: Vec<PlannedDep>)
    ensures
        dep_views(r@) == dep_views(v@),
{
    let mut r: Vec<PlannedDep> = Vec::new();
    let mut i: usize = 0;
    while i < v.len()
        invariant
            i <= v@.len(),
            r@.len() == i,
            forall|m: int| 0 <= m < i ==> #[trigger] dep_views(r@)[m] == dep_views(v@)[m],
        decreases v@.len() - i,
    {
        let ghost prev = dep_views(r@);
        r.push(clone_dep(&v[i]));
        i = i + 1;
        assert forall|m: int| 0 <= m < i implies #[trigger] dep_views(r@)[m] == dep_views(v@)[m] by {
            if m < i - 1 {
                assert(dep_views(r@)[m] == prev[m]);
            }
        }
    }
    assert(dep_views(r@) =~= dep_views(v@));
    r
}

/// Add a dependency to the group keyed by `pred`, creating the group at
/// its sorted position when absent.
fn add_group_dep_exec(groups: &mut Vec<CondGroup>, pred: &String, d: PlannedDep)
    ensures
        group_views(final (groups)@) == add_group_dep(group_views(old(groups)@), pred@, d@),
{
    let ghost ogs = group_views(groups@);
    let mut i: usize = 0;
    while i < groups.len()
        invariant
            i <= groups@.len(),
            groups@ == old(groups)@,
            ogs == group_views(groups@),
            forall|m: int| 0 <= m < i ==> (#[trigger] ogs[m]).predicate != pred@,
        decreases groups@.len() - i,
    {
        if groups[i].predicate == *pred {
            proof {
                assert(ogs[i as int].predicate == pred@);
                lemma_group_pos_first(ogs, pred@, i as int);
            }
            let mut deps = clone_deps(&groups[i].deps);
            add_dep_exec(&mut deps, d);
            let ng = CondGroup { predicate: clone_string(&groups[i].predicate), deps };
            proof {
                assert(ng@ =~= (GroupV {
                    predicate: ogs[i as int].predicate,
                    deps: add_dep(ogs[i as int].deps, d@),
                }));
            }
            groups.set(i, ng);
            proof {
                assert(group_views(groups@) =~= add_group_dep(ogs, pred@, d@));
            }
            return ;
        }
        proof {
            assert(ogs[i as int].predicate != pred@);
        }
        i = i + 1;
    }
    proof {
        lemma_group_pos_none(ogs, pred@);
    }
    let mut pos: usize = 0;
    while pos < groups.len() && !crate::order::str_le(pred.as_str(), groups[pos].predicate.as_str())
        invariant
            pos <= groups@.len(),
            groups@ == old(groups)@,
            ogs == group_views(groups@),
            forall|m: int| 0 <= m < pos ==> !lex_le(pred@, (#[trigger] ogs[m]).predicate),
        decreases groups@.len() - pos,
    {
        pos = pos + 1;
    }
    proof {
        if pos < groups@.len() {
            lemma_group_insert_pos_first(ogs, pred@, pos as int);
        } else {
            lemma_group_insert_pos_none(ogs, pred@);
        }
    }
    let mut dv: Vec<PlannedDep> = Vec::new();
    dv.push(d);
    let ng = CondGroup { predicate: clone_string(pred), deps: dv };
    proof {
        assert(dep_views(ng.deps@) =~= seq![ng.deps@[0]@]);
        assert(ng@ =~= (GroupV { predicate: pred@, deps: seq![d@] }));
    }
    groups.insert(pos, ng);
    proof {
        assert(group_views(groups@) =~= ogs.insert(
            group_insert_pos(ogs, pred@),
            GroupV { predicate: pred@, deps: seq![d@] },
        ));
    }
}

/// A build-time-role edge runs from package `a` to package `b`.
pub open spec fn is_build_edge(g: GraphV, a: int, b: int) -> bool {
    exists|m: int| 0 <= m < g.edges.len() && (#[trigger] g.edges[m]).role == Role::Build
        && g.edges[m].from == a && g.edges[m].to == b
}

/// `s` holds `x`.
pub open spec fn seq_has(s: Seq<int>, x: int) -> bool {
    exists|i: int| 0 <= i < s.len() && #[trigger] s[i] == x
}

/// Every build dependency of `j` is already marked removed.
pub open spec fn deps_done(g: GraphV, removed: Seq<bool>, j: int) -> bool {
    forall|b: int| #[trigger] is_build_edge(g, j, b) ==> removed[b]
}

/// `ord` linearizes the build-time edges: it covers every package exactly
/// once and lists every package after all of its build dependencies.
pub open spec fn topo_ok(g: GraphV, ord: Seq<int>) -> bool {
    &&& forall|k1: int, k2: int| #![trigger ord[k1], ord[k2]] 0 <= k1 < k2 < ord.len() ==> ord[k1] != ord[k2]
    &&& forall|k: int| 0 <= k < ord.len() ==> 0 <= #[trigger] ord[k] < g.packages.len()
    &&& forall|m: int| 0 <= m < g.packages.len() ==> seq_has(ord, m)
    &&& forall|k: int, b: int| 0 <= k < ord.len() && #[trigger] is_build_edge(g, ord[k], b)
        ==> seq_has(ord.take(k), b)
}

/// `s` witnesses a build-dependency cycle: it is nonempty and each of its
/// members has a build-time edge into another member, so none of them can
/// ever be scheduled first.
pub open spec fn cyc_witness(g: GraphV, s: Seq<int>) -> bool {
    &&& s.len() > 0
    &&& forall|k: int| 0 <= k < s.len() ==> 0 <= #[trigger] s[k] < g.packages.len()
    &&& forall|k: int| 0 <= k < s.len() ==> has_build_dep_in(g, #[trigger] s[k], s)
}

/// Package `a` has a build-time edge into a member of `s`.
pub open spec fn has_build_dep_in(g: GraphV, a: int, s: Seq<int>) -> bool {
    exists|b: int| #![trigger is_build_edge(g, a, b)] seq_has(s, b) && is_build_edge(g, a, b)
}

/// View of an index sequence.
pub open spec fn idx_views(s: Seq<usize>) -> Seq<int> {
    s.map_values(|u: usize| u as int)
}

/// Some position of `ord` holding `x`.
pub open spec fn pos_of(ord: Seq<int>, x: int) -> int {
    choose|k: int| 0 <= k < ord.len() && ord[k] == x
}

/// `pos_of` lands on a real position when `x` occurs.
proof fn lemma_pos_of(ord: Seq<int>, x: int)
    requires
        seq_has(ord, x),
    ensures
        0 <= pos_of(ord, x) < ord.len(),
        ord[pos_of(ord, x)] == x,
{
    let k = choose|k: int| 0 <= k < ord.len() && #[trigger] ord[k] == x;
    assert(0 <= k < ord.len() && ord[k] == x);
}

/// The member of `s` sitting earliest in `ord`.
proof fn find_min_pos(ord: Seq<int>, s: Seq<int>) -> (km: int)
    requires
        s.len() > 0,
        forall|k: int| 0 <= k < s.len() ==> seq_has(ord, #[trigger] s[k]),
    ensures
        0 <= km < s.len(),
        forall|k: int| 0 <= k < s.len() ==> pos_of(ord, s[km]) <= pos_of(ord, #[trigger] s[k]),
    decreases s.len(),
{
    if s.len() == 1 {
        0
    } else {
        assert forall|k: int| 0 <= k < s.drop_last().len() implies seq_has(
            ord,
            #[trigger] s.drop_last()[k],
        ) by {
            assert(s.drop_last()[k] == s[k]);
        }
        let k1 = find_min_pos(ord, s.drop_last());
        assert(s.drop_last()[k1] == s[k1]);
        let last = s.len() - 1;
        if pos_of(ord, s[last]) < pos_of(ord, s[k1]) {
            assert forall|k: int| 0 <= k < s.len() implies pos_of(ord, s[last]) <= pos_of(
                ord,
                #[trigger] s[k],
            ) by {
                if k < last {
                    assert(s.drop_last()[k] == s[k]);
                    assert(pos_of(ord, s[k1]) <= pos_of(ord, s[k]));
                }
            }
            last
        } else {
            assert forall|k: int| 0 <= k < s.len() implies pos_of(ord, s[k1]) <= pos_of(
                ord,
                #[trigger] s[k],
            ) by {
                if k < last {
                    assert(s.drop_last()[k] == s[k]);
                }
            }
            k1
        }
    }
}

/// Exclusivity law: a linearization of the build-time edges and a cycle
/// witness cannot both exist, so planning's success and failure conditions
/// are mutually exclusive — the build-time edges either topologically
/// order or contain a cycle, never both.
pub proof fn lemma_topo_excludes_cycle(g: GraphV, ord: Seq<int>, s: Seq<int>)
    requires
        topo_ok(g, ord),
    ensures
        !cyc_witness(g, s),
{
    if cyc_witness(g, s) {
        assert forall|k: int| 0 <= k < s.len() implies seq_has(ord, #[trigger] s[k]) by {
            assert(0 <= s[k] < g.packages.len());
        }
        let km = find_min_pos(ord, s);
        let j = s[km];
        lemma_pos_of(ord, j);
        let pj = pos_of(ord, j);
        assert(has_build_dep_in(g, j, s));
        let b = choose|b: int| #![trigger is_build_edge(g, j, b)] seq_has(s, b) && is_build_edge(
            g,
            j,
            b,
        );
        assert(is_build_edge(g, ord[pj], b));
        assert(seq_has(ord.take(pj), b));
        let kb = choose|k: int| 0 <= k < ord.take(pj).len() && #[trigger] ord.take(pj)[k] == b;
        assert(ord[kb] == b && kb < pj);
        lemma_pos_of(ord, b);
        let pb = pos_of(ord, b);
        // positions in a duplicate-free order are unique, so b sits before j
        assert(pb == kb) by {
            if pb != kb {
                if pb < kb {
                    assert(ord[pb] != ord[kb]);
                } else {
                    assert(ord[kb] != ord[pb]);
                }
            }
        }
        let ks = choose|k: int| 0 <= k < s.len() && #[trigger] s[k] == b;
        assert(pos_of(ord, s[km]) <= pos_of(ord, s[ks]));
    }
}

/// A duplicate-free sequence of values below `n` has at most `n` members.
proof fn lemma_distinct_bounded(s: Seq<int>, n: int)
    requires
        n >= 0,
        forall|k1: int, k2: int| #![trigger s[k1], s[k2]] 0 <= k1 < k2 < s.len() ==> s[k1] != s[k2],
        forall|k: int| 0 <= k < s.len() ==> 0 <= #[trigger] s[k] < n,
    ensures
        s.len() <= n,
{
    assert(s.no_duplicates()) by {
        assert forall|k1: int, k2: int|
            0 <= k1 < s.len() && 0 <= k2 < s.len() && k1 != k2 implies s[k1] != s[k2] by {
            if k1 < k2 {
            } else {
                assert(s[k2] != s[k1]);
            }
        }
    }
    s.unique_seq_to_set();
    assert(s.to_set().subset_of(vstd::set_lib::set_int_range(0, n))) by {
        assert forall|x: int| s.to_set().contains(x) implies vstd::set_lib::set_int_range(
            0,
            n,
        ).contains(x) by {
            assert(s.contains(x));
            let k = choose|k: int| 0 <= k < s.len() && s[k] == x;
        }
    }
    vstd::set_lib::lemma_int_range(0, n);
    vstd::set_lib::lemma_len_subset(s.to_set(), vstd::set_lib::set_int_range(0, n));
}

/// Whether every build dependency of `j` is marked removed.
fn deps_done_exec(g: &Graph, removed: &Vec<bool>, j: usize) -> (r: bool)
    requires
        g@.wf(),
        removed@.len() == g@.packages.len(),
        (j as int) < g@.packages.len(),
    ensures
        r == deps_done(g@, removed@, j as int),
{
    let mut m: usize = 0;
    while m < g.edges.len()
        invariant
            m <= g@.edges.len(),
            g@.wf(),
            removed@.len() == g@.packages.len(),
            forall|mi: int| 0 <= mi < m && (#[trigger] g@.edges[mi]).role == Role::Build
                && g@.edges[mi].from == j ==> removed@[g@.edges[mi].to],
        decreases g@.edges.len() - m,
    {
        let e = &g.edges[m];
        proof {
            assert(g@.edges[m as int] == e@);
        }
        let is_build = match e.role {
            Role::Build => true,
            _ => false,
        };
        if is_build && e.from == j {
            proof {
                assert(g@.edges[m as int].from == e@.from);
                assert(0 <= g@.edges[m as int].to < g@.packages.len());
            }
            if !removed[e.to] {
                proof {
                    assert(is_build_edge(g@, j as int, e@.to));
                    assert(!removed@[e@.to]);
                }
                return false;
            }
        }
        m = m + 1;
    }
    proof {
        assert forall|b: int| #[trigger] is_build_edge(g@, j as int, b) implies removed@[b] by {
            let mi = choose|mi: int| 0 <= mi < g@.edges.len()
                && (#[trigger] g@.edges[mi]).role == Role::Build && g@.edges[mi].from == j
                && g@.edges[mi].to == b;
        }
    }
    true
}

/// The first package not yet removed whose build dependencies are all
/// removed, if any.
fn find_removable(g: &Graph, removed: &Vec<bool>) -> (r: Option<usize>)
    requires
        g@.wf(),
        removed@.len() == g@.packages.len(),
    ensures
        match r {
            Some(j) => (j as int) < g@.packages.len() && !removed@[j as int] && deps_done(
                g@,
                removed@,
                j as int,
            ),
            None => forall|j: int| 0 <= j < removed@.len() && !removed@[j] ==> !deps_done(
                g@,
                removed@,
                j,
            ),
        },
{
    let n = removed.len();
    let mut j: usize = 0;
    while j < n
        invariant
            j <= n,
            n == removed@.len(),
            g@.wf(),
            removed@.len() == g@.packages.len(),
            forall|m: int| 0 <= m < j ==> removed@[m] || !deps_done(g@, removed@, m),
        decreases n - j,
    {
        if !removed[j] {
            if deps_done_exec(g, removed, j) {
                return Some(j);
            }
        }
        j = j + 1;
    }
    None
}

/// Check the build-time-role edges for a cycle: succeed with a witness
/// that they can be linearized, or fail naming the packages still
/// entangled in a cycle.
pub fn check_build_cycles(g: &Graph) -> (r: Result<(), PlanError>)
    requires
        g@.wf(),
    ensures
        match r {
            Ok(()) => exists|ord: Seq<int>| topo_ok(g@, ord),
            Err(e) => match e {
                PlanError::CyclicBuildDependency(ks) => exists|s: Seq<int>|
                    cyc_witness(g@, s) && key_views(ks@) == s.map_values(
                        |j: int| g@.packages[j].key,
                    ),
            },
        },
{
    let n = g.packages.len();
    let mut removed: Vec<bool> = Vec::new();
    let mut m0: usize = 0;
    while m0 < n
        invariant
            m0 <= n,
            removed@.len() == m0,
            forall|m: int| 0 <= m < m0 ==> !(#[trigger] removed@[m]),
        decreases n - m0,
    {
        removed.push(false);
        m0 = m0 + 1;
    }
    let ghost mut ord: Seq<int> = Seq::empty();
    proof {
        assert forall|m: int| 0 <= m < n implies !seq_has(ord, m) by {
            if seq_has(ord, m) {
                let k = choose|k: int| 0 <= k < ord.len() && ord[k] == m;
            }
        }
    }
    loop
        invariant
            n == g@.packages.len(),
            g@.wf(),
            removed@.len() == n,
            forall|k1: int, k2: int| #![trigger ord[k1], ord[k2]] 0 <= k1 < k2 < ord.len() ==> ord[k1] != ord[k2],
            forall|k: int| 0 <= k < ord.len() ==> 0 <= #[trigger] ord[k] < n,
            forall|m: int| 0 <= m < n ==> (removed@[m] <==> seq_has(ord, m)),
            forall|k: int, b: int| 0 <= k < ord.len() && #[trigger] is_build_edge(g@, ord[k], b)
                ==> seq_has(ord.take(k), b),
        ensures
            removed@.len() == n,
            forall|k1: int, k2: int| #![trigger ord[k1], ord[k2]] 0 <= k1 < k2 < ord.len() ==> ord[k1] != ord[k2],
            forall|k: int| 0 <= k < ord.len() ==> 0 <= #[trigger] ord[k] < n,
            forall|m: int| 0 <= m < n ==> (removed@[m] <==> seq_has(ord, m)),
            forall|k: int, b: int| 0 <= k < ord.len() && #[trigger] is_build_edge(g@, ord[k], b)
                ==> seq_has(ord.take(k), b),
            forall|j: int| 0 <= j < removed@.len() && !removed@[j] ==> !deps_done(g@, removed@, j),
        decreases n - ord.len(),
    {
        proof {
            lemma_distinct_bounded(ord, n as int);
        }
        let found = find_removable(g, &removed);
        match found {
            Some(j) => {
                let ghost ord0 = ord;
                let ghost rem0 = removed@;
                removed.set(j, true);
                proof {
                    ord = ord0.push(j as int);
                    assert(!seq_has(ord0, j as int));
                    assert forall|k1: int, k2: int| #![trigger ord[k1], ord[k2]] 0 <= k1 < k2
                        < ord.len() implies ord[k1] != ord[k2] by {
                        if k2 == ord.len() - 1 {
                            assert(ord[k1] == ord0[k1]);
                            if ord0[k1] == j as int {
                                assert(seq_has(ord0, j as int));
                            }
                        }
                    }
                    assert forall|m: int| 0 <= m < n implies (removed@[m] <==> seq_has(ord, m)) by {
                        if m == j as int {
                            assert(ord[ord.len() - 1] == m);
                        } else {
                            if seq_has(ord, m) {
                                let k = choose|k: int| 0 <= k < ord.len() && ord[k] == m;
                                assert(k < ord0.len());
                                assert(seq_has(ord0, m));
                            }
                            if seq_has(ord0, m) {
                                let k = choose|k: int| 0 <= k < ord0.len() && ord0[k] == m;
                                assert(ord[k] == m);
                            }
                        }
                    }
                    assert forall|k: int, b: int|
                        0 <= k < ord.len() && #[trigger] is_build_edge(g@, ord[k], b)
                        implies seq_has(ord.take(k), b) by {
                        if k == ord.len() - 1 {
                            assert(ord[k] == j as int);
                            assert(rem0[b]) by {
                                assert(deps_done(g@, rem0, j as int));
                                assert(0 <= b < n) by {
                                    let mi = choose|mi: int| 0 <= mi < g@.edges.len()
                                        && (#[trigger] g@.edges[mi]).role == Role::Build
                                        && g@.edges[mi].from == j as int && g@.edges[mi].to == b;
                                }
                            }
                            assert(seq_has(ord0, b));
                            assert(ord.take(k) =~= ord0);
                        } else {
                            assert(ord[k] == ord0[k]);
                            assert(seq_has(ord0.take(k), b));
                            assert(ord.take(k) =~= ord0.take(k));
                            let ki = choose|ki: int| 0 <= ki < ord0.take(k).len()
                                && ord0.take(k)[ki] == b;
                            assert(ord.take(k)[ki] == b);
                        }
                    }
                    lemma_distinct_bounded(ord, n as int);
                }
            },
            None => {
                break ;
            },
        }
    }
    // Collect what was never removed; nonempty leftovers witness a cycle.
    let mut left: Vec<usize> = Vec::new();
    let mut ks: Vec<PkgKey> = Vec::new();
    let mut m: usize = 0;
    while m < n
        invariant
            m <= n,
            n == g@.packages.len(),
            g@.wf(),
            removed@.len() == n,
            left@.len() == ks@.len(),
            forall|x: int| 0 <= x < left@.len() ==> 0 <= #[trigger] idx_views(left@)[x] < n
                && !removed@[idx_views(left@)[x]],
            forall|x: int| 0 <= x < m && !removed@[x] ==> seq_has(idx_views(left@), x),
            forall|x: int| 0 <= x < ks@.len() ==> #[trigger] key_views(ks@)[x] == g@.packages[idx_views(
                left@,
            )[x]].key,
        decreases n - m,
    {
        if !removed[m] {
            let ghost lv0 = idx_views(left@);
            let ghost kv0 = key_views(ks@);
            left.push(m);
            ks.push(PkgKey {
                name: clone_string(&g.packages[m].key.name),
                version: clone_string(&g.packages[m].key.version),
            });
            proof {
                assert(idx_views(left@) =~= lv0.push(m as int));
                assert(key_views(ks@) =~= kv0.push(g@.packages[m as int].key));
                assert forall|x: int| 0 <= x < m + 1 && !removed@[x] implies seq_has(
                    idx_views(left@),
                    x,
                ) by {
                    if x < m {
                        let k = choose|k: int| 0 <= k < lv0.len() && lv0[k] == x;
                        assert(idx_views(left@)[k] == x);
                    } else {
                        assert(idx_views(left@)[lv0.len() as int] == x);
                    }
                }
            }
        }
        m = m + 1;
    }
    if left.len() == 0 {
        proof {
            assert forall|x: int| 0 <= x < n implies #[trigger] removed@[x] by {
                if !removed@[x] {
                    assert(seq_has(idx_views(left@), x));
                    let k = choose|k: int| 0 <= k < idx_views(left@).len() && idx_views(left@)[k]
                        == x;
                }
            }
            assert forall|x: int| 0 <= x < g@.packages.len() implies seq_has(ord, x) by {
                assert(removed@[x]);
            }
            assert(topo_ok(g@, ord));
        }
        Ok(())
    } else {
        proof {
            let s = idx_views(left@);
            assert forall|k: int| 0 <= k < s.len() implies has_build_dep_in(
                g@,
                #[trigger] s[k],
                s,
            ) by {
                assert(s[k] == idx_views(left@)[k]);
                assert(!removed@[idx_views(left@)[k]]);
                assert(!removed@[s[k]]);
                assert(!deps_done(g@, removed@, s[k]));
                let b = choose|b: int| #[trigger] is_build_edge(g@, s[k], b) && !removed@[b];
                assert(0 <= b < n) by {
                    let mi = choose|mi: int| 0 <= mi < g@.edges.len()
                        && (#[trigger] g@.edges[mi]).role == Role::Build && g@.edges[mi].from
                        == s[k] && g@.edges[mi].to == b;
                }
                assert(seq_has(idx_views(left@), b));
                assert(seq_has(s, b));
            }
            assert(cyc_witness(g@, idx_views(left@)));
            assert(key_views(ks@) =~= idx_views(left@).map_values(|j: int| g@.packages[j].key));
        }
        Err(PlanError::CyclicBuildDependency(ks))
    }
}

/// The view of an optional borrowed override.
pub open spec fn ov_view(ov: Option<&PkgOverride>) -> Option<OverrideV> {
    match ov {
        Some(o) => Some(o@),
        None => None,
    }
}

/// Plan one package: classify and route its outgoing edges into the
/// universal, conditional and build-dependency lists, applying the
/// override's skip, force-include and rename entries.
pub fn plan_package(
    graph: &Graph,
    i: usize,
    ov: Option<&PkgOverride>,
    platforms: &Vec<Platform>,
) -> (r: PlannedPackage)
    requires
        graph@.wf(),
        (i as int) < graph@.packages.len(),
    ensures
        r@ == plan_pkg_spec(graph@, i as int, ov_view(ov), platform_views(platforms@)),
{
    let ghost g = graph@;
    let ghost ovv = ov_view(ov);
    let ghost psv = platform_views(platforms@);
    let mut universal: Vec<PlannedDep> = Vec::new();
    let mut groups: Vec<CondGroup> = Vec::new();
    let mut build: Vec<PlannedDep> = Vec::new();
    let mut k: usize = 0;
    while k < graph.edges.len()
        invariant
            k <= graph@.edges.len(),
            g == graph@,
            g.wf(),
            (i as int) < g.packages.len(),
            ovv == ov_view(ov),
            psv == platform_views(platforms@),
            plan_lists(g, i as int, ovv, psv, k as int) == (ListsV {
                universal: dep_views(universal@),
                groups: group_views(groups@),
                build: dep_views(build@),
            }),
        decreases graph@.edges.len() - k,
    {
        let ghost l0 = ListsV {
            universal: dep_views(universal@),
            groups: group_views(groups@),
            build: dep_views(build@),
        };
        let e = &graph.edges[k];
        proof {
            assert(g.edges[k as int] == e@);
        }
        if e.from == i {
            proof {
                assert(g.edges[k as int].from == e@.from);
                assert(0 <= g.edges[k as int].to < g.packages.len());
            }
            let tpkg = &graph.packages[e.to];
            proof {
                assert(g.packages[e@.to] == tpkg@);
            }
            let skipped = match ov {
                Some(o) => key_in_exec(&o.skip_deps, &tpkg.key),
                None => false,
            };
            let forced = match ov {
                Some(o) => key_in_exec(&o.force_deps, &tpkg.key),
                None => false,
            };
            if skipped {
            } else {
                let is_dev = match e.role {
                    Role::Dev => true,
                    _ => false,
                };
                if !is_dev {
                    let alias = match ov {
                        Some(o) => rename_for_exec(&o.renames, &tpkg.key),
                        None => None,
                    };
                    let d = PlannedDep {
                        target: e.to,
                        alias,
                        features: clone_strings(&e.features),
                    };
                    proof {
                        assert(d@ =~= dep_of_edge(g.edges[k as int], ovv, g.packages));
                    }
                    let is_build = match e.role {
                        Role::Build => true,
                        _ => false,
                    };
                    if is_build {
                        let cls = classify(&e.predicate, platforms);
                        let excluded = match cls {
                            Classification::Excluded => true,
                            _ => false,
                        };
                        if forced || !excluded {
                            add_dep_exec(&mut build, d);
                        }
                    } else {
                        if forced {
                            add_dep_exec(&mut universal, d);
                        } else {
                            match classify(&e.predicate, platforms) {
                                Classification::Universal => {
                                    add_dep_exec(&mut universal, d);
                                },
                                Classification::Conditional(p) => {
                                    add_group_dep_exec(&mut groups, &p, d);
                                },
                                Classification::Excluded => {},
                            }
                        }
                    }
                }
            }
        }
        k = k + 1;
        proof {
            assert(plan_lists(g, i as int, ovv, psv, k as int) == step_edge(
                plan_lists(g, i as int, ovv, psv, k - 1),
                g.edges[k - 1],
                i as int,
                ovv,
                g.packages,
                psv,
            ));
            assert(plan_lists(g, i as int, ovv, psv, k as int) =~= (ListsV {
                universal: dep_views(universal@),
                groups: group_views(groups@),
                build: dep_views(build@),
            }));
        }
    }
    let r = PlannedPackage {
        universal,
        conditional: groups,
        build_deps: build,
        has_build_rule: graph.packages[i].has_build_step,
        flags: match ov {
            Some(o) => clone_strings(&o.extra_flags),
            None => Vec::new(),
        },
    };
    proof {
        assert(r@ =~= plan_pkg_spec(g, i as int, ovv, psv));
    }
    r
}

/// All targets of a dependency list lie below `n`.
pub open spec fn deps_in_range(deps: Seq<DepV>, n: int) -> bool {
    forall|j: int| 0 <= j < deps.len() ==> 0 <= (#[trigger] deps[j]).target < n
}

/// All targets of every group lie below `n`.
pub open spec fn groups_in_range(groups: Seq<GroupV>, n: int) -> bool {
    forall|gi: int| 0 <= gi < groups.len() ==> deps_in_range((#[trigger] groups[gi]).deps, n)
}

/// `dep_index` stays within bounds and lands on a matching target.
proof fn lemma_dep_index_bounds(deps: Seq<DepV>, target: int)
    ensures
        0 <= dep_index(deps, target) <= deps.len(),
        dep_index(deps, target) < deps.len() ==> deps[dep_index(deps, target)].target == target,
    decreases deps.len(),
{
    if deps.len() > 0 && deps[0].target != target {
        lemma_dep_index_bounds(deps.skip(1), target);
    }
}

/// `group_pos` stays within bounds.
proof fn lemma_group_pos_bounds(groups: Seq<GroupV>, pred: Seq<char>)
    ensures
        0 <= group_pos(groups, pred) <= groups.len(),
    decreases groups.len(),
{
    if groups.len() > 0 && groups[0].predicate != pred {
        lemma_group_pos_bounds(groups.skip(1), pred);
    }
}

/// `group_insert_pos` stays within bounds.
proof fn lemma_group_insert_pos_bounds(groups: Seq<GroupV>, pred: Seq<char>)
    ensures
        0 <= group_insert_pos(groups, pred) <= groups.len(),
    decreases groups.len(),
{
    if groups.len() > 0 && !lex_le(pred, groups[0].predicate) {
        lemma_group_insert_pos_bounds(groups.skip(1), pred);
    }
}

/// `add_dep` keeps all targets below `n`.
proof fn lemma_add_dep_in_range(deps: Seq<DepV>, d: DepV, n: int)
    requires
        deps_in_range(deps, n),
        0 <= d.target < n,
    ensures
        deps_in_range(add_dep(deps, d), n),
{
    lemma_dep_index_bounds(deps, d.target);
}

/// `add_group_dep` keeps all targets below `n`.
proof fn lemma_add_group_dep_in_range(groups: Seq<GroupV>, pred: Seq<char>, d: DepV, n: int)
    requires
        groups_in_range(groups, n),
        0 <= d.target < n,
    ensures
        groups_in_range(add_group_dep(groups, pred, d), n),
{
    lemma_group_pos_bounds(groups, pred);
    let i = group_pos(groups, pred);
    if 0 <= i < groups.len() {
        lemma_add_dep_in_range(groups[i].deps, d, n);
        assert forall|gi: int| 0 <= gi < add_group_dep(groups, pred, d).len() implies deps_in_range(
            (#[trigger] add_group_dep(groups, pred, d)[gi]).deps,
            n,
        ) by {
            if gi != i {
                assert(add_group_dep(groups, pred, d)[gi] == groups[gi]);
            }
        }
    } else {
        lemma_group_insert_pos_bounds(groups, pred);
        let p = group_insert_pos(groups, pred);
        let ng = GroupV { predicate: pred, deps: seq![d] };
        assert forall|gi: int| 0 <= gi < add_group_dep(groups, pred, d).len() implies deps_in_range(
            (#[trigger] add_group_dep(groups, pred, d)[gi]).deps,
            n,
        ) by {
            if gi < p {
                assert(add_group_dep(groups, pred, d)[gi] == groups[gi]);
            } else if gi == p {
                assert(add_group_dep(groups, pred, d)[gi] == ng);
                assert(ng.deps[0] == d);
            } else {
                assert(add_group_dep(groups, pred, d)[gi] == groups[gi - 1]);
            }
        }
    }
}

/// Every list `plan_lists` builds keeps its targets within the package
/// collection.
proof fn lemma_plan_lists_in_range(
    g: GraphV,
    i: int,
    ov: Option<OverrideV>,
    ps: Seq<PlatformV>,
    n: int,
)
    requires
        g.wf(),
        0 <= n <= g.edges.len(),
    ensures
        deps_in_range(plan_lists(g, i, ov, ps, n).universal, g.packages.len() as int),
        groups_in_range(plan_lists(g, i, ov, ps, n).groups, g.packages.len() as int),
        deps_in_range(plan_lists(g, i, ov, ps, n).build, g.packages.len() as int),
    decreases n,
{
    if n > 0 {
        lemma_plan_lists_in_range(g, i, ov, ps, n - 1);
        let l = plan_lists(g, i, ov, ps, n - 1);
        let e = g.edges[n - 1];
        assert(0 <= e.from < g.packages.len() && 0 <= e.to < g.packages.len());
        if e.from == i {
            let d = dep_of_edge(e, ov, g.packages);
            lemma_add_dep_in_range(l.universal, d, g.packages.len() as int);
            lemma_add_dep_in_range(l.build, d, g.packages.len() as int);
            match classify_spec(e.predicate, ps) {
                ClassV::Conditional(p) => {
                    lemma_add_group_dep_in_range(l.groups, p, d, g.packages.len() as int);
                },
                _ => {},
            }
        }
    }
}

/// Produce the planned build.
///
/// Fails exactly when the build-time-role edges contain a cycle; the error
/// names the packages still entangled. On success the plan holds, for each
/// graph node in key order, the planned package that node's edges,
/// override and the platform set determine, and the diagnostics name each
/// override whose target identity is no package of the graph, in override
/// order.
pub fn plan_build(
    graph: Graph,
    ctx: WorkspaceContext,
    settings: &Settings,
    platforms: &Vec<Platform>,
) -> (r: Result<(PlannedBuild, Vec<Diagnostic>), PlanError>)
    requires
        graph@.wf(),
    ensures
        match r {
            Ok(pd) => {
                &&& pd.0@.ctx == ctx@
                &&& pd.0@.packages == graph@.packages
                &&& pd.0@.planned.len() == graph@.packages.len()
                &&& forall|i: int| 0 <= i < graph@.packages.len() ==> #[trigger] pd.0@.planned[i]
                    == plan_pkg_spec(
                    graph@,
                    i,
                    ov_for_pkg(settings@, graph@.packages[i].key),
                    platform_views(platforms@),
                )
                &&& diag_views(pd.1@) == diags_spec(settings@.overrides, graph@.packages)
                &&& exists|ord: Seq<int>| topo_ok(graph@, ord)
                &&& pd.0@.wf()
            },
            Err(e) => match e {
                PlanError::CyclicBuildDependency(ks) => exists|s: Seq<int>|
                    cyc_witness(graph@, s) && key_views(ks@) == s.map_values(
                        |j: int| graph@.packages[j].key,
                    ),
            },
        },
{
    match check_build_cycles(&graph) {
        Ok(()) => {},
        Err(e) => {
            return Err(e);
        },
    }
    let ghost g = graph@;
    let ghost psv = platform_views(platforms@);
    let mut planned: Vec<PlannedPackage> = Vec::new();
    let mut i: usize = 0;
    while i < graph.packages.len()
        invariant
            i <= graph@.packages.len(),
            g == graph@,
            g.wf(),
            psv == platform_views(platforms@),
            planned@.len() == i,
            forall|m: int| 0 <= m < i ==> #[trigger] planned_views(planned@)[m] == plan_pkg_spec(
                g,
                m,
                ov_for_pkg(settings@, g.packages[m].key),
                psv,
            ),
        decreases graph@.packages.len() - i,
    {
        let key = &graph.packages[i].key;
        proof {
            assert(g.packages[i as int].key == key@);
        }
        let ovi = crate::settings::override_for_exec(&settings.overrides, &key.name, &key.version);
        let ov: Option<&PkgOverride> = match ovi {
            Some(j) => Some(&settings.overrides[j]),
            None => None,
        };
        proof {
            assert(ov_view(ov) == ov_for_pkg(settings@, g.packages[i as int].key));
        }
        let ghost pv0 = planned_views(planned@);
        let pp = plan_package(&graph, i, ov, platforms);
        planned.push(pp);
        i = i + 1;
        proof {
            assert forall|m: int| 0 <= m < i implies #[trigger] planned_views(planned@)[m]
                == plan_pkg_spec(g, m, ov_for_pkg(settings@, g.packages[m].key), psv) by {
                if m < i - 1 {
                    assert(planned_views(planned@)[m] == pv0[m]);
                }
            }
        }
    }
    let mut diags: Vec<Diagnostic> = Vec::new();
    let ghost ovv = settings@.overrides;
    proof {
        assert(diag_views(diags@) =~= Seq::<KeyV>::empty());
        assert(ovv.take(0) =~= Seq::<OverrideV>::empty());
    }
    let mut m: usize = 0;
    while m < settings.overrides.len()
        invariant
            m <= settings.overrides@.len(),
            g == graph@,
            ovv == settings@.overrides,
            ovv.len() == settings.overrides@.len(),
            diag_views(diags@) == diags_spec(ovv.take(m as int), g.packages),
        decreases settings.overrides@.len() - m,
    {
        let o = &settings.overrides[m];
        proof {
            assert(ovv[m as int] == o@);
            assert(ovv.take(m + 1).drop_last() =~= ovv.take(m as int));
            assert(ovv.take(m + 1).last() == ovv[m as int]);
        }
        match find_package(&graph.packages, &o.name, &o.version) {
            Some(fi) => {
                proof {
                    assert(pkg_views(graph.packages@)[fi as int].key == (KeyV {
                        name: o@.name,
                        version: o@.version,
                    }));
                    assert(has_key(g.packages, o@.name, o@.version));
                }
            },
            None => {
                let ghost dv0 = diag_views(diags@);
                diags.push(
                    Diagnostic::UnknownOverrideTarget(
                        PkgKey {
                            name: clone_string(&o.name),
                            version: clone_string(&o.version),
                        },
                    ),
                );
                proof {
                    assert(diag_views(diags@) =~= dv0.push(
                        KeyV { name: o@.name, version: o@.version },
                    ));
                }
            },
        }
        m = m + 1;
        proof {
            assert(diag_views(diags@) == diags_spec(ovv.take(m as int), g.packages));
        }
    }
    proof {
        assert(ovv.take(settings.overrides@.len() as int) =~= ovv);
    }
    let pb = PlannedBuild { ctx, packages: graph.packages, planned };
    proof {
        assert(pb@.packages == g.packages);
        assert forall|ii: int| 0 <= ii < pb@.planned.len() implies targets_in_range(
            #[trigger] pb@.planned[ii],
            pb@.packages.len() as int,
        ) by {
            lemma_plan_lists_in_range(
                g,
                ii,
                ov_for_pkg(settings@, g.packages[ii].key),
                psv,
                g.edges.len() as int,
            );
            assert(pb@.planned[ii] == plan_pkg_spec(
                g,
                ii,
                ov_for_pkg(settings@, g.packages[ii].key),
                psv,
            ));
        }
        assert(pb@.wf());
    }
    Ok((pb, diags))
}

/// Some entry of `deps` points at target `t`.
pub open spec fn has_target(deps: Seq<DepV>, t: int) -> bool {
    exists|j: int| 0 <= j < deps.len() && (#[trigger] deps[j]).target == t
}

/// Closure law: in a well-formed plan, every dependency target any planned
/// package references — universal, conditional or build-time — resolves to
/// a package present in the same plan's package collection.
pub proof fn lemma_plan_closure(pb: PlannedBuildV)
    requires
        pb.wf(),
    ensures
        forall|i: int, j: int| #![trigger pb.planned[i].universal[j]]
            0 <= i < pb.planned.len() && 0 <= j < pb.planned[i].universal.len() ==> 0
            <= pb.planned[i].universal[j].target < pb.packages.len(),
        forall|i: int, j: int| #![trigger pb.planned[i].build_deps[j]]
            0 <= i < pb.planned.len() && 0 <= j < pb.planned[i].build_deps.len() ==> 0
            <= pb.planned[i].build_deps[j].target < pb.packages.len(),
        forall|i: int, gi: int, j: int| #![trigger pb.planned[i].conditional[gi].deps[j]]
            0 <= i < pb.planned.len() && 0 <= gi < pb.planned[i].conditional.len() && 0 <= j
            < pb.planned[i].conditional[gi].deps.len() ==> 0
            <= pb.planned[i].conditional[gi].deps[j].target < pb.packages.len(),
{
    assert forall|i: int| 0 <= i < pb.planned.len() implies targets_in_range(
        #[trigger] pb.planned[i],
        pb.packages.len() as int,
    ) by {}
}

/// `add_dep` lands its dependency's target in the list.
proof fn lemma_add_dep_adds(deps: Seq<DepV>, d: DepV)
    ensures
        has_target(add_dep(deps, d), d.target),
{
    lemma_dep_index_bounds(deps, d.target);
    let i = dep_index(deps, d.target);
    if 0 <= i < deps.len() {
        assert(add_dep(deps, d)[i].target == d.target);
    } else {
        assert(add_dep(deps, d)[deps.len() as int].target == d.target);
    }
}

/// `add_dep` keeps every target already in the list.
proof fn lemma_add_dep_keeps(deps: Seq<DepV>, d: DepV, t: int)
    requires
        has_target(deps, t),
    ensures
        has_target(add_dep(deps, d), t),
{
    lemma_dep_index_bounds(deps, d.target);
    let j = choose|j: int| 0 <= j < deps.len() && (#[trigger] deps[j]).target == t;
    assert(add_dep(deps, d)[j].target == t);
}

/// `step_edge` never drops a target from the universal list.
proof fn lemma_step_keeps_universal(
    l: ListsV,
    e: EdgeV,
    i: int,
    ov: Option<OverrideV>,
    pkgs: Seq<PackageV>,
    ps: Seq<PlatformV>,
    t: int,
)
    requires
        has_target(l.universal, t),
    ensures
        has_target(step_edge(l, e, i, ov, pkgs, ps).universal, t),
{
    let d = dep_of_edge(e, ov, pkgs);
    if step_edge(l, e, i, ov, pkgs, ps).universal == l.universal {
    } else {
        lemma_add_dep_keeps(l.universal, d, t);
    }
}

/// Once a target stands in the universal list it stays there through every
/// later edge.
proof fn lemma_plan_lists_monotone(
    g: GraphV,
    i: int,
    ov: Option<OverrideV>,
    ps: Seq<PlatformV>,
    n1: int,
    n2: int,
    t: int,
)
    requires
        0 <= n1 <= n2 <= g.edges.len(),
        has_target(plan_lists(g, i, ov, ps, n1).universal, t),
    ensures
        has_target(plan_lists(g, i, ov, ps, n2).universal, t),
    decreases n2 - n1,
{
    if n1 < n2 {
        lemma_plan_lists_monotone(g, i, ov, ps, n1, n2 - 1, t);
        lemma_step_keeps_universal(
            plan_lists(g, i, ov, ps, n2 - 1),
            g.edges[n2 - 1],
            i,
            ov,
            g.packages,
            ps,
        t,
        );
    }
}

/// Conditional groups strictly sorted by predicate text, so the rendered
/// select-construct keys come out in one stable order.
pub open spec fn groups_sorted(groups: Seq<GroupV>) -> bool {
    forall|i: int, j: int| #![trigger groups[i].predicate, groups[j].predicate]
        0 <= i < j < groups.len() ==> lex_le(groups[i].predicate, groups[j].predicate)
            && groups[i].predicate != groups[j].predicate
}

/// When `group_pos` runs off the end, no group is keyed by `pred`.
proof fn lemma_group_pos_miss(groups: Seq<GroupV>, pred: Seq<char>)
    requires
        group_pos(groups, pred) >= groups.len(),
    ensures
        forall|m: int| 0 <= m < groups.len() ==> (#[trigger] groups[m]).predicate != pred,
    decreases groups.len(),
{
    if groups.len() > 0 {
        lemma_group_pos_bounds(groups.skip(1), pred);
        lemma_group_pos_miss(groups.skip(1), pred);
        assert forall|m: int| 0 <= m < groups.len() implies (#[trigger] groups[m]).predicate
            != pred by {
            if m > 0 {
                assert(groups.skip(1)[m - 1] == groups[m]);
            }
        }
    }
}

/// Everything before `group_insert_pos` sorts strictly below `pred`, and
/// the entry there, if any, sorts at or above it.
proof fn lemma_group_insert_pos_prefix(groups: Seq<GroupV>, pred: Seq<char>)
    ensures
        forall|m: int| 0 <= m < group_insert_pos(groups, pred) && m < groups.len() ==> !lex_le(
            pred,
            (#[trigger] groups[m]).predicate,
        ),
        group_insert_pos(groups, pred) < groups.len() ==> lex_le(
            pred,
            groups[group_insert_pos(groups, pred)].predicate,
        ),
    decreases groups.len(),
{
    lemma_group_insert_pos_bounds(groups, pred);
    if groups.len() > 0 && !lex_le(pred, groups[0].predicate) {
        lemma_group_insert_pos_bounds(groups.skip(1), pred);
        lemma_group_insert_pos_prefix(groups.skip(1), pred);
        assert forall|m: int| 0 <= m < group_insert_pos(groups, pred) && m < groups.len()
            implies !lex_le(pred, (#[trigger] groups[m]).predicate) by {
            if m > 0 {
                assert(groups.skip(1)[m - 1] == groups[m]);
            }
        }
        if group_insert_pos(groups, pred) < groups.len() {
            assert(groups.skip(1)[group_insert_pos(groups, pred) - 1] == groups[group_insert_pos(
                groups,
                pred,
            )]);
        }
    }
}

/// `add_group_dep` keeps the groups strictly sorted by predicate.
proof fn lemma_add_group_dep_sorted(groups: Seq<GroupV>, pred: Seq<char>, d: DepV)
    requires
        groups_sorted(groups),
    ensures
        groups_sorted(add_group_dep(groups, pred, d)),
{
    lemma_group_pos_bounds(groups, pred);
    let i = group_pos(groups, pred);
    let r = add_group_dep(groups, pred, d);
    if 0 <= i < groups.len() {
        assert forall|a: int, b: int| #![trigger r[a].predicate, r[b].predicate]
            0 <= a < b < r.len() implies lex_le(r[a].predicate, r[b].predicate) && r[a].predicate
            != r[b].predicate by {
            assert(r[a].predicate == groups[a].predicate);
            assert(r[b].predicate == groups[b].predicate);
        }
    } else {
        lemma_group_pos_miss(groups, pred);
        lemma_group_insert_pos_bounds(groups, pred);
        lemma_group_insert_pos_prefix(groups, pred);
        let p = group_insert_pos(groups, pred);
        assert forall|a: int, b: int| #![trigger r[a].predicate, r[b].predicate]
            0 <= a < b < r.len() implies lex_le(r[a].predicate, r[b].predicate) && r[a].predicate
            != r[b].predicate by {
            let ga = if a < p {
                groups[a].predicate
            } else if a == p {
                pred
            } else {
                groups[a - 1].predicate
            };
            let gb = if b < p {
                groups[b].predicate
            } else if b == p {
                pred
            } else {
                groups[b - 1].predicate
            };
            assert(r[a].predicate == ga);
            assert(r[b].predicate == gb);
            if b == p {
                // a < p: strictly below pred
                crate::order::lemma_lex_le_total(pred, groups[a].predicate);
                if groups[a].predicate == pred {
                    crate::order::lemma_lex_le_refl(pred);
                }
            } else if a == p {
                // b > p: pred at or below the old entry at p, which is at
                // or below the old entry at b - 1
                if b - 1 > p {
                    crate::order::lemma_lex_le_trans(
                        pred,
                        groups[p].predicate,
                        groups[b - 1].predicate,
                    );
                }
            } else if a < p && b > p {
                crate::order::lemma_lex_le_total(pred, groups[a].predicate);
                if groups[a].predicate == pred {
                    crate::order::lemma_lex_le_refl(pred);
                }
                if b - 1 > p {
                    crate::order::lemma_lex_le_trans(
                        pred,
                        groups[p].predicate,
                        groups[b - 1].predicate,
                    );
                }
                crate::order::lemma_lex_le_trans(groups[a].predicate, pred, gb);
            }
        }
    }
}

/// `step_edge` keeps the conditional groups sorted.
proof fn lemma_step_groups_sorted(
    l: ListsV,
    e: EdgeV,
    i: int,
    ov: Option<OverrideV>,
    pkgs: Seq<PackageV>,
    ps: Seq<PlatformV>,
)
    requires
        groups_sorted(l.groups),
    ensures
        groups_sorted(step_edge(l, e, i, ov, pkgs, ps).groups),
{
    let d = dep_of_edge(e, ov, pkgs);
    if step_edge(l, e, i, ov, pkgs, ps).groups == l.groups {
    } else {
        match classify_spec(e.predicate, ps) {
            ClassV::Conditional(p) => {
                lemma_add_group_dep_sorted(l.groups, p, d);
            },
            _ => {},
        }
    }
}

/// Stable-order law: the conditional dependency groups of every planned
/// package come out strictly sorted by predicate text, whatever order the
/// edges arrived in.
pub proof fn lemma_plan_conditional_sorted(
    g: GraphV,
    i: int,
    ov: Option<OverrideV>,
    ps: Seq<PlatformV>,
)
    ensures
        groups_sorted(plan_pkg_spec(g, i, ov, ps).conditional),
{
    lemma_plan_lists_groups_sorted(g, i, ov, ps, g.edges.len() as int);
}

/// The groups are sorted after any number of processed edges.
proof fn lemma_plan_lists_groups_sorted(
    g: GraphV,
    i: int,
    ov: Option<OverrideV>,
    ps: Seq<PlatformV>,
    n: int,
)
    ensures
        groups_sorted(plan_lists(g, i, ov, ps, n).groups),
    decreases n,
{
    if n > 0 {
        lemma_plan_lists_groups_sorted(g, i, ov, ps, n - 1);
        lemma_step_groups_sorted(
            plan_lists(g, i, ov, ps, n - 1),
            g.edges[n - 1],
            i,
            ov,
            g.packages,
            ps,
        );
    }
}

/// Override precedence law: a force-include override on a normal-role edge
/// — even one the platform resolver would exclude — lands the edge's
/// target in the consuming package's universal (unconditional) dependency
/// list.
pub proof fn lemma_override_precedence(
    g: GraphV,
    i: int,
    ov: OverrideV,
    ps: Seq<PlatformV>,
    m: int,
)
    requires
        g.wf(),
        0 <= i < g.packages.len(),
        0 <= m < g.edges.len(),
        g.edges[m].from == i,
        g.edges[m].role == Role::Normal,
        !key_in(ov.skip_deps, g.packages[g.edges[m].to].key),
        key_in(ov.force_deps, g.packages[g.edges[m].to].key),
    ensures
        has_target(plan_pkg_spec(g, i, Some(ov), ps).universal, g.edges[m].to),
{
    let e = g.edges[m];
    let l = plan_lists(g, i, Some(ov), ps, m);
    assert(plan_lists(g, i, Some(ov), ps, m + 1) == step_edge(l, e, i, Some(ov), g.packages, ps));
    let d = dep_of_edge(e, Some(ov), g.packages);
    assert(d.target == e.to);
    lemma_add_dep_adds(l.universal, d);
    assert(has_target(plan_lists(g, i, Some(ov), ps, m + 1).universal, e.to));
    lemma_plan_lists_monotone(g, i, Some(ov), ps, m + 1, g.edges.len() as int, e.to);
}

} // verus!
