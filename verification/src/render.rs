//! Renderer.
//!
//! A pure function from a planned build and render details to an ordered
//! list of (output path, file text) pairs. The two layout variants share
//! the per-package rule emission and differ only in how a package's source
//! is referenced — a local vendored path, or a remote-fetch declaration
//! plus checksum — and in the extra top-level index file that remote mode
//! emits. Output paths are a pure function of the render details and the
//! package identity, and a collision between two output paths is a fatal
//! error, never a silent overwrite.

use vstd::prelude::*;
use vstd::string::*;
use crate::model::{KeyV, Package, PackageV, PkgKey, pkg_views};
use crate::planner::{
    DepV, GroupV, PlannedBuild, PlannedBuildV, PlannedDep, PlannedPackage, PlannedPackageV,
    CondGroup, dep_views, deps_in_range, group_views, groups_in_range, targets_in_range,
};
use crate::settings::GenMode;
use crate::model::clone_string;

verus! {

/// Mathematical view of the render details.
#[verifier::ext_equal]
pub ghost struct RenderDetailsV {
    pub path_prefix: Seq<char>,
    pub buildfile_suffix: Seq<char>,
}

/// Where and under what file name the rendered rule files go.
pub struct RenderDetails {
    pub path_prefix: String,
    pub buildfile_suffix: String,
}

impl View for RenderDetails {
    type V = RenderDetailsV;

    open spec fn view(&self) -> RenderDetailsV {
        RenderDetailsV {
            path_prefix: self.path_prefix@,
            buildfile_suffix: self.buildfile_suffix@,
        }
    }
}

/// Mathematical view of one rendered file.
#[verifier::ext_equal]
pub ghost struct FileOutputV {
    pub path: Seq<char>,
    pub contents: Seq<char>,
}

/// One rendered file: its output path and its full text.
pub struct FileOutput {
    pub path: String,
    pub contents: String,
}

impl View for FileOutput {
    type V = FileOutputV;

    open spec fn view(&self) -> FileOutputV {
        FileOutputV { path: self.path@, contents: self.contents@ }
    }
}

/// View of a file output sequence.
pub open spec fn file_views(s: Seq<FileOutput>) -> Seq<FileOutputV> {
    s.map_values(|f: FileOutput| f@)
}

/// Fatal rendering error.
#[derive(Debug)]
pub enum RenderError {
    /// Two packages would write the same output path; carries that path.
    RenderPathCollision(String),
}

/// The directory segment a mode's package files live under.
pub open spec fn mode_root(mode: GenMode) -> Seq<char> {
    if mode == GenMode::Vendored {
        "vendor"@
    } else {
        "remote"@
    }
}

/// The `name-version` directory segment of a package.
pub open spec fn pkg_dir_name(k: KeyV) -> Seq<char> {
    k.name + "-"@ + k.version
}

/// The output path of a package's rule file.
pub open spec fn path_spec(rd: RenderDetailsV, mode: GenMode, k: KeyV) -> Seq<char> {
    rd.path_prefix + "/"@ + mode_root(mode) + "/"@ + pkg_dir_name(k) + "/BUILD"@
        + rd.buildfile_suffix
}

/// The output path of the remote-mode index file.
pub open spec fn index_path_spec(rd: RenderDetailsV) -> Seq<char> {
    rd.path_prefix + "/remote/BUILD"@ + rd.buildfile_suffix
}

/// The label a dependency renders as: its rename alias when the override
/// gave one, else the target package's `name-version`.
pub open spec fn label_of(d: DepV, pkgs: Seq<PackageV>) -> Seq<char> {
    match d.alias {
        Some(a) => a,
        None => pkg_dir_name(pkgs[d.target].key),
    }
}

/// One `":label",` line per dependency, in list order.
pub open spec fn dep_lines(deps: Seq<DepV>, pkgs: Seq<PackageV>) -> Seq<char>
    decreases deps.len(),
{
    if deps.len() == 0 {
        Seq::empty()
    } else {
        dep_lines(deps.drop_last(), pkgs) + "        \":"@ + label_of(deps.last(), pkgs)
            + "\",\n"@
    }
}

/// One quoted line per item, in order.
pub open spec fn quoted_lines(items: Seq<Seq<char>>) -> Seq<char>
    decreases items.len(),
{
    if items.len() == 0 {
        Seq::empty()
    } else {
        quoted_lines(items.drop_last()) + "        \""@ + items.last() + "\",\n"@
    }
}

/// One select-construct entry per conditional group, keyed by the exact
/// predicate text, in the groups' (sorted) order.
pub open spec fn group_blocks(groups: Seq<GroupV>, pkgs: Seq<PackageV>) -> Seq<char>
    decreases groups.len(),
{
    if groups.len() == 0 {
        Seq::empty()
    } else {
        group_blocks(groups.drop_last(), pkgs) + "        \""@ + groups.last().predicate
            + "\": [\n"@ + dep_lines(groups.last().deps, pkgs) + "        ],\n"@
    }
}

/// The synthetic build-step rule of a package, emitted when planning
/// requested one.
pub open spec fn build_rule_text(pkg: PackageV, pl: PlannedPackageV, pkgs: Seq<PackageV>) -> Seq<
    char,
> {
    "\ncargo_build_script(\n    name = \""@ + pkg_dir_name(pkg.key) + "_build_script\",\n"@
        + "    srcs = glob([\"**/*.rs\"]),\n    deps = [\n"@ + dep_lines(pl.build_deps, pkgs)
        + "    ],\n)\n"@
}

/// The full rule-file text of one package.
pub open spec fn package_text(
    pkg: PackageV,
    pl: PlannedPackageV,
    pkgs: Seq<PackageV>,
    mode: GenMode,
) -> Seq<char> {
    "# "@ + pkg_dir_name(pkg.key) + "\n"@
        + "package(default_visibility = [\"//visibility:public\"])\n\n"@ + "licenses([\""@
        + pkg.license + "\"])\n\n"@ + (if mode == GenMode::Remote {
        "remote_source(\n    url = \""@ + pkg.remote_url + "\",\n    sha256 = \""@ + pkg.checksum
            + "\",\n)\n\n"@
    } else {
        Seq::<char>::empty()
    }) + "rust_library(\n    name = \""@ + pkg_dir_name(pkg.key) + "\",\n    edition = \""@
        + pkg.edition + "\",\n    srcs = glob([\"**/*.rs\"]),\n    crate_features = [\n"@
        + quoted_lines(pkg.features) + "    ],\n    rustc_flags = [\n"@ + quoted_lines(pl.flags)
        + "    ],\n    deps = [\n"@ + dep_lines(pl.universal, pkgs) + (if pl.has_build_rule {
        "        \":"@ + pkg_dir_name(pkg.key) + "_build_script\",\n"@
    } else {
        Seq::<char>::empty()
    }) + "    ],\n    platform_deps = select({\n"@ + group_blocks(pl.conditional, pkgs)
        + "    }),\n)\n"@ + (if pl.has_build_rule {
        build_rule_text(pkg, pl, pkgs)
    } else {
        Seq::<char>::empty()
    })
}

/// One remote-fetch declaration per package, in package order.
pub open spec fn index_lines(pkgs: Seq<PackageV>, n: int) -> Seq<char>
    decreases n,
{
    if n <= 0 {
        Seq::empty()
    } else {
        index_lines(pkgs, n - 1) + "remote_fetch(name = \""@ + pkg_dir_name(pkgs[n - 1].key)
            + "\", url = \""@ + pkgs[n - 1].remote_url + "\", sha256 = \""@ + pkgs[n
            - 1].checksum + "\")\n"@
    }
}

/// The package rule files of the first `n` packages, in package order.
pub open spec fn files_prefix(pb: PlannedBuildV, rd: RenderDetailsV, mode: GenMode, n: int) -> Seq<
    FileOutputV,
>
    decreases n,
{
    if n <= 0 {
        Seq::empty()
    } else {
        files_prefix(pb, rd, mode, n - 1).push(
            FileOutputV {
                path: path_spec(rd, mode, pb.packages[n - 1].key),
                contents: package_text(pb.packages[n - 1], pb.planned[n - 1], pb.packages, mode),
            },
        )
    }
}

/// Everything a render pass emits: one rule file per package in package
/// order, and in remote mode one trailing index file enumerating all
/// remote sources.
pub open spec fn render_spec(pb: PlannedBuildV, rd: RenderDetailsV, mode: GenMode) -> Seq<
    FileOutputV,
> {
    let base = files_prefix(pb, rd, mode, pb.packages.len() as int);
    if mode == GenMode::Remote {
        base.push(
            FileOutputV {
                path: index_path_spec(rd),
                contents: index_lines(pb.packages, pb.packages.len() as int),
            },
        )
    } else {
        base
    }
}

/// The `name-version` directory segment, executably.
fn dir_name_exec(k: &PkgKey) -> (r: String)
    ensures
        r@ == pkg_dir_name(k@),
{
    let mut s = String::new();
    s.append(k.name.as_str());
    s.append("-");
    s.append(k.version.as_str());
    proof {
        assert(s@ =~= pkg_dir_name(k@));
    }
    s
}

/// The label a dependency renders as, executably.
fn label_exec(d: &PlannedDep, pkgs: &Vec<Package>) -> (r: String)
    requires
        (d.target as int) < pkgs@.len(),
    ensures
        r@ == label_of(d@, pkg_views(pkgs@)),
{
    match &d.alias {
        Some(a) => clone_string(a),
        None => {
            let r = dir_name_exec(&pkgs[d.target].key);
            proof {
                assert(pkg_views(pkgs@)[d.target as int].key == pkgs@[d.target as int]@.key);
            }
            r
        },
    }
}

/// Append the dependency lines of `deps` to `s`.
fn append_dep_lines(s: &mut String, deps: &Vec<PlannedDep>, pkgs: &Vec<Package>)
    requires
        deps_in_range(dep_views(deps@), pkgs@.len() as int),
    ensures
        final (s)@ == old(s)@ + dep_lines(dep_views(deps@), pkg_views(pkgs@)),
{
    let ghost dv = dep_views(deps@);
    let ghost pv = pkg_views(pkgs@);
    let ghost s0 = s@;
    let mut i: usize = 0;
    proof {
        assert(s@ =~= s0 + dep_lines(dv.take(0), pv));
    }
    while i < deps.len()
        invariant
            i <= deps@.len(),
            dv == dep_views(deps@),
            pv == pkg_views(pkgs@),
            deps_in_range(dv, pkgs@.len() as int),
            s@ == s0 + dep_lines(dv.take(i as int), pv),
        decreases deps@.len() - i,
    {
        proof {
            assert(dv[i as int].target == deps@[i as int]@.target);
            assert(0 <= dv[i as int].target < pkgs@.len());
        }
        let label = label_exec(&deps[i], pkgs);
        s.append("        \":");
        s.append(label.as_str());
        s.append("\",\n");
        i = i + 1;
        proof {
            assert(dv.take(i as int).drop_last() =~= dv.take(i - 1));
            assert(dv.take(i as int).last() == dv[i - 1]);
            assert(s@ =~= s0 + dep_lines(dv.take(i as int), pv));
        }
    }
    proof {
        assert(dv.take(deps@.len() as int) =~= dv);
    }
}

/// Append one quoted line per item to `s`.
fn append_quoted_lines(s: &mut String, items: &Vec<String>)
    ensures
        final (s)@ == old(s)@ + quoted_lines(items.deep_view()),
{
    let ghost iv = items.deep_view();
    let ghost s0 = s@;
    let mut i: usize = 0;
    proof {
        assert(s@ =~= s0 + quoted_lines(iv.take(0)));
    }
    while i < items.len()
        invariant
            i <= items@.len(),
            iv == items.deep_view(),
            s@ == s0 + quoted_lines(iv.take(i as int)),
        decreases items@.len() - i,
    {
        s.append("        \"");
        s.append(items[i].as_str());
        s.append("\",\n");
        i = i + 1;
        proof {
            assert(iv.take(i as int).drop_last() =~= iv.take(i - 1));
            assert(iv.take(i as int).last() == iv[i - 1]);
            assert(iv[i - 1] == items@[i - 1]@);
            assert(s@ =~= s0 + quoted_lines(iv.take(i as int)));
        }
    }
    proof {
        assert(iv.take(items@.len() as int) =~= iv);
    }
}

/// Append the select-construct entries of the conditional groups to `s`.
fn append_group_blocks(s: &mut String, groups: &Vec<CondGroup>, pkgs: &Vec<Package>)
    requires
        groups_in_range(group_views(groups@), pkgs@.len() as int),
    ensures
        final (s)@ == old(s)@ + group_blocks(group_views(groups@), pkg_views(pkgs@)),
{
    let ghost gv = group_views(groups@);
    let ghost pv = pkg_views(pkgs@);
    let ghost s0 = s@;
    let mut i: usize = 0;
    proof {
        assert(s@ =~= s0 + group_blocks(gv.take(0), pv));
    }
    while i < groups.len()
        invariant
            i <= groups@.len(),
            gv == group_views(groups@),
            pv == pkg_views(pkgs@),
            groups_in_range(gv, pkgs@.len() as int),
            s@ == s0 + group_blocks(gv.take(i as int), pv),
        decreases groups@.len() - i,
    {
        let g = &groups[i];
        proof {
            assert(gv[i as int] == g@);
            assert(deps_in_range(gv[i as int].deps, pkgs@.len() as int));
        }
        s.append("        \"");
        s.append(g.predicate.as_str());
        s.append("\": [\n");
        append_dep_lines(s, &g.deps, pkgs);
        s.append("        ],\n");
        i = i + 1;
        proof {
            assert(gv.take(i as int).drop_last() =~= gv.take(i - 1));
            assert(gv.take(i as int).last() == gv[i - 1]);
            assert(s@ =~= s0 + group_blocks(gv.take(i as int), pv));
        }
    }
    proof {
        assert(gv.take(groups@.len() as int) =~= gv);
    }
}

/// The full rule-file text of one package, executably.
#[verifier::rlimit(100)]
fn package_text_exec(pkg: &Package, pl: &PlannedPackage, pkgs: &Vec<Package>, mode: GenMode) -> (r:
    String)
    requires
        targets_in_range(pl@, pkgs@.len() as int),
    ensures
        r@ == package_text(pkg@, pl@, pkg_views(pkgs@), mode),
{
    let dir = dir_name_exec(&pkg.key);
    let mut s = String::new();
    s.append("# ");
    s.append(dir.as_str());
    s.append("\n");
    s.append("package(default_visibility = [\"//visibility:public\"])\n\n");
    s.append("licenses([\"");
    s.append(pkg.license.as_str());
    s.append("\"])\n\n");
    let is_remote = match mode {
        GenMode::Remote => true,
        GenMode::Vendored => false,
    };
    if is_remote {
        s.append("remote_source(\n    url = \"");
        s.append(pkg.remote_url.as_str());
        s.append("\",\n    sha256 = \"");
        s.append(pkg.checksum.as_str());
        s.append("\",\n)\n\n");
    }
    s.append("rust_library(\n    name = \"");
    s.append(dir.as_str());
    s.append("\",\n    edition = \"");
    s.append(pkg.edition.as_str());
    s.append("\",\n    srcs = glob([\"**/*.rs\"]),\n    crate_features = [\n");
    append_quoted_lines(&mut s, &pkg.features);
    s.append("    ],\n    rustc_flags = [\n");
    append_quoted_lines(&mut s, &pl.flags);
    s.append("    ],\n    deps = [\n");
    append_dep_lines(&mut s, &pl.universal, pkgs);
    if pl.has_build_rule {
        s.append("        \":");
        s.append(dir.as_str());
        s.append("_build_script\",\n");
    }
    s.append("    ],\n    platform_deps = select({\n");
    append_group_blocks(&mut s, &pl.conditional, pkgs);
    s.append("    }),\n)\n");
    if pl.has_build_rule {
        s.append("\ncargo_build_script(\n    name = \"");
        s.append(dir.as_str());
        s.append("_build_script\",\n");
        s.append("    srcs = glob([\"**/*.rs\"]),\n    deps = [\n");
        append_dep_lines(&mut s, &pl.build_deps, pkgs);
        s.append("    ],\n)\n");
        proof {
            assert(s@ =~= package_text(pkg@, pl@, pkg_views(pkgs@), mode));
        }
    } else {
        proof {
            assert(s@ =~= package_text(pkg@, pl@, pkg_views(pkgs@), mode));
        }
    }
    s
}

/// The output path of a package's rule file, executably.
fn path_exec(rd: &RenderDetails, mode: GenMode, k: &PkgKey) -> (r: String)
    ensures
        r@ == path_spec(rd@, mode, k@),
{
    let mut s = String::new();
    s.append(rd.path_prefix.as_str());
    s.append("/");
    let is_vendored = match mode {
        GenMode::Vendored => true,
        GenMode::Remote => false,
    };
    if is_vendored {
        s.append("vendor");
    } else {
        s.append("remote");
    }
    s.append("/");
    let dir = dir_name_exec(k);
    s.append(dir.as_str());
    s.append("/BUILD");
    s.append(rd.buildfile_suffix.as_str());
    proof {
        assert(s@ =~= path_spec(rd@, mode, k@));
    }
    s
}

/// The remote-mode index file contents, executably.
fn index_exec(pkgs: &Vec<Package>) -> (r: String)
    ensures
        r@ == index_lines(pkg_views(pkgs@), pkgs@.len() as int),
{
    let ghost pv = pkg_views(pkgs@);
    let mut s = String::new();
    proof {
        assert(s@ =~= Seq::<char>::empty() + index_lines(pv, 0));
        assert(s@ =~= index_lines(pv, 0));
    }
    let mut i: usize = 0;
    while i < pkgs.len()
        invariant
            i <= pkgs@.len(),
            pv == pkg_views(pkgs@),
            s@ == index_lines(pv, i as int),
        decreases pkgs@.len() - i,
    {
        let p = &pkgs[i];
        proof {
            assert(pv[i as int] == p@);
        }
        let dir = dir_name_exec(&p.key);
        s.append("remote_fetch(name = \"");
        s.append(dir.as_str());
        s.append("\", url = \"");
        s.append(p.remote_url.as_str());
        s.append("\", sha256 = \"");
        s.append(p.checksum.as_str());
        s.append("\")\n");
        i = i + 1;
        proof {
            assert(s@ =~= index_lines(pv, i as int));
        }
    }
    s
}

/// Render a planned build into its ordered file outputs.
///
/// Emits one rule file per package, in the plan's (key-sorted) package
/// order, and in remote mode one trailing index file. Fails exactly when
/// two emitted files would share a path; on success all paths are
/// distinct, so a plan with N packages yields N rule files (plus the
/// remote index).
pub fn render_build(pb: &PlannedBuild, rd: &RenderDetails, mode: GenMode) -> (r: Result<
    Vec<FileOutput>,
    RenderError,
>)
    requires
        pb@.wf(),
    ensures
        match r {
            Ok(files) => {
                &&& file_views(files@) == render_spec(pb@, rd@, mode)
                &&& files@.len() == pb@.packages.len() + (if mode == GenMode::Remote {
                    1int
                } else {
                    0int
                })
                &&& forall|i: int, j: int| #![trigger file_views(files@)[i], file_views(files@)[j]]
                    0 <= i < j < files@.len() ==> file_views(files@)[i].path != file_views(
                        files@,
                    )[j].path
            },
            Err(e) => match e {
                RenderError::RenderPathCollision(p) => exists|i: int, j: int|
                    #![trigger render_spec(pb@, rd@, mode)[i], render_spec(pb@, rd@, mode)[j]]
                    0 <= i < j < render_spec(pb@, rd@, mode).len() && render_spec(
                        pb@,
                        rd@,
                        mode,
                    )[i].path == render_spec(pb@, rd@, mode)[j].path && p@ == render_spec(
                        pb@,
                        rd@,
                        mode,
                    )[j].path,
            },
        },
{
    let ghost pbv = pb@;
    let ghost rdv = rd@;
    let mut files: Vec<FileOutput> = Vec::new();
    proof {
        assert(file_views(files@) =~= files_prefix(pbv, rdv, mode, 0));
    }
    let mut i: usize = 0;
    while i < pb.packages.len()
        invariant
            i <= pb.packages@.len(),
            pbv == pb@,
            rdv == rd@,
            pb@.wf(),
            file_views(files@) == files_prefix(pbv, rdv, mode, i as int),
            files@.len() == i,
        decreases pb.packages@.len() - i,
    {
        let pkg = &pb.packages[i];
        let pl = &pb.planned[i];
        proof {
            assert(pbv.packages[i as int] == pkg@);
            assert(pbv.planned[i as int] == pl@);
            assert(targets_in_range(pbv.planned[i as int], pbv.packages.len() as int));
        }
        let path = path_exec(rd, mode, &pkg.key);
        let contents = package_text_exec(pkg, pl, &pb.packages, mode);
        let ghost fv0 = file_views(files@);
        files.push(FileOutput { path, contents });
        i = i + 1;
        proof {
            assert(file_views(files@) =~= fv0.push(
                FileOutputV {
                    path: path_spec(rdv, mode, pbv.packages[i - 1].key),
                    contents: package_text(
                        pbv.packages[i - 1],
                        pbv.planned[i - 1],
                        pbv.packages,
                        mode,
                    ),
                },
            ));
        }
    }
    let is_remote = match mode {
        GenMode::Remote => true,
        GenMode::Vendored => false,
    };
    if is_remote {
        let mut ipath = String::new();
        ipath.append(rd.path_prefix.as_str());
        ipath.append("/remote/BUILD");
        ipath.append(rd.buildfile_suffix.as_str());
        proof {
            assert(ipath@ =~= index_path_spec(rdv));
        }
        let icontents = index_exec(&pb.packages);
        let ghost fv0 = file_views(files@);
        files.push(FileOutput { path: ipath, contents: icontents });
        proof {
            assert(file_views(files@) =~= fv0.push(
                FileOutputV {
                    path: index_path_spec(rdv),
                    contents: index_lines(pbv.packages, pbv.packages.len() as int),
                },
            ));
        }
    }
    proof {
        assert(file_views(files@) == render_spec(pbv, rdv, mode));
    }
    // No two outputs may share a path: a silent overwrite would lose a
    // package's rules.
    let n = files.len();
    let mut a: usize = 0;
    while a < n
        invariant
            a <= n,
            n == files@.len(),
            pbv == pb@,
            rdv == rd@,
            file_views(files@) == render_spec(pbv, rdv, mode),
            forall|x: int, y: int| #![trigger file_views(files@)[x], file_views(files@)[y]]
                0 <= x < y < files@.len() && x < a ==> file_views(files@)[x].path != file_views(
                    files@,
                )[y].path,
        decreases n - a,
    {
        let mut b: usize = a + 1;
        while b < n
            invariant
                a < b <= n || (a + 1 == b && b > n),
                a < n,
                n == files@.len(),
                pbv == pb@,
                rdv == rd@,
                file_views(files@) == render_spec(pbv, rdv, mode),
                forall|y: int| (a as int) < y < b ==> file_views(files@)[a as int].path
                    != (#[trigger] file_views(files@)[y]).path,
            decreases n - b,
        {
            if files[a].path == files[b].path {
                proof {
                    assert(file_views(files@)[a as int].path == file_views(files@)[b as int].path);
                }
                let p = clone_string(&files[b].path);
                return Err(RenderError::RenderPathCollision(p));
            }
            proof {
                assert(file_views(files@)[a as int].path != file_views(files@)[b as int].path);
            }
            b = b + 1;
        }
        a = a + 1;
    }
    Ok(files)
}

/// Idempotence law: rendering is a pure function of the plan and the
/// render details, so rendering the same plan twice — or two plans equal
/// as values — emits byte-identical file sequences.
pub proof fn lemma_render_deterministic(
    pb1: PlannedBuildV,
    pb2: PlannedBuildV,
    rd1: RenderDetailsV,
    rd2: RenderDetailsV,
    mode: GenMode,
)
    requires
        pb1 == pb2,
        rd1 == rd2,
    ensures
        render_spec(pb1, rd1, mode) == render_spec(pb2, rd2, mode),
{
}

} // verus!
