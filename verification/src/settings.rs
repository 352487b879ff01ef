//! User override configuration.
//!
//! Settings are loaded once per run by the surrounding layer and are
//! read-only to the pipeline: a generation mode, an output file-name
//! suffix, and per-package patch overrides (extra build flags, skip and
//! force-include flags for particular dependencies, and rename maps giving
//! a consuming package's local alias for a dependency).

use vstd::prelude::*;
use crate::model::{KeyV, PkgKey};

verus! {

/// Generation mode: vendored sources on local disk, or remote sources
/// fetched by the target build system.
#[derive(Clone, Copy, PartialEq, Eq, Structural, Debug)]
pub enum GenMode {
    Vendored,
    Remote,
}

/// Mathematical view of a rename entry.
#[verifier::ext_equal]
pub ghost struct RenameV {
    pub dep_name: Seq<char>,
    pub dep_version: Seq<char>,
    pub alias: Seq<char>,
}

/// One rename entry: the consuming package refers to the dependency with
/// identity (dep_name, dep_version) under `alias`.
pub struct Rename {
    pub dep_name: String,
    pub dep_version: String,
    pub alias: String,
}

impl View for Rename {
    type V = RenameV;

    open spec fn view(&self) -> RenameV {
        RenameV { dep_name: self.dep_name@, dep_version: self.dep_version@, alias: self.alias@ }
    }
}

/// Mathematical view of a per-package override.
#[verifier::ext_equal]
pub ghost struct OverrideV {
    pub name: Seq<char>,
    pub version: Seq<char>,
    pub extra_flags: Seq<Seq<char>>,
    pub skip_deps: Seq<KeyV>,
    pub force_deps: Seq<KeyV>,
    pub renames: Seq<RenameV>,
}

/// Patch overrides for one package identity.
pub struct PkgOverride {
    pub name: String,
    pub version: String,
    pub extra_flags: Vec<String>,
    pub skip_deps: Vec<PkgKey>,
    pub force_deps: Vec<PkgKey>,
    pub renames: Vec<Rename>,
}

impl View for PkgOverride {
    type V = OverrideV;

    open spec fn view(&self) -> OverrideV {
        OverrideV {
            name: self.name@,
            version: self.version@,
            extra_flags: self.extra_flags.deep_view(),
            skip_deps: key_views(self.skip_deps@),
            force_deps: key_views(self.force_deps@),
            renames: rename_views(self.renames@),
        }
    }
}

/// Mathematical view of the settings.
#[verifier::ext_equal]
pub ghost struct SettingsV {
    pub genmode: GenMode,
    pub output_buildfile_suffix: Seq<char>,
    pub incompatible_relative_workspace_path: bool,
    pub overrides: Seq<OverrideV>,
}

/// The user override configuration, threaded read-only through planning.
pub struct Settings {
    pub genmode: GenMode,
    pub output_buildfile_suffix: String,
    pub incompatible_relative_workspace_path: bool,
    pub overrides: Vec<PkgOverride>,
}

impl View for Settings {
    type V = SettingsV;

    open spec fn view(&self) -> SettingsV {
        SettingsV {
            genmode: self.genmode,
            output_buildfile_suffix: self.output_buildfile_suffix@,
            incompatible_relative_workspace_path: self.incompatible_relative_workspace_path,
            overrides: override_views(self.overrides@),
        }
    }
}

/// View of a key sequence.
pub open spec fn key_views(s: Seq<PkgKey>) -> Seq<KeyV> {
    s.map_values(|k: PkgKey| k@)
}

/// View of a rename sequence.
pub open spec fn rename_views(s: Seq<Rename>) -> Seq<RenameV> {
    s.map_values(|r: Rename| r@)
}

/// View of an override sequence.
pub open spec fn override_views(s: Seq<PkgOverride>) -> Seq<OverrideV> {
    s.map_values(|o: PkgOverride| o@)
}

/// Whether `keys` holds `k`.
pub open spec fn key_in(keys: Seq<KeyV>, k: KeyV) -> bool {
    exists|i: int| 0 <= i < keys.len() && #[trigger] keys[i] == k
}

/// The alias the first matching rename entry gives to dependency key `k`.
pub open spec fn rename_for(renames: Seq<RenameV>, k: KeyV) -> Option<Seq<char>>
    decreases renames.len(),
{
    if renames.len() == 0 {
        None
    } else if renames[0].dep_name == k.name && renames[0].dep_version == k.version {
        Some(renames[0].alias)
    } else {
        rename_for(renames.skip(1), k)
    }
}

/// First override index whose identity is (name, version); `ovs.len()` if
/// none.
pub open spec fn override_index(ovs: Seq<OverrideV>, name: Seq<char>, version: Seq<char>) -> int
    decreases ovs.len(),
{
    if ovs.len() == 0 {
        0
    } else if ovs[0].name == name && ovs[0].version == version {
        0
    } else {
        1 + override_index(ovs.skip(1), name, version)
    }
}

/// The override that applies to identity (name, version), if any.
pub open spec fn override_for(ovs: Seq<OverrideV>, name: Seq<char>, version: Seq<char>) -> Option<
    OverrideV,
> {
    if 0 <= override_index(ovs, name, version) < ovs.len() {
        Some(ovs[override_index(ovs, name, version)])
    } else {
        None
    }
}

/// Whether `keys` holds the key of `k`, decided executably.
pub fn key_in_exec(keys: &Vec<PkgKey>, k: &PkgKey) -> (r: bool)
    ensures
        r == key_in(key_views(keys@), k@),
{
    let ghost kvs = key_views(keys@);
    let mut i: usize = 0;
    while i < keys.len()
        invariant
            i <= keys@.len(),
            kvs == key_views(keys@),
            forall|m: int| 0 <= m < i ==> #[trigger] kvs[m] != k@,
        decreases keys@.len() - i,
    {
        if crate::model::key_eq_exec(&keys[i], k) {
            proof {
                assert(kvs[i as int] == keys@[i as int]@);
                assert(kvs[i as int] == k@);
            }
            return true;
        }
        proof {
            assert(kvs[i as int] != k@);
        }
        i = i + 1;
    }
    false
}

/// The alias the renames give to `k`, from position `i` on.
fn rename_from(renames: &Vec<Rename>, i: usize, k: &PkgKey) -> (r: Option<String>)
    requires
        i <= renames@.len(),
    ensures
        r.deep_view() == rename_for(rename_views(renames@).skip(i as int), k@),
    decreases renames@.len() - i,
{
    let ghost rvs = rename_views(renames@);
    if i == renames.len() {
        proof {
            assert(rvs.skip(i as int) =~= Seq::<RenameV>::empty());
        }
        None
    } else {
        let e = &renames[i];
        proof {
            assert(rvs.skip(i as int)[0] == rvs[i as int]);
            assert(rvs.skip(i as int).skip(1) =~= rvs.skip(i + 1));
        }
        if e.dep_name == k.name && e.dep_version == k.version {
            Some(crate::model::clone_string(&e.alias))
        } else {
            rename_from(renames, i + 1, k)
        }
    }
}

/// The alias the first matching rename entry gives to `k`, executably.
pub fn rename_for_exec(renames: &Vec<Rename>, k: &PkgKey) -> (r: Option<String>)
    ensures
        r.deep_view() == rename_for(rename_views(renames@), k@),
{
    let r = rename_from(renames, 0, k);
    proof {
        assert(rename_views(renames@).skip(0) =~= rename_views(renames@));
    }
    r
}

/// The override applying to identity (name, version), from position `i` on.
fn override_from(ovs: &Vec<PkgOverride>, i: usize, name: &String, version: &String) -> (r: Option<
    usize,
>)
    requires
        i <= ovs@.len(),
    ensures
        match r {
            Some(j) => i <= j < ovs@.len() && (j as int) - (i as int) == override_index(
                override_views(ovs@).skip(i as int),
                name@,
                version@,
            ),
            None => override_index(
                override_views(ovs@).skip(i as int),
                name@,
                version@,
            ) == ovs@.len() - i,
        },
    decreases ovs@.len() - i,
{
    let ghost ovv = override_views(ovs@);
    if i == ovs.len() {
        proof {
            assert(ovv.skip(i as int) =~= Seq::<OverrideV>::empty());
        }
        None
    } else {
        let o = &ovs[i];
        proof {
            assert(ovv.skip(i as int)[0] == ovv[i as int]);
            assert(ovv.skip(i as int).skip(1) =~= ovv.skip(i + 1));
        }
        if o.name == *name && o.version == *version {
            Some(i)
        } else {
            override_from(ovs, i + 1, name, version)
        }
    }
}

/// The override applying to identity (name, version), if any, as an index
/// into the settings' override table.
pub fn override_for_exec(ovs: &Vec<PkgOverride>, name: &String, version: &String) -> (r: Option<
    usize,
>)
    ensures
        match r {
            Some(j) => {
                &&& (j as int) < ovs@.len()
                &&& j as int == override_index(override_views(ovs@), name@, version@)
                &&& override_for(override_views(ovs@), name@, version@)
                    == Some(override_views(ovs@)[j as int])
            },
            None => override_for(override_views(ovs@), name@, version@) is None,
        },
{
    let r = override_from(ovs, 0, name, version);
    proof {
        assert(override_views(ovs@).skip(0) =~= override_views(ovs@));
        match r {
            Some(j) => {
                assert(0 <= override_index(override_views(ovs@), name@, version@)
                    < ovs@.len());
            },
            None => {},
        }
    }
    r
}

} // verus!
