use cargo_raze::model::{
    build_graph, MetadataError, RawEdge, RawPackage, Role, SourceKind,
};
use cargo_raze::planner::{plan_build, Diagnostic, PlanError, WorkspaceContext};
use cargo_raze::platform::{classify, Classification, Platform};
use cargo_raze::render::{render_build, RenderDetails, RenderError};
use cargo_raze::settings::{GenMode, PkgOverride, Rename, Settings};

fn raw_pkg(name: &str, version: &str) -> RawPackage {
    RawPackage {
        name: Some(name.to_string()),
        version: Some(version.to_string()),
        edition: Some("2018".to_string()),
        license: Some("MIT".to_string()),
        features: Vec::new(),
        has_build_step: false,
        source: SourceKind::Registry,
        local_path: None,
        remote_url: None,
        checksum: None,
    }
}

fn raw_edge(fname: &str, fver: &str, tname: &str, tver: &str, role: Role) -> RawEdge {
    RawEdge {
        from_name: Some(fname.to_string()),
        from_version: Some(fver.to_string()),
        to_name: Some(tname.to_string()),
        to_version: Some(tver.to_string()),
        features: Vec::new(),
        predicate: None,
        role,
        rename: None,
    }
}

fn default_settings(genmode: GenMode) -> Settings {
    Settings {
        genmode,
        output_buildfile_suffix: String::new(),
        incompatible_relative_workspace_path: false,
        overrides: Vec::new(),
    }
}

fn ctx() -> WorkspaceContext {
    WorkspaceContext { workspace_path: "//cargo".to_string() }
}

fn linux() -> Platform {
    Platform { triple: "x86_64-unknown-linux-gnu".to_string(), cfgs: vec!["os=linux".to_string()] }
}

fn windows() -> Platform {
    Platform { triple: "x86_64-pc-windows-msvc".to_string(), cfgs: vec!["os=windows".to_string()] }
}

fn details() -> RenderDetails {
    RenderDetails { path_prefix: "./cargo".to_string(), buildfile_suffix: String::new() }
}

#[test]
fn vendored_two_packages_universal_dep() {
    let pkgs = vec![raw_pkg("a", "1.0"), raw_pkg("b", "2.0")];
    let edges = vec![raw_edge("a", "1.0", "b", "2.0", Role::Normal)];
    let graph = build_graph(&pkgs, &edges).unwrap();
    let settings = default_settings(GenMode::Vendored);
    let platforms = vec![linux()];
    let (pb, diags) = plan_build(graph, ctx(), &settings, &platforms).unwrap();
    assert!(diags.is_empty());
    assert_eq!(pb.packages.len(), 2);
    // packages are sorted by key: a-1.0 first, b-2.0 second
    assert_eq!(pb.packages[0].key.name, "a");
    assert_eq!(pb.packages[1].key.name, "b");
    assert_eq!(pb.planned[0].universal.len(), 1);
    assert_eq!(pb.planned[0].universal[0].target, 1);
    assert!(pb.planned[0].conditional.is_empty());
    assert!(pb.planned[1].universal.is_empty());
    let files = render_build(&pb, &details(), GenMode::Vendored).unwrap();
    assert_eq!(files.len(), 2);
    assert_eq!(files[0].path, "./cargo/vendor/a-1.0/BUILD");
    assert_eq!(files[1].path, "./cargo/vendor/b-2.0/BUILD");
    assert!(files[0].contents.contains("\":b-2.0\","));
    assert!(!files[1].contents.contains("\":"));
}

#[test]
fn conditional_dependency_renders_select_entry() {
    let pkgs = vec![raw_pkg("a", "1.0"), raw_pkg("c", "1.0")];
    let mut e = raw_edge("a", "1.0", "c", "1.0", Role::Normal);
    e.predicate = Some("os=linux".to_string());
    let edges = vec![e];
    let graph = build_graph(&pkgs, &edges).unwrap();
    let settings = default_settings(GenMode::Vendored);
    let platforms = vec![linux(), windows()];
    let (pb, _) = plan_build(graph, ctx(), &settings, &platforms).unwrap();
    // a-1.0 is planned with one conditional group keyed by the predicate
    assert!(pb.planned[0].universal.is_empty());
    assert_eq!(pb.planned[0].conditional.len(), 1);
    assert_eq!(pb.planned[0].conditional[0].predicate, "os=linux");
    assert_eq!(pb.planned[0].conditional[0].deps.len(), 1);
    let files = render_build(&pb, &details(), GenMode::Vendored).unwrap();
    assert!(files[0].contents.contains("\"os=linux\": [\n        \":c-1.0\",\n"));
    assert!(!files[0].contents.contains("windows"));
}

#[test]
fn predicate_true_everywhere_is_universal() {
    let pred = Some("os=linux".to_string());
    let platforms = vec![linux()];
    assert!(matches!(classify(&pred, &platforms), Classification::Universal));
}

#[test]
fn predicate_true_on_subset_is_conditional() {
    let pred = Some("os=linux".to_string());
    let platforms = vec![linux(), windows()];
    match classify(&pred, &platforms) {
        Classification::Conditional(p) => assert_eq!(p, "os=linux"),
        _ => panic!("expected a conditional classification"),
    }
}

#[test]
fn predicate_false_everywhere_is_excluded() {
    let pred = Some("os=macos".to_string());
    let platforms = vec![linux(), windows()];
    assert!(matches!(classify(&pred, &platforms), Classification::Excluded));
}

#[test]
fn no_predicate_is_universal() {
    let platforms = vec![linux()];
    assert!(matches!(classify(&None, &platforms), Classification::Universal));
}

#[test]
fn override_rename_changes_label_only_for_consumer() {
    let pkgs = vec![raw_pkg("a", "1.0"), raw_pkg("d", "3.0")];
    let edges = vec![raw_edge("a", "1.0", "d", "3.0", Role::Normal)];
    let graph = build_graph(&pkgs, &edges).unwrap();
    let mut settings = default_settings(GenMode::Vendored);
    settings.overrides.push(PkgOverride {
        name: "a".to_string(),
        version: "1.0".to_string(),
        extra_flags: Vec::new(),
        skip_deps: Vec::new(),
        force_deps: Vec::new(),
        renames: vec![Rename {
            dep_name: "d".to_string(),
            dep_version: "3.0".to_string(),
            alias: "renamed_d".to_string(),
        }],
    });
    let platforms = vec![linux()];
    let (pb, diags) = plan_build(graph, ctx(), &settings, &platforms).unwrap();
    assert!(diags.is_empty());
    let files = render_build(&pb, &details(), GenMode::Vendored).unwrap();
    assert!(files[0].contents.contains("\":renamed_d\","));
    assert!(!files[0].contents.contains("\":d-3.0\","));
    // d-3.0 still gets its own rule file under its unrenamed identity
    assert_eq!(files[1].path, "./cargo/vendor/d-3.0/BUILD");
    assert!(files[1].contents.contains("name = \"d-3.0\""));
}

#[test]
fn build_time_cycle_is_fatal_and_names_both_packages() {
    let pkgs = vec![raw_pkg("x", "1.0"), raw_pkg("y", "1.0")];
    let edges = vec![
        raw_edge("x", "1.0", "y", "1.0", Role::Build),
        raw_edge("y", "1.0", "x", "1.0", Role::Build),
    ];
    let graph = build_graph(&pkgs, &edges).unwrap();
    let settings = default_settings(GenMode::Vendored);
    let platforms = vec![linux()];
    let r = plan_build(graph, ctx(), &settings, &platforms);
    match r {
        Err(PlanError::CyclicBuildDependency(ks)) => {
            let names: Vec<String> = ks.iter().map(|k| k.name.clone()).collect();
            assert!(names.contains(&"x".to_string()));
            assert!(names.contains(&"y".to_string()));
        },
        _ => panic!("expected a cyclic build dependency error"),
    }
}

#[test]
fn acyclic_build_edges_plan_a_build_rule() {
    let mut x = raw_pkg("x", "1.0");
    x.has_build_step = true;
    let pkgs = vec![x, raw_pkg("y", "1.0")];
    let edges = vec![raw_edge("x", "1.0", "y", "1.0", Role::Build)];
    let graph = build_graph(&pkgs, &edges).unwrap();
    let settings = default_settings(GenMode::Vendored);
    let platforms = vec![linux()];
    let (pb, _) = plan_build(graph, ctx(), &settings, &platforms).unwrap();
    assert!(pb.planned[0].has_build_rule);
    assert_eq!(pb.planned[0].build_deps.len(), 1);
    let files = render_build(&pb, &details(), GenMode::Vendored).unwrap();
    assert!(files[0].contents.contains("cargo_build_script("));
    assert!(files[0].contents.contains("\":x-1.0_build_script\","));
    assert!(files[0].contents.contains("name = \"x-1.0_build_script\""));
}

#[test]
fn rendering_twice_is_byte_identical() {
    let pkgs = vec![raw_pkg("a", "1.0"), raw_pkg("b", "2.0"), raw_pkg("c", "0.3")];
    let edges = vec![
        raw_edge("a", "1.0", "b", "2.0", Role::Normal),
        raw_edge("a", "1.0", "c", "0.3", Role::Normal),
    ];
    let graph = build_graph(&pkgs, &edges).unwrap();
    let settings = default_settings(GenMode::Vendored);
    let platforms = vec![linux()];
    let (pb, _) = plan_build(graph, ctx(), &settings, &platforms).unwrap();
    let once = render_build(&pb, &details(), GenMode::Vendored).unwrap();
    let twice = render_build(&pb, &details(), GenMode::Vendored).unwrap();
    assert_eq!(once.len(), twice.len());
    for (f1, f2) in once.iter().zip(twice.iter()) {
        assert_eq!(f1.path, f2.path);
        assert_eq!(f1.contents, f2.contents);
    }
}

#[test]
fn n_packages_render_n_distinct_paths() {
    let pkgs = vec![
        raw_pkg("a", "1.0"),
        raw_pkg("b", "1.0"),
        raw_pkg("c", "1.0"),
        raw_pkg("d", "1.0"),
    ];
    let graph = build_graph(&pkgs, &Vec::new()).unwrap();
    let settings = default_settings(GenMode::Vendored);
    let platforms = vec![linux()];
    let (pb, _) = plan_build(graph, ctx(), &settings, &platforms).unwrap();
    let files = render_build(&pb, &details(), GenMode::Vendored).unwrap();
    assert_eq!(files.len(), 4);
    for i in 0..files.len() {
        for j in (i + 1)..files.len() {
            assert_ne!(files[i].path, files[j].path);
        }
    }
}

#[test]
fn remote_mode_emits_trailing_index() {
    let mut a = raw_pkg("a", "1.0");
    a.remote_url = Some("https://example.invalid/a-1.0.crate".to_string());
    a.checksum = Some("abc123".to_string());
    let pkgs = vec![a];
    let graph = build_graph(&pkgs, &Vec::new()).unwrap();
    let settings = default_settings(GenMode::Remote);
    let platforms = vec![linux()];
    let (pb, _) = plan_build(graph, ctx(), &settings, &platforms).unwrap();
    let files = render_build(&pb, &details(), GenMode::Remote).unwrap();
    assert_eq!(files.len(), 2);
    assert_eq!(files[0].path, "./cargo/remote/a-1.0/BUILD");
    assert_eq!(files[1].path, "./cargo/remote/BUILD");
    assert!(files[0].contents.contains("remote_source("));
    assert!(files[0].contents.contains("sha256 = \"abc123\""));
    assert!(files[1].contents.contains(
        "remote_fetch(name = \"a-1.0\", url = \"https://example.invalid/a-1.0.crate\", sha256 = \"abc123\")"
    ));
}

#[test]
fn missing_package_name_is_malformed() {
    let mut p = raw_pkg("a", "1.0");
    p.name = None;
    let r = build_graph(&vec![p], &Vec::new());
    assert!(matches!(r, Err(MetadataError::MalformedMetadata(_))));
}

#[test]
fn duplicate_package_key_is_malformed() {
    let r = build_graph(&vec![raw_pkg("a", "1.0"), raw_pkg("a", "1.0")], &Vec::new());
    assert!(matches!(r, Err(MetadataError::MalformedMetadata(_))));
}

#[test]
fn edge_to_unknown_package_is_malformed() {
    let pkgs = vec![raw_pkg("a", "1.0")];
    let edges = vec![raw_edge("a", "1.0", "ghost", "0.1", Role::Normal)];
    let r = build_graph(&pkgs, &edges);
    assert!(matches!(r, Err(MetadataError::MalformedMetadata(_))));
}

#[test]
fn dev_edges_are_dropped_at_ingestion() {
    let pkgs = vec![raw_pkg("a", "1.0"), raw_pkg("b", "2.0")];
    let edges = vec![raw_edge("a", "1.0", "b", "2.0", Role::Dev)];
    let graph = build_graph(&pkgs, &edges).unwrap();
    assert!(graph.edges.is_empty());
}

#[test]
fn unknown_override_target_is_a_diagnostic_not_an_error() {
    let pkgs = vec![raw_pkg("a", "1.0")];
    let graph = build_graph(&pkgs, &Vec::new()).unwrap();
    let mut settings = default_settings(GenMode::Vendored);
    settings.overrides.push(PkgOverride {
        name: "nosuch".to_string(),
        version: "9.9".to_string(),
        extra_flags: Vec::new(),
        skip_deps: Vec::new(),
        force_deps: Vec::new(),
        renames: Vec::new(),
    });
    let platforms = vec![linux()];
    let (pb, diags) = plan_build(graph, ctx(), &settings, &platforms).unwrap();
    assert_eq!(pb.packages.len(), 1);
    assert_eq!(diags.len(), 1);
    let Diagnostic::UnknownOverrideTarget(k) = &diags[0];
    assert_eq!(k.name, "nosuch");
    assert_eq!(k.version, "9.9");
}

#[test]
fn force_include_overrides_platform_exclusion() {
    let pkgs = vec![raw_pkg("a", "1.0"), raw_pkg("b", "2.0")];
    let mut e = raw_edge("a", "1.0", "b", "2.0", Role::Normal);
    e.predicate = Some("os=macos".to_string());
    let edges = vec![e];
    let graph = build_graph(&pkgs, &edges).unwrap();
    let mut settings = default_settings(GenMode::Vendored);
    settings.overrides.push(PkgOverride {
        name: "a".to_string(),
        version: "1.0".to_string(),
        extra_flags: Vec::new(),
        skip_deps: Vec::new(),
        force_deps: vec![cargo_raze::model::PkgKey {
            name: "b".to_string(),
            version: "2.0".to_string(),
        }],
        renames: Vec::new(),
    });
    let platforms = vec![linux()];
    let (pb, _) = plan_build(graph, ctx(), &settings, &platforms).unwrap();
    // the edge the resolver would exclude lands unconditionally in deps
    assert_eq!(pb.planned[0].universal.len(), 1);
    assert_eq!(pb.planned[0].universal[0].target, 1);
    let files = render_build(&pb, &details(), GenMode::Vendored).unwrap();
    assert!(files[0].contents.contains("\":b-2.0\","));
}

#[test]
fn skip_override_removes_dependency() {
    let pkgs = vec![raw_pkg("a", "1.0"), raw_pkg("b", "2.0")];
    let edges = vec![raw_edge("a", "1.0", "b", "2.0", Role::Normal)];
    let graph = build_graph(&pkgs, &edges).unwrap();
    let mut settings = default_settings(GenMode::Vendored);
    settings.overrides.push(PkgOverride {
        name: "a".to_string(),
        version: "1.0".to_string(),
        extra_flags: Vec::new(),
        skip_deps: vec![cargo_raze::model::PkgKey {
            name: "b".to_string(),
            version: "2.0".to_string(),
        }],
        force_deps: Vec::new(),
        renames: Vec::new(),
    });
    let platforms = vec![linux()];
    let (pb, _) = plan_build(graph, ctx(), &settings, &platforms).unwrap();
    assert!(pb.planned[0].universal.is_empty());
    assert!(pb.planned[0].conditional.is_empty());
}

#[test]
fn duplicate_edges_merge_features_idempotently() {
    let pkgs = vec![raw_pkg("a", "1.0"), raw_pkg("b", "2.0")];
    let mut e1 = raw_edge("a", "1.0", "b", "2.0", Role::Normal);
    e1.features = vec!["f1".to_string(), "shared".to_string()];
    let mut e2 = raw_edge("a", "1.0", "b", "2.0", Role::Normal);
    e2.features = vec!["shared".to_string(), "f2".to_string()];
    let edges = vec![e1, e2];
    let graph = build_graph(&pkgs, &edges).unwrap();
    let settings = default_settings(GenMode::Vendored);
    let platforms = vec![linux()];
    let (pb, _) = plan_build(graph, ctx(), &settings, &platforms).unwrap();
    assert_eq!(pb.planned[0].universal.len(), 1);
    assert_eq!(
        pb.planned[0].universal[0].features,
        vec!["f1".to_string(), "shared".to_string(), "f2".to_string()]
    );
}

#[test]
fn colliding_output_paths_are_fatal() {
    // distinct keys whose name-version directory segments coincide
    let pkgs = vec![raw_pkg("a", "1-0"), raw_pkg("a-1", "0")];
    let graph = build_graph(&pkgs, &Vec::new()).unwrap();
    let settings = default_settings(GenMode::Vendored);
    let platforms = vec![linux()];
    let (pb, _) = plan_build(graph, ctx(), &settings, &platforms).unwrap();
    let r = render_build(&pb, &details(), GenMode::Vendored);
    match r {
        Err(RenderError::RenderPathCollision(p)) => {
            assert_eq!(p, "./cargo/vendor/a-1-0/BUILD");
        },
        _ => panic!("expected a path collision error"),
    }
}

#[test]
fn conditional_groups_are_sorted_by_predicate() {
    let pkgs = vec![raw_pkg("a", "1.0"), raw_pkg("b", "2.0"), raw_pkg("c", "3.0")];
    let mut e1 = raw_edge("a", "1.0", "b", "2.0", Role::Normal);
    e1.predicate = Some("os=windows".to_string());
    let mut e2 = raw_edge("a", "1.0", "c", "3.0", Role::Normal);
    e2.predicate = Some("os=linux".to_string());
    let edges = vec![e1, e2];
    let graph = build_graph(&pkgs, &edges).unwrap();
    let settings = default_settings(GenMode::Vendored);
    let platforms = vec![linux(), windows()];
    let (pb, _) = plan_build(graph, ctx(), &settings, &platforms).unwrap();
    assert_eq!(pb.planned[0].conditional.len(), 2);
    assert_eq!(pb.planned[0].conditional[0].predicate, "os=linux");
    assert_eq!(pb.planned[0].conditional[1].predicate, "os=windows");
}

#[test]
fn packages_are_sorted_by_name_then_version() {
    let pkgs = vec![raw_pkg("zeta", "1.0"), raw_pkg("alpha", "2.0"), raw_pkg("alpha", "1.0")];
    let graph = build_graph(&pkgs, &Vec::new()).unwrap();
    assert_eq!(graph.packages[0].key.name, "alpha");
    assert_eq!(graph.packages[0].key.version, "1.0");
    assert_eq!(graph.packages[1].key.name, "alpha");
    assert_eq!(graph.packages[1].key.version, "2.0");
    assert_eq!(graph.packages[2].key.name, "zeta");
}

#[test]
fn extra_flags_render_as_rustc_flags() {
    let pkgs = vec![raw_pkg("a", "1.0")];
    let graph = build_graph(&pkgs, &Vec::new()).unwrap();
    let mut settings = default_settings(GenMode::Vendored);
    settings.overrides.push(PkgOverride {
        name: "a".to_string(),
        version: "1.0".to_string(),
        extra_flags: vec!["--cfg=special".to_string()],
        skip_deps: Vec::new(),
        force_deps: Vec::new(),
        renames: Vec::new(),
    });
    let platforms = vec![linux()];
    let (pb, _) = plan_build(graph, ctx(), &settings, &platforms).unwrap();
    let files = render_build(&pb, &details(), GenMode::Vendored).unwrap();
    assert!(files[0].contents.contains("rustc_flags = [\n        \"--cfg=special\",\n    ]"));
}

#[test]
fn license_and_edition_carry_through_verbatim() {
    let mut p = raw_pkg("a", "1.0");
    p.license = Some("Apache-2.0".to_string());
    p.edition = Some("2021".to_string());
    p.features = vec!["default".to_string()];
    let graph = build_graph(&vec![p], &Vec::new()).unwrap();
    let settings = default_settings(GenMode::Vendored);
    let platforms = vec![linux()];
    let (pb, _) = plan_build(graph, ctx(), &settings, &platforms).unwrap();
    let files = render_build(&pb, &details(), GenMode::Vendored).unwrap();
    assert!(files[0].contents.contains("licenses([\"Apache-2.0\"])"));
    assert!(files[0].contents.contains("edition = \"2021\""));
    assert!(files[0].contents.contains("crate_features = [\n        \"default\",\n    ]"));
}

#[test]
fn buildfile_suffix_lands_in_every_path() {
    let pkgs = vec![raw_pkg("a", "1.0")];
    let graph = build_graph(&pkgs, &Vec::new()).unwrap();
    let settings = default_settings(GenMode::Vendored);
    let platforms = vec![linux()];
    let (pb, _) = plan_build(graph, ctx(), &settings, &platforms).unwrap();
    let rd = RenderDetails {
        path_prefix: "./cargo".to_string(),
        buildfile_suffix: ".bazel".to_string(),
    };
    let files = render_build(&pb, &rd, GenMode::Vendored).unwrap();
    assert_eq!(files[0].path, "./cargo/vendor/a-1.0/BUILD.bazel");
}
