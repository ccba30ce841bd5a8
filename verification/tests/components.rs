//! Tests of the individual pipeline components: the source override
//! resolver, target selection, result collection, and package set assembly.

use cargo_compile::config::{source_ids_from_config, ConfigValue};
use cargo_compile::errors::CompileError;
use cargo_compile::graph::ResolvedGraph;
use cargo_compile::model::{
    Dependency, Package, PackageId, Profile, SourceId, SourceKind, Target, TargetKind, Version,
    VersionReq,
};
use cargo_compile::registry::{assemble_packages, PackageRegistry};
use cargo_compile::targets::{select_targets, test_executables};

fn ver(major: u64, minor: u64, patch: u64) -> Version {
    Version { major, minor, patch }
}

fn registry_source() -> SourceId {
    SourceId { kind: SourceKind::Registry, location: "registry.example".to_string() }
}

fn target(name: &str, env: &str, is_test: bool) -> Target {
    Target {
        name: name.to_string(),
        kind: if is_test { TargetKind::Test } else { TargetKind::Library },
        profile: Profile { env: env.to_string(), is_test },
    }
}

fn package(name: &str, v: Version, deps: Vec<Dependency>, targets: Vec<Target>) -> Package {
    Package {
        id: PackageId { name: name.to_string(), version: v, source: registry_source() },
        dependencies: deps,
        source_ids: vec![],
        targets,
        unused_keys: vec![],
    }
}

#[test]
fn version_order_is_lexicographic() {
    assert!(ver(1, 2, 3).lt(&ver(2, 0, 0)));
    assert!(ver(1, 2, 3).lt(&ver(1, 3, 0)));
    assert!(ver(1, 2, 3).lt(&ver(1, 2, 4)));
    assert!(!ver(1, 2, 3).lt(&ver(1, 2, 3)));
    assert!(!ver(2, 0, 0).lt(&ver(1, 9, 9)));
}

#[test]
fn requirement_matching_is_exact() {
    assert!(VersionReq::Any.matches(&ver(0, 0, 1)));
    assert!(VersionReq::Exact(ver(1, 2, 3)).matches(&ver(1, 2, 3)));
    assert!(!VersionReq::Exact(ver(1, 2, 3)).matches(&ver(1, 2, 4)));
    assert!(VersionReq::AtLeast(ver(1, 2, 3)).matches(&ver(1, 2, 3)));
    assert!(VersionReq::AtLeast(ver(1, 2, 3)).matches(&ver(2, 0, 0)));
    assert!(!VersionReq::AtLeast(ver(1, 2, 3)).matches(&ver(1, 2, 2)));
}

#[test]
fn override_list_yields_path_sources_in_order() {
    let entry = Some(ConfigValue::List(vec!["/a/one".to_string(), "/b/two".to_string()]));
    let ids = source_ids_from_config(&entry).unwrap();
    assert_eq!(ids.len(), 2);
    assert_eq!(ids[0].kind, SourceKind::Path);
    assert_eq!(ids[0].location, "/a/one");
    assert_eq!(ids[1].kind, SourceKind::Path);
    assert_eq!(ids[1].location, "/b/two");
}

#[test]
fn override_scalar_is_config_type_error() {
    let entry = Some(ConfigValue::Str("/a/one".to_string()));
    let r = source_ids_from_config(&entry);
    assert_eq!(r, Err(CompileError::ConfigType));
}

#[test]
fn override_absent_is_empty() {
    let r = source_ids_from_config(&None).unwrap();
    assert!(r.is_empty());
}

#[test]
fn selector_keeps_only_requested_environment() {
    let targets = vec![target("lib", "compile", false), target("unit", "test", true)];
    let picked = select_targets(&targets, &"test".to_string());
    assert_eq!(picked.len(), 1);
    assert_eq!(picked[0].name, "unit");
    let names = test_executables(&picked);
    assert_eq!(names, vec!["unit".to_string()]);
}

#[test]
fn selector_preserves_declaration_order() {
    let targets = vec![
        target("a", "compile", false),
        target("b", "test", true),
        target("c", "compile", false),
        target("d", "compile", false),
    ];
    let picked = select_targets(&targets, &"compile".to_string());
    let names: Vec<&str> = picked.iter().map(|t| t.name.as_str()).collect();
    assert_eq!(names, vec!["a", "c", "d"]);
}

#[test]
fn selector_empty_selection_is_not_an_error() {
    let targets = vec![target("unit", "test", true)];
    let picked = select_targets(&targets, &"compile".to_string());
    assert!(picked.is_empty());
    assert!(test_executables(&picked).is_empty());
}

#[test]
fn collector_skips_non_test_targets() {
    let targets = vec![
        target("lib", "compile", false),
        target("unit", "compile", true),
        target("bench", "compile", false),
    ];
    let names = test_executables(&targets);
    assert_eq!(names, vec!["unit".to_string()]);
}

#[test]
fn assembler_is_all_or_nothing() {
    // Three resolved identities; the registry can supply only two of them.
    let root = package("app", ver(0, 1, 0), vec![], vec![]);
    let supplied_one = package("alpha", ver(1, 0, 0), vec![], vec![]);
    let supplied_two = package("beta", ver(1, 0, 0), vec![], vec![]);
    let missing_id = PackageId {
        name: "gamma".to_string(),
        version: ver(1, 0, 0),
        source: registry_source(),
    };
    let graph = ResolvedGraph {
        nodes: vec![
            supplied_one.id.dup(),
            supplied_two.id.dup(),
            missing_id.dup(),
        ],
        edges: vec![vec![], vec![], vec![]],
    };
    let registry = PackageRegistry::new(vec![supplied_one, supplied_two], vec![]);
    let r = assemble_packages(&graph, &root, &registry);
    match r {
        Err(CompileError::PackageFetch { missing }) => {
            assert_eq!(missing.name, "gamma");
        },
        other => panic!("expected a fetch error, got {:?}", other),
    }
}

#[test]
fn assembler_covers_exactly_the_requested_identities() {
    let root = package("app", ver(0, 1, 0), vec![], vec![]);
    let lib = package("lib", ver(1, 0, 0), vec![], vec![]);
    let graph = ResolvedGraph {
        nodes: vec![root.id.dup(), lib.id.dup()],
        edges: vec![vec![1], vec![]],
    };
    let registry = PackageRegistry::new(vec![lib], vec![]);
    let ps = assemble_packages(&graph, &root, &registry).unwrap();
    assert_eq!(ps.packages.len(), 2);
    assert_eq!(ps.packages[0].id.name, "app");
    assert_eq!(ps.packages[1].id.name, "lib");
}
