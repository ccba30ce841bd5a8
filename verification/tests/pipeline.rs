//! Tests of resolution, build orchestration and the whole compile
//! pipeline: deterministic selection, topological compilation order, cycle
//! rejection, and the end-to-end scenarios.

use cargo_compile::compile;
use cargo_compile::config::{Config, ConfigValue};
use cargo_compile::errors::CompileError;
use cargo_compile::graph::ResolvedGraph;
use cargo_compile::model::{
    Dependency, Package, PackageId, Profile, SourceId, SourceKind, Target, TargetKind, Version,
    VersionReq,
};
use cargo_compile::orchestrator::{compile_targets, topological_order};
use cargo_compile::registry::{assemble_packages, PackageRegistry};
use cargo_compile::resolver::resolve;
use cargo_compile::CompileOptions;

fn ver(major: u64, minor: u64, patch: u64) -> Version {
    Version { major, minor, patch }
}

fn registry_source() -> SourceId {
    SourceId { kind: SourceKind::Registry, location: "registry.example".to_string() }
}

fn path_source(location: &str) -> SourceId {
    SourceId { kind: SourceKind::Path, location: location.to_string() }
}

fn target(name: &str, env: &str, is_test: bool) -> Target {
    Target {
        name: name.to_string(),
        kind: if is_test { TargetKind::Test } else { TargetKind::Library },
        profile: Profile { env: env.to_string(), is_test },
    }
}

fn dep_any(name: &str) -> Dependency {
    Dependency { name: name.to_string(), req: VersionReq::Any, sources: vec![] }
}

fn dep_req(name: &str, req: VersionReq) -> Dependency {
    Dependency { name: name.to_string(), req, sources: vec![] }
}

fn package(name: &str, v: Version, deps: Vec<Dependency>, targets: Vec<Target>) -> Package {
    package_from(name, v, registry_source(), deps, targets)
}

fn package_from(
    name: &str,
    v: Version,
    source: SourceId,
    deps: Vec<Dependency>,
    targets: Vec<Target>,
) -> Package {
    Package {
        id: PackageId { name: name.to_string(), version: v, source },
        dependencies: deps,
        source_ids: vec![],
        targets,
        unused_keys: vec![],
    }
}

fn options(env: &str) -> CompileOptions {
    CompileOptions { update: false, env: env.to_string(), jobs: None, target: None }
}

/// The position of the unit compiling `name` in the build log.
fn log_position(log: &cargo_compile::orchestrator::BuildLog, name: &str) -> usize {
    log.units.iter().position(|u| u.package.name == name).expect("package missing from log")
}

#[test]
fn resolution_picks_highest_satisfying_version() {
    let root = package("app", ver(0, 1, 0), vec![dep_any("lib")], vec![]);
    let registry = PackageRegistry::new(
        vec![
            package("lib", ver(1, 0, 0), vec![], vec![]),
            package("lib", ver(1, 1, 0), vec![], vec![]),
        ],
        vec![],
    );
    let g = resolve(&root, &registry).unwrap();
    assert_eq!(g.nodes.len(), 2);
    assert_eq!(g.nodes[0].name, "app");
    assert_eq!(g.nodes[1].name, "lib");
    assert_eq!(g.nodes[1].version, ver(1, 1, 0));
    // The root's one requirement is satisfied by node 1.
    assert_eq!(g.edges[0], vec![1]);
    assert_eq!(g.edges[1], Vec::<usize>::new());
}

#[test]
fn resolution_honors_exact_requirement_over_higher_version() {
    let root = package(
        "app",
        ver(0, 1, 0),
        vec![dep_req("lib", VersionReq::Exact(ver(1, 0, 0)))],
        vec![],
    );
    let registry = PackageRegistry::new(
        vec![
            package("lib", ver(1, 0, 0), vec![], vec![]),
            package("lib", ver(2, 0, 0), vec![], vec![]),
        ],
        vec![],
    );
    let g = resolve(&root, &registry).unwrap();
    assert_eq!(g.nodes[1].version, ver(1, 0, 0));
}

#[test]
fn resolution_honors_at_least_requirement() {
    let root = package(
        "app",
        ver(0, 1, 0),
        vec![dep_req("lib", VersionReq::AtLeast(ver(1, 5, 0)))],
        vec![],
    );
    let registry = PackageRegistry::new(
        vec![
            package("lib", ver(1, 0, 0), vec![], vec![]),
            package("lib", ver(2, 0, 0), vec![], vec![]),
        ],
        vec![],
    );
    let g = resolve(&root, &registry).unwrap();
    assert_eq!(g.nodes[1].version, ver(2, 0, 0));
}

#[test]
fn resolution_fails_on_unknown_package() {
    let root = package("app", ver(0, 1, 0), vec![dep_any("missing")], vec![]);
    let registry = PackageRegistry::new(vec![], vec![]);
    let r = resolve(&root, &registry);
    assert_eq!(r, Err(CompileError::Resolution { name: "missing".to_string() }));
}

#[test]
fn resolution_fails_on_conflicting_requirements() {
    // The root takes exactly 1.0.0 of "shared"; "mid" requires exactly
    // 2.0.0 of it, which the earlier selection cannot satisfy.
    let root = package(
        "app",
        ver(0, 1, 0),
        vec![
            dep_req("shared", VersionReq::Exact(ver(1, 0, 0))),
            dep_any("mid"),
        ],
        vec![],
    );
    let registry = PackageRegistry::new(
        vec![
            package("shared", ver(1, 0, 0), vec![], vec![]),
            package("shared", ver(2, 0, 0), vec![], vec![]),
            package(
                "mid",
                ver(1, 0, 0),
                vec![dep_req("shared", VersionReq::Exact(ver(2, 0, 0)))],
                vec![],
            ),
        ],
        vec![],
    );
    let r = resolve(&root, &registry);
    assert_eq!(r, Err(CompileError::Resolution { name: "shared".to_string() }));
}

#[test]
fn resolution_prefers_override_sources() {
    // A local path checkout of "lib" takes precedence over a higher
    // registry version.
    let root = package("app", ver(0, 1, 0), vec![dep_any("lib")], vec![]);
    let registry = PackageRegistry::new(
        vec![
            package("lib", ver(2, 0, 0), vec![], vec![]),
            package_from("lib", ver(1, 0, 0), path_source("/work/lib"), vec![], vec![]),
        ],
        vec![path_source("/work/lib")],
    );
    let g = resolve(&root, &registry).unwrap();
    assert_eq!(g.nodes[1].version, ver(1, 0, 0));
    assert_eq!(g.nodes[1].source.kind, SourceKind::Path);
}

#[test]
fn resolution_is_deterministic() {
    let registry_packages = || {
        vec![
            package("lib", ver(1, 0, 0), vec![dep_any("base")], vec![]),
            package("lib", ver(1, 1, 0), vec![dep_any("base")], vec![]),
            package("base", ver(0, 9, 0), vec![], vec![]),
        ]
    };
    let root = package("app", ver(0, 1, 0), vec![dep_any("lib")], vec![]);
    let first = resolve(&root, &PackageRegistry::new(registry_packages(), vec![])).unwrap();
    let second = resolve(&root, &PackageRegistry::new(registry_packages(), vec![])).unwrap();
    assert_eq!(first, second);
}

#[test]
fn whole_build_is_deterministic() {
    let root = || {
        package(
            "app",
            ver(0, 1, 0),
            vec![dep_any("lib")],
            vec![target("unit", "test", true)],
        )
    };
    let available = || {
        vec![
            package("lib", ver(1, 0, 0), vec![], vec![]),
            package("lib", ver(1, 1, 0), vec![], vec![]),
        ]
    };
    let first = compile(&root(), &available(), &None, &options("test"));
    let second = compile(&root(), &available(), &None, &options("test"));
    assert_eq!(first, second);
    assert_eq!(first.unwrap(), vec!["unit".to_string()]);
}

#[test]
fn orchestrator_compiles_dependencies_first_and_once() {
    // A diamond: app depends on left and right, both depend on base.
    let base = package("base", ver(1, 0, 0), vec![], vec![]);
    let left = package("left", ver(1, 0, 0), vec![dep_any("base")], vec![]);
    let right = package("right", ver(1, 0, 0), vec![dep_any("base")], vec![]);
    let root = package(
        "app",
        ver(0, 1, 0),
        vec![dep_any("left"), dep_any("right")],
        vec![target("app", "compile", false)],
    );
    let registry = PackageRegistry::new(vec![base, left, right], vec![]);
    let g = resolve(&root, &registry).unwrap();
    let ps = assemble_packages(&g, &root, &registry).unwrap();
    let config = Config::new(false, None, None);
    let log = compile_targets(&"compile".to_string(), &ps, &g, &config).unwrap();
    // Every package exactly once.
    assert_eq!(log.units.len(), 4);
    let base_at = log_position(&log, "base");
    let left_at = log_position(&log, "left");
    let right_at = log_position(&log, "right");
    let app_at = log_position(&log, "app");
    // Each package strictly after its direct dependencies.
    assert!(base_at < left_at && base_at < right_at);
    assert!(left_at < app_at && right_at < app_at);
    // Both dependents of "base" receive the same memoized output location.
    let left_unit = &log.units[left_at];
    let right_unit = &log.units[right_at];
    assert_eq!(left_unit.dep_outputs.len(), 1);
    assert_eq!(left_unit.dep_outputs, right_unit.dep_outputs);
}

#[test]
fn orchestrator_rejects_cyclic_graph() {
    // Constructed directly: a correct resolution never produces a cycle.
    let a = package("a", ver(1, 0, 0), vec![], vec![]);
    let b = package("b", ver(1, 0, 0), vec![], vec![]);
    let g = ResolvedGraph {
        nodes: vec![a.id.dup(), b.id.dup()],
        edges: vec![vec![1], vec![0]],
    };
    assert_eq!(topological_order(&g), Err(CompileError::CyclicDependency));
}

#[test]
fn orchestrator_rejects_self_dependency() {
    let a = package("a", ver(1, 0, 0), vec![], vec![]);
    let g = ResolvedGraph { nodes: vec![a.id.dup()], edges: vec![vec![0]] };
    assert_eq!(topological_order(&g), Err(CompileError::CyclicDependency));
}

#[test]
fn end_to_end_build_compiles_lib_before_app() {
    // Root "app" v0.1 requires "lib" (any version); the registry offers
    // v1.0.0 and v1.1.0; the highest satisfying version wins; "lib" is
    // compiled before "app", whose compilation receives "lib"'s output
    // location.
    let root = package(
        "app",
        ver(0, 1, 0),
        vec![dep_any("lib")],
        vec![target("app", "compile", false)],
    );
    let registry = PackageRegistry::new(
        vec![
            package("lib", ver(1, 0, 0), vec![], vec![target("lib", "compile", false)]),
            package("lib", ver(1, 1, 0), vec![], vec![target("lib", "compile", false)]),
        ],
        vec![],
    );
    let g = resolve(&root, &registry).unwrap();
    let ps = assemble_packages(&g, &root, &registry).unwrap();
    let config = Config::new(false, None, None);
    let log = compile_targets(&"compile".to_string(), &ps, &g, &config).unwrap();
    assert_eq!(log.units.len(), 2);
    assert_eq!(log.units[0].package.name, "lib");
    assert_eq!(log.units[0].package.version, ver(1, 1, 0));
    assert_eq!(log.units[1].package.name, "app");
    assert_eq!(log.units[1].dep_outputs.len(), 1);
    assert_eq!(log.units[1].dep_outputs[0].package.name, "lib");
    assert_eq!(log.units[1].dep_outputs[0].package.version, ver(1, 1, 0));
}

#[test]
fn compile_returns_test_executables_of_selected_targets() {
    let root = package(
        "app",
        ver(0, 1, 0),
        vec![dep_any("lib")],
        vec![
            target("app", "compile", false),
            target("unit", "test", true),
            target("integration", "test", true),
        ],
    );
    let available = vec![package("lib", ver(1, 0, 0), vec![], vec![])];
    let names = compile(&root, &available, &None, &options("test")).unwrap();
    assert_eq!(names, vec!["unit".to_string(), "integration".to_string()]);
}

#[test]
fn compile_with_no_matching_targets_succeeds_with_nothing_to_run() {
    // Environment "compile" requested on a package with only test-environment
    // targets: the selection is empty, the build still succeeds, and there
    // is nothing to run.
    let root = package("app", ver(0, 1, 0), vec![], vec![target("unit", "test", true)]);
    let names = compile(&root, &vec![], &None, &options("compile")).unwrap();
    assert!(names.is_empty());
}

#[test]
fn compile_rejects_scalar_paths_configuration() {
    let root = package("app", ver(0, 1, 0), vec![], vec![]);
    let entry = Some(ConfigValue::Str("/work/lib".to_string()));
    let r = compile(&root, &vec![], &entry, &options("compile"));
    assert_eq!(r, Err(CompileError::ConfigType));
}

#[test]
fn compile_surfaces_resolution_failure() {
    let root = package("app", ver(0, 1, 0), vec![dep_any("nowhere")], vec![]);
    let r = compile(&root, &vec![], &None, &options("compile"));
    assert_eq!(r, Err(CompileError::Resolution { name: "nowhere".to_string() }));
}

#[test]
fn compile_rejects_dependency_cycle() {
    // Two packages that require each other; the resolver selects both and
    // the orchestrator's defensive check refuses the cyclic graph.
    let root = package("app", ver(0, 1, 0), vec![dep_any("ping")], vec![]);
    let available = vec![
        package("ping", ver(1, 0, 0), vec![dep_any("pong")], vec![]),
        package("pong", ver(1, 0, 0), vec![dep_any("ping")], vec![]),
    ];
    let r = compile(&root, &available, &None, &options("compile"));
    assert_eq!(r, Err(CompileError::CyclicDependency));
}

#[test]
fn compile_with_override_paths_uses_local_checkout() {
    let root = package(
        "app",
        ver(0, 1, 0),
        vec![dep_any("lib")],
        vec![target("unit", "test", true)],
    );
    let available = vec![
        package("lib", ver(2, 0, 0), vec![], vec![]),
        package_from("lib", ver(1, 0, 0), path_source("/work/lib"), vec![], vec![]),
    ];
    let entry = Some(ConfigValue::List(vec!["/work/lib".to_string()]));
    let names = compile(&root, &available, &entry, &options("test")).unwrap();
    assert_eq!(names, vec!["unit".to_string()]);
}
