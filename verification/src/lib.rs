//! Build orchestration: resolve a project's dependency requirements to one
//! consistent set of package identities, assemble the concrete packages,
//! select the build targets for the requested environment, and drive
//! compilation of the package graph in dependency order.

pub mod config;
pub mod errors;
pub mod graph;
pub mod model;
pub mod orchestrator;
pub mod registry;
pub mod resolver;
pub mod seq_find;
pub mod targets;

use vstd::prelude::*;
use crate::config::{source_ids_from_config, override_sources, config_entry_view, Config,
    ConfigValue};
use crate::errors::CompileError;
use crate::graph::exists_topo_order;
use crate::model::{views_of, dup_packages, Package};
use crate::orchestrator::compile_targets;
use crate::registry::{assemble_packages, has_id, lookup_package, PackageRegistry};
use crate::resolver::{
    resolve, resolution_of, selection_of, selection_edges, lemma_graph_determined,
};
use crate::seq_find::{lemma_first_where, lemma_first_where_exists};
use crate::targets::{select_targets, test_executables, selected_targets, test_target_names};

verus! {

/// What one build invocation asks for: the requested environment, whether
/// sources should be refreshed first, an optional bound on parallel
/// compilations, and an optional target-platform override.
pub struct CompileOptions {
    pub update: bool,
    pub env: String,
    pub jobs: Option<u64>,
    pub target: Option<String>,
}

/// Builds one project: computes the override sources from configuration,
/// resolves the dependency graph against the available packages, obtains
/// the concrete package for every selected identity, drives compilation of
/// the whole graph in dependency order, and returns the names of the
/// selected targets that are test executables.
///
/// The outcome is a function of the inputs alone: a scalar-shaped "paths"
/// configuration entry fails with `ConfigType`; an unsatisfiable
/// requirement fails with `Resolution` naming it; a dependency cycle in
/// the resolved graph fails with `CyclicDependency`; otherwise the build
/// succeeds and yields the test-executable names of the root's targets for
/// the requested environment, in declaration order.
pub fn compile(
    root: &Package,
    available: &Vec<Package>,
    config_paths: &Option<ConfigValue>,
    options: &CompileOptions,
) -> (r: Result<Vec<String>, CompileError>)
    ensures
        (*config_paths matches Option::Some(ConfigValue::Str(_))) <==> r == Err::<
            Vec<String>,
            CompileError,
        >(CompileError::ConfigType),
        !(*config_paths matches Option::Some(ConfigValue::Str(_))) ==> ({
            let ovs = override_sources(config_entry_view(*config_paths));
            let res = resolution_of(root@, views_of(available@), ovs);
            &&& (res matches Err(n) ==> r matches Err(e) && e matches CompileError::Resolution {
                name,
            } && name@ == n)
            &&& (res matches Ok(sel) ==> {
                &&& (exists_topo_order(selection_edges(sel, ovs)) ==> (r matches Ok(names)
                    && views_of(names@) == test_target_names(
                    selected_targets(views_of(root.targets@), options.env@),
                )))
                &&& (!exists_topo_order(selection_edges(sel, ovs)) ==> r == Err::<
                    Vec<String>,
                    CompileError,
                >(CompileError::CyclicDependency))
            })
        }),
{
    let override_ids = match source_ids_from_config(config_paths) {
        Ok(v) => v,
        Err(e) => {
            return Err(e);
        },
    };
    let ghost ovs = override_sources(config_entry_view(*config_paths));
    let registry = PackageRegistry::new(dup_packages(available), override_ids);
    proof {
        assert(registry.avail() == views_of(available@));
        assert(views_of(registry.overrides@) == ovs);
    }
    let resolved = match resolve(root, &registry) {
        Ok(g) => g,
        Err(e) => {
            return Err(e);
        },
    };
    let ghost sel = selection_of(root@, views_of(available@), ovs);
    proof {
        lemma_graph_determined(resolved, sel, ovs);
        // Every selected identity can be obtained: the root is itself, and
        // every other selected package is one the registry offers.
        assert forall|i: int|
            0 <= i < resolved.node_ids().len() implies lookup_package(
            root@,
            registry.avail(),
            #[trigger] resolved.node_ids()[i],
        ) is Some by {
            assert(resolved.node_ids()[i] == sel[i].id);
            if root@.id != sel[i].id {
                assert(i >= 1) by {
                    assert(sel[0] == root@);
                }
                let w = choose|w: int|
                    0 <= w < registry.avail().len() && registry.avail()[w] == sel[i];
                assert(has_id(sel[i].id)(registry.avail()[w]));
                lemma_first_where_exists(registry.avail(), has_id(sel[i].id), w);
            }
        }
    }
    let package_set = match assemble_packages(&resolved, root, &registry) {
        Ok(ps) => ps,
        Err(e) => {
            // Never reached: every selected identity was shown obtainable
            // just above, and assembly succeeds exactly then.
            proof {
                assert(false);
            }
            return Err(e);
        },
    };
    proof {
        assert forall|i: int|
            0 <= i < resolved.node_ids().len() implies (#[trigger] views_of(
            package_set.packages@,
        )[i]).id == resolved.node_ids()[i] by {
            let id = resolved.node_ids()[i];
            if root@.id == id {
            } else {
                lemma_first_where(registry.avail(), has_id(id));
            }
        }
    }
    let targets = select_targets(&root.targets, &options.env);
    let platform = match &options.target {
        Option::Some(s) => Option::Some(s.clone()),
        Option::None => Option::None,
    };
    let build_config = Config::new(options.update, options.jobs, platform);
    match compile_targets(&options.env, &package_set, &resolved, &build_config) {
        Ok(_log) => {},
        Err(e) => {
            return Err(e);
        },
    };
    let names = test_executables(&targets);
    Ok(names)
}

} // verus!
