//! The build orchestrator: orders the resolved package graph topologically,
//! rejecting cycles, and drives one compilation per package from the leaves
//! to the root, handing each package the output locations of its direct
//! dependencies.

use vstd::prelude::*;
use vstd::pervasive::VecAdditionalExecFns;
use crate::model::{views_of, lemma_views_push, PackageId, PackageIdV, Target, TargetV};
use crate::config::Config;
use crate::errors::CompileError;
use crate::graph::{
    ResolvedGraph, is_topo_order, exists_topo_order, has_cycle, lemma_cyclic_graph_has_no_order,
    wf_edges, deps_come_first, lemma_deps_come_first_push,
};
use crate::registry::PackageSet;
use crate::seq_find::{first_where, lemma_first_where};
use crate::targets::{selected_targets, select_targets};

verus! {

/// Indices as mathematical integers.
pub open spec fn idx_view(o: Seq<usize>) -> Seq<int> {
    o.map_values(|u: usize| u as int)
}

/// How many entries of `s` are true.
pub open spec fn count_true(s: Seq<bool>) -> nat
    decreases s.len(),
{
    if s.len() == 0 {
        0
    } else {
        count_true(s.drop_last()) + if s.last() {
            1nat
        } else {
            0nat
        }
    }
}

proof fn lemma_count_true_le(s: Seq<bool>)
    ensures
        count_true(s) <= s.len(),
    decreases s.len(),
{
    if s.len() > 0 {
        lemma_count_true_le(s.drop_last());
    }
}

/// Setting a false entry to true raises the count by one.
proof fn lemma_count_true_update(s: Seq<bool>, i: int)
    requires
        0 <= i < s.len(),
        !s[i],
    ensures
        count_true(s.update(i, true)) == count_true(s) + 1,
    decreases s.len(),
{
    let t = s.update(i, true);
    if i == s.len() - 1 {
        assert(t.drop_last() =~= s.drop_last());
    } else {
        assert(t.drop_last() =~= s.drop_last().update(i, true));
        lemma_count_true_update(s.drop_last(), i);
    }
}

/// A full count means every entry is true.
proof fn lemma_count_true_full(s: Seq<bool>)
    requires
        count_true(s) == s.len(),
    ensures
        forall|i: int| 0 <= i < s.len() ==> s[i],
    decreases s.len(),
{
    if s.len() > 0 {
        lemma_count_true_le(s.drop_last());
        lemma_count_true_full(s.drop_last());
        assert forall|i: int| 0 <= i < s.len() implies s[i] by {
            if i < s.len() - 1 {
                assert(s.drop_last()[i]);
            }
        }
    }
}

/// Whether every dependency in `row` is already compiled.
fn row_ready(row: &Vec<usize>, done: &Vec<bool>) -> (r: bool)
    requires
        forall|k: int| 0 <= k < row@.len() ==> (#[trigger] row@[k]) < done@.len(),
    ensures
        r == forall|k: int| 0 <= k < row@.len() ==> done@[#[trigger] row@[k] as int],
{
    let mut k: usize = 0;
    while k < row.len()
        invariant
            k <= row.len(),
            forall|j: int| 0 <= j < row@.len() ==> (#[trigger] row@[j]) < done@.len(),
            forall|j: int| 0 <= j < k ==> done@[#[trigger] row@[j] as int],
        decreases row.len() - k,
    {
        if !done[row[k]] {
            return false;
        }
        k = k + 1;
    }
    true
}

/// The lowest-index package that is not yet compiled but whose direct
/// dependencies all are; `None` when no such package exists.
fn find_ready(graph: &ResolvedGraph, done: &Vec<bool>) -> (r: Option<usize>)
    requires
        graph.wf(),
        done@.len() == graph.nodes@.len(),
    ensures
        match r {
            Option::Some(i) => i < graph.nodes@.len() && !done@[i as int] && forall|e: int|
                0 <= e < graph.dep_edges()[i as int].len() ==> done@[#[trigger] graph.dep_edges()[i as int][e]],
            Option::None => forall|i: int|
                0 <= i < graph.nodes@.len() ==> done@[i] || exists|e: int|
                    0 <= e < graph.dep_edges()[i].len() && !done@[#[trigger] graph.dep_edges()[i][e]],
        },
{
    let ghost sed = graph.dep_edges();
    let mut i: usize = 0;
    while i < graph.edges.len()
        invariant
            i <= graph.edges.len(),
            graph.wf(),
            done@.len() == graph.nodes@.len(),
            sed == graph.dep_edges(),
            forall|j: int|
                0 <= j < i ==> done@[j] || exists|e: int|
                    0 <= e < sed[j].len() && !done@[#[trigger] sed[j][e]],
        decreases graph.edges.len() - i,
    {
        proof {
            assert(sed[i as int] == graph.edges@[i as int]@.map_values(|u: usize| u as int));
            assert forall|k: int|
                0 <= k < graph.edges@[i as int]@.len() implies (#[trigger] graph.edges@[i as int]@[k])
                < done@.len() by {
                assert(sed[i as int][k] == graph.edges@[i as int]@[k] as int);
                assert(0 <= sed[i as int][k] < sed.len());
            }
        }
        if !done[i] {
            let ready = row_ready(&graph.edges[i], done);
            if ready {
                proof {
                    assert forall|e: int|
                        0 <= e < sed[i as int].len() implies done@[#[trigger] sed[i as int][e]] by {
                        assert(sed[i as int][e] == graph.edges@[i as int]@[e] as int);
                    }
                }
                return Some(i);
            }
            proof {
                let k = choose|k: int|
                    0 <= k < graph.edges@[i as int]@.len()
                        && !done@[graph.edges@[i as int]@[k] as int];
                assert(sed[i as int][k] == graph.edges@[i as int]@[k] as int);
                assert(!done@[sed[i as int][k]]);
            }
        }
        i = i + 1;
    }
    None
}

/// Computes an order in which every package appears after all of its direct
/// dependencies, listing every package exactly once. Succeeds exactly when
/// such an order exists; a graph with a dependency cycle is rejected with
/// `CyclicDependency` instead of being walked.
pub fn topological_order(graph: &ResolvedGraph) -> (r: Result<Vec<usize>, CompileError>)
    requires
        graph.wf(),
    ensures
        r matches Ok(o) ==> is_topo_order(graph.dep_edges(), idx_view(o@)),
        r is Ok <==> exists_topo_order(graph.dep_edges()),
        r is Err ==> r matches Err(CompileError::CyclicDependency),
        has_cycle(graph.dep_edges()) ==> r is Err,
{
    let ghost sed = graph.dep_edges();
    let n = graph.nodes.len();
    let mut done: Vec<bool> = Vec::new();
    let mut j: usize = 0;
    while j < n
        invariant
            j <= n,
            done@.len() == j as int,
            forall|k: int| 0 <= k < j ==> !done@[k],
        decreases n - j,
    {
        done.push(false);
        j = j + 1;
    }
    proof {
        lemma_count_all_false(done@);
    }
    let mut order: Vec<usize> = Vec::new();
    while order.len() < n
        invariant
            graph.wf(),
            sed == graph.dep_edges(),
            n == graph.nodes@.len(),
            done@.len() == n as int,
            order@.len() <= n,
            count_true(done@) == order@.len(),
            forall|k: int|
                0 <= k < order@.len() ==> (#[trigger] order@[k] as int) < n && done@[order@[k] as int],
            forall|k1: int, k2: int| 0 <= k1 < k2 < order@.len() ==> order@[k1] != order@[k2],
            forall|i: int| 0 <= i < n && done@[i] ==> idx_view(order@).contains(i),
            deps_come_first(sed, idx_view(order@)),
        decreases n - order.len(),
    {
        match find_ready(graph, &done) {
            Option::Some(i) => {
                let ghost old_done = done@;
                let ghost old_order = order@;
                done.set(i, true);
                order.push(i);
                proof {
                    lemma_count_true_update(old_done, i as int);
                    assert(idx_view(order@) =~= idx_view(old_order).push(i as int));
                    assert forall|x: int|
                        0 <= x < n && done@[x] implies idx_view(order@).contains(x) by {
                        if x == i as int {
                            assert(idx_view(order@)[order@.len() - 1] == i as int);
                        } else {
                            assert(old_done[x]);
                            let w = choose|w: int|
                                0 <= w < idx_view(old_order).len() && idx_view(old_order)[w] == x;
                            assert(idx_view(order@)[w] == x);
                        }
                    }
                    assert forall|e: int|
                        0 <= e < sed[i as int].len() implies idx_view(old_order).contains(
                        #[trigger] sed[i as int][e],
                    ) by {
                        assert(0 <= sed[i as int][e] < n);
                        assert(old_done[sed[i as int][e]]);
                    }
                    lemma_deps_come_first_push(sed, idx_view(old_order), i as int);
                }
            },
            Option::None => {
                proof {
                    lemma_count_true_le(done@);
                    lemma_stuck_no_order(sed, done@, idx_view(order@));
                }
                return Err(CompileError::CyclicDependency);
            },
        }
    }
    proof {
        lemma_count_true_full(done@);
        assert(is_topo_order(sed, idx_view(order@))) by {
            assert forall|i: int| 0 <= i < sed.len() implies idx_view(order@).contains(i) by {
                assert(done@[i]);
            }
        }
        if has_cycle(sed) {
            lemma_cyclic_graph_has_no_order(sed);
        }
    }
    Ok(order)
}

/// Where the compiled artifacts of a package are found by its dependents.
/// The location is determined by the package's identity, so a package
/// shared by several dependents is compiled once and every dependent
/// receives the same location.
#[derive(Debug, PartialEq, Eq)]
pub struct OutputLocation {
    pub package: PackageId,
}

#[verifier::ext_equal]
pub struct OutputLocationV {
    pub package: PackageIdV,
}

impl View for OutputLocation {
    type V = OutputLocationV;

    open spec fn view(&self) -> OutputLocationV {
        OutputLocationV { package: self.package@ }
    }
}

/// One compilation: the package, its targets for the requested environment,
/// and the output locations of its direct dependencies, all of which were
/// compiled earlier in the log.
#[derive(Debug, PartialEq, Eq)]
pub struct BuildUnit {
    pub package: PackageId,
    pub targets: Vec<Target>,
    pub dep_outputs: Vec<OutputLocation>,
}

#[verifier::ext_equal]
pub struct BuildUnitV {
    pub package: PackageIdV,
    pub targets: Seq<TargetV>,
    pub dep_outputs: Seq<OutputLocationV>,
}

impl View for BuildUnit {
    type V = BuildUnitV;

    open spec fn view(&self) -> BuildUnitV {
        BuildUnitV {
            package: self.package@,
            targets: views_of(self.targets@),
            dep_outputs: views_of(self.dep_outputs@),
        }
    }
}

/// The compilations of one build, in the order they are issued.
#[derive(Debug, PartialEq, Eq)]
pub struct BuildLog {
    pub units: Vec<BuildUnit>,
}

/// Unit `u` compiles node `i`: it names that package, carries exactly the
/// node's targets for the requested environment, and hands over one output
/// location per direct dependency, each determined by the dependency's
/// identity.
pub open spec fn unit_matches(
    u: BuildUnitV,
    i: int,
    nodes: Seq<PackageIdV>,
    sed: Seq<Seq<int>>,
    pkgs: Seq<crate::model::PackageV>,
    env: Seq<char>,
) -> bool {
    &&& 0 <= i < nodes.len()
    &&& u.package == nodes[i]
    &&& u.targets == selected_targets(pkgs[i].targets, env)
    &&& u.dep_outputs.len() == sed[i].len()
    &&& forall|e: int|
        0 <= e < sed[i].len() ==> (#[trigger] u.dep_outputs[e]).package == nodes[sed[i][e]]
}

/// The log walks the graph in the order `o`, one unit per node.
pub open spec fn log_matches(
    units: Seq<BuildUnitV>,
    o: Seq<int>,
    nodes: Seq<PackageIdV>,
    sed: Seq<Seq<int>>,
    pkgs: Seq<crate::model::PackageV>,
    env: Seq<char>,
) -> bool {
    &&& units.len() == o.len()
    &&& forall|k: int|
        0 <= k < o.len() ==> unit_matches(#[trigger] units[k], o[k], nodes, sed, pkgs, env)
}

/// Drives compilation of the whole package graph: every package is compiled
/// exactly once, strictly after all of its direct dependencies, with its
/// target list filtered to the requested environment and with the output
/// locations of its direct dependencies handed forward. A graph with a
/// dependency cycle is rejected with `CyclicDependency` instead of being
/// walked. Packages with no matching targets still complete successfully.
pub fn compile_targets(
    env: &String,
    package_set: &PackageSet,
    graph: &ResolvedGraph,
    config: &Config,
) -> (r: Result<BuildLog, CompileError>)
    requires
        graph.wf(),
        views_of(package_set.packages@).len() == graph.node_ids().len(),
        forall|i: int|
            0 <= i < graph.node_ids().len() ==> (#[trigger] views_of(package_set.packages@)[i]).id
                == graph.node_ids()[i],
    ensures
        r matches Ok(log) ==> exists|o: Seq<int>|
            is_topo_order(graph.dep_edges(), o) && log_matches(
                views_of(log.units@),
                o,
                graph.node_ids(),
                graph.dep_edges(),
                views_of(package_set.packages@),
                env@,
            ),
        r is Ok <==> exists_topo_order(graph.dep_edges()),
        r is Err ==> r matches Err(CompileError::CyclicDependency),
        has_cycle(graph.dep_edges()) ==> r is Err,
{
    let ghost sed = graph.dep_edges();
    let ghost nodes_v = graph.node_ids();
    let ghost pkgs_v = views_of(package_set.packages@);
    let order = match topological_order(graph) {
        Ok(o) => o,
        Err(e) => {
            return Err(e);
        },
    };
    let mut units: Vec<BuildUnit> = Vec::new();
    let mut k: usize = 0;
    while k < order.len()
        invariant
            graph.wf(),
            sed == graph.dep_edges(),
            nodes_v == graph.node_ids(),
            pkgs_v == views_of(package_set.packages@),
            pkgs_v.len() == nodes_v.len(),
            forall|i: int| 0 <= i < nodes_v.len() ==> (#[trigger] pkgs_v[i]).id == nodes_v[i],
            is_topo_order(sed, idx_view(order@)),
            k <= order.len(),
            views_of(units@).len() == k as int,
            forall|k2: int|
                0 <= k2 < k ==> unit_matches(
                    #[trigger] views_of(units@)[k2],
                    idx_view(order@)[k2],
                    nodes_v,
                    sed,
                    pkgs_v,
                    env@,
                ),
        decreases order.len() - k,
    {
        let i = order[k];
        proof {
            assert(idx_view(order@)[k as int] == i as int);
            assert(0 <= (i as int) && (i as int) < sed.len());
            assert(sed[i as int] == graph.edges@[i as int]@.map_values(|u: usize| u as int));
        }
        let targets = select_targets(&package_set.packages[i].targets, env);
        let mut outs: Vec<OutputLocation> = Vec::new();
        let row_len = graph.edges[i].len();
        let mut e: usize = 0;
        while e < row_len
            invariant
                graph.wf(),
                sed == graph.dep_edges(),
                nodes_v == graph.node_ids(),
                i < sed.len(),
                row_len == sed[i as int].len(),
                row_len == graph.edges@[i as int]@.len(),
                e <= row_len,
                views_of(outs@).len() == e as int,
                forall|e2: int|
                    0 <= e2 < e ==> (#[trigger] views_of(outs@)[e2]).package == nodes_v[sed[i as int][e2]],
            decreases row_len - e,
        {
            let ghost prev = outs@;
            let j = graph.edges[i][e];
            proof {
                assert(sed[i as int][e as int] == graph.edges@[i as int]@[e as int] as int);
                assert(0 <= sed[i as int][e as int] < sed.len());
            }
            outs.push(OutputLocation { package: graph.nodes[j].dup() });
            proof {
                lemma_views_push(prev, outs@.last());
            }
            e = e + 1;
        }
        let ghost prev_units = units@;
        units.push(BuildUnit { package: graph.nodes[i].dup(), targets, dep_outputs: outs });
        proof {
            lemma_views_push(prev_units, units@.last());
            assert(unit_matches(
                views_of(units@)[k as int],
                idx_view(order@)[k as int],
                nodes_v,
                sed,
                pkgs_v,
                env@,
            ));
        }
        k = k + 1;
    }
    proof {
        assert(log_matches(views_of(units@), idx_view(order@), nodes_v, sed, pkgs_v, env@));
    }
    Ok(BuildLog { units })
}

proof fn lemma_count_all_false(s: Seq<bool>)
    requires
        forall|i: int| 0 <= i < s.len() ==> !s[i],
    ensures
        count_true(s) == 0,
    decreases s.len(),
{
    if s.len() > 0 {
        lemma_count_all_false(s.drop_last());
    }
}

/// When every remaining package still has an uncompiled dependency, no
/// topological order of the whole graph exists: the first remaining node in
/// any candidate order would need a remaining dependency before it.
proof fn lemma_stuck_no_order(sed: Seq<Seq<int>>, done: Seq<bool>, emitted: Seq<int>)
    requires
        wf_edges(sed),
        done.len() == sed.len(),
        count_true(done) < sed.len(),
        forall|i: int| 0 <= i < done.len() && done[i] ==> emitted.contains(i),
        forall|i: int|
            0 <= i < sed.len() ==> done[i] || exists|e: int|
                0 <= e < sed[i].len() && !done[#[trigger] sed[i][e]],
    ensures
        !exists_topo_order(sed),
{
    let remaining = |x: int| 0 <= x < done.len() && !done[x];
    assert(exists|i: int| 0 <= i < done.len() && !(#[trigger] done[i])) by {
        if forall|i: int| 0 <= i < done.len() ==> #[trigger] done[i] {
            lemma_all_true_count(done);
        }
    }
    assert forall|o: Seq<int>| !is_topo_order(sed, o) by {
        if is_topo_order(sed, o) {
            let some_r = choose|i: int| 0 <= i < done.len() && !(#[trigger] done[i]);
            assert(remaining(some_r));
            assert(o.contains(some_r));
            let w = choose|w: int| 0 <= w < o.len() && o[w] == some_r;
            assert(remaining(o[w]));
            let f = first_where(o, remaining);
            lemma_first_where(o, remaining);
            assert(f < o.len());
            let i = o[f];
            assert(!done[i]);
            let e = choose|e: int| 0 <= e < sed[i].len() && !done[#[trigger] sed[i][e]];
            assert(crate::graph::dep_listed_before(sed, o, f, e));
            let k2 = choose|k2: int| 0 <= k2 < f && o[k2] == sed[o[f]][e];
            assert(!remaining(o[k2]));
            assert(done[sed[i][e]]);
        }
    }
}

proof fn lemma_all_true_count(s: Seq<bool>)
    requires
        forall|i: int| 0 <= i < s.len() ==> #[trigger] s[i],
    ensures
        count_true(s) == s.len(),
    decreases s.len(),
{
    if s.len() > 0 {
        lemma_all_true_count(s.drop_last());
    }
}

} // verus!
