//! The package registry boundary and the package set assembler. The registry
//! aggregates the packages obtainable from the project's declared sources
//! plus the override sources; the assembler materializes the concrete
//! `Package` for every identity in a resolved graph, all or nothing.

use vstd::prelude::*;
use crate::model::{views_of, Package, PackageV, PackageId, PackageIdV, SourceId};
use crate::errors::CompileError;
use crate::graph::ResolvedGraph;
use crate::seq_find::{first_where, lemma_first_where, lemma_first_where_is};

verus! {

/// The predicate "has identity `id`", as a stable function value.
pub open spec fn has_id(id: PackageIdV) -> spec_fn(PackageV) -> bool {
    |p: PackageV| p.id == id
}

/// The first package of `pkgs` with identity `id`, if any.
pub open spec fn find_package(pkgs: Seq<PackageV>, id: PackageIdV) -> Option<PackageV> {
    let i = first_where(pkgs, has_id(id));
    if i < pkgs.len() {
        Option::Some(pkgs[i])
    } else {
        Option::None
    }
}

/// Lookup of a resolved identity: the root package itself, or a package the
/// registry can supply.
pub open spec fn lookup_package(rootv: PackageV, avail: Seq<PackageV>, id: PackageIdV) -> Option<
    PackageV,
> {
    if rootv.id == id {
        Option::Some(rootv)
    } else {
        find_package(avail, id)
    }
}

/// Aggregates the concrete packages obtainable for one compile invocation,
/// together with the override sources that take precedence over a
/// package's declared sources.
pub struct PackageRegistry {
    pub packages: Vec<Package>,
    pub overrides: Vec<SourceId>,
}

impl PackageRegistry {
    pub open spec fn avail(self) -> Seq<PackageV> {
        views_of(self.packages@)
    }

    pub fn new(packages: Vec<Package>, overrides: Vec<SourceId>) -> (r: PackageRegistry)
        ensures
            r.avail() == views_of(packages@),
            views_of(r.overrides@) == views_of(overrides@),
    {
        PackageRegistry { packages, overrides }
    }

    /// The first package with the given identity, or `None` when the
    /// registry cannot supply that identity.
    pub fn get(&self, id: &PackageId) -> (r: Option<Package>)
        ensures
            match r {
                Option::Some(p) => find_package(self.avail(), id@) == Option::Some(p@),
                Option::None => find_package(self.avail(), id@) is None,
            },
    {
        let ghost pkgs = self.avail();
        let mut i: usize = 0;
        while i < self.packages.len()
            invariant
                i <= self.packages.len(),
                pkgs == self.avail(),
                forall|j: int| 0 <= j < i ==> !has_id(id@)(pkgs[j]),
            decreases self.packages.len() - i,
        {
            if self.packages[i].id.same_as(id) {
                let p = self.packages[i].dup();
                proof {
                    assert(has_id(id@)(pkgs[i as int]));
                    lemma_first_where_is(pkgs, has_id(id@), i as int);
                }
                return Some(p);
            }
            proof {
                assert(!has_id(id@)(pkgs[i as int]));
            }
            i = i + 1;
        }
        proof {
            crate::seq_find::lemma_first_where_none(pkgs, has_id(id@));
        }
        None
    }
}

/// The concrete packages of a resolved graph, indexed like the graph's
/// nodes. Built once per compile invocation and read-only afterward.
#[derive(Debug)]
pub struct PackageSet {
    pub packages: Vec<Package>,
}

/// Obtains the concrete package for every identity in the resolved graph.
/// Assembly is all-or-nothing: if any identity cannot be obtained, the
/// whole step fails with a fetch error naming the first such identity, and
/// no package set is returned.
pub fn assemble_packages(graph: &ResolvedGraph, root: &Package, registry: &PackageRegistry) -> (r:
    Result<PackageSet, CompileError>)
    ensures
        r is Ok <==> (forall|i: int|
            0 <= i < graph.node_ids().len() ==> lookup_package(
                root@,
                registry.avail(),
                #[trigger] graph.node_ids()[i],
            ) is Some),
        r matches Ok(ps) ==> {
            &&& views_of(ps.packages@).len() == graph.node_ids().len()
            &&& forall|i: int|
                0 <= i < graph.node_ids().len() ==> views_of(ps.packages@)[i] == lookup_package(
                    root@,
                    registry.avail(),
                    #[trigger] graph.node_ids()[i],
                ).unwrap()
        },
        r matches Err(e) ==> {
            let miss = first_where(
                graph.node_ids(),
                |id: PackageIdV| lookup_package(root@, registry.avail(), id) is None,
            );
            &&& 0 <= miss < graph.node_ids().len()
            &&& e matches CompileError::PackageFetch { missing } && missing@ == graph.node_ids()[miss]
        },
{
    let ghost nv = graph.node_ids();
    let ghost rootv = root@;
    let ghost avail = registry.avail();
    let ghost miss_pred = |id: PackageIdV| lookup_package(rootv, avail, id) is None;
    let mut out: Vec<Package> = Vec::new();
    let mut i: usize = 0;
    while i < graph.nodes.len()
        invariant
            i <= graph.nodes.len(),
            nv == graph.node_ids(),
            rootv == root@,
            avail == registry.avail(),
            miss_pred == (|id: PackageIdV| lookup_package(rootv, avail, id) is None),
            views_of(out@).len() == i as int,
            forall|j: int|
                0 <= j < i ==> lookup_package(rootv, avail, #[trigger] nv[j]) is Some,
            forall|j: int|
                0 <= j < i ==> views_of(out@)[j] == lookup_package(
                    rootv,
                    avail,
                    #[trigger] nv[j],
                ).unwrap(),
        decreases graph.nodes.len() - i,
    {
        let ghost prev = out@;
        let id = &graph.nodes[i];
        if root.id.same_as(id) {
            out.push(root.dup());
            proof {
                crate::model::lemma_views_push(prev, out@.last());
            }
        } else {
            match registry.get(id) {
                Option::Some(p) => {
                    out.push(p);
                    proof {
                        crate::model::lemma_views_push(prev, out@.last());
                    }
                },
                Option::None => {
                    proof {
                        assert(miss_pred(nv[i as int]));
                        assert(forall|j: int| 0 <= j < i ==> !miss_pred(nv[j]));
                        lemma_first_where_is(nv, miss_pred, i as int);
                    }
                    return Err(CompileError::PackageFetch { missing: graph.nodes[i].dup() });
                },
            }
        }
        i = i + 1;
    }
    Ok(PackageSet { packages: out })
}

} // verus!
