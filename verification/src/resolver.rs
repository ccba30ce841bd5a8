//! Dependency resolution: computes one concrete, mutually-consistent
//! assignment of package name to resolved package for the whole transitive
//! graph of the root's requirements. The selection policy is deterministic:
//! for the requirement that first introduces a name, the candidate from an
//! override source is preferred, and among candidates of the same standing
//! the highest version wins; every later requirement on that name must be
//! satisfied by the package already selected.

use vstd::prelude::*;
use crate::model::{
    views_of, lemma_views_push, Package, PackageV, Dependency, DependencyV, SourceId, SourceIdV,
};
use crate::errors::CompileError;
use crate::registry::PackageRegistry;
use crate::seq_find::{first_where, lemma_first_where, lemma_first_where_is, lemma_first_where_none};

verus! {

/// Whether `s` is one of the sources in `list`.
pub open spec fn source_in(s: SourceIdV, list: Seq<SourceIdV>) -> bool {
    exists|i: int| 0 <= i < list.len() && list[i] == s
}

/// A package source is acceptable for a requirement when it is an override
/// source, when the requirement declares no candidate sources (any source
/// is acceptable), or when it is one of the declared candidates.
pub open spec fn source_allowed(s: SourceIdV, declared: Seq<SourceIdV>, ov: Seq<SourceIdV>) -> bool {
    source_in(s, ov) || declared.len() == 0 || source_in(s, declared)
}

/// Package `p` satisfies requirement `d`: same name, version within the
/// constraint, source acceptable.
pub open spec fn dep_match(p: PackageV, d: DependencyV, ov: Seq<SourceIdV>) -> bool {
    &&& p.id.name == d.name
    &&& d.req.spec_matches(p.id.version)
    &&& source_allowed(p.id.source, d.sources, ov)
}

/// The predicate "satisfies requirement `d`", as a stable function value.
pub open spec fn matches_dep(d: DependencyV, ov: Seq<SourceIdV>) -> spec_fn(PackageV) -> bool {
    |p: PackageV| dep_match(p, d, ov)
}

/// The predicate "is named `n`", as a stable function value.
pub open spec fn named(n: Seq<char>) -> spec_fn(PackageV) -> bool {
    |p: PackageV| p.id.name == n
}

/// Selection preference: a candidate from an override source beats one from
/// a declared source; between candidates of the same standing the higher
/// version wins.
pub open spec fn better_candidate(p: PackageV, q: PackageV, ov: Seq<SourceIdV>) -> bool {
    ||| (source_in(p.id.source, ov) && !source_in(q.id.source, ov))
    ||| (source_in(p.id.source, ov) == source_in(q.id.source, ov) && q.id.version.spec_lt(
        p.id.version,
    ))
}

/// The preferred candidate for requirement `d` among the first packages of
/// `avail`: the earliest candidate that no later candidate strictly beats.
pub open spec fn best_candidate(
    avail: Seq<PackageV>,
    d: DependencyV,
    ov: Seq<SourceIdV>,
) -> Option<PackageV>
    decreases avail.len(),
{
    if avail.len() == 0 {
        Option::None
    } else {
        let prev = best_candidate(avail.drop_last(), d, ov);
        let p = avail.last();
        if !dep_match(p, d, ov) {
            prev
        } else {
            match prev {
                Option::None => Option::Some(p),
                Option::Some(q) => if better_candidate(p, q, ov) {
                    Option::Some(p)
                } else {
                    Option::Some(q)
                },
            }
        }
    }
}

/// What the chosen candidate guarantees: it satisfies the requirement, it
/// is one of the available packages, and no available candidate strictly
/// beats it — in particular no satisfying candidate of the same standing
/// has a higher version.
pub proof fn lemma_best_candidate(avail: Seq<PackageV>, d: DependencyV, ov: Seq<SourceIdV>)
    ensures
        match best_candidate(avail, d, ov) {
            Option::None => forall|i: int|
                0 <= i < avail.len() ==> !dep_match(#[trigger] avail[i], d, ov),
            Option::Some(p) => {
                &&& dep_match(p, d, ov)
                &&& exists|i: int| 0 <= i < avail.len() && avail[i] == p
                &&& forall|i: int|
                    0 <= i < avail.len() && dep_match(#[trigger] avail[i], d, ov)
                        ==> !better_candidate(avail[i], p, ov)
            },
        },
    decreases avail.len(),
{
    if avail.len() > 0 {
        lemma_best_candidate(avail.drop_last(), d, ov);
        let prev = best_candidate(avail.drop_last(), d, ov);
        let last = avail.last();
        assert forall|i: int| 0 <= i < avail.len() - 1 implies avail[i]
            == avail.drop_last()[i] by {}
        match best_candidate(avail, d, ov) {
            Option::None => {
            },
            Option::Some(p) => {
                match prev {
                    Option::Some(q) => {
                        assert(exists|i: int|
                            0 <= i < avail.len() - 1 && avail.drop_last()[i] == q);
                        let w = choose|i: int|
                            0 <= i < avail.len() - 1 && avail.drop_last()[i] == q;
                        assert(avail[w] == q);
                    },
                    Option::None => {
                    },
                }
                assert(avail[avail.len() - 1] == last);
            },
        }
    }
}

/// Whether some already-selected package satisfies `d`.
pub open spec fn has_match(sel: Seq<PackageV>, d: DependencyV, ov: Seq<SourceIdV>) -> bool {
    exists|j: int| 0 <= j < sel.len() && dep_match(#[trigger] sel[j], d, ov)
}

fn source_in_exec(s: &SourceId, list: &Vec<SourceId>) -> (r: bool)
    ensures
        r == source_in(s@, views_of(list@)),
{
    let ghost lv = views_of(list@);
    let mut i: usize = 0;
    while i < list.len()
        invariant
            i <= list.len(),
            lv == views_of(list@),
            forall|j: int| 0 <= j < i ==> lv[j] != s@,
        decreases list.len() - i,
    {
        if list[i].same_as(s) {
            proof {
                assert(lv[i as int] == s@);
            }
            return true;
        }
        i = i + 1;
    }
    false
}

fn dep_match_exec(p: &Package, d: &Dependency, overrides: &Vec<SourceId>) -> (r: bool)
    ensures
        r == dep_match(p@, d@, views_of(overrides@)),
{
    if p.id.name != d.name {
        return false;
    }
    if !d.req.matches(&p.id.version) {
        return false;
    }
    if source_in_exec(&p.id.source, overrides) {
        return true;
    }
    if d.sources.len() == 0 {
        return true;
    }
    source_in_exec(&p.id.source, &d.sources)
}

fn better_exec(p: &Package, q: &Package, overrides: &Vec<SourceId>) -> (r: bool)
    ensures
        r == better_candidate(p@, q@, views_of(overrides@)),
{
    let p_ov = source_in_exec(&p.id.source, overrides);
    let q_ov = source_in_exec(&q.id.source, overrides);
    (p_ov && !q_ov) || (p_ov == q_ov && q.id.version.lt(&p.id.version))
}

/// The index of the preferred candidate for `d` among `packages`, if any
/// candidate satisfies `d` at all.
fn pick_candidate(packages: &Vec<Package>, d: &Dependency, overrides: &Vec<SourceId>) -> (r: Option<
    usize,
>)
    ensures
        match r {
            Option::Some(i) => i < packages@.len() && best_candidate(
                views_of(packages@),
                d@,
                views_of(overrides@),
            ) == Option::Some(views_of(packages@)[i as int]),
            Option::None => best_candidate(views_of(packages@), d@, views_of(overrides@)) is None,
        },
{
    let ghost avail = views_of(packages@);
    let ghost ov = views_of(overrides@);
    let mut best: Option<usize> = None;
    let mut i: usize = 0;
    while i < packages.len()
        invariant
            i <= packages.len(),
            avail == views_of(packages@),
            ov == views_of(overrides@),
            match best {
                Option::Some(b) => b < i && best_candidate(avail.take(i as int), d@, ov)
                    == Option::Some(avail[b as int]),
                Option::None => best_candidate(avail.take(i as int), d@, ov) is None,
            },
        decreases packages.len() - i,
    {
        proof {
            assert(avail.take(i + 1 as int).drop_last() =~= avail.take(i as int));
            assert(avail.take(i + 1 as int).last() == avail[i as int]);
        }
        let matched = dep_match_exec(&packages[i], d, overrides);
        if matched {
            match best {
                Option::None => {
                    best = Some(i);
                },
                Option::Some(b) => {
                    if better_exec(&packages[i], &packages[b], overrides) {
                        best = Some(i);
                    }
                },
            }
        }
        i = i + 1;
    }
    proof {
        assert(avail.take(packages@.len() as int) =~= avail);
    }
    best
}

/// The names of a set of packages.
pub open spec fn names_of(pkgs: Seq<PackageV>) -> Set<Seq<char>> {
    pkgs.map_values(|p: PackageV| p.id.name).to_set()
}

/// How many available package names are not yet selected; the resolution
/// measure.
pub open spec fn unsel_count(avail: Seq<PackageV>, sel: Seq<PackageV>) -> nat {
    names_of(avail).difference(names_of(sel)).len()
}

/// Selecting an available package with a fresh name shrinks the measure.
pub proof fn lemma_select_decreases(avail: Seq<PackageV>, sel: Seq<PackageV>, p: PackageV)
    requires
        exists|i: int| 0 <= i < avail.len() && avail[i] == p,
        forall|j: int| 0 <= j < sel.len() ==> (#[trigger] sel[j]).id.name != p.id.name,
    ensures
        unsel_count(avail, sel.push(p)) < unsel_count(avail, sel),
{
    broadcast use vstd::seq_lib::seq_to_set_is_finite;

    let name_of = |x: PackageV| x.id.name;
    let an = avail.map_values(name_of);
    let sn = sel.map_values(name_of);
    let i = choose|i: int| 0 <= i < avail.len() && avail[i] == p;
    assert(an[i] == p.id.name);
    assert(an.to_set().contains(p.id.name));
    assert(!sn.to_set().contains(p.id.name)) by {
        if sn.to_set().contains(p.id.name) {
            let j = choose|j: int| 0 <= j < sn.len() && sn[j] == p.id.name;
            assert(sel[j].id.name == p.id.name);
        }
    }
    sel.lemma_push_map_commute(name_of, p);
    sn.lemma_push_to_set_commute(p.id.name);
    assert(names_of(sel.push(p)) =~= names_of(sel).insert(p.id.name));
    an.to_set().lemma_set_insert_diff_decreases(sn.to_set(), p.id.name);
}

/// One consistent selection for the whole queue of requirements, processed
/// in order. A requirement whose name is already selected must be satisfied
/// by that selection; a fresh name selects the preferred available
/// candidate and enqueues its own requirements. Fails with the name of the
/// first requirement that cannot be satisfied.
pub open spec fn resolve_queue(
    queue: Seq<DependencyV>,
    sel: Seq<PackageV>,
    avail: Seq<PackageV>,
    ov: Seq<SourceIdV>,
) -> Result<Seq<PackageV>, Seq<char>>
    decreases unsel_count(avail, sel), queue.len(),
{
    if queue.len() == 0 {
        Ok(sel)
    } else {
        let d = queue[0];
        let f = first_where(sel, named(d.name));
        if f < sel.len() {
            if dep_match(sel[f], d, ov) {
                resolve_queue(queue.drop_first(), sel, avail, ov)
            } else {
                Err(d.name)
            }
        } else {
            match best_candidate(avail, d, ov) {
                Option::None => Err(d.name),
                Option::Some(p) => {
                    proof {
                        lemma_best_candidate(avail, d, ov);
                        lemma_first_where(sel, named(d.name));
                        assert forall|j: int|
                            0 <= j < sel.len() implies (#[trigger] sel[j]).id.name
                            != p.id.name by {
                            assert(!named(d.name)(sel[j]));
                        }
                        lemma_select_decreases(avail, sel, p);
                    }
                    resolve_queue(queue.drop_first() + p.dependencies, sel.push(p), avail, ov)
                },
            }
        }
    }
}

/// The resolution of a root package against what a registry can supply:
/// the root is pre-selected and its requirements seed the queue.
pub open spec fn resolution_of(
    root: PackageV,
    avail: Seq<PackageV>,
    ov: Seq<SourceIdV>,
) -> Result<Seq<PackageV>, Seq<char>> {
    resolve_queue(root.dependencies, seq![root], avail, ov)
}

/// Some requirement value of some selected package is `d`.
pub open spec fn dep_of_selected(sel: Seq<PackageV>, d: DependencyV) -> bool {
    exists|j: int, k: int|
        0 <= j < sel.len() && 0 <= k < sel[j].dependencies.len() && #[trigger] sel[j].dependencies[k]
            == d
}

/// `d` is still waiting in the queue.
pub open spec fn in_queue(q: Seq<DependencyV>, d: DependencyV) -> bool {
    exists|t: int| 0 <= t < q.len() && q[t] == d
}

/// No available candidate for `d` strictly beats `p`.
pub open spec fn max_among(
    avail: Seq<PackageV>,
    d: DependencyV,
    ov: Seq<SourceIdV>,
    p: PackageV,
) -> bool {
    forall|w: int|
        0 <= w < avail.len() && dep_match(#[trigger] avail[w], d, ov) ==> !better_candidate(
            avail[w],
            p,
            ov,
        )
}

/// Package `i` of the selection was introduced by some requirement of the
/// graph that it satisfies, and no available candidate for that requirement
/// beats it: the "preferred candidate" policy, visible per selected
/// package.
pub open spec fn introduced_well(
    sel: Seq<PackageV>,
    avail: Seq<PackageV>,
    ov: Seq<SourceIdV>,
    i: int,
) -> bool {
    exists|j: int, k: int|
        0 <= j < sel.len() && 0 <= k < sel[j].dependencies.len() && dep_match(
            sel[i],
            #[trigger] sel[j].dependencies[k],
            ov,
        ) && max_among(avail, sel[j].dependencies[k], ov, sel[i])
}

/// What a successful resolution guarantees of the selection.
pub open spec fn resolution_wf(
    root: PackageV,
    avail: Seq<PackageV>,
    ov: Seq<SourceIdV>,
    sel: Seq<PackageV>,
) -> bool {
    &&& sel.len() >= 1
    &&& sel[0] == root
    &&& forall|i: int, j: int|
        0 <= i < j < sel.len() ==> (#[trigger] sel[i]).id.name != (#[trigger] sel[j]).id.name
    &&& forall|i: int|
        1 <= i < sel.len() ==> exists|w: int| 0 <= w < avail.len() && avail[w] == #[trigger] sel[i]
    &&& forall|i: int, k: int|
        0 <= i < sel.len() && 0 <= k < sel[i].dependencies.len() ==> has_match(
            sel,
            #[trigger] sel[i].dependencies[k],
            ov,
        )
    &&& forall|i: int| 1 <= i < sel.len() ==> introduced_well(sel, avail, ov, i)
}

/// The index of the first selected package satisfying `d`; `sel.len()`
/// when none does.
pub open spec fn satisfier_index(sel: Seq<PackageV>, d: DependencyV, ov: Seq<SourceIdV>) -> int {
    first_where(sel, matches_dep(d, ov))
}

/// The graph value `g` represents the selection `sel`: node `i` is the
/// identity of the `i`-th selected package, and edge `k` of node `i` points
/// at the selected package satisfying the `k`-th requirement of package
/// `i`.
pub open spec fn graph_represents(
    g: crate::graph::ResolvedGraph,
    sel: Seq<PackageV>,
    ov: Seq<SourceIdV>,
) -> bool {
    &&& g.node_ids().len() == sel.len()
    &&& forall|i: int| 0 <= i < sel.len() ==> g.node_ids()[i] == (#[trigger] sel[i]).id
    &&& g.dep_edges().len() == sel.len()
    &&& forall|i: int|
        0 <= i < sel.len() ==> (#[trigger] g.dep_edges()[i]).len() == sel[i].dependencies.len()
    &&& forall|i: int, k: int|
        0 <= i < sel.len() && 0 <= k < sel[i].dependencies.len() ==> #[trigger] g.dep_edges()[i][k]
            == satisfier_index(sel, sel[i].dependencies[k], ov)
}

/// Every requirement of every selected package either is satisfied by a
/// selected package already or still waits in the queue.
pub open spec fn deps_covered(sel: Seq<PackageV>, q: Seq<DependencyV>, ov: Seq<SourceIdV>) -> bool {
    forall|i: int, k: int|
        0 <= i < sel.len() && 0 <= k < sel[i].dependencies.len() ==> has_match(
            sel,
            #[trigger] sel[i].dependencies[k],
            ov,
        ) || in_queue(q, sel[i].dependencies[k])
}

/// Every queued requirement is a requirement of some selected package.
pub open spec fn queue_from_selected(sel: Seq<PackageV>, q: Seq<DependencyV>) -> bool {
    forall|t: int| 0 <= t < q.len() ==> dep_of_selected(sel, #[trigger] q[t])
}

/// No two selected packages share a name.
pub open spec fn distinct_names(sel: Seq<PackageV>) -> bool {
    forall|i: int, j: int|
        0 <= i < j < sel.len() ==> (#[trigger] sel[i]).id.name != (#[trigger] sel[j]).id.name
}

/// Every selected package but the root is one the registry offers.
pub open spec fn from_avail(sel: Seq<PackageV>, avail: Seq<PackageV>) -> bool {
    forall|i: int|
        1 <= i < sel.len() ==> exists|w: int| 0 <= w < avail.len() && avail[w] == #[trigger] sel[i]
}

pub open spec fn all_introduced_well(
    sel: Seq<PackageV>,
    avail: Seq<PackageV>,
    ov: Seq<SourceIdV>,
) -> bool {
    forall|i: int| 1 <= i < sel.len() ==> introduced_well(sel, avail, ov, i)
}

proof fn lemma_has_match_push(sel: Seq<PackageV>, p: PackageV, d: DependencyV, ov: Seq<SourceIdV>)
    requires
        has_match(sel, d, ov),
    ensures
        has_match(sel.push(p), d, ov),
{
    let j = choose|j: int| 0 <= j < sel.len() && dep_match(#[trigger] sel[j], d, ov);
    assert(sel.push(p)[j] == sel[j]);
}

/// Consuming a queued requirement that a selected package satisfies keeps
/// the bookkeeping intact.
proof fn lemma_step_existing(sel: Seq<PackageV>, old_q: Seq<DependencyV>, ov: Seq<SourceIdV>)
    requires
        old_q.len() > 0,
        deps_covered(sel, old_q, ov),
        queue_from_selected(sel, old_q),
        has_match(sel, old_q[0], ov),
    ensures
        deps_covered(sel, old_q.drop_first(), ov),
        queue_from_selected(sel, old_q.drop_first()),
{
    let q2 = old_q.drop_first();
    assert forall|i: int, k: int|
        0 <= i < sel.len() && 0 <= k < sel[i].dependencies.len() implies has_match(
        sel,
        #[trigger] sel[i].dependencies[k],
        ov,
    ) || in_queue(q2, sel[i].dependencies[k]) by {
        let d = sel[i].dependencies[k];
        if !has_match(sel, d, ov) {
            let t = choose|t: int| 0 <= t < old_q.len() && old_q[t] == d;
            if t == 0 {
                assert(has_match(sel, d, ov));
            } else {
                assert(q2[t - 1] == d);
            }
        }
    }
    assert forall|t: int| 0 <= t < q2.len() implies dep_of_selected(sel, #[trigger] q2[t]) by {
        assert(q2[t] == old_q[t + 1]);
    }
}

/// Selecting a fresh-named candidate and enqueuing its requirements keeps
/// the bookkeeping intact.
proof fn lemma_step_select(
    sel: Seq<PackageV>,
    old_q: Seq<DependencyV>,
    avail: Seq<PackageV>,
    ov: Seq<SourceIdV>,
    p: PackageV,
)
    requires
        old_q.len() > 0,
        deps_covered(sel, old_q, ov),
        queue_from_selected(sel, old_q),
        distinct_names(sel),
        from_avail(sel, avail),
        all_introduced_well(sel, avail, ov),
        dep_match(p, old_q[0], ov),
        max_among(avail, old_q[0], ov, p),
        exists|w: int| 0 <= w < avail.len() && avail[w] == p,
        forall|j: int| 0 <= j < sel.len() ==> (#[trigger] sel[j]).id.name != p.id.name,
    ensures
        deps_covered(sel.push(p), old_q.drop_first() + p.dependencies, ov),
        queue_from_selected(sel.push(p), old_q.drop_first() + p.dependencies),
        distinct_names(sel.push(p)),
        from_avail(sel.push(p), avail),
        all_introduced_well(sel.push(p), avail, ov),
{
    let s2 = sel.push(p);
    let q2 = old_q.drop_first() + p.dependencies;
    let n0 = old_q.len() - 1;
    assert(s2[sel.len() as int] == p);
    assert forall|i: int, k: int|
        0 <= i < s2.len() && 0 <= k < s2[i].dependencies.len() implies has_match(
        s2,
        #[trigger] s2[i].dependencies[k],
        ov,
    ) || in_queue(q2, s2[i].dependencies[k]) by {
        if i < sel.len() {
            assert(s2[i] == sel[i]);
            let d = sel[i].dependencies[k];
            if has_match(sel, d, ov) {
                lemma_has_match_push(sel, p, d, ov);
            } else {
                let t = choose|t: int| 0 <= t < old_q.len() && old_q[t] == d;
                if t == 0 {
                    assert(dep_match(s2[sel.len() as int], d, ov));
                    assert(has_match(s2, d, ov));
                } else {
                    assert(q2[t - 1] == d);
                }
            }
        } else {
            assert(s2[i] == p);
            assert(q2[n0 + k] == p.dependencies[k]);
        }
    }
    assert forall|t: int| 0 <= t < q2.len() implies dep_of_selected(s2, #[trigger] q2[t]) by {
        if t < n0 {
            assert(q2[t] == old_q[t + 1]);
            assert(dep_of_selected(sel, old_q[t + 1]));
            let (j, k) = choose|j: int, k: int|
                0 <= j < sel.len() && 0 <= k < sel[j].dependencies.len()
                    && #[trigger] sel[j].dependencies[k] == old_q[t + 1];
            assert(s2[j] == sel[j]);
            assert(s2[j].dependencies[k] == q2[t]);
        } else {
            assert(q2[t] == p.dependencies[t - n0]);
            assert(s2[sel.len() as int].dependencies[t - n0] == q2[t]);
        }
    }
    assert forall|i: int| 1 <= i < s2.len() implies introduced_well(s2, avail, ov, i) by {
        if i < sel.len() {
            assert(introduced_well(sel, avail, ov, i));
            let (j, k) = choose|j: int, k: int|
                0 <= j < sel.len() && 0 <= k < sel[j].dependencies.len() && dep_match(
                    sel[i],
                    #[trigger] sel[j].dependencies[k],
                    ov,
                ) && max_among(avail, sel[j].dependencies[k], ov, sel[i]);
            assert(s2[j] == sel[j] && s2[i] == sel[i]);
            assert(s2[j].dependencies[k] == sel[j].dependencies[k]);
        } else {
            assert(dep_of_selected(sel, old_q[0]));
            let (j, k) = choose|j: int, k: int|
                0 <= j < sel.len() && 0 <= k < sel[j].dependencies.len()
                    && #[trigger] sel[j].dependencies[k] == old_q[0];
            assert(s2[j] == sel[j]);
            assert(s2[i] == p);
            assert(dep_match(s2[i], s2[j].dependencies[k], ov));
            assert(max_among(avail, s2[j].dependencies[k], ov, s2[i]));
        }
    }
}

/// The index of the selected package with the given name, if any.
fn find_by_name(sel: &Vec<Package>, name: &String) -> (r: Option<usize>)
    ensures
        match r {
            Option::Some(i) => i < sel@.len() && first_where(views_of(sel@), named(name@))
                == i as int,
            Option::None => first_where(views_of(sel@), named(name@)) == views_of(sel@).len(),
        },
{
    let ghost sv = views_of(sel@);
    let mut i: usize = 0;
    while i < sel.len()
        invariant
            i <= sel.len(),
            sv == views_of(sel@),
            forall|j: int| 0 <= j < i ==> !named(name@)(sv[j]),
        decreases sel.len() - i,
    {
        if sel[i].id.name == *name {
            proof {
                assert(named(name@)(sv[i as int]));
                lemma_first_where_is(sv, named(name@), i as int);
            }
            return Some(i);
        }
        proof {
            assert(!named(name@)(sv[i as int]));
        }
        i = i + 1;
    }
    proof {
        lemma_first_where_none(sv, named(name@));
    }
    None
}

/// The index of the first selected package satisfying `d`; callable only
/// when one exists.
fn find_match(sel: &Vec<Package>, d: &Dependency, overrides: &Vec<SourceId>) -> (r: usize)
    requires
        has_match(views_of(sel@), d@, views_of(overrides@)),
    ensures
        r < sel@.len(),
        r as int == satisfier_index(views_of(sel@), d@, views_of(overrides@)),
{
    let ghost sv = views_of(sel@);
    let ghost ov = views_of(overrides@);
    let mut i: usize = 0;
    while i < sel.len()
        invariant
            i <= sel.len(),
            sv == views_of(sel@),
            ov == views_of(overrides@),
            has_match(sv, d@, ov),
            forall|j: int| 0 <= j < i ==> !matches_dep(d@, ov)(sv[j]),
        decreases sel.len() - i,
    {
        if dep_match_exec(&sel[i], d, overrides) {
            proof {
                assert(matches_dep(d@, ov)(sv[i as int]));
                lemma_first_where_is(sv, matches_dep(d@, ov), i as int);
            }
            return i;
        }
        proof {
            assert(!matches_dep(d@, ov)(sv[i as int]));
        }
        i = i + 1;
    }
    proof {
        let j = choose|j: int| 0 <= j < sv.len() && dep_match(#[trigger] sv[j], d@, ov);
        assert(matches_dep(d@, ov)(sv[j]));
    }
    0
}

/// The selection of a successful resolution, as a value.
pub open spec fn selection_of(
    root: PackageV,
    avail: Seq<PackageV>,
    ov: Seq<SourceIdV>,
) -> Seq<PackageV> {
    match resolution_of(root, avail, ov) {
        Ok(sel) => sel,
        Err(_) => Seq::empty(),
    }
}

/// The dependency edges that a selection determines: one row per selected
/// package, one entry per requirement, pointing at its satisfier.
pub open spec fn selection_edges(sel: Seq<PackageV>, ov: Seq<SourceIdV>) -> Seq<Seq<int>> {
    Seq::new(
        sel.len(),
        |i: int|
            Seq::new(
                sel[i].dependencies.len(),
                |k: int| satisfier_index(sel, sel[i].dependencies[k], ov),
            ),
    )
}

/// A graph representing a selection carries exactly the node identities and
/// edges that the selection determines: nothing about the graph is left to
/// the implementation.
pub proof fn lemma_graph_determined(
    g: crate::graph::ResolvedGraph,
    sel: Seq<PackageV>,
    ov: Seq<SourceIdV>,
)
    requires
        graph_represents(g, sel, ov),
    ensures
        g.node_ids() == sel.map_values(|p: PackageV| p.id),
        g.dep_edges() == selection_edges(sel, ov),
{
    assert(g.node_ids() =~= sel.map_values(|p: PackageV| p.id));
    assert forall|i: int| 0 <= i < sel.len() implies #[trigger] g.dep_edges()[i]
        =~= selection_edges(sel, ov)[i] by {
        assert forall|k: int| 0 <= k < sel[i].dependencies.len() implies g.dep_edges()[i][k]
            == selection_edges(sel, ov)[i][k] by {
            assert(g.dep_edges()[i][k] == satisfier_index(sel, sel[i].dependencies[k], ov));
        }
    }
    assert(g.dep_edges() =~= selection_edges(sel, ov));
}

/// Determinism of resolution: for one root package, one registry state and
/// one override list, any two resolved graphs represent the same
/// selection, so they have the same node identities and the same edges.
pub proof fn lemma_resolution_deterministic(
    root: PackageV,
    avail: Seq<PackageV>,
    ov: Seq<SourceIdV>,
    g1: crate::graph::ResolvedGraph,
    g2: crate::graph::ResolvedGraph,
)
    requires
        graph_represents(g1, selection_of(root, avail, ov), ov),
        graph_represents(g2, selection_of(root, avail, ov), ov),
    ensures
        g1.node_ids() == g2.node_ids(),
        g1.dep_edges() == g2.dep_edges(),
{
    lemma_graph_determined(g1, selection_of(root, avail, ov), ov);
    lemma_graph_determined(g2, selection_of(root, avail, ov), ov);
}

/// Computes the resolved dependency graph for `root` against what the
/// registry can supply. Succeeds exactly when the deterministic selection
/// `resolution_of` succeeds, and then returns the graph representing that
/// selection: one node per selected package (the root first, each name
/// selected once, every other node a package the registry offers), and one
/// edge per requirement pointing at the selected package that satisfies
/// it. Fails with `Resolution` naming the first requirement that cannot be
/// satisfied consistently.
pub fn resolve(root: &Package, registry: &PackageRegistry) -> (r: Result<
    crate::graph::ResolvedGraph,
    CompileError,
>)
    ensures
        r is Ok <==> resolution_of(root@, registry.avail(), views_of(registry.overrides@)) is Ok,
        r matches Ok(g) ==> resolution_of(root@, registry.avail(), views_of(registry.overrides@))
            matches Ok(sel) && g.wf() && graph_represents(g, sel, views_of(registry.overrides@))
            && resolution_wf(root@, registry.avail(), views_of(registry.overrides@), sel),
        r matches Err(e) ==> e matches CompileError::Resolution { name }
            && resolution_of(root@, registry.avail(), views_of(registry.overrides@)) == Err::<
            Seq<PackageV>,
            Seq<char>,
        >(name@),
{
    let ghost rootv = root@;
    let ghost avail = registry.avail();
    let ghost ov = views_of(registry.overrides@);
    let mut selected: Vec<Package> = Vec::new();
    selected.push(root.dup());
    let mut queue: Vec<Dependency> = crate::model::dup_dependencies(&root.dependencies);
    proof {
        assert(views_of(selected@) =~= seq![rootv]);
        assert(views_of(queue@) == rootv.dependencies);
        assert forall|i: int, k: int|
            0 <= i < views_of(selected@).len() && 0 <= k < views_of(selected@)[i].dependencies.len()
                implies has_match(
            views_of(selected@),
            #[trigger] views_of(selected@)[i].dependencies[k],
            ov,
        ) || in_queue(views_of(queue@), views_of(selected@)[i].dependencies[k]) by {
            assert(views_of(queue@)[k] == views_of(selected@)[0].dependencies[k]);
        }
        assert forall|t: int| 0 <= t < views_of(queue@).len() implies dep_of_selected(
            views_of(selected@),
            #[trigger] views_of(queue@)[t],
        ) by {
            assert(views_of(selected@)[0].dependencies[t] == views_of(queue@)[t]);
        }
    }
    while queue.len() > 0
        invariant
            rootv == root@,
            avail == registry.avail(),
            ov == views_of(registry.overrides@),
            resolve_queue(views_of(queue@), views_of(selected@), avail, ov) == resolution_of(
                rootv,
                avail,
                ov,
            ),
            views_of(selected@).len() >= 1,
            views_of(selected@)[0] == rootv,
            distinct_names(views_of(selected@)),
            from_avail(views_of(selected@), avail),
            deps_covered(views_of(selected@), views_of(queue@), ov),
            queue_from_selected(views_of(selected@), views_of(queue@)),
            all_introduced_well(views_of(selected@), avail, ov),
        decreases unsel_count(avail, views_of(selected@)), queue@.len(),
    {
        let ghost old_q = views_of(queue@);
        let ghost old_s = views_of(selected@);
        let d = queue.remove(0);
        let ghost dv = d@;
        proof {
            assert(old_q[0] == dv);
            assert(views_of(queue@) =~= old_q.drop_first());
        }
        match find_by_name(&selected, &d.name) {
            Option::Some(si) => {
                let ok = dep_match_exec(&selected[si], &d, &registry.overrides);
                proof {
                    assert(views_of(selected@)[si as int] == selected@[si as int]@);
                }
                if !ok {
                    proof {
                        assert(resolve_queue(old_q, old_s, avail, ov) == Err::<
                            Seq<PackageV>,
                            Seq<char>,
                        >(dv.name));
                    }
                    return Err(CompileError::Resolution { name: d.name });
                }
                proof {
                    assert(resolve_queue(old_q, old_s, avail, ov) == resolve_queue(
                        old_q.drop_first(),
                        old_s,
                        avail,
                        ov,
                    ));
                    assert(has_match(old_s, dv, ov)) by {
                        assert(dep_match(old_s[si as int], dv, ov));
                    }
                    lemma_step_existing(old_s, old_q, ov);
                }
            },
            Option::None => {
                match pick_candidate(&registry.packages, &d, &registry.overrides) {
                    Option::None => {
                        proof {
                            assert(resolve_queue(old_q, old_s, avail, ov) == Err::<
                                Seq<PackageV>,
                                Seq<char>,
                            >(dv.name));
                        }
                        return Err(CompileError::Resolution { name: d.name });
                    },
                    Option::Some(ci) => {
                        let p = registry.packages[ci].dup();
                        let ghost pv = p@;
                        proof {
                            assert(pv == avail[ci as int]);
                            lemma_best_candidate(avail, dv, ov);
                            lemma_first_where(old_s, named(dv.name));
                            assert forall|j: int|
                                0 <= j < old_s.len() implies (#[trigger] old_s[j]).id.name
                                != pv.id.name by {
                                assert(!named(dv.name)(old_s[j]));
                            }
                        }
                        let ghost q_mid = views_of(queue@);
                        let mut t: usize = 0;
                        while t < p.dependencies.len()
                            invariant
                                t <= p.dependencies.len(),
                                pv == p@,
                                views_of(queue@) =~= q_mid + views_of(p.dependencies@).take(
                                    t as int,
                                ),
                            decreases p.dependencies.len() - t,
                        {
                            let ghost prev = queue@;
                            queue.push(p.dependencies[t].dup());
                            proof {
                                lemma_views_push(prev, queue@.last());
                                assert(views_of(p.dependencies@).take(t + 1 as int)
                                    =~= views_of(p.dependencies@).take(t as int).push(
                                    views_of(p.dependencies@)[t as int],
                                ));
                                assert(views_of(queue@) =~= q_mid + views_of(
                                    p.dependencies@,
                                ).take(t + 1 as int));
                            }
                            t = t + 1;
                        }
                        let ghost old_sel_vec = selected@;
                        selected.push(p);
                        proof {
                            lemma_views_push(old_sel_vec, selected@.last());
                            assert(views_of(p.dependencies@).take(
                                p.dependencies@.len() as int,
                            ) =~= pv.dependencies);
                            assert(views_of(queue@) =~= old_q.drop_first() + pv.dependencies);
                            assert(views_of(selected@) =~= old_s.push(pv));
                            assert(resolve_queue(old_q, old_s, avail, ov) == resolve_queue(
                                old_q.drop_first() + pv.dependencies,
                                old_s.push(pv),
                                avail,
                                ov,
                            ));
                            assert(dep_match(pv, dv, ov));
                            lemma_step_select(old_s, old_q, avail, ov, pv);
                            lemma_select_decreases(avail, old_s, pv);
                        }
                    },
                }
            },
        }
    }
    // The queue is drained: the selection is exactly what `resolution_of`
    // computes; build the graph value that represents it.
    let ghost selv = views_of(selected@);
    proof {
        assert(resolve_queue(views_of(queue@), selv, avail, ov) == Ok::<Seq<PackageV>, Seq<char>>(
            selv,
        ));
        assert forall|i: int, k: int|
            0 <= i < selv.len() && 0 <= k < selv[i].dependencies.len() implies has_match(
            selv,
            #[trigger] selv[i].dependencies[k],
            ov,
        ) by {
            assert(!in_queue(views_of(queue@), selv[i].dependencies[k]));
        }
    }
    let mut nodes: Vec<crate::model::PackageId> = Vec::new();
    let mut i: usize = 0;
    while i < selected.len()
        invariant
            i <= selected.len(),
            selv == views_of(selected@),
            views_of(nodes@).len() == i as int,
            forall|j: int| 0 <= j < i ==> views_of(nodes@)[j] == (#[trigger] selv[j]).id,
        decreases selected.len() - i,
    {
        let ghost prev = nodes@;
        nodes.push(selected[i].id.dup());
        proof {
            lemma_views_push(prev, nodes@.last());
        }
        i = i + 1;
    }
    let mut edges: Vec<Vec<usize>> = Vec::new();
    i = 0;
    while i < selected.len()
        invariant
            i <= selected.len(),
            selv == views_of(selected@),
            ov == views_of(registry.overrides@),
            forall|i2: int, k: int|
                0 <= i2 < selv.len() && 0 <= k < selv[i2].dependencies.len() ==> has_match(
                    selv,
                    #[trigger] selv[i2].dependencies[k],
                    ov,
                ),
            edges@.len() == i as int,
            forall|j: int|
                0 <= j < i ==> (#[trigger] edges@[j]@).len() == selv[j].dependencies.len(),
            forall|j: int, k: int|
                0 <= j < i && 0 <= k < selv[j].dependencies.len() ==> (#[trigger] edges@[j]@[k]) as int
                    == satisfier_index(selv, selv[j].dependencies[k], ov) && (edges@[j]@[k] as int)
                    < selv.len(),
        decreases selected.len() - i,
    {
        let mut row: Vec<usize> = Vec::new();
        let mut k: usize = 0;
        let dep_count = selected[i].dependencies.len();
        while k < dep_count
            invariant
                k <= dep_count,
                i < selected.len(),
                selv == views_of(selected@),
                ov == views_of(registry.overrides@),
                dep_count == selv[i as int].dependencies.len(),
                forall|i2: int, k2: int|
                    0 <= i2 < selv.len() && 0 <= k2 < selv[i2].dependencies.len() ==> has_match(
                        selv,
                        #[trigger] selv[i2].dependencies[k2],
                        ov,
                    ),
                row@.len() == k as int,
                forall|k2: int|
                    0 <= k2 < k ==> (#[trigger] row@[k2]) as int == satisfier_index(
                        selv,
                        selv[i as int].dependencies[k2],
                        ov,
                    ) && (row@[k2] as int) < selv.len(),
            decreases dep_count - k,
        {
            proof {
                assert(selv[i as int].dependencies[k as int]
                    == selected@[i as int]@.dependencies[k as int]);
            }
            let m = find_match(&selected, &selected[i].dependencies[k], &registry.overrides);
            row.push(m);
            k = k + 1;
        }
        edges.push(row);
        i = i + 1;
    }
    let g = crate::graph::ResolvedGraph { nodes, edges };
    proof {
        assert forall|a: int|
            0 <= a < g.dep_edges().len() implies (#[trigger] g.dep_edges()[a]).len() == edges@[a]@.len()
            && forall|b: int| 0 <= b < edges@[a]@.len() ==> g.dep_edges()[a][b] == edges@[a]@[b] as int by {
            assert(g.dep_edges()[a] == edges@[a]@.map_values(|u: usize| u as int));
        }
        assert(graph_represents(g, selv, ov));
        assert(crate::graph::wf_edges(g.dep_edges()));
        assert(g.wf());
        assert(resolution_wf(rootv, avail, ov, selv));
    }
    Ok(g)
}

} // verus!
