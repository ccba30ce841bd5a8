//! Target selection and result collection: the ordered subsequence of a
//! package's targets that belong to the requested build environment, and the
//! names of the selected targets that are test executables.

use vstd::prelude::*;
use crate::model::{views_of, lemma_views_push, Target, TargetV};

verus! {

/// The ordered subsequence of `ts` whose profile belongs to environment
/// `env`.
pub open spec fn selected_targets(ts: Seq<TargetV>, env: Seq<char>) -> Seq<TargetV> {
    ts.filter(|t: TargetV| t.profile.env == env)
}

/// The names, in order, of the targets of `ts` that are test executables.
pub open spec fn test_target_names(ts: Seq<TargetV>) -> Seq<Seq<char>> {
    ts.filter(|t: TargetV| t.profile.is_test).map_values(|t: TargetV| t.name)
}

/// Keeps exactly the targets whose profile environment equals `env`,
/// preserving declaration order. Zero matches is a valid outcome, not an
/// error.
pub fn select_targets(targets: &Vec<Target>, env: &String) -> (r: Vec<Target>)
    ensures
        views_of(r@) == selected_targets(views_of(targets@), env@),
{
    let ghost tsv = views_of(targets@);
    let ghost pred = |t: TargetV| t.profile.env == env@;
    let mut r: Vec<Target> = Vec::new();
    let mut i: usize = 0;
    while i < targets.len()
        invariant
            i <= targets.len(),
            tsv == views_of(targets@),
            pred == (|t: TargetV| t.profile.env == env@),
            views_of(r@) == tsv.take(i as int).filter(pred),
        decreases targets.len() - i,
    {
        proof {
            assert(tsv.take(i + 1 as int) =~= tsv.take(i as int).push(tsv[i as int]));
            tsv.take(i as int).lemma_filter_push(tsv[i as int], pred);
        }
        if targets[i].profile.env == *env {
            let ghost prev = r@;
            r.push(targets[i].dup());
            proof {
                lemma_views_push(prev, r@.last());
                assert(r@.last()@ == tsv[i as int]);
                assert(pred(tsv[i as int]));
                assert(views_of(r@) =~= tsv.take(i + 1 as int).filter(pred));
            }
        } else {
            proof {
                assert(!pred(tsv[i as int]));
                assert(views_of(r@) =~= tsv.take(i + 1 as int).filter(pred));
            }
        }
        i = i + 1;
    }
    proof {
        assert(tsv.take(tsv.len() as int) =~= tsv);
    }
    r
}

/// Extracts, in order, the names of the targets that are test executables;
/// the caller may run them after a successful build.
pub fn test_executables(targets: &Vec<Target>) -> (r: Vec<String>)
    ensures
        views_of(r@) == test_target_names(views_of(targets@)),
{
    let ghost tsv = views_of(targets@);
    let ghost pred = |t: TargetV| t.profile.is_test;
    let mut r: Vec<String> = Vec::new();
    let mut i: usize = 0;
    while i < targets.len()
        invariant
            i <= targets.len(),
            tsv == views_of(targets@),
            pred == (|t: TargetV| t.profile.is_test),
            views_of(r@) == tsv.take(i as int).filter(pred).map_values(|t: TargetV| t.name),
        decreases targets.len() - i,
    {
        proof {
            assert(tsv.take(i + 1 as int) =~= tsv.take(i as int).push(tsv[i as int]));
            tsv.take(i as int).lemma_filter_push(tsv[i as int], pred);
        }
        if targets[i].profile.is_test {
            let ghost prev = r@;
            r.push(targets[i].name.clone());
            proof {
                lemma_views_push(prev, r@.last());
                assert(r@.last()@ == tsv[i as int].name);
                assert(pred(tsv[i as int]));
                tsv.take(i as int).filter(pred).lemma_push_map_commute(
                    |t: TargetV| t.name,
                    tsv[i as int],
                );
                assert(views_of(r@) =~= tsv.take(i + 1 as int).filter(pred).map_values(
                    |t: TargetV| t.name,
                ));
            }
        } else {
            proof {
                assert(!pred(tsv[i as int]));
                assert(views_of(r@) =~= tsv.take(i + 1 as int).filter(pred).map_values(
                    |t: TargetV| t.name,
                ));
            }
        }
        i = i + 1;
    }
    proof {
        assert(tsv.take(tsv.len() as int) =~= tsv);
    }
    r
}

} // verus!
