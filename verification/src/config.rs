//! Process-scoped build settings, and the source override resolver: the
//! configuration entry under the well-known "paths" key yields a list of
//! path-kind sources that take precedence over a package's declared sources.

use vstd::prelude::*;
use crate::model::{views_of, lemma_views_push, SourceId, SourceIdV, SourceKind};
use crate::errors::CompileError;

verus! {

/// A configuration value: either a scalar string or a list of strings.
#[derive(Debug, PartialEq, Eq)]
pub enum ConfigValue {
    Str(String),
    List(Vec<String>),
}

pub enum ConfigValueV {
    Str(Seq<char>),
    List(Seq<Seq<char>>),
}

impl View for ConfigValue {
    type V = ConfigValueV;

    open spec fn view(&self) -> ConfigValueV {
        match self {
            ConfigValue::Str(s) => ConfigValueV::Str(s@),
            ConfigValue::List(l) => ConfigValueV::List(views_of(l@)),
        }
    }
}

/// The view of an optional configuration entry.
pub open spec fn config_entry_view(cp: Option<ConfigValue>) -> Option<ConfigValueV> {
    match cp {
        Option::None => Option::None,
        Option::Some(v) => Option::Some(v@),
    }
}

/// The override sources that a well-shaped "paths" entry denotes: one
/// path-kind source per list element, in input order. An absent entry
/// denotes no overrides.
pub open spec fn override_sources(cp: Option<ConfigValueV>) -> Seq<SourceIdV> {
    match cp {
        Option::None => Seq::empty(),
        Option::Some(ConfigValueV::Str(_)) => Seq::empty(),
        Option::Some(ConfigValueV::List(l)) => l.map_values(
            |loc: Seq<char>| SourceIdV { kind: SourceKind::Path, location: loc },
        ),
    }
}

/// Reads the override configuration. A missing entry is an empty override
/// list, a list entry yields one path-kind `SourceId` per element in input
/// order, and a scalar entry is a configuration type error.
pub fn source_ids_from_config(config_paths: &Option<ConfigValue>) -> (r: Result<
    Vec<SourceId>,
    CompileError,
>)
    ensures
        (*config_paths matches Option::Some(ConfigValue::Str(_))) <==> (r matches Err(
            CompileError::ConfigType,
        )),
        r matches Ok(v) ==> views_of(v@) == override_sources(config_entry_view(*config_paths)),
        r is Err ==> r matches Err(CompileError::ConfigType),
{
    match config_paths {
        Option::None => {
            let r: Vec<SourceId> = Vec::new();
            proof {
                assert(views_of(r@) =~= override_sources(config_entry_view(*config_paths)));
            }
            Ok(r)
        },
        Option::Some(ConfigValue::Str(_)) => Err(CompileError::ConfigType),
        Option::Some(ConfigValue::List(l)) => {
            let mut out: Vec<SourceId> = Vec::new();
            let mut i: usize = 0;
            let ghost locs: Seq<Seq<char>> = views_of(l@);
            let ghost target_seq: Seq<SourceIdV> = locs.map_values(
                |loc: Seq<char>| SourceIdV { kind: SourceKind::Path, location: loc },
            );
            while i < l.len()
                invariant
                    i <= l.len(),
                    locs == views_of(l@),
                    target_seq == locs.map_values(
                        |loc: Seq<char>| SourceIdV { kind: SourceKind::Path, location: loc },
                    ),
                    views_of(out@) =~= target_seq.take(i as int),
                decreases l.len() - i,
            {
                let ghost prev = out@;
                out.push(SourceId::for_path(l[i].clone()));
                proof {
                    lemma_views_push(prev, out@.last());
                    assert(out@.last()@ =~= target_seq[i as int]);
                    assert(views_of(out@) =~= target_seq.take(i + 1 as int));
                }
                i = i + 1;
            }
            proof {
                assert(target_seq.take(l@.len() as int) =~= target_seq);
                assert(views_of(out@) == override_sources(config_entry_view(*config_paths)));
            }
            Ok(out)
        },
    }
}

/// Process-scoped build settings, constructed fresh per compile invocation
/// and threaded through the pipeline as an explicit value.
pub struct Config {
    /// Whether sources should be refreshed before resolving.
    pub update: bool,
    /// Optional bound on concurrent package compilations; a single worker
    /// when unset.
    pub jobs: Option<u64>,
    /// Optional target-platform override.
    pub target: Option<String>,
}

impl Config {
    pub fn new(update: bool, jobs: Option<u64>, target: Option<String>) -> (r: Config)
        ensures
            r.update == update,
            r.jobs == jobs,
            r.target == target,
    {
        Config { update, jobs, target }
    }
}

} // verus!
