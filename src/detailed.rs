//! The environment part of a task's hash inputs: the variables the user
//! names, the default variables, and both combined, all without what the
//! user excludes.
use vstd::prelude::*;
use crate::env_map::EnvironmentVariableMap;
use crate::wildcard::{PatternError, compiles, fragments, pattern_seqs, resolved, selected};

verus! {

/// The variables of a `DetailedMap`, split by where their selection came from.
pub struct BySource {
    pub explicit: EnvironmentVariableMap,
    pub matching: EnvironmentVariableMap,
}

/// All variables that enter the hash, and the same split by source for a
/// summary.
pub struct DetailedMap {
    pub all: EnvironmentVariableMap,
    pub by_source: BySource,
}

impl DetailedMap {
    /// All three maps are well formed.
    pub open spec fn wf(&self) -> bool {
        self.all.wf() && self.by_source.explicit.wf() && self.by_source.matching.wf()
    }
}

/// The names that are always considered for the hash.
pub fn default_env_vars() -> (r: Vec<String>)
    ensures
        r@.len() == 1,
        r@[0]@ == seq!['V', 'E', 'R', 'C', 'E', 'L', '_', 'A', 'N', 'A', 'L', 'Y', 'T', 'I', 'C', 'S', '_', 'I', 'D'],
{
    let name = String::from_str("VERCEL_ANALYTICS_ID");
    proof {
        reveal_strlit("VERCEL_ANALYTICS_ID");
    }
    let mut r: Vec<String> = Vec::new();
    r.push(name);
    assert(r@[0]@ =~= seq!['V', 'E', 'R', 'C', 'E', 'L', '_', 'A', 'N', 'A', 'L', 'Y', 'T', 'I', 'C', 'S', '_', 'I', 'D']);
    r
}

/// The user's inclusions for `global_env` on `env`.
pub open spec fn user_inclusions(env: Map<Seq<char>, Seq<char>>, global_env: Seq<Seq<char>>) -> Map<Seq<char>, Seq<char>> {
    selected(env, fragments(global_env, false))
}

/// The user's exclusions for `global_env` on `env`.
pub open spec fn user_exclusions(env: Map<Seq<char>, Seq<char>>, global_env: Seq<Seq<char>>) -> Map<Seq<char>, Seq<char>> {
    selected(env, fragments(global_env, true))
}

/// Every pattern list involved compiles.
pub open spec fn inputs_compile(global_env: Seq<Seq<char>>, defaults: Seq<Seq<char>>) -> bool {
    compiles(fragments(global_env, false)) && compiles(fragments(global_env, true)) && (
    defaults.len() == 0 || (compiles(fragments(defaults, false)) && compiles(
        fragments(defaults, true),
    )))
}

/// Builds the environment part of the global hash inputs from the variables
/// at the start of the run, the user's `global_env` patterns and the default
/// variables: `all` holds the user's inclusions and the defaults, `explicit`
/// the user's inclusions, `matching` the defaults, each without the user's
/// exclusions.
pub fn get_global_hash_inputs(
    env_at_execution_start: &EnvironmentVariableMap,
    global_env: &[String],
    default_env_vars: &[String],
) -> (r: Result<DetailedMap, PatternError>)
    requires
        env_at_execution_start.wf(),
    ensures
        r is Ok <==> inputs_compile(pattern_seqs(global_env@), pattern_seqs(default_env_vars@)),
        r is Ok ==> r->Ok_0.wf(),
        r is Ok ==> r->Ok_0.all@ == user_inclusions(env_at_execution_start@, pattern_seqs(global_env@))
            .union_prefer_right(resolved(env_at_execution_start@, pattern_seqs(default_env_vars@)))
            .remove_keys(user_exclusions(env_at_execution_start@, pattern_seqs(global_env@)).dom()),
        r is Ok ==> r->Ok_0.by_source.explicit@ == user_inclusions(env_at_execution_start@, pattern_seqs(global_env@))
            .remove_keys(user_exclusions(env_at_execution_start@, pattern_seqs(global_env@)).dom()),
        r is Ok ==> r->Ok_0.by_source.matching@ == resolved(env_at_execution_start@, pattern_seqs(default_env_vars@))
            .remove_keys(user_exclusions(env_at_execution_start@, pattern_seqs(global_env@)).dom()),
{
    let default_env_var_map = env_at_execution_start.from_wildcards(default_env_vars)?;
    let user_env_var_set = env_at_execution_start.from_wildcards_unresolved(global_env)?;

    let mut all_env_var_map = EnvironmentVariableMap::new();
    all_env_var_map.union(&user_env_var_set.inclusions);
    all_env_var_map.union(&default_env_var_map);
    all_env_var_map.difference(&user_env_var_set.exclusions);

    let mut explicit_env_var_map = EnvironmentVariableMap::new();
    explicit_env_var_map.union(&user_env_var_set.inclusions);
    explicit_env_var_map.difference(&user_env_var_set.exclusions);

    let mut matching_env_var_map = EnvironmentVariableMap::new();
    matching_env_var_map.union(&default_env_var_map);
    matching_env_var_map.difference(&user_env_var_set.exclusions);

    let ghost empty = Map::<Seq<char>, Seq<char>>::empty();
    assert(empty.union_prefer_right(user_env_var_set.inclusions@) =~= user_env_var_set.inclusions@);
    assert(empty.union_prefer_right(default_env_var_map@) =~= default_env_var_map@);
    Ok(DetailedMap {
        all: all_env_var_map,
        by_source: BySource { explicit: explicit_env_var_map, matching: matching_env_var_map },
    })
}

/// The split by source is consistent with the whole: `all` holds every
/// entry of `explicit` and of `matching`, and none of the three holds a name
/// that the user excluded.
pub proof fn lemma_detailed_map_consistent(
    env: Map<Seq<char>, Seq<char>>,
    global_env: Seq<Seq<char>>,
    defaults: Seq<Seq<char>>,
)
    ensures
        ({
            let inc = user_inclusions(env, global_env);
            let exc = user_exclusions(env, global_env).dom();
            let def = resolved(env, defaults);
            let all = inc.union_prefer_right(def).remove_keys(exc);
            let explicit = inc.remove_keys(exc);
            let matching = def.remove_keys(exc);
            &&& explicit.dom().subset_of(all.dom())
            &&& matching.submap_of(all)
            &&& forall|k: Seq<char>| #[trigger] exc.contains(k) ==> !all.contains_key(k)
                && !explicit.contains_key(k) && !matching.contains_key(k)
        }),
{
}

} // verus!
