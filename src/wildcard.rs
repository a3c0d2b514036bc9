//! Partition of an environment by wildcard patterns into inclusions and
//! exclusions, and their resolution into one map where exclusion wins.
use vstd::prelude::*;
use crate::env_map::{EnvironmentVariableMap, lemma_view_prefix, pairs_view};
use crate::pattern::{pattern_regex, wildcard_to_regex_pattern};
use crate::lex::lemma_lt_ne;

verus! {

#[verifier::external_type_specification]
#[verifier::external_body]
pub struct ExRegexError(regex::Error);

/// Whether `regex::Regex::new` accepts `source`: it is valid syntax and the
/// compiled program stays within the crate's default size limits.
pub uninterp spec fn regex_compiles(source: Seq<char>) -> bool;

/// Whether the regex built from `source` matches somewhere in `haystack`.
pub uninterp spec fn regex_is_match(source: Seq<char>, haystack: Seq<char>) -> bool;

/// Relies on `regex::Regex::new`, which fails when `source` is not a valid
/// regex or compiles to a program over the default size limit, and on
/// `Regex::is_match`, asked once for each name.
#[verifier::external_body]
fn match_each(source: &str, names: &Vec<String>) -> (r: Result<Vec<bool>, regex::Error>)
    ensures
        r is Ok <==> regex_compiles(source@),
        r is Ok ==> r->Ok_0@.len() == names@.len(),
        r is Ok ==> forall|i: int|
            0 <= i < names@.len() ==> r->Ok_0@[i] == regex_is_match(source@, #[trigger] names@[i]@),
{
    let re = regex::Regex::new(source)?;
    Ok(names.iter().map(|n| re.is_match(n)).collect())
}

/// A pattern list could not be compiled into a regex.
#[derive(Debug)]
pub enum PatternError {
    Compile(regex::Error),
}

/// A pattern with a leading `!` excludes what its body matches.
pub open spec fn is_exclusion(p: Seq<char>) -> bool {
    p.len() > 0 && p[0] == '!'
}

/// The glob body of a pattern: without the leading `!` of an exclusion, and
/// without the backslash of a leading `\!`, which includes names that start
/// with `!`.
pub open spec fn pattern_body(p: Seq<char>) -> Seq<char> {
    if is_exclusion(p) || (p.len() > 1 && p[0] == '\\' && p[1] == '!') {
        p.skip(1)
    } else {
        p
    }
}

/// The compiled fragments of the patterns of `ps` that are exclusions
/// (`exclusion == true`) or inclusions, in order.
pub open spec fn fragments(ps: Seq<Seq<char>>, exclusion: bool) -> Seq<Seq<char>>
    decreases ps.len(),
{
    if ps.len() == 0 {
        Seq::empty()
    } else {
        let rest = fragments(ps.drop_last(), exclusion);
        if is_exclusion(ps.last()) == exclusion {
            rest.push(pattern_regex(pattern_body(ps.last())))
        } else {
            rest
        }
    }
}

/// The fragments joined by `|`.
pub open spec fn joined(fs: Seq<Seq<char>>) -> Seq<char>
    decreases fs.len(),
{
    if fs.len() == 0 {
        Seq::empty()
    } else if fs.len() == 1 {
        fs[0]
    } else {
        joined(fs.drop_last()) + seq!['|'] + fs.last()
    }
}

/// The anchored alternation `^(f1|f2|...)$`: a name must match one
/// fragment in full.
pub open spec fn anchored(fs: Seq<Seq<char>>) -> Seq<char> {
    seq!['^', '('] + joined(fs) + seq![')', '$']
}

/// The patterns as character sequences.
pub open spec fn pattern_seqs(ps: Seq<String>) -> Seq<Seq<char>> {
    ps.map_values(|s: String| s@)
}

/// The entries of `m` whose names the anchored alternation of `fs` matches;
/// none when `fs` is empty.
pub open spec fn selected(m: Map<Seq<char>, Seq<char>>, fs: Seq<Seq<char>>) -> Map<Seq<char>, Seq<char>> {
    m.restrict(Set::new(|k: Seq<char>| fs.len() > 0 && regex_is_match(anchored(fs), k)))
}

/// The alternation of `fs` is empty or compiles.
pub open spec fn compiles(fs: Seq<Seq<char>>) -> bool {
    fs.len() == 0 || regex_compiles(anchored(fs))
}

/// Inclusions and exclusions found for a pattern list.
#[derive(Debug)]
pub struct WildcardMaps {
    pub inclusions: EnvironmentVariableMap,
    pub exclusions: EnvironmentVariableMap,
}

impl WildcardMaps {
    /// Both maps are well formed.
    pub open spec fn wf(&self) -> bool {
        self.inclusions.wf() && self.exclusions.wf()
    }

    /// Collapses the pair into one map: the inclusions without any key that
    /// is also excluded.
    pub fn resolve(self) -> (r: EnvironmentVariableMap)
        requires
            self.wf(),
        ensures
            r.wf(),
            r@ == self.inclusions@.remove_keys(self.exclusions@.dom()),
    {
        let mut output = self.inclusions;
        output.difference(&self.exclusions);
        output
    }
}

/// The anchored alternation of the compiled exclusions (`exclusion == true`)
/// or inclusions of `patterns`, with the number of fragments in it.
fn alternation_source(patterns: &[String], exclusion: bool) -> (r: (String, usize))
    ensures
        r.0@ == anchored(fragments(pattern_seqs(patterns@), exclusion)),
        r.1 == fragments(pattern_seqs(patterns@), exclusion).len(),
{
    let ghost ps = pattern_seqs(patterns@);
    let mut body = String::new();
    let mut count: usize = 0;
    let mut i: usize = 0;
    assert(ps.take(0) =~= Seq::<Seq<char>>::empty());
    while i < patterns.len()
        invariant
            i <= patterns@.len(),
            ps == pattern_seqs(patterns@),
            body@ == joined(fragments(ps.take(i as int), exclusion)),
            count == fragments(ps.take(i as int), exclusion).len(),
            count <= i,
        decreases patterns@.len() - i,
    {
        let p = patterns[i].as_str();
        let n = p.unicode_len();
        let excluded = n > 0 && p.get_char(0) == '!';
        let ghost prev = fragments(ps.take(i as int), exclusion);
        proof {
            assert(ps.take(i + 1).drop_last() =~= ps.take(i as int));
            assert(ps.take(i + 1).last() == p@);
        }
        if excluded == exclusion {
            let b = if excluded || (n > 1 && p.get_char(0) == '\\' && p.get_char(1) == '!') {
                p.substring_char(1, n)
            } else {
                p
            };
            let fragment = wildcard_to_regex_pattern(b);
            assert(b@ =~= pattern_body(p@));
            if count > 0 {
                body.append("|");
            }
            body.append(fragment.as_str());
            proof {
                reveal_strlit("|");
                let next = prev.push(fragment@);
                assert(next.drop_last() =~= prev);
                assert(body@ =~= joined(next));
            }
            count = count + 1;
        }
        i = i + 1;
    }
    assert(ps.take(i as int) =~= ps);
    let mut r = String::new();
    r.append("^(");
    r.append(body.as_str());
    r.append(")$");
    proof {
        reveal_strlit("^(");
        reveal_strlit(")$");
        assert(r@ =~= anchored(fragments(ps, exclusion)));
    }
    (r, count)
}

/// The entries of `map` whose names are in `chosen`, given flags in key order
/// that tell which are.
fn select_chosen(
    map: &EnvironmentVariableMap,
    hits: &Vec<bool>,
    chosen: Ghost<Set<Seq<char>>>,
) -> (r: EnvironmentVariableMap)
    requires
        map.wf(),
        hits@.len() == map.pairs().len(),
        forall|i: int| 0 <= i < hits@.len() ==> hits@[i] == chosen@.contains(#[trigger] map.pairs()[i].0),
    ensures
        r.wf(),
        r@ == map@.restrict(chosen@),
{
    let mut r = EnvironmentVariableMap::new();
    let n = map.len();
    let ghost p = map.pairs();
    let mut i: usize = 0;
    proof {
        map.lemma_pairs_sorted();
        map.lemma_view_is_pairs();
    }
    assert(r@ =~= pairs_view(p.take(0)).restrict(chosen@));
    while i < n
        invariant
            n == p.len(),
            p == map.pairs(),
            crate::env_map::keys_sorted(p),
            i <= n,
            hits@.len() == n,
            forall|i: int| 0 <= i < hits@.len() ==> hits@[i] == chosen@.contains(#[trigger] p[i].0),
            r.wf(),
            r@ == pairs_view(p.take(i as int)).restrict(chosen@),
        decreases n - i,
    {
        proof {
            lemma_view_prefix(p, i as int);
        }
        let (k, v) = map.entry_at(i);
        if hits[i] {
            r.insert(k.clone(), v.clone());
        }
        assert(r@ =~= pairs_view(p.take(i + 1)).restrict(chosen@));
        i = i + 1;
    }
    assert(p.take(n as int) =~= p);
    r
}

/// The names of the entries of `map` whose flag in `hits` is set, the flags
/// following the entries in key order.
pub open spec fn flagged_names(map: EnvironmentVariableMap, hits: Seq<bool>) -> Set<Seq<char>> {
    Set::new(|k: Seq<char>| exists|i: int| 0 <= i < hits.len() && hits[i] && (#[trigger] map.pairs()[i]).0 == k)
}

/// The entries of `map` whose flag in `hits` is set; `hits` holds one flag per
/// entry, in key order (as `names` lists them).
pub fn select_flagged(map: &EnvironmentVariableMap, hits: &Vec<bool>) -> (r: EnvironmentVariableMap)
    requires
        map.wf(),
        hits@.len() == map.pairs().len(),
    ensures
        r.wf(),
        r@ == map@.restrict(flagged_names(*map, hits@)),
{
    let ghost chosen = flagged_names(*map, hits@);
    proof {
        map.lemma_pairs_sorted();
        assert forall|i: int| 0 <= i < hits@.len() implies hits@[i] == chosen.contains(
            #[trigger] map.pairs()[i].0,
        ) by {
            if chosen.contains(map.pairs()[i].0) {
                let j = choose|j: int| 0 <= j < hits@.len() && hits@[j] && (#[trigger] map.pairs()[j]).0 == map.pairs()[i].0;
                if j < i {
                    lemma_lt_ne(map.pairs()[j].0, map.pairs()[i].0);
                } else if i < j {
                    lemma_lt_ne(map.pairs()[i].0, map.pairs()[j].0);
                }
            }
        }
    }
    select_chosen(map, hits, Ghost(chosen))
}

impl EnvironmentVariableMap {
    /// Sorts the entries into inclusions and exclusions: a name may land in
    /// both, and a kind with no pattern collects nothing.
    fn wildcard_map_from_wildcards(&self, wildcard_patterns: &[String]) -> (r: Result<
        WildcardMaps,
        PatternError,
    >)
        requires
            self.wf(),
        ensures
            r is Ok <==> (compiles(fragments(pattern_seqs(wildcard_patterns@), false))
                && compiles(fragments(pattern_seqs(wildcard_patterns@), true))),
            r is Ok ==> r->Ok_0.wf(),
            r is Ok ==> r->Ok_0.inclusions@ == selected(
                self@,
                fragments(pattern_seqs(wildcard_patterns@), false),
            ),
            r is Ok ==> r->Ok_0.exclusions@ == selected(
                self@,
                fragments(pattern_seqs(wildcard_patterns@), true),
            ),
    {
        let ghost ps = pattern_seqs(wildcard_patterns@);
        let (include_source, n_include) = alternation_source(wildcard_patterns, false);
        let (exclude_source, n_exclude) = alternation_source(wildcard_patterns, true);
        let names = self.names();
        let include_hits = if n_include > 0 {
            match match_each(include_source.as_str(), &names) {
                Ok(h) => h,
                Err(e) => return Err(PatternError::Compile(e)),
            }
        } else {
            Vec::new()
        };
        let exclude_hits = if n_exclude > 0 {
            match match_each(exclude_source.as_str(), &names) {
                Ok(h) => h,
                Err(e) => return Err(PatternError::Compile(e)),
            }
        } else {
            Vec::new()
        };
        let ghost inc = Set::new(|k: Seq<char>| fragments(ps, false).len() > 0 && regex_is_match(anchored(fragments(ps, false)), k));
        let ghost exc = Set::new(|k: Seq<char>| fragments(ps, true).len() > 0 && regex_is_match(anchored(fragments(ps, true)), k));
        let inclusions = if n_include > 0 {
            assert forall|i: int| 0 <= i < include_hits@.len() implies include_hits@[i] == inc.contains(
                #[trigger] self.pairs()[i].0,
            ) by {
                assert(names@[i]@ == self.pairs()[i].0);
            }
            select_chosen(self, &include_hits, Ghost(inc))
        } else {
            let m = EnvironmentVariableMap::new();
            assert(m@ =~= self@.restrict(inc));
            m
        };
        let exclusions = if n_exclude > 0 {
            assert forall|i: int| 0 <= i < exclude_hits@.len() implies exclude_hits@[i] == exc.contains(
                #[trigger] self.pairs()[i].0,
            ) by {
                assert(names@[i]@ == self.pairs()[i].0);
            }
            select_chosen(self, &exclude_hits, Ghost(exc))
        } else {
            let m = EnvironmentVariableMap::new();
            assert(m@ =~= self@.restrict(exc));
            m
        };
        Ok(WildcardMaps { inclusions, exclusions })
    }

    /// The variables that an inclusion pattern selects and no exclusion
    /// pattern removes; an empty pattern list selects nothing and compiles
    /// nothing.
    pub fn from_wildcards(&self, wildcard_patterns: &[String]) -> (r: Result<
        EnvironmentVariableMap,
        PatternError,
    >)
        requires
            self.wf(),
        ensures
            wildcard_patterns@.len() == 0 ==> r is Ok && r->Ok_0@ == Map::<Seq<char>, Seq<char>>::empty(),
            r is Ok <==> (compiles(fragments(pattern_seqs(wildcard_patterns@), false))
                && compiles(fragments(pattern_seqs(wildcard_patterns@), true))),
            r is Ok ==> r->Ok_0.wf(),
            r is Ok ==> r->Ok_0@ == resolved(self@, pattern_seqs(wildcard_patterns@)),
    {
        if wildcard_patterns.len() == 0 {
            let m = EnvironmentVariableMap::new();
            proof {
                assert(fragments(pattern_seqs(wildcard_patterns@), false) =~= Seq::<Seq<char>>::empty());
                assert(fragments(pattern_seqs(wildcard_patterns@), true) =~= Seq::<Seq<char>>::empty());
                assert(m@ =~= resolved(self@, pattern_seqs(wildcard_patterns@)));
            }
            return Ok(m);
        }
        let resolved_set = self.wildcard_map_from_wildcards(wildcard_patterns)?;
        Ok(resolved_set.resolve())
    }

    /// The inclusions and exclusions of a pattern list, left unresolved so
    /// that a caller can combine them with other maps first.
    pub fn from_wildcards_unresolved(&self, wildcard_patterns: &[String]) -> (r: Result<
        WildcardMaps,
        PatternError,
    >)
        requires
            self.wf(),
        ensures
            wildcard_patterns@.len() == 0 ==> r is Ok,
            r is Ok <==> (compiles(fragments(pattern_seqs(wildcard_patterns@), false))
                && compiles(fragments(pattern_seqs(wildcard_patterns@), true))),
            r is Ok ==> r->Ok_0.wf(),
            r is Ok ==> r->Ok_0.inclusions@ == selected(
                self@,
                fragments(pattern_seqs(wildcard_patterns@), false),
            ),
            r is Ok ==> r->Ok_0.exclusions@ == selected(
                self@,
                fragments(pattern_seqs(wildcard_patterns@), true),
            ),
    {
        if wildcard_patterns.len() == 0 {
            let inclusions = EnvironmentVariableMap::new();
            let exclusions = EnvironmentVariableMap::new();
            proof {
                assert(fragments(pattern_seqs(wildcard_patterns@), false) =~= Seq::<Seq<char>>::empty());
                assert(fragments(pattern_seqs(wildcard_patterns@), true) =~= Seq::<Seq<char>>::empty());
                assert(inclusions@ =~= selected(self@, fragments(pattern_seqs(wildcard_patterns@), false)));
                assert(exclusions@ =~= selected(self@, fragments(pattern_seqs(wildcard_patterns@), true)));
            }
            return Ok(WildcardMaps { inclusions, exclusions });
        }
        self.wildcard_map_from_wildcards(wildcard_patterns)
    }
}

/// What `from_wildcards` selects from `m` for the patterns `ps`.
pub open spec fn resolved(m: Map<Seq<char>, Seq<char>>, ps: Seq<Seq<char>>) -> Map<Seq<char>, Seq<char>> {
    selected(m, fragments(ps, false)).remove_keys(selected(m, fragments(ps, true)).dom())
}

/// Exclusion wins: a variable of `m` whose name an exclusion pattern of `ps`
/// matches is absent from what `ps` resolves to, whether or not an inclusion
/// pattern matches it too.
pub proof fn lemma_exclusion_primacy(m: Map<Seq<char>, Seq<char>>, ps: Seq<Seq<char>>, k: Seq<char>)
    requires
        m.contains_key(k),
        fragments(ps, true).len() > 0,
        regex_is_match(anchored(fragments(ps, true)), k),
    ensures
        selected(m, fragments(ps, true)).contains_key(k),
        !resolved(m, ps).contains_key(k),
{
}

} // verus!
