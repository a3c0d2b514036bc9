use regex::Regex;
use turborepo_env::{
    default_env_vars, get_global_hash_inputs, select_flagged, wildcard_to_regex_pattern,
    EnvironmentVariableMap,
};

fn map_of(entries: &[(&str, &str)]) -> EnvironmentVariableMap {
    let mut m = EnvironmentVariableMap::new();
    for (k, v) in entries {
        m.insert(k.to_string(), v.to_string());
    }
    m
}

fn owned(entries: &[(&str, &str)]) -> Vec<(String, String)> {
    entries.iter().map(|(k, v)| (k.to_string(), v.to_string())).collect()
}

fn strings(items: &[&str]) -> Vec<String> {
    items.iter().map(|s| s.to_string()).collect()
}

fn full_match(pattern: &str, name: &str) -> bool {
    let re = Regex::new(&format!("^({})$", wildcard_to_regex_pattern(pattern))).unwrap();
    re.is_match(name)
}

#[test]
fn test_wildcard_to_regex_pattern() {
    assert_eq!(wildcard_to_regex_pattern("LITERAL_\\*"), "LITERAL_\\*");
}

#[test]
fn compile_plain_and_special_characters() {
    assert_eq!(wildcard_to_regex_pattern("FOO"), "FOO");
    assert_eq!(wildcard_to_regex_pattern("A.B"), "A\\.B");
    assert_eq!(wildcard_to_regex_pattern(""), "");
    assert_eq!(wildcard_to_regex_pattern("*"), "(?s:.*)");
    assert_eq!(wildcard_to_regex_pattern("A*B*C"), "A(?s:.*)B(?s:.*)C");
    assert_eq!(wildcard_to_regex_pattern("A**B"), "A(?s:.*)B");
    assert_eq!(wildcard_to_regex_pattern("A\\*B"), "A\\*B");
}

#[test]
fn literal_pattern_matches_only_itself() {
    assert!(full_match("NEXT_PUBLIC.X", "NEXT_PUBLIC.X"));
    assert!(!full_match("NEXT_PUBLIC.X", "NEXT_PUBLICYX"));
    assert!(!full_match("FOO", "FOOD"));
    assert!(!full_match("FOO", "XFOO"));
    assert!(full_match("", ""));
    assert!(!full_match("", "A"));
}

#[test]
fn star_matches_everything() {
    assert!(full_match("*", ""));
    assert!(full_match("*", "ANYTHING_AT_ALL"));
    assert!(full_match("*", "\n"));
    assert!(full_match("*", "LINE\nBREAK"));
}

#[test]
fn escaped_star_is_literal() {
    assert!(full_match("A\\*B", "A*B"));
    assert!(!full_match("A\\*B", "AXB"));
    assert!(!full_match("A\\*B", "AB"));
}

#[test]
fn two_wildcards_keep_middle_literal() {
    assert!(full_match("A*B*C", "ABC"));
    assert!(full_match("A*B*C", "AxxBmmC"));
    assert!(!full_match("A*B*C", "AXC"));
    assert!(full_match("A*B*C", "A\nBC"));
    assert!(full_match("A*B*C", "ABBCC"));
}

#[test]
fn wildcard_selects_names_with_newlines() {
    let env = map_of(&[("A\nB", "1"), ("C", "2")]);
    let m = env.from_wildcards(&strings(&["A*"])).unwrap();
    assert_eq!(m.into_inner(), owned(&[("A\nB", "1")]));
}

#[test]
fn empty_pattern_list_gives_empty_map() {
    let env = map_of(&[("FOO", "1"), ("BAR", "2")]);
    let m = env.from_wildcards(&[]).unwrap();
    assert_eq!(m.len(), 0);
    let w = env.from_wildcards_unresolved(&[]).unwrap();
    assert_eq!(w.inclusions.len(), 0);
    assert_eq!(w.exclusions.len(), 0);
}

#[test]
fn exclusion_wins_over_inclusion() {
    let env = map_of(&[("FOO_A", "1"), ("FOO_B", "2"), ("BAR", "3")]);
    let m = env.from_wildcards(&strings(&["FOO_*", "!FOO_B"])).unwrap();
    assert_eq!(m.into_inner(), owned(&[("FOO_A", "1")]));
}

#[test]
fn unresolved_keeps_both_sides() {
    let env = map_of(&[("FOO_A", "1"), ("FOO_B", "2"), ("BAR", "3")]);
    let w = env
        .from_wildcards_unresolved(&strings(&["FOO_*", "!FOO_B"]))
        .unwrap();
    assert_eq!(w.inclusions.into_inner(), owned(&[("FOO_A", "1"), ("FOO_B", "2")]));
    assert_eq!(w.exclusions.into_inner(), owned(&[("FOO_B", "2")]));
}

#[test]
fn resolve_removes_excluded_keys() {
    let env = map_of(&[("X", "1"), ("Y", "2")]);
    let w = env.from_wildcards_unresolved(&strings(&["*", "!Y"])).unwrap();
    assert_eq!(w.resolve().into_inner(), owned(&[("X", "1")]));
}

#[test]
fn escaped_bang_includes_literal_bang_name() {
    let env = map_of(&[("!WEIRD", "1"), ("WEIRD", "2")]);
    let m = env.from_wildcards(&strings(&["\\!WEIRD"])).unwrap();
    assert_eq!(m.into_inner(), owned(&[("!WEIRD", "1")]));
}

#[test]
fn only_exclusions_select_nothing() {
    let env = map_of(&[("A", "1"), ("B", "2")]);
    let m = env.from_wildcards(&strings(&["!A"])).unwrap();
    assert_eq!(m.len(), 0);
}

#[test]
fn alternation_matches_any_pattern_in_full() {
    let env = map_of(&[("AB", "1"), ("CD", "2"), ("ABC", "3")]);
    let m = env.from_wildcards(&strings(&["AB", "CD"])).unwrap();
    assert_eq!(m.into_inner(), owned(&[("AB", "1"), ("CD", "2")]));
}

#[test]
fn global_hash_inputs_scenario() {
    let env = map_of(&[("FOO", "1"), ("BAR", "2"), ("VERCEL_ANALYTICS_ID", "x")]);
    let d = get_global_hash_inputs(&env, &strings(&["FOO", "!BAR"]), &default_env_vars()).unwrap();
    assert_eq!(d.by_source.explicit.into_inner(), owned(&[("FOO", "1")]));
    assert_eq!(d.by_source.matching.into_inner(), owned(&[("VERCEL_ANALYTICS_ID", "x")]));
    assert_eq!(
        d.all.into_inner(),
        owned(&[("FOO", "1"), ("VERCEL_ANALYTICS_ID", "x")])
    );
}

#[test]
fn user_exclusion_removes_default_variable() {
    let env = map_of(&[("FOO", "1"), ("VERCEL_ANALYTICS_ID", "x")]);
    let d = get_global_hash_inputs(&env, &strings(&["!VERCEL_*"]), &default_env_vars()).unwrap();
    assert_eq!(d.all.len(), 0);
    assert_eq!(d.by_source.explicit.len(), 0);
    assert_eq!(d.by_source.matching.len(), 0);
}

#[test]
fn default_env_vars_is_analytics_id() {
    assert_eq!(default_env_vars(), vec!["VERCEL_ANALYTICS_ID".to_string()]);
}

#[test]
fn oversized_pattern_list_is_a_compile_error() {
    let env = map_of(&[("A", "1")]);
    let patterns: Vec<String> = (0..200_000).map(|i| format!("SOME_LONG_NAME_{}", i)).collect();
    let r = env.from_wildcards(&patterns);
    assert!(matches!(r, Err(turborepo_env::PatternError::Compile(_))));
}

#[test]
fn select_flagged_keeps_flagged_entries() {
    let env = map_of(&[("C", "3"), ("A", "1"), ("B", "2")]);
    let r = select_flagged(&env, &vec![true, false, true]);
    assert_eq!(r.into_inner(), owned(&[("A", "1"), ("C", "3")]));
    let none = select_flagged(&env, &vec![false, false, false]);
    assert_eq!(none.len(), 0);
}
