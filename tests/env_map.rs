use turborepo_env::EnvironmentVariableMap;

fn map_of(entries: &[(&str, &str)]) -> EnvironmentVariableMap {
    let mut m = EnvironmentVariableMap::new();
    for (k, v) in entries {
        m.insert(k.to_string(), v.to_string());
    }
    m
}

fn pairs(m: EnvironmentVariableMap) -> Vec<(String, String)> {
    m.into_inner()
}

fn owned(entries: &[(&str, &str)]) -> Vec<(String, String)> {
    entries.iter().map(|(k, v)| (k.to_string(), v.to_string())).collect()
}

#[test]
fn insert_overwrites_existing_value() {
    let mut m = map_of(&[("A", "1")]);
    m.insert("A".to_string(), "2".to_string());
    assert_eq!(m.len(), 1);
    assert_eq!(m.get(&"A".to_string()), Some(&"2".to_string()));
}

#[test]
fn entries_are_kept_in_key_order() {
    let m = map_of(&[("B", "2"), ("C", "3"), ("A", "1")]);
    assert_eq!(pairs(m), owned(&[("A", "1"), ("B", "2"), ("C", "3")]));
}

#[test]
fn union_prefers_other_value() {
    let mut a = map_of(&[("A", "1"), ("B", "2")]);
    let b = map_of(&[("B", "20"), ("C", "30")]);
    a.union(&b);
    assert_eq!(pairs(a), owned(&[("A", "1"), ("B", "20"), ("C", "30")]));
}

#[test]
fn difference_removes_by_key_only() {
    let mut a = map_of(&[("A", "1"), ("B", "2")]);
    let b = map_of(&[("B", "other"), ("Z", "9")]);
    a.difference(&b);
    assert_eq!(pairs(a), owned(&[("A", "1")]));
}

#[test]
fn union_then_difference_is_not_identity() {
    let mut a = map_of(&[("A", "1"), ("B", "2")]);
    let b = map_of(&[("B", "3")]);
    a.union(&b);
    a.difference(&b);
    assert_eq!(pairs(a), owned(&[("A", "1")]));
}

#[test]
fn remove_and_get() {
    let mut m = map_of(&[("A", "1"), ("B", "2")]);
    m.remove(&"A".to_string());
    assert_eq!(m.get(&"A".to_string()), None);
    assert_eq!(m.get(&"B".to_string()), Some(&"2".to_string()));
    m.remove(&"Q".to_string());
    assert_eq!(m.len(), 1);
}

#[test]
fn names_are_sorted() {
    let m = map_of(&[("b", "1"), ("a", "2"), ("B", "3")]);
    assert_eq!(m.names(), vec!["B".to_string(), "a".to_string(), "b".to_string()]);
}

#[test]
fn default_map_is_empty() {
    let m = EnvironmentVariableMap::default();
    assert_eq!(m.len(), 0);
}

#[test]
fn to_hashable_sorts_formatted_lines() {
    let m = map_of(&[("A", "x"), ("A!", "y"), ("B", "")]);
    assert_eq!(
        m.to_hashable(),
        vec!["A!=y".to_string(), "A=x".to_string(), "B=".to_string()]
    );
}

#[test]
fn to_hashable_is_deterministic_over_construction_order() {
    let m1 = map_of(&[("FOO", "1"), ("BAR", "2"), ("BAZ", "3")]);
    let m2 = map_of(&[("BAZ", "3"), ("FOO", "1"), ("BAR", "2")]);
    assert_eq!(m1.to_hashable(), m2.to_hashable());
    assert_eq!(m1.to_secret_hashable(), m2.to_secret_hashable());
}

#[test]
fn secret_hashable_redacts_values() {
    let m = map_of(&[("EMPTY", ""), ("SECRET", "hunter2-very-secret")]);
    let lines = m.to_secret_hashable();
    assert_eq!(lines.len(), 2);
    assert_eq!(lines[0], "EMPTY=");
    let digest = lines[1].strip_prefix("SECRET=").unwrap();
    assert_eq!(digest.len(), 64);
    assert!(digest.chars().all(|c| c.is_ascii_hexdigit() && !c.is_ascii_uppercase()));
    assert!(!lines[1].contains("hunter2-very-secret"));
}

#[test]
fn secret_hashable_digest_of_abc() {
    let m = map_of(&[("K", "abc")]);
    assert_eq!(
        m.to_secret_hashable(),
        vec!["K=ba7816bf8f01cfea414140de5dae2223b00361a396177a9cb410ff61f20015ad".to_string()]
    );
}

#[test]
fn lexicographic_order() {
    assert!(turborepo_env::str_lt("A", "B"));
    assert!(turborepo_env::str_lt("A", "AB"));
    assert!(!turborepo_env::str_lt("AB", "A"));
    assert!(!turborepo_env::str_lt("A", "A"));
    assert!(turborepo_env::str_lt("", "a"));
}
