//! Selection of the environment variables that take part in a task's hash:
//! a wildcard pattern dialect compiled to anchored regular expressions, a
//! key-unique variable map with union and difference, inclusion/exclusion
//! resolution, and deterministic serialization for hashing and display.

pub mod detailed;
pub mod env_map;
pub mod hashable;
pub mod lex;
pub mod pattern;
pub mod wildcard;

pub use detailed::{BySource, DetailedMap, default_env_vars, get_global_hash_inputs};
pub use env_map::EnvironmentVariableMap;
pub use lex::str_lt;
pub use pattern::wildcard_to_regex_pattern;
pub use wildcard::{PatternError, WildcardMaps, select_flagged};
