//! Behaviour of the environment table itself, and the shape of the
//! restore plans a guard produces.

use temp_env_vars::EnvTable;
use temp_env_vars::TempEnvScope;

#[test]
fn test_empty_table_has_no_bindings() {
    let env = EnvTable::new();
    assert!(env.get("FOO").is_none());
    assert!(!env.contains_var("FOO"));
    assert!(env.var_names().is_empty());
    assert!(env.var_pairs().is_empty());
}

#[test]
fn test_set_then_get() {
    let mut env = EnvTable::new();
    env.set_var("FOO", "BAR");
    assert_eq!(env.get("FOO"), Some(&"BAR".to_string()));
    assert!(env.contains_var("FOO"));
    assert!(env.get("OTHER").is_none());
}

#[test]
fn test_set_overwrites_previous_value() {
    let mut env = EnvTable::new();
    env.set_var("FOO", "old");
    env.set_var("FOO", "new");
    assert_eq!(env.get("FOO"), Some(&"new".to_string()));
    assert_eq!(env.var_names().len(), 1);
}

#[test]
fn test_remove_unbinds() {
    let mut env = EnvTable::new();
    env.set_var("FOO", "BAR");
    env.remove_var("FOO");
    assert!(env.get("FOO").is_none());
}

#[test]
fn test_remove_absent_name_is_harmless() {
    let mut env = EnvTable::new();
    env.set_var("FOO", "BAR");
    let before = env.duplicate();
    env.remove_var("MISSING");
    assert!(env.same_bindings(&before));
}

#[test]
fn test_duplicate_is_independent() {
    let mut env = EnvTable::new();
    env.set_var("FOO", "BAR");
    let copy = env.duplicate();
    env.set_var("FOO", "changed");
    assert_eq!(copy.get("FOO"), Some(&"BAR".to_string()));
    assert_eq!(env.get("FOO"), Some(&"changed".to_string()));
}

#[test]
fn test_var_names_lists_each_name_once() {
    let mut env = EnvTable::new();
    env.set_var("A", "1");
    env.set_var("B", "2");
    env.set_var("A", "3");
    let mut names = env.var_names();
    names.sort();
    assert_eq!(names, vec!["A".to_string(), "B".to_string()]);
}

#[test]
fn test_var_pairs_carry_the_bindings() {
    let mut env = EnvTable::new();
    env.set_var("A", "1");
    env.set_var("B", "2");
    let mut pairs = env.var_pairs();
    pairs.sort();
    assert_eq!(
        pairs,
        vec![("A".to_string(), "1".to_string()), ("B".to_string(), "2".to_string())],
    );
}

#[test]
fn test_same_bindings_ignores_insertion_order() {
    let mut left = EnvTable::new();
    left.set_var("A", "1");
    left.set_var("B", "2");
    let mut right = EnvTable::new();
    right.set_var("B", "2");
    right.set_var("A", "1");
    assert!(left.same_bindings(&right));
}

#[test]
fn test_same_bindings_detects_changed_value() {
    let mut left = EnvTable::new();
    left.set_var("A", "1");
    let mut right = EnvTable::new();
    right.set_var("A", "2");
    assert!(!left.same_bindings(&right));
}

#[test]
fn test_same_bindings_detects_extra_name() {
    let mut left = EnvTable::new();
    left.set_var("A", "1");
    let mut right = EnvTable::new();
    right.set_var("A", "1");
    right.set_var("B", "2");
    assert!(!left.same_bindings(&right));
    assert!(!right.same_bindings(&left));
}

#[test]
fn test_restore_plan_lists_only_added_names() {
    let mut env = EnvTable::new();
    env.set_var("KEPT", "yes");
    let scope = TempEnvScope::new(&env);
    env.set_var("ADDED", "new");
    env.set_var("KEPT", "changed");

    let plan = scope.restore_plan(&env);
    assert_eq!(plan.removals, vec!["ADDED".to_string()]);
    let mut sets = plan.sets.clone();
    sets.sort();
    assert_eq!(sets, vec![("KEPT".to_string(), "yes".to_string())]);
}

#[test]
fn test_restore_plan_of_untouched_table_removes_nothing() {
    let mut env = EnvTable::new();
    env.set_var("KEPT", "yes");
    let scope = TempEnvScope::new(&env);

    let plan = scope.restore_plan(&env);
    assert!(plan.removals.is_empty());
    assert_eq!(plan.sets, vec![("KEPT".to_string(), "yes".to_string())]);

    let after = plan.apply_to(&env);
    assert!(after.same_bindings(&env));
}
