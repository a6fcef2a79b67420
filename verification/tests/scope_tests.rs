//! Scenarios for `TempEnvScope`: a simulated environment table is
//! mutated while a guard is live, the guard's restore plan is applied,
//! and the table must be back to its state at construction.

use temp_env_vars::EnvTable;
use temp_env_vars::TempEnvScope;

fn scope_base_env() -> EnvTable {
    let mut env = EnvTable::new();
    env.set_var("HOME", "/home/someone");
    env.set_var("LANG", "C.UTF-8");
    env
}

#[test]
fn test_nothing_is_changed() {
    let env = scope_base_env();
    let original = env.duplicate();

    let scope = TempEnvScope::new(&env);
    let after = scope.restore_plan(&env).apply_to(&env);

    assert!(after.same_bindings(&original));
}

#[test]
fn test_new_vars_are_removed() {
    let mut env = scope_base_env();
    env.remove_var("FOO");
    let original = env.duplicate();

    let scope = TempEnvScope::new(&env);
    env.set_var("FOO", "BAR1");
    let after = scope.restore_plan(&env).apply_to(&env);

    assert!(after.get("FOO").is_none());
    assert!(after.same_bindings(&original));
}

#[test]
fn test_changed_vars_are_reset() {
    let mut env = scope_base_env();
    env.set_var("FOO", "BAR2");
    let original = env.duplicate();

    let scope = TempEnvScope::new(&env);
    env.set_var("FOO", "123");
    let after = scope.restore_plan(&env).apply_to(&env);

    assert_eq!(after.get("FOO"), Some(&"BAR2".to_string()));
    assert!(after.same_bindings(&original));
}

#[test]
fn test_env_vars_are_restored() {
    let mut env = scope_base_env();
    env.set_var("FOO", "BAR3");
    let original = env.duplicate();

    let scope = TempEnvScope::new(&env);
    env.remove_var("FOO");
    let after = scope.restore_plan(&env).apply_to(&env);

    assert_eq!(after.get("FOO"), Some(&"BAR3".to_string()));
    assert!(after.same_bindings(&original));
}

#[test]
fn test_two_scopes_active_at_same_time() {
    let mut env = scope_base_env();
    env.remove_var("FOO");

    let scope_1 = TempEnvScope::new(&env);
    let scope_2 = TempEnvScope::new(&env);
    env.set_var("FOO", "BAR4");
    assert!(env.get("FOO").is_some());

    let env = scope_2.restore_plan(&env).apply_to(&env);
    let env = scope_1.restore_plan(&env).apply_to(&env);

    assert!(env.get("FOO").is_none());
}

#[test]
fn test_sequential_test_scopes() {
    let mut env = scope_base_env();
    env.remove_var("FOO");

    let scope = TempEnvScope::new(&env);
    env.set_var("FOO", "BAR5");
    assert!(env.get("FOO").is_some());
    let mut env = scope.restore_plan(&env).apply_to(&env);
    assert!(env.get("FOO").is_none());

    let scope = TempEnvScope::new(&env);
    env.set_var("FOO", "BAR6");
    assert!(env.get("FOO").is_some());
    let env = scope.restore_plan(&env).apply_to(&env);
    assert!(env.get("FOO").is_none());
}

#[test]
fn test_nested_scopes_restore_independently() {
    let env = scope_base_env();
    let original = env.duplicate();

    let outer = TempEnvScope::new(&env);
    let mut env = env;
    env.set_var("ALPHA", "1");

    let inner = TempEnvScope::new(&env);
    env.set_var("ALPHA", "2");
    env.set_var("BETA", "x");

    let env = inner.restore_plan(&env).apply_to(&env);
    assert_eq!(env.get("ALPHA"), Some(&"1".to_string()));
    assert!(env.get("BETA").is_none());

    let env = outer.restore_plan(&env).apply_to(&env);
    assert!(env.get("ALPHA").is_none());
    assert!(env.same_bindings(&original));
}

#[test]
fn test_scope_over_empty_table() {
    let env = EnvTable::new();
    let scope = TempEnvScope::new(&env);

    let mut env = env;
    env.set_var("ONLY", "value");
    let after = scope.restore_plan(&env).apply_to(&env);

    assert!(after.get("ONLY").is_none());
    assert!(after.same_bindings(&EnvTable::new()));
}

#[test]
fn test_snapshot_is_frozen_at_construction() {
    let mut env = scope_base_env();
    env.set_var("FOO", "first");

    let scope = TempEnvScope::new(&env);
    env.set_var("FOO", "second");

    assert_eq!(scope.original_vars().get("FOO"), Some(&"first".to_string()));
}
