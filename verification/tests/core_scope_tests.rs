//! The same scenarios against `TestEnvScope`, the guard under the
//! name the core once carried on its own.

use temp_env_vars::EnvTable;
use temp_env_vars::TestEnvScope;

fn core_base_env() -> EnvTable {
    let mut env = EnvTable::new();
    env.set_var("HOME", "/home/someone");
    env.set_var("LANG", "C.UTF-8");
    env
}

#[test]
fn lib_test_nothing_is_changed() {
    let env = core_base_env();
    let original = env.duplicate();

    let scope = TestEnvScope::new(&env);
    let after = scope.restore_plan(&env).apply_to(&env);

    assert!(after.same_bindings(&original));
}

#[test]
fn lib_test_new_vars_are_removed() {
    let mut env = core_base_env();
    env.remove_var("FOO");
    let original = env.duplicate();

    let scope = TestEnvScope::new(&env);
    env.set_var("FOO", "BAR1");
    let after = scope.restore_plan(&env).apply_to(&env);

    assert!(after.get("FOO").is_none());
    assert!(after.same_bindings(&original));
}

#[test]
fn lib_test_changed_vars_are_reset() {
    let mut env = core_base_env();
    env.set_var("FOO", "BAR2");
    let original = env.duplicate();

    let scope = TestEnvScope::new(&env);
    env.set_var("FOO", "123");
    let after = scope.restore_plan(&env).apply_to(&env);

    assert_eq!(after.get("FOO"), Some(&"BAR2".to_string()));
    assert!(after.same_bindings(&original));
}

#[test]
fn lib_test_env_vars_are_restored() {
    let mut env = core_base_env();
    env.set_var("FOO", "BAR3");
    let original = env.duplicate();

    let scope = TestEnvScope::new(&env);
    env.remove_var("FOO");
    let after = scope.restore_plan(&env).apply_to(&env);

    assert_eq!(after.get("FOO"), Some(&"BAR3".to_string()));
    assert!(after.same_bindings(&original));
}

#[test]
fn lib_test_two_scopes_active_at_same_time() {
    let mut env = core_base_env();
    env.remove_var("FOO");

    let scope_1 = TestEnvScope::new(&env);
    let scope_2 = TestEnvScope::new(&env);
    env.set_var("FOO", "BAR4");
    assert!(env.get("FOO").is_some());

    let env = scope_2.restore_plan(&env).apply_to(&env);
    let env = scope_1.restore_plan(&env).apply_to(&env);

    assert!(env.get("FOO").is_none());
}

#[test]
fn lib_test_sequential_test_scopes() {
    let mut env = core_base_env();
    env.remove_var("FOO");

    let scope = TestEnvScope::new(&env);
    env.set_var("FOO", "BAR5");
    assert!(env.get("FOO").is_some());
    let mut env = scope.restore_plan(&env).apply_to(&env);
    assert!(env.get("FOO").is_none());

    let scope = TestEnvScope::new(&env);
    env.set_var("FOO", "BAR6");
    assert!(env.get("FOO").is_some());
    let env = scope.restore_plan(&env).apply_to(&env);
    assert!(env.get("FOO").is_none());
}
