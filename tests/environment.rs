use rush::env_vars::Environment;
use rush::expander::expand_variables;

#[test]
fn set_get_and_remove() {
    let mut env = Environment::new();
    assert!(env.get_var("A").is_none());
    env.set_var("A", "1");
    env.set_var("B", "2");
    env.set_var("A", "3");
    assert_eq!(env.get_var("A").map(|s| s.as_str()), Some("3"));
    assert_eq!(env.get_var("B").map(|s| s.as_str()), Some("2"));
    assert_eq!(env.vars.len(), 2);
    env.remove_var("A");
    assert!(env.get_var("A").is_none());
    assert_eq!(env.get_var("B").map(|s| s.as_str()), Some("2"));
}

#[test]
fn environment_block_writes_name_equals_value() {
    let mut env = Environment::new();
    env.set_var("PATH", "/bin");
    env.set_var("EMPTY", "");
    assert_eq!(env.environment_block(), vec!["PATH=/bin".to_string(), "EMPTY=".to_string()]);
}

#[test]
fn references_are_replaced_by_values() {
    let mut env = Environment::new();
    env.set_var("HOME", "/home/u");
    env.set_var("X", "v");
    assert_eq!(expand_variables("cd $HOME/src", &env), "cd /home/u/src");
    assert_eq!(expand_variables("$X-$X $X", &env), "v-v v");
    assert_eq!(expand_variables("$Xy", &env), "");
}

#[test]
fn unset_reference_becomes_empty() {
    let env = Environment::new();
    assert_eq!(expand_variables("echo $UNSET_X", &env), "echo ");
}

#[test]
fn text_without_references_is_unchanged() {
    let mut env = Environment::new();
    env.set_var("A", "b");
    let s = "ls -la /tmp | wc";
    assert_eq!(expand_variables(s, &env), s);
    assert_eq!(expand_variables(&expand_variables(s, &env), &env), s);
    assert_eq!(expand_variables("cost $5 and $", &env), "cost $5 and $");
    assert_eq!(expand_variables("", &env), "");
}

#[test]
fn expansion_is_single_pass() {
    let mut env = Environment::new();
    env.set_var("A", "$B");
    env.set_var("B", "x");
    assert_eq!(expand_variables("$A", &env), "$B");
    assert_eq!(expand_variables("$$A", &env), "$$B");
    assert_eq!(expand_variables("${A}", &env), "${A}");
}

#[test]
fn every_reference_gets_the_same_value() {
    let mut env = Environment::new();
    env.set_var("N", "42");
    assert_eq!(expand_variables("$N:$N/$N $N", &env), "42:42/42 42");
    assert_eq!(expand_variables("$N$N", &env), "4242");
    assert_eq!(expand_variables("a $M b $M", &env), "a  b ");
}

#[test]
fn references_replaced_around_other_references() {
    let mut env = Environment::new();
    env.set_var("N", "1");
    env.set_var("M", "two");
    assert_eq!(expand_variables("$N $M-$N$M $N", &env), "1 two-1two 1");
}
