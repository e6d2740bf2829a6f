use shell_commands::env::Environment;

#[test]
fn test_env_set_and_get_var() {
    let mut env = Environment::new(Vec::new(), "/".to_string());

    // initially absent
    assert_eq!(env.get_var("SOME_RANDOM_ENV_VAR_12345"), None);

    env.set_var("KEY", "VALUE");

    assert_eq!(env.get_var("KEY"), Some("VALUE".to_string()));
}

#[test]
fn set_var_replaces_the_value() {
    let mut env = Environment::new(Vec::new(), "/".to_string());
    env.set_var("A", "1");
    env.set_var("B", "2");
    env.set_var("A", "3");
    assert_eq!(env.get_var("A"), Some("3".to_string()));
    assert_eq!(env.get_var("B"), Some("2".to_string()));
    let mut vars = env.vars();
    vars.sort();
    assert_eq!(vars, vec![("A".to_string(), "3".to_string()), ("B".to_string(), "2".to_string())]);
}

#[test]
fn new_keeps_the_last_binding_of_a_name() {
    let env = Environment::new(
        vec![
            ("A".to_string(), "1".to_string()),
            ("B".to_string(), "2".to_string()),
            ("A".to_string(), "3".to_string()),
        ],
        "/tmp".to_string(),
    );
    assert_eq!(env.get_var("A"), Some("3".to_string()));
    assert_eq!(env.vars().len(), 2);
    assert_eq!(env.current_dir(), "/tmp");
    assert!(!env.should_exit());
}

#[test]
fn clone_is_independent() {
    let mut env = Environment::new(Vec::new(), "/".to_string());
    env.set_var("A", "1");
    let mut copy = env.clone();
    copy.set_var("A", "2");
    copy.set_current_dir("/tmp".to_string());
    copy.set_should_exit(true);
    assert_eq!(env.get_var("A"), Some("1".to_string()));
    assert_eq!(env.current_dir(), "/");
    assert!(!env.should_exit());
    assert_eq!(copy.get_var("A"), Some("2".to_string()));
    assert_eq!(copy.current_dir(), "/tmp");
    assert!(copy.should_exit());
}
