use lib::runtime::environment::Environment;
use lib::runtime::error::RuntimeError;
use lib::runtime::session::Session;

#[test]
fn defined_variable_is_found() {
    let mut sesh = Session::new();
    let a = sesh.push_symbol("a");
    let mut env: Environment<i64> = Environment::new();
    let root = env.root();
    assert_eq!(env.def(root, a, 5), Ok(()));
    assert_eq!(env.get(root, a), Ok(&5));
}

#[test]
fn defining_twice_in_one_scope_fails() {
    let mut sesh = Session::new();
    let a = sesh.push_symbol("a");
    let mut env: Environment<i64> = Environment::new();
    let root = env.root();
    assert_eq!(env.def(root, a, 5), Ok(()));
    assert_eq!(env.def(root, a, 6), Err(RuntimeError::AlreadyDefinedVariable));
    assert_eq!(env.get(root, a), Ok(&5));
}

#[test]
fn child_sees_and_shadows_parent() {
    let mut sesh = Session::new();
    let a = sesh.push_symbol("a");
    let b = sesh.push_symbol("b");
    let mut env: Environment<i64> = Environment::new();
    let root = env.root();
    env.def(root, a, 1).unwrap();
    env.def(root, b, 2).unwrap();
    let child = env.child(root);
    assert_eq!(env.get(child, a), Ok(&1));
    assert_eq!(env.def(child, a, 10), Ok(()));
    assert_eq!(env.get(child, a), Ok(&10));
    assert_eq!(env.get(root, a), Ok(&1));
    assert_eq!(env.get(child, b), Ok(&2));
}

#[test]
fn set_assigns_nearest_binding() {
    let mut sesh = Session::new();
    let c = sesh.push_symbol("c");
    let mut env: Environment<i64> = Environment::new();
    let root = env.root();
    env.def(root, c, 0).unwrap();
    let inner = env.child(root);
    assert_eq!(env.set(inner, c, 3), Ok(()));
    assert_eq!(env.get(root, c), Ok(&3));
    assert_eq!(env.get(inner, c), Ok(&3));
}

#[test]
fn unknown_variable_is_an_error() {
    let mut sesh = Session::new();
    let x = sesh.push_symbol("x");
    let mut env: Environment<i64> = Environment::new();
    let root = env.root();
    let child = env.child(root);
    assert_eq!(env.get(child, x), Err(RuntimeError::UndefinedVariable));
    assert_eq!(env.set(child, x, 1), Err(RuntimeError::UndefinedVariable));
    env.def(child, x, 4).unwrap();
    assert_eq!(env.get(root, x), Err(RuntimeError::UndefinedVariable));
}
