use eck::ir::Variable;
use eck::scope::{Scope, ScopeChain};

#[test]
fn a_new_scope_binds_nothing() {
    let scope = Scope::new();
    assert_eq!(scope.get("x"), None);
    assert_eq!(scope.get(""), None);
}

#[test]
fn a_scope_returns_what_was_inserted() {
    let mut scope = Scope::new();
    scope.insert("x".to_string(), Variable::new(3));
    scope.insert("y".to_string(), Variable::new(4));
    assert_eq!(scope.get("x"), Some(Variable::new(3)));
    assert_eq!(scope.get("y"), Some(Variable::new(4)));
    assert_eq!(scope.get("z"), None);
}

#[test]
fn the_last_declaration_in_a_scope_wins() {
    let mut scope = Scope::new();
    scope.insert("x".to_string(), Variable::new(1));
    scope.insert("y".to_string(), Variable::new(2));
    scope.insert("x".to_string(), Variable::new(3));
    assert_eq!(scope.get("x"), Some(Variable::new(3)));
    assert_eq!(scope.get("y"), Some(Variable::new(2)));
}

#[test]
fn a_new_chain_holds_the_function_entry_scope() {
    let chain = ScopeChain::new();
    assert_eq!(chain.depth(), 1);
    assert_eq!(chain.lookup("x"), None);
}

#[test]
fn lookup_searches_from_the_innermost_scope_outwards() {
    let mut chain = ScopeChain::new();
    chain.bind("x".to_string(), Variable::new(0));
    chain.bind("y".to_string(), Variable::new(1));
    chain.enter();
    chain.bind("x".to_string(), Variable::new(2));
    chain.enter();
    assert_eq!(chain.depth(), 3);
    assert_eq!(chain.lookup("x"), Some(Variable::new(2)));
    assert_eq!(chain.lookup("y"), Some(Variable::new(1)));
    assert_eq!(chain.lookup("z"), None);
}

#[test]
fn lookup_reaches_the_outermost_scope() {
    let mut chain = ScopeChain::new();
    chain.bind("outer".to_string(), Variable::new(7));
    chain.enter();
    chain.enter();
    chain.enter();
    assert_eq!(chain.lookup("outer"), Some(Variable::new(7)));
}

#[test]
fn exit_drops_the_bindings_of_the_innermost_scope() {
    let mut chain = ScopeChain::new();
    chain.bind("x".to_string(), Variable::new(0));
    chain.enter();
    chain.bind("x".to_string(), Variable::new(1));
    chain.bind("y".to_string(), Variable::new(2));
    chain.exit();
    assert_eq!(chain.depth(), 1);
    assert_eq!(chain.lookup("x"), Some(Variable::new(0)));
    assert_eq!(chain.lookup("y"), None);
}

#[test]
fn variable_keeps_its_index() {
    assert_eq!(Variable::new(12).index(), 12);
    assert_eq!(Variable::new(0), Variable { index: 0 });
}
