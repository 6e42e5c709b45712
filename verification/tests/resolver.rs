use etch::resolver::SymbolResolver;

#[test]
fn builtins_are_numbered_from_zero() {
    let resolver = SymbolResolver::new();
    let hook = resolver.lookup("hook").unwrap();
    assert_eq!((hook.id, hook.name.as_str()), (0, "hook"));
    let delta = resolver.lookup("delta_time").unwrap();
    assert_eq!((delta.id, delta.name.as_str()), (11, "delta_time"));
    let render = resolver.lookup("render").unwrap();
    assert_eq!((render.id, render.name.as_str()), (22, "render"));
    assert_eq!(resolver.lookup("ground").unwrap().id, 21);
    assert_eq!(resolver.lookup("test").unwrap().id, 12);
    assert!(resolver.lookup("missing").is_none());
}

#[test]
fn declarations_get_fresh_symbols_and_shadow_outer_ones() {
    let mut resolver = SymbolResolver::default();
    let x = resolver.declare("x".into());
    assert_eq!(x.id, 23);
    resolver.enter_scope();
    let inner = resolver.declare("x".into());
    assert_eq!(inner.id, 24);
    assert_eq!(resolver.lookup("x").unwrap().id, 24);
    let time = resolver.declare("time".into());
    assert_eq!(resolver.lookup("time").unwrap().id, time.id);
    resolver.leave_scope();
    assert_eq!(resolver.lookup("x").unwrap().id, 23);
    assert_eq!(resolver.lookup("time").unwrap().id, 10);
}

#[test]
fn redeclaring_in_one_scope_replaces_the_binding() {
    let mut resolver = SymbolResolver::new();
    resolver.declare("x".into());
    let second = resolver.declare("x".into());
    assert_eq!(resolver.lookup("x").unwrap().id, second.id);
}

#[test]
fn unresolved_names_are_reported() {
    let resolver = SymbolResolver::new();
    let (value, errors) = resolver.resolve_name("missing").into_parts();
    assert!(value.is_none());
    assert_eq!(errors, vec!["undefined name `missing`".to_string()]);
    let (value, errors) = resolver.resolve_name("sim").into_parts();
    assert_eq!(value.unwrap().id, 1);
    assert!(errors.is_empty());
}
