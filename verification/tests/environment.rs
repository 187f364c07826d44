use term_env::env::{Environment, Error};

fn s(x: &str) -> String {
    String::from(x)
}

#[test]
fn sort_declaration_is_idempotent() {
    let mut e = Environment::new();
    e.declare_function(s("f"), vec![s("A"), s("A")], s("A")).unwrap();
    assert_eq!(e.sort_count(), 1);
    assert_eq!(e.sort_id(&s("A")), Some(0));
    e.declare_function(s("g"), vec![s("A")], s("A")).unwrap();
    assert_eq!(e.sort_count(), 1);
    assert_eq!(e.sort_id(&s("A")), Some(0));
}

#[test]
fn sorts_get_dense_ids_in_first_seen_order() {
    let mut e = Environment::new();
    e.declare_function(s("f"), vec![s("B"), s("C")], s("A")).unwrap();
    // The result sort is declared first, then the argument sorts in order.
    assert_eq!(e.sort_id(&s("A")), Some(0));
    assert_eq!(e.sort_id(&s("B")), Some(1));
    assert_eq!(e.sort_id(&s("C")), Some(2));
    assert_eq!(e.sort_id(&s("D")), None);
}

#[test]
fn duplicate_function_is_rejected() {
    let mut e = Environment::new();
    e.declare_function(s("f"), vec![s("A")], s("A")).unwrap();
    let second = e.declare_function(s("f"), vec![s("B"), s("B")], s("C"));
    match second {
        Err(Error::AlreadyDeclared(n)) => assert_eq!(n, "f"),
        _ => panic!("second declaration of f must fail with AlreadyDeclared"),
    }
    // The first declaration is untouched; only the new sorts remain declared.
    assert_eq!(e.function_count(), 1);
    assert_eq!(e.function_id(&s("f")), Some(0));
    assert_eq!(e.sort_id(&s("C")), Some(1));
    assert_eq!(e.sort_id(&s("B")), Some(2));
}

#[test]
fn parsing_twice_yields_the_same_canonical_handle() {
    let mut e = Environment::new();
    e.declare_function(s("f"), vec![s("N"), s("N")], s("N")).unwrap();
    e.declare_function(s("a"), vec![], s("N")).unwrap();
    e.declare_function(s("b"), vec![], s("N")).unwrap();
    let h1 = e.read_term(s("(f a b)")).unwrap();
    let count = e.term_count();
    let h2 = e.read_term(s("(f a b)")).unwrap();
    assert_eq!(h1, h2);
    assert_eq!(e.term_count(), count);
}

#[test]
fn structurally_different_terms_get_different_handles() {
    let mut e = Environment::new();
    e.declare_function(s("f"), vec![s("N"), s("N")], s("N")).unwrap();
    e.declare_function(s("a"), vec![], s("N")).unwrap();
    e.declare_function(s("b"), vec![], s("N")).unwrap();
    let hab = e.read_term(s("(f a b)")).unwrap();
    let hba = e.read_term(s("(f b a)")).unwrap();
    assert_ne!(hab, hba);
}

#[test]
fn leading_and_trailing_whitespace_is_trimmed() {
    let mut e = Environment::new();
    e.declare_function(s("a"), vec![], s("N")).unwrap();
    let h1 = e.read_term(s("a")).unwrap();
    let h2 = e.read_term(s("  \t a \n ")).unwrap();
    assert_eq!(h1, h2);
}

#[test]
fn axioms_deduplicate_and_are_order_sensitive() {
    let mut e = Environment::new();
    e.declare_function(s("a"), vec![], s("S")).unwrap();
    e.declare_function(s("b"), vec![], s("S")).unwrap();
    e.declare_function(s("f"), vec![s("S")], s("S")).unwrap();
    e.declare_axiom(s("(f a)"), s("(f b)")).unwrap();
    e.declare_axiom(s("(f a)"), s("(f b)")).unwrap();
    assert_eq!(e.axiom_count(), 1);
    e.declare_axiom(s("(f b)"), s("(f a)")).unwrap();
    assert_eq!(e.axiom_count(), 2);
}

#[test]
fn undeclared_function_fails_the_axiom_and_stores_nothing() {
    let mut e = Environment::new();
    e.declare_function(s("a"), vec![], s("S")).unwrap();
    let r = e.declare_axiom(s("(unknown a)"), s("a"));
    match r {
        Err(Error::Undeclared(n)) => assert_eq!(n, "unknown"),
        _ => panic!("axiom over an undeclared function must fail with Undeclared"),
    }
    assert_eq!(e.axiom_count(), 0);
}

#[test]
fn undeclared_bare_leaf_fails_with_undeclared() {
    let mut e = Environment::new();
    let r = e.read_term(s("ghost_leaf"));
    match r {
        Err(Error::Undeclared(n)) => assert_eq!(n, "ghost_leaf"),
        _ => panic!("an undeclared bare leaf must fail with Undeclared"),
    }
}

#[test]
fn nameless_compounds_fail_as_undeclared_empty_name() {
    let mut e = Environment::new();
    match e.read_term(s("(")) {
        Err(Error::Undeclared(n)) => assert_eq!(n, ""),
        _ => panic!("a bare opening parenthesis has no function name"),
    }
    match e.read_term(s("()")) {
        Err(Error::Undeclared(n)) => assert_eq!(n, ""),
        _ => panic!("an empty compound has no function name"),
    }
}

#[test]
fn end_to_end_nat_scenario() {
    let mut e = Environment::new();
    e.declare_function(s("zero"), vec![], s("Nat")).unwrap();
    e.declare_function(s("succ"), vec![s("Nat")], s("Nat")).unwrap();
    e.declare_function(s("plus"), vec![s("Nat"), s("Nat")], s("Nat")).unwrap();
    e.declare_function(s("x"), vec![], s("Nat")).unwrap();
    e.declare_axiom(s("(plus zero x)"), s("x")).unwrap();
    assert_eq!(e.to_text(), "Axioms:\n(= (plus zero x) x)");
}

#[test]
fn rendering_lists_axioms_in_declaration_order() {
    let mut e = Environment::new();
    e.declare_function(s("a"), vec![], s("S")).unwrap();
    e.declare_function(s("b"), vec![], s("S")).unwrap();
    e.declare_axiom(s("a"), s("b")).unwrap();
    e.declare_axiom(s("b"), s("a")).unwrap();
    assert_eq!(e.to_text(), "Axioms:\n(= a b)\n(= b a)");
}

#[test]
fn empty_environment_renders_header_only() {
    let e = Environment::new();
    assert_eq!(e.to_text(), "Axioms:\n");
}

#[test]
fn rendered_terms_reparse_to_the_same_handles() {
    let mut e = Environment::new();
    e.declare_function(s("zero"), vec![], s("Nat")).unwrap();
    e.declare_function(s("succ"), vec![s("Nat")], s("Nat")).unwrap();
    e.declare_function(s("plus"), vec![s("Nat"), s("Nat")], s("Nat")).unwrap();
    e.declare_function(s("x"), vec![], s("Nat")).unwrap();
    e.declare_axiom(s("(plus (succ zero) x)"), s("(succ x)")).unwrap();
    let hl = e.read_term(s("(plus (succ zero) x)")).unwrap();
    let hr = e.read_term(s("(succ x)")).unwrap();
    let left_text = e.show_term(hl);
    let right_text = e.show_term(hr);
    assert_eq!(left_text, "(plus (succ zero) x)");
    assert_eq!(right_text, "(succ x)");
    assert_eq!(e.read_term(left_text).unwrap(), hl);
    assert_eq!(e.read_term(right_text).unwrap(), hr);
}

#[test]
fn error_messages_use_the_fixed_templates() {
    let undeclared = Error::Undeclared(s("plus"));
    assert_eq!(undeclared.message(), "plus has not been declared!");
    let already = Error::AlreadyDeclared(s("plus"));
    assert_eq!(already.message(), "plus has already been declared!");
    let twice = Error::DeclaredTwice(s("plus"));
    assert_eq!(twice.message(), "plus has been declared twice!");
}

#[test]
fn deep_nesting_round_trips() {
    let mut e = Environment::new();
    e.declare_function(s("zero"), vec![], s("Nat")).unwrap();
    e.declare_function(s("succ"), vec![s("Nat")], s("Nat")).unwrap();
    let h = e.read_term(s("(succ (succ (succ zero)))")).unwrap();
    let text = e.show_term(h);
    assert_eq!(text, "(succ (succ (succ zero)))");
    assert_eq!(e.read_term(text).unwrap(), h);
}

#[test]
fn shared_subterms_are_interned_once() {
    let mut e = Environment::new();
    e.declare_function(s("zero"), vec![], s("Nat")).unwrap();
    e.declare_function(s("plus"), vec![s("Nat"), s("Nat")], s("Nat")).unwrap();
    let leaf = e.read_term(s("zero")).unwrap();
    let count_after_leaf = e.term_count();
    let compound = e.read_term(s("(plus zero zero)")).unwrap();
    // The compound added exactly one node: both children are the old leaf.
    assert_eq!(e.term_count(), count_after_leaf + 1);
    assert_ne!(leaf, compound);
}
