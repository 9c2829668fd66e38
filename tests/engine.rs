use peano::expr::{Expression, Terminal, VariableKind};
use peano::interpolate::Interpolate;
use peano::matches::{Matches, VariableBinding};
use peano::parse::TryParse;
use peano::reduce::{RewriteRule, RewriteRules};
use peano::symbol_table::SymbolTable;

fn ex(s: &str, symbols: &mut SymbolTable) -> Expression {
    Expression::parse(s, symbols).unwrap()
}

fn show(e: &Expression, symbols: &SymbolTable) -> String {
    e.bind(symbols).to_string()
}

fn rules_of(lines: &[(&str, &str)], symbols: &mut SymbolTable) -> RewriteRules {
    let mut rules = RewriteRules::new();
    for (l, r) in lines {
        let left = ex(l, symbols);
        let right = ex(r, symbols);
        rules.add(RewriteRule::new(left, right));
    }
    rules
}

#[test]
fn variable_free_expression_matches_itself_with_no_bindings() {
    let mut symbols = SymbolTable::new();
    let e = ex("a + (b c) * d", &mut symbols);
    let mut bindings: Vec<VariableBinding> = Vec::new();
    assert!(e.matches(&e, &mut bindings));
    assert!(bindings.is_empty());
}

#[test]
fn repeated_variable_needs_equal_terms() {
    let mut symbols = SymbolTable::new();
    let p = ex("$x op $x", &mut symbols);
    let ab = ex("a op b", &mut symbols);
    let aa = ex("a op a", &mut symbols);
    let mut bindings: Vec<VariableBinding> = Vec::new();
    assert!(!p.matches(&ab, &mut bindings));
    assert!(bindings.is_empty());
    assert!(p.matches(&aa, &mut bindings));
    assert_eq!(bindings.len(), 1);
    assert_eq!(bindings[0].var, symbols.handle("x"));
    assert_eq!(*bindings[0].expr, Terminal::Symbol(symbols.handle("a")));
}

#[test]
fn different_variables_need_different_terms() {
    let mut symbols = SymbolTable::new();
    let p = ex("$x $y", &mut symbols);
    let aa = ex("a a", &mut symbols);
    let ab = ex("a b", &mut symbols);
    let mut bindings: Vec<VariableBinding> = Vec::new();
    assert!(!p.matches(&aa, &mut bindings));
    assert!(bindings.is_empty());
    assert!(p.matches(&ab, &mut bindings));
    assert_eq!(bindings.len(), 2);
}

#[test]
fn match_needs_equal_lengths_and_symbols() {
    let mut symbols = SymbolTable::new();
    let p = ex("a b", &mut symbols);
    let longer = ex("a b c", &mut symbols);
    let other = ex("a c", &mut symbols);
    let group = ex("(a)", &mut symbols);
    let atom = ex("a", &mut symbols);
    let mut bindings: Vec<VariableBinding> = Vec::new();
    assert!(!p.matches(&longer, &mut bindings));
    assert!(!p.matches(&other, &mut bindings));
    assert!(!group.matches(&atom, &mut bindings));
    assert!(bindings.is_empty());
}

#[test]
fn variable_binds_a_group() {
    let mut symbols = SymbolTable::new();
    let p = ex("f $x", &mut symbols);
    let s = ex("f (g h)", &mut symbols);
    let mut bindings: Vec<VariableBinding> = Vec::new();
    assert!(p.matches(&s, &mut bindings));
    let t = ex("k $x $z", &mut symbols);
    let out = t.interpolate(&bindings);
    assert_eq!(show(&out, &symbols), "k (g h) $z");
}

#[test]
fn template_without_variables_is_unchanged() {
    let mut symbols = SymbolTable::new();
    let p = ex("$x", &mut symbols);
    let s = ex("q", &mut symbols);
    let mut bindings: Vec<VariableBinding> = Vec::new();
    assert!(p.matches(&s, &mut bindings));
    let t = ex("a (b c) d", &mut symbols);
    assert_eq!(t.interpolate(&bindings), t);
}

#[test]
fn interpolating_a_pattern_gives_back_the_subject() {
    let mut symbols = SymbolTable::new();
    let p = ex("$x + (S $y)", &mut symbols);
    let s = ex("0 + (S (S 0))", &mut symbols);
    let mut bindings: Vec<VariableBinding> = Vec::new();
    assert!(p.matches(&s, &mut bindings));
    assert_eq!(p.interpolate(&bindings), s);
}

#[test]
fn lone_group_is_unwrapped_after_substitution() {
    let mut symbols = SymbolTable::new();
    let p = ex("$x", &mut symbols);
    let s = ex("(a b)", &mut symbols);
    let mut bindings: Vec<VariableBinding> = Vec::new();
    assert!(p.matches(&s, &mut bindings));
    let out = p.interpolate(&bindings);
    assert_eq!(show(&out, &symbols), "a b");
    let single = Terminal::Variable(symbols.handle("x"), VariableKind::Any);
    assert_eq!(single.interpolate(&bindings), s.0[0]);
}

#[test]
fn find_matches_lists_rules_in_order() {
    let mut symbols = SymbolTable::new();
    let rules = rules_of(&[("a", "b"), ("$x", "c"), ("z", "d")], &mut symbols);
    let e = ex("a", &mut symbols);
    let found = rules.find_matches(&e);
    assert_eq!(found.len(), 2);
    assert_eq!(show(&found[0].0.right, &symbols), "b");
    assert_eq!(show(&found[1].0.right, &symbols), "c");
    assert_eq!(found[1].1.len(), 1);
}

#[test]
fn first_rule_wins() {
    let mut symbols = SymbolTable::new();
    let rules = rules_of(&[("a", "b"), ("a", "c")], &mut symbols);
    let mut e = ex("a", &mut symbols);
    assert!(e.reduce_once(&rules));
    assert_eq!(show(&e, &symbols), "b");
    assert!(!e.reduce_once(&rules));
    assert_eq!(show(&e, &symbols), "b");
}

#[test]
fn innermost_leftmost_position_first() {
    let mut symbols = SymbolTable::new();
    let rules = rules_of(&[("a", "x y"), ("b", "z"), ("f $v", "done")], &mut symbols);
    let mut e = ex("f (b a) a", &mut symbols);
    assert!(e.reduce_once(&rules));
    assert_eq!(show(&e, &symbols), "f (z a) a");
    assert!(e.reduce_once(&rules));
    assert_eq!(show(&e, &symbols), "f (z (x y)) a");
    assert!(e.reduce_once(&rules));
    assert_eq!(show(&e, &symbols), "f (z (x y)) (x y)");
    assert!(!e.reduce_once(&rules));
}

#[test]
fn lone_group_is_not_entered() {
    let mut symbols = SymbolTable::new();
    let rules = rules_of(&[("a", "b")], &mut symbols);
    let mut e = ex("(a)", &mut symbols);
    assert!(!e.reduce_once(&rules));
    let mut f = ex("(a) c", &mut symbols);
    assert!(f.reduce_once(&rules));
    assert_eq!(show(&f, &symbols), "b c");
}

#[test]
fn reduction_stops_at_normal_form() {
    let mut symbols = SymbolTable::new();
    let rules = rules_of(&[("$x + 0", "$x"), ("$x + (S $y)", "(S $x) + $y")], &mut symbols);
    let mut e = ex("0 + (S (S 0))", &mut symbols);
    let mut steps = 0;
    while e.reduce_once(&rules) {
        steps += 1;
        assert!(steps < 10);
    }
    assert_eq!(steps, 3);
    assert_eq!(show(&e, &symbols), "S (S 0)");
}

#[test]
fn same_input_same_step() {
    let mut symbols = SymbolTable::new();
    let rules = rules_of(&[("$x + 0", "$x"), ("$x + (S $y)", "(S $x) + $y")], &mut symbols);
    let mut a = ex("(S 0) + (S 0)", &mut symbols);
    let mut b = ex("(S 0) + (S 0)", &mut symbols);
    assert_eq!(a.reduce_once(&rules), b.reduce_once(&rules));
    assert_eq!(a, b);
    assert_eq!(show(&a, &symbols), "(S (S 0)) + 0");
}

#[test]
fn empty_rule_base_reduces_nothing() {
    let mut symbols = SymbolTable::new();
    let rules = RewriteRules::new();
    let mut e = ex("a b c", &mut symbols);
    assert!(!e.reduce_once(&rules));
    let mut empty = Expression(vec![]);
    assert!(!empty.reduce_once(&rules));
}

#[test]
fn unbound_template_variable_passes_through() {
    let mut symbols = SymbolTable::new();
    let rules = rules_of(&[("f $x", "g $x $y")], &mut symbols);
    let mut e = ex("f a", &mut symbols);
    assert!(e.reduce_once(&rules));
    assert_eq!(show(&e, &symbols), "g a $y");
}
