use peano::expr::{Expression, Terminal, VariableKind};
use peano::symbol_table::SymbolTable;

#[test]
fn test_term_macro_var() {
    let mut symbols = SymbolTable::new();
    let x = Terminal::Variable(symbols.handle("x"), VariableKind::Any);
    assert_eq!(x, Terminal::Variable(symbols.handle("x"), VariableKind::Any));
    let spaced = Terminal::Variable(symbols.handle("with space"), VariableKind::Any);
    assert_eq!(spaced, Terminal::Variable(symbols.handle("with space"), VariableKind::Any));
}

#[test]
fn test_term_macro_symbol() {
    let mut symbols = SymbolTable::new();
    let x = Terminal::Symbol(symbols.handle("x"));
    assert_eq!(x, Terminal::Symbol(symbols.handle("x")));
    let spaced = Terminal::Symbol(symbols.handle("with space"));
    assert_eq!(spaced, Terminal::Symbol(symbols.handle("with space")));
}

#[test]
fn test_term_macro_paren() {
    let mut symbols = SymbolTable::new();
    let s = symbols.handle("S");
    let zero = symbols.handle("0");
    let t = Terminal::Parentheses(Expression(vec![Terminal::Symbol(s), Terminal::Symbol(zero)]));
    assert_eq!(
        t,
        Terminal::Parentheses(Expression(vec![
            Terminal::Symbol(symbols.handle("S")),
            Terminal::Symbol(symbols.handle("0"))
        ]))
    );
}

#[test]
fn test_expr_macro_empty() {
    let e = Expression(Vec::new());
    assert_eq!(e, Expression(vec![]))
}

#[test]
fn test_expr_macro_one() {
    let mut symbols = SymbolTable::new();
    let e = Expression(vec![Terminal::Symbol(symbols.handle("one"))]);
    assert_eq!(e, Expression(vec![Terminal::Symbol(symbols.handle("one"))]))
}

#[test]
fn test_expr_macro_many() {
    let mut symbols = SymbolTable::new();
    let x = symbols.handle("x");
    let plus = symbols.handle("+");
    let y = symbols.handle("y");
    let slash = symbols.handle("/");
    let two = symbols.handle("2");
    let e = Expression(vec![
        Terminal::Parentheses(Expression(vec![
            Terminal::Variable(x, VariableKind::Any),
            Terminal::Symbol(plus),
            Terminal::Variable(y, VariableKind::Any),
        ])),
        Terminal::Symbol(slash),
        Terminal::Symbol(two),
    ]);
    assert_eq!(
        e,
        Expression(vec![
            Terminal::Parentheses(Expression(vec![
                Terminal::Variable(symbols.handle("x"), VariableKind::Any),
                Terminal::Symbol(symbols.handle("+")),
                Terminal::Variable(symbols.handle("y"), VariableKind::Any)
            ])),
            Terminal::Symbol(symbols.handle("/")),
            Terminal::Symbol(symbols.handle("2"))
        ])
    );
}

#[test]
fn clone_and_same_agree_with_equality() {
    let mut symbols = SymbolTable::new();
    let a = symbols.handle("a");
    let e = Expression(vec![
        Terminal::Symbol(a),
        Terminal::Parentheses(Expression(vec![Terminal::Variable(a, VariableKind::Distinct)])),
    ]);
    let c = e.clone();
    assert_eq!(c, e);
    assert!(c.same(&e));
    let other = Expression(vec![Terminal::Symbol(a)]);
    assert!(!other.same(&e));
    assert!(!Terminal::Variable(a, VariableKind::Any).same(&Terminal::Variable(a, VariableKind::Distinct)));
}
