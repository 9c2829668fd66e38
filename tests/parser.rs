use peano::expr::{Expression, Item, Statement, Terminal, VariableKind};
use peano::parse::{ErrorKind, ParseError, Token, TryParse};
use peano::symbol_table::SymbolTable;

fn item_text(line: &str) -> String {
    let mut symbols = SymbolTable::new();
    let item = Item::parse(line, &mut symbols).unwrap();
    item.bind(&symbols).to_string()
}

fn error_of(line: &str) -> ParseError {
    let mut symbols = SymbolTable::new();
    match Item::parse(line, &mut symbols) {
        Ok(_) => panic!("expected an error"),
        Err(e) => e,
    }
}

#[test]
fn parses_variables_symbols_and_groups() {
    let mut symbols = SymbolTable::new();
    let e = Expression::parse("$x + ($$y1 foo)", &mut symbols).unwrap();
    assert_eq!(
        e,
        Expression(vec![
            Terminal::Variable(symbols.handle("x"), VariableKind::Any),
            Terminal::Symbol(symbols.handle("+")),
            Terminal::Parentheses(Expression(vec![
                Terminal::Variable(symbols.handle("y1"), VariableKind::Distinct),
                Terminal::Symbol(symbols.handle("foo")),
            ])),
        ])
    );
}

#[test]
fn variable_name_stops_at_non_alphanumeric() {
    let mut symbols = SymbolTable::new();
    let e = Expression::parse("$ab+c", &mut symbols).unwrap();
    assert_eq!(
        e,
        Expression(vec![
            Terminal::Variable(symbols.handle("ab"), VariableKind::Any),
            Terminal::Symbol(symbols.handle("+c")),
        ])
    );
}

#[test]
fn dollar_without_name_is_a_symbol() {
    let mut symbols = SymbolTable::new();
    let e = Expression::parse("$ $+", &mut symbols).unwrap();
    assert_eq!(
        e,
        Expression(vec![Terminal::Symbol(symbols.handle("$")), Terminal::Symbol(symbols.handle("$+"))])
    );
}

#[test]
fn rule_with_label_and_comment() {
    let mut symbols = SymbolTable::new();
    let item = Item::parse("[add zero]  $x + 0 ->   $x   //  identity", &mut symbols).unwrap();
    let label = item.label.as_ref().unwrap();
    assert_eq!(symbols.lookup(label.0), "add zero");
    assert_eq!(item.comment.as_ref().unwrap().0, "identity");
    match &item.statement {
        Statement::Rewrite(l, r) => {
            assert_eq!(l.0.len(), 3);
            assert_eq!(r, &Expression(vec![Terminal::Variable(symbols.handle("x"), VariableKind::Any)]));
        }
        Statement::Noop => panic!("expected a rule"),
    }
    assert_eq!(item.bind(&symbols).to_string(), "[add zero] $x + 0 -> $x // identity");
}

#[test]
fn blank_and_comment_lines_are_noops() {
    let mut symbols = SymbolTable::new();
    let blank = Item::parse("   ", &mut symbols).unwrap();
    assert!(blank.statement.is_noop());
    assert!(blank.label.is_none() && blank.comment.is_none());
    let comment = Item::parse("// a comment", &mut symbols).unwrap();
    assert!(comment.statement.is_noop());
    assert_eq!(comment.comment.as_ref().unwrap().0, "a comment");
    assert_eq!(comment.bind(&symbols).to_string(), "// a comment");
    let empty = Item::parse("", &mut symbols).unwrap();
    assert!(empty.statement.is_noop());
    assert_eq!(empty.bind(&symbols).to_string(), "");
}

#[test]
fn labelled_noop_keeps_space_before_comment() {
    assert_eq!(item_text("[l] // c"), "[l]  // c");
    assert_eq!(item_text("[l]"), "[l] ");
}

#[test]
fn canonical_text_normalizes_spacing() {
    assert_eq!(item_text("  a+b   ->(  c  d )"), "a+b -> (c d)");
    assert_eq!(item_text("f ( ) -> $$z"), "f () -> $$z");
    assert_eq!(item_text("a ->"), "a -> ");
}

#[test]
fn text_after_the_statement_is_ignored() {
    assert_eq!(item_text("a -> b ) c"), "a -> b");
}

#[test]
fn reparsing_canonical_text_gives_the_same_item() {
    for line in ["[r] $x * (S $$y) -> ($x * $$y) + $x // mult", "a -> ", "(a (b)) -> ? // q", "  // only", "[l]"] {
        let first = item_text(line);
        let second = item_text(&first);
        assert_eq!(first, second);
    }
}

#[test]
fn reserved_arrow_at_start_is_an_error() {
    let e = error_of("-> x");
    assert_eq!(e.column(), 0);
    assert_eq!(*e.kind(), ErrorKind::ReservedSymbol("->"));
}

#[test]
fn comment_marker_inside_group_is_an_error() {
    let mut symbols = SymbolTable::new();
    let e = Expression::parse("(// x)", &mut symbols).unwrap_err();
    assert_eq!(*e.kind(), ErrorKind::ExpectedToken(Token::Constant(")")));
    assert_eq!(e.column(), 1);
}

#[test]
fn unterminated_group_is_unexpected_end() {
    let e = error_of("(a b -> c");
    assert_eq!(*e.kind(), ErrorKind::ExpectedToken(Token::Constant(")")));
    let e = error_of("(a b");
    assert_eq!(*e.kind(), ErrorKind::UnexpectedEoF);
    assert_eq!(e.column(), 4);
}

#[test]
fn missing_arrow_is_reported() {
    let e = error_of("a b");
    assert_eq!(*e.kind(), ErrorKind::UnexpectedEoF);
    assert_eq!(e.column(), 3);
    let e = error_of("a ) b");
    assert_eq!(*e.kind(), ErrorKind::ExpectedToken(Token::Constant("->")));
    assert_eq!(e.column(), 2);
    let e = error_of("a -");
    assert_eq!(*e.kind(), ErrorKind::UnexpectedEoF);
}

#[test]
fn closing_paren_first_is_expected_symbol() {
    let e = error_of(") -> a");
    assert_eq!(*e.kind(), ErrorKind::ExpectedToken(Token::Symbol));
    assert_eq!(e.column(), 0);
}

#[test]
fn statement_parse_ignores_labels() {
    let mut symbols = SymbolTable::new();
    let st = Statement::parse("x -> y", &mut symbols).unwrap();
    assert_eq!(st.bind(&symbols).to_string(), "x -> y");
    let st = Statement::parse("  // c", &mut symbols).unwrap();
    assert!(st.is_noop());
}

#[test]
fn label_and_terminal_render() {
    let mut symbols = SymbolTable::new();
    let item = Item::parse("[name] a -> b", &mut symbols).unwrap();
    assert_eq!(item.label.as_ref().unwrap().bind(&symbols).to_string(), "[name]");
    let t = Terminal::Variable(symbols.handle("v"), VariableKind::Distinct);
    assert_eq!(t.bind(&symbols).to_string(), "$$v");
}

#[test]
fn expression_text_reads_back_as_the_same_expression() {
    let mut symbols = SymbolTable::new();
    for text in ["  f ( $x  (g $$y) )  h ", "", "a", "(()) b -> c", "$+ $ x"] {
        let e = Expression::parse(text, &mut symbols).unwrap();
        let rendered = e.bind(&symbols).to_string();
        let again = Expression::parse(&rendered, &mut symbols).unwrap();
        assert_eq!(again, e);
        assert_eq!(again.bind(&symbols).to_string(), rendered);
    }
}

#[test]
fn trailing_white_space_adds_no_symbol() {
    let mut symbols = SymbolTable::new();
    let e = Expression::parse("a   ", &mut symbols).unwrap();
    assert_eq!(e, Expression(vec![Terminal::Symbol(symbols.handle("a"))]));
    let empty = Expression::parse("   ", &mut symbols).unwrap();
    assert_eq!(empty, Expression(vec![]));
}
