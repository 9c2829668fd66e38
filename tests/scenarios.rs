use peano::parse::{ErrorKind, ParseError};
use peano::repl::{Action, Repl};
use peano::{trs_init, trs_reduce_once};

/// Runs lines through a session and collects what a shell would print: the
/// canonical form of each rule or query, then each step of a query after a tab.
fn run(lines: &[&str]) -> (Vec<String>, Vec<ParseError>) {
    let mut repl = Repl::new();
    let mut out = Vec::new();
    let mut errors = Vec::new();
    for line in lines {
        match repl.feed(line) {
            Ok(Action::Nothing) => {}
            Ok(Action::Added(echo)) => out.push(echo),
            Ok(Action::Query(echo, mut e)) => {
                out.push(echo);
                let mut steps = 0;
                while repl.step(&mut e) {
                    out.push(format!("\t{}", repl.render(&e)));
                    steps += 1;
                    assert!(steps < 100);
                }
            }
            Err(e) => errors.push(e),
        }
    }
    (out, errors)
}

#[test]
fn peano_successor_addition() {
    let (out, errors) = run(&["$x + 0 -> $x", "$x + (S $y) -> (S $x) + $y", "0 + (S (S 0)) -> ?"]);
    assert!(errors.is_empty());
    assert_eq!(
        out,
        vec![
            "$x + 0 -> $x",
            "$x + (S $y) -> (S $x) + $y",
            "0 + (S (S 0)) -> ?",
            "\t(S 0) + (S 0)",
            "\t(S (S 0)) + 0",
            "\tS (S 0)",
        ]
    );
}

#[test]
fn identity_through_groups() {
    let (out, _) = run(&["($x) -> $x", "(((a)))    -> ?"]);
    assert_eq!(out.last().unwrap(), "\ta");
    assert_eq!(out, vec!["($x) -> $x", "(((a))) -> ?", "\t(a)", "\ta"]);
}

#[test]
fn rule_order_tie_break() {
    let (out, _) = run(&["a -> b", "a -> c", "a -> ?"]);
    assert_eq!(out, vec!["a -> b", "a -> c", "a -> ?", "\tb"]);
}

#[test]
fn linearity_rejection() {
    let (out, _) = run(&["$x + $x -> 0", "a + b -> ?"]);
    assert_eq!(out, vec!["$x + $x -> 0", "a + b -> ?"]);
    let (out, _) = run(&["$x + $x -> 0", "a + a -> ?"]);
    assert_eq!(out.last().unwrap(), "\t0");
}

#[test]
fn noop_and_comment() {
    let (out, errors) = run(&["// a comment", "  ", "foo -> bar", "foo -> ?"]);
    assert!(errors.is_empty());
    assert_eq!(out, vec!["foo -> bar", "foo -> ?", "\tbar"]);
}

#[test]
fn reserved_symbol_line_fails_and_session_goes_on() {
    let (out, errors) = run(&["-> x", "a -> b", "a -> ?"]);
    assert_eq!(errors.len(), 1);
    assert_eq!(*errors[0].kind(), ErrorKind::ReservedSymbol("->"));
    assert_eq!(out, vec!["a -> b", "a -> ?", "\tb"]);
}

#[test]
fn host_session_loads_rules_and_steps_once() {
    let (mut trs, errors) = trs_init("$x + 0 -> $x\r\n// note\n\n-> bad\n$x + (S $y) -> (S $x) + $y\n");
    assert_eq!(errors.len(), 1);
    assert_eq!(*errors[0].kind(), ErrorKind::ReservedSymbol("->"));
    assert_eq!(trs_reduce_once("a + (S 0)", &mut trs).unwrap(), "(S a) + 0");
    assert_eq!(trs_reduce_once("(S a) + 0", &mut trs).unwrap(), "S a");
    assert_eq!(trs_reduce_once("S a", &mut trs).unwrap(), "S a");
    // `0 + (S 0)` would bind `$x` and `$y` to the same term, which no match allows.
    assert_eq!(trs_reduce_once("0 + (S 0)", &mut trs).unwrap(), "0 + (S 0)");
    let e = trs_reduce_once("(a", &mut trs).unwrap_err();
    assert_eq!(*e.kind(), ErrorKind::UnexpectedEoF);
}

#[test]
fn host_session_from_empty_source() {
    let (mut trs, errors) = trs_init("");
    assert!(errors.is_empty());
    assert_eq!(trs_reduce_once("a  b", &mut trs).unwrap(), "a b");
}
