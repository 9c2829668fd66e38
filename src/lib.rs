//! A term-rewriting interpreter: rules `left -> right` over symbolic trees,
//! applied leftmost-innermost, first rule first, until none applies.
use vstd::prelude::*;

pub mod symbol_table;
pub mod expr;
pub mod matches;
pub mod interpolate;
pub mod reduce;
pub mod parse;
pub mod unparse;
pub mod repl;
pub mod round_trip;

use crate::expr::{Expression, Statement, Term, TextTerm, decode_seq, in_table};
use crate::parse::{PErr, ParseError, TryParse, expr_at, stmt_at};
use crate::reduce::{RewriteRule, RewriteRules, Rule, reduce_spec, rules_in_table, lemma_reduce_from_in_table};
use crate::repl::{decode_rules, lemma_decode_rules_grows};
use crate::symbol_table::{SymbolTable, grows};
use crate::unparse::render_seq;

verus! {

/// The first line break from `p` on, or the end.
pub open spec fn line_end(s: Seq<char>, p: nat) -> nat
    decreases s.len() - p,
{
    if p < s.len() && s[p as int] != '\n' {
        line_end(s, p + 1)
    } else {
        p
    }
}

/// A line without the carriage return that ends it, if any.
pub open spec fn strip_cr(l: Seq<char>) -> Seq<char> {
    if l.len() > 0 && l.last() == '\r' {
        l.drop_last()
    } else {
        l
    }
}

/// The lines of `s` from `p` on: split at line feeds, each without a final
/// carriage return; a line feed at the very end starts no further line.
pub open spec fn lines_from(s: Seq<char>, p: nat) -> Seq<Seq<char>>
    decreases s.len() + 1 - p,
{
    let e = line_end(s, p);
    if p >= s.len() {
        Seq::empty()
    } else if p <= e <= s.len() {
        seq![strip_cr(s.subrange(p as int, e as int))] + lines_from(s, e + 1)
    } else {
        Seq::empty()
    }
}

/// The rules that the lines state, in order.
pub open spec fn init_rules(lines: Seq<Seq<char>>) -> Seq<(Seq<TextTerm>, Seq<TextTerm>)>
    decreases lines.len(),
{
    if lines.len() == 0 {
        Seq::empty()
    } else {
        let rest = init_rules(lines.drop_last());
        match stmt_at(lines.last(), 0) {
            Ok((Some(r), _)) => rest.push(r),
            _ => rest,
        }
    }
}

/// The parse errors of the lines, in order.
pub open spec fn init_errors(lines: Seq<Seq<char>>) -> Seq<PErr>
    decreases lines.len(),
{
    if lines.len() == 0 {
        Seq::empty()
    } else {
        let rest = init_errors(lines.drop_last());
        match stmt_at(lines.last(), 0) {
            Err(x) => rest.push(x),
            _ => rest,
        }
    }
}

/// An expression after one step, or unchanged where no step applies.
pub open spec fn stepped(e: Seq<Term>, rules: Seq<Rule>) -> Seq<Term> {
    match reduce_spec(e, rules) {
        Some(x) => x,
        None => e,
    }
}

/// A session for a host: a symbol table and a rule base loaded from text.
pub struct TrsHandle {
    symbols: SymbolTable,
    rules: RewriteRules,
}

impl TrsHandle {
    pub closed spec fn table(&self) -> Seq<Seq<char>> {
        self.symbols@
    }

    pub closed spec fn rule_base(&self) -> Seq<Rule> {
        self.rules@
    }

    pub open spec fn wf(&self) -> bool {
        &&& self.table().no_duplicates()
        &&& rules_in_table(self.rule_base(), self.table().len())
    }
}

/// The errors in the model.
pub open spec fn errors_view(es: Seq<ParseError>) -> Seq<PErr> {
    es.map_values(|e: ParseError| e@)
}

/// Loads the statements of `src`, one per line: each rule goes to the rule
/// base in order, no-ops are dropped, and the errors come back in order.
pub fn trs_init(src: &str) -> (r: (TrsHandle, Vec<ParseError>))
    ensures
        r.0.wf(),
        decode_rules(r.0.table(), r.0.rule_base()) == init_rules(lines_from(src@, 0)),
        errors_view(r.1@) == init_errors(lines_from(src@, 0)),
{
    let chars = parse::chars_of(src);
    let n = chars.len();
    let mut symbols = SymbolTable::new();
    let mut rules = RewriteRules::new();
    let mut errors: Vec<ParseError> = Vec::new();
    let ghost mut done: Seq<Seq<char>> = Seq::empty();
    let mut p: usize = 0;
    proof {
        assert(done + lines_from(src@, 0) =~= lines_from(src@, 0));
        assert(decode_rules(symbols@, rules@) =~= init_rules(done));
        assert(errors_view(errors@) =~= init_errors(done));
    }
    while p < n
        invariant
            chars@ == src@,
            n == chars@.len(),
            p <= n,
            symbols.wf(),
            rules_in_table(rules@, symbols@.len()),
            lines_from(src@, 0) == done + lines_from(src@, p as nat),
            decode_rules(symbols@, rules@) == init_rules(done),
            errors_view(errors@) == init_errors(done),
        decreases n - p,
    {
        let mut e = p;
        while e < n && chars[e] != '\n'
            invariant
                p <= e <= n,
                n == chars@.len(),
                line_end(chars@, p as nat) == line_end(chars@, e as nat),
            decreases n - e,
        {
            e = e + 1;
        }
        let stop = if e > p && chars[e - 1] == '\r' {
            e - 1
        } else {
            e
        };
        let line = src.substring_char(p, stop);
        let ghost l = line@;
        proof {
            let raw = src@.subrange(p as int, e as int);
            assert(l =~= strip_cr(raw));
            assert(lines_from(src@, p as nat) == seq![l] + lines_from(src@, e as nat + 1));
            assert(done + (seq![l] + lines_from(src@, e as nat + 1)) =~= done.push(l) + lines_from(
                src@,
                e as nat + 1,
            ));
            assert(done.push(l).drop_last() =~= done);
        }
        let ghost t0 = symbols@;
        let parsed = Statement::parse(line, &mut symbols);
        proof {
            lemma_decode_rules_grows(rules@, t0, symbols@);
        }
        match parsed {
            Ok(Statement::Rewrite(left, right)) => {
                let ghost before = rules@;
                let ghost rv = (left@, right@);
                rules.add(RewriteRule::new(left, right));
                proof {
                    let tab = symbols@;
                    assert forall|k: int| 0 <= k < rules@.len() implies in_table(
                        #[trigger] rules@[k].0,
                        tab.len(),
                    ) && in_table(rules@[k].1, tab.len()) by {
                        if k < before.len() {
                            assert(rules@[k] == before[k]);
                        }
                    }
                    assert(decode_rules(tab, rules@) =~= decode_rules(tab, before).push(
                        (decode_seq(tab, rv.0), decode_seq(tab, rv.1)),
                    ));
                }
            },
            Ok(Statement::Noop) => {},
            Err(x) => {
                let ghost before = errors@;
                errors.push(x);
                proof {
                    assert(errors_view(errors@) =~= errors_view(before).push(errors@.last()@));
                }
            },
        }
        proof {
            done = done.push(l);
        }
        proof {
            if e == n {
                assert(lines_from(src@, e as nat + 1) == Seq::<Seq<char>>::empty());
                assert(lines_from(src@, n as nat) == Seq::<Seq<char>>::empty());
            }
        }
        p = if e < n {
            e + 1
        } else {
            n
        };
    }
    proof {
        assert(done + Seq::<Seq<char>>::empty() =~= done);
    }
    (TrsHandle { symbols, rules }, errors)
}

/// Parses an expression from the start of `s`, applies one reduction step
/// where one applies, and returns the result as text.
pub fn trs_reduce_once(s: &str, trs: &mut TrsHandle) -> (r: Result<String, ParseError>)
    requires
        old(trs).wf(),
    ensures
        final(trs).wf(),
        grows(old(trs).table(), final(trs).table()),
        final(trs).rule_base() == old(trs).rule_base(),
        match expr_at(s@, 0) {
            Err(x) => r matches Err(e) && e@ == x,
            Ok((ts, _)) => r matches Ok(out) && exists|e: Seq<Term>|
                in_table(e, final(trs).table().len()) && decode_seq(final(trs).table(), e) == ts
                    && out@ == render_seq(
                    decode_seq(final(trs).table(), stepped(e, final(trs).rule_base())),
                ),
        },
{
    let ghost t0 = trs.symbols@;
    let parsed = Expression::parse(s, &mut trs.symbols);
    proof {
        lemma_decode_rules_grows(trs.rules@, t0, trs.symbols@);
    }
    match parsed {
        Ok(mut e) => {
            let ghost e0 = e@;
            proof {
                lemma_reduce_from_in_table(e@, 0, trs.rules@, trs.symbols@.len());
            }
            e.reduce_once(&trs.rules);
            let out = e.bind(&trs.symbols).to_string();
            proof {
                let tab = trs.symbols@;
                assert(e@ == stepped(e0, trs.rules@));
                assert(in_table(e0, tab.len()));
                assert(out@ == render_seq(decode_seq(tab, stepped(e0, trs.rules@))));
            }
            Ok(out)
        },
        Err(x) => Err(x),
    }
}

} // verus!
