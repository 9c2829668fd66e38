use vstd::prelude::*;
use crate::expr::{
    Expression, Item, Statement, Terminal, TextTerm, decode_seq, in_table, lemma_decode_seq_grows,
    term_in_table,
};
use crate::parse::{ParseError, TryParse, item_of};
use crate::reduce::{RewriteRule, RewriteRules, Rule, reduce_spec, rules_in_table, lemma_reduce_from_in_table};
use crate::symbol_table::{SymbolTable, grows, lemma_grows_trans};
use crate::unparse::render_item;

verus! {

broadcast use crate::expr::lemma_terms_view;

/// What a line asks the shell to do.
pub enum Action {
    /// A no-op: nothing to show.
    Nothing,
    /// A rule was added to the rule base; the line in canonical form.
    Added(String),
    /// A query: the line in canonical form, and the expression to reduce.
    Query(String, Expression),
}

/// The text `?`, the right side that makes a rule a query.
pub open spec fn query_mark() -> Seq<TextTerm> {
    seq![TextTerm::Sym(seq!['?'])]
}

/// Every rule decoded through `tab`.
pub open spec fn decode_rules(tab: Seq<Seq<char>>, rules: Seq<Rule>) -> Seq<
    (Seq<TextTerm>, Seq<TextTerm>),
> {
    rules.map_values(|r: Rule| (decode_seq(tab, r.0), decode_seq(tab, r.1)))
}

/// Decoding rules through a table that has grown gives the same text.
pub proof fn lemma_decode_rules_grows(rules: Seq<Rule>, small: Seq<Seq<char>>, big: Seq<Seq<char>>)
    requires
        rules_in_table(rules, small.len()),
        grows(small, big),
    ensures
        rules_in_table(rules, big.len()),
        decode_rules(big, rules) == decode_rules(small, rules),
{
    assert forall|k: int| 0 <= k < rules.len() implies in_table(#[trigger] rules[k].0, big.len())
        && in_table(rules[k].1, big.len()) && decode_seq(big, rules[k].0) == decode_seq(
        small,
        rules[k].0,
    ) && decode_seq(big, rules[k].1) == decode_seq(small, rules[k].1) by {
        lemma_decode_seq_grows(rules[k].0, small, big);
        lemma_decode_seq_grows(rules[k].1, small, big);
    }
    assert(decode_rules(big, rules) =~= decode_rules(small, rules));
}

/// A session of the interpreter: the symbol table and the rule base.
pub struct Repl {
    symbols: SymbolTable,
    rules: RewriteRules,
}

impl Repl {
    pub closed spec fn table(&self) -> Seq<Seq<char>> {
        self.symbols@
    }

    pub closed spec fn rule_base(&self) -> Seq<Rule> {
        self.rules@
    }

    /// The table holds distinct strings and every rule's handles are in it.
    pub open spec fn wf(&self) -> bool {
        &&& self.table().no_duplicates()
        &&& rules_in_table(self.rule_base(), self.table().len())
    }

    pub fn new() -> (r: Repl)
        ensures
            r.wf(),
            r.table() == Seq::<Seq<char>>::empty(),
            r.rule_base() == Seq::<Rule>::empty(),
    {
        Repl { symbols: SymbolTable::new(), rules: RewriteRules::new() }
    }

    /// Reads one line. A rule is added to the rule base, except one whose
    /// right side is `?`, which is a query; a no-op does nothing.
    pub fn feed(&mut self, line: &str) -> (r: Result<Action, ParseError>)
        requires
            old(self).wf(),
        ensures
            final(self).wf(),
            grows(old(self).table(), final(self).table()),
            match item_of(line@) {
                Err(x) => r matches Err(e) && e@ == x && final(self).rule_base() == old(
                    self,
                ).rule_base(),
                Ok(t) => match t.statement {
                    None => r matches Ok(Action::Nothing) && final(self).rule_base() == old(
                        self,
                    ).rule_base(),
                    Some((l, rt)) => if rt == query_mark() {
                        r matches Ok(Action::Query(echo, e)) && echo@ == render_item(t) && in_table(
                            e@,
                            final(self).table().len(),
                        ) && decode_seq(final(self).table(), e@) == l && final(self).rule_base()
                            == old(self).rule_base()
                    } else {
                        r matches Ok(Action::Added(echo)) && echo@ == render_item(t)
                            && final(self).rule_base().len() == old(self).rule_base().len() + 1
                            && final(self).rule_base().drop_last() == old(self).rule_base()
                            && decode_rules(final(self).table(), final(self).rule_base())
                            == decode_rules(old(self).table(), old(self).rule_base()).push((l, rt))
                    },
                },
            },
    {
        let ghost t0 = self.symbols@;
        let parsed = Item::parse(line, &mut self.symbols);
        let item = match parsed {
            Ok(item) => item,
            Err(e) => {
                proof {
                    lemma_decode_rules_grows(self.rules@, t0, self.symbols@);
                }
                return Err(e);
            },
        };
        let ghost t1 = self.symbols@;
        proof {
            lemma_decode_rules_grows(self.rules@, t0, t1);
        }
        let echo = item.bind(&self.symbols).to_string();
        match item.statement {
            Statement::Noop => Ok(Action::Nothing),
            Statement::Rewrite(l, r) => {
                let q = self.symbols.handle("?");
                proof {
                    reveal_strlit("?");
                    lemma_grows_trans(t0, t1, self.symbols@);
                    lemma_decode_rules_grows(self.rules@, t1, self.symbols@);
                    lemma_decode_seq_grows(l@, t1, self.symbols@);
                    lemma_decode_seq_grows(r@, t1, self.symbols@);
                }
                let is_query = r.0.len() == 1 && match &r.0[0] {
                    Terminal::Symbol(h) => *h == q,
                    _ => false,
                };
                proof {
                    let tab = self.symbols@;
                    let d = decode_seq(tab, r@);
                    crate::expr::lemma_decode_seq(tab, r@);
                    assert(tab[q.index() as int] == seq!['?']);
                    if is_query {
                        assert(r@[0] == r.0@[0]@);
                        assert(d[0] == TextTerm::Sym(tab[q.index() as int]));
                        assert(d =~= query_mark());
                    } else if d == query_mark() {
                        assert(d.len() == 1);
                        assert(r@[0] == r.0@[0]@);
                        assert(d[0] == TextTerm::Sym(seq!['?']));
                        assert(r.0@[0] is Symbol);
                        let h = r.0@[0]->Symbol_0;
                        assert(term_in_table(r@[0], tab.len()));
                        assert(tab[h.index() as int] == seq!['?']);
                        assert(self.symbols.wf());
                        assert(h.index() == q.index());
                        crate::symbol_table::SymbolHandle::lemma_index_injective(h, q);
                        assert(h == q);
                        assert(is_query);
                    }
                }
                if is_query {
                    Ok(Action::Query(echo, l))
                } else {
                    let ghost before = self.rules@;
                    let ghost rule_view = (l@, r@);
                    self.rules.add(RewriteRule::new(l, r));
                    proof {
                        let tab = self.symbols@;
                        assert(rules_in_table(self.rules@, tab.len())) by {
                            assert forall|k: int| 0 <= k < self.rules@.len() implies in_table(
                                #[trigger] self.rules@[k].0,
                                tab.len(),
                            ) && in_table(self.rules@[k].1, tab.len()) by {
                                if k < before.len() {
                                    assert(self.rules@[k] == before[k]);
                                }
                            }
                        }
                        assert(self.rules@.drop_last() =~= before);
                        assert(decode_rules(tab, self.rules@) =~= decode_rules(tab, before).push(
                            (decode_seq(tab, rule_view.0), decode_seq(tab, rule_view.1)),
                        ));
                    }
                    Ok(Action::Added(echo))
                }
            },
        }
    }

    /// One reduction step of `e` with the rule base.
    pub fn step(&self, e: &mut Expression) -> (r: bool)
        requires
            self.wf(),
            in_table(old(e)@, self.table().len()),
        ensures
            r == reduce_spec(old(e)@, self.rule_base()) is Some,
            r ==> final(e)@ == reduce_spec(old(e)@, self.rule_base())->Some_0,
            !r ==> final(e)@ == old(e)@,
            in_table(final(e)@, self.table().len()),
    {
        proof {
            lemma_reduce_from_in_table(e@, 0, self.rules@, self.symbols@.len());
        }
        e.reduce_once(&self.rules)
    }

    /// The text of `e`.
    pub fn render(&self, e: &Expression) -> (r: String)
        requires
            in_table(e@, self.table().len()),
        ensures
            r@ == crate::unparse::render_seq(decode_seq(self.table(), e@)),
    {
        e.bind(&self.symbols).to_string()
    }
}

} // verus!
