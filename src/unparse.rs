use vstd::prelude::*;
use crate::expr::{
    Expression, Item, Label, Statement, Terminal, TextItem, TextTerm, VariableKind, decode_item,
    decode_seq, decode_statement, decode_term, in_table, item_in_table, lemma_decode_seq,
    lemma_terms_view, statement_in_table, term_in_table,
};
use crate::symbol_table::SymbolTable;

verus! {

broadcast use {
    vstd::seq::axiom_seq_index_decreases,
    vstd::seq::axiom_seq_subrange_decreases,
    vstd::std_specs::vec::axiom_vec_decreases_to_view,
    lemma_terms_view,
};

/// The text of a terminal: a symbol as itself, a variable after `$` (or `$$`
/// when distinct), a group in parentheses.
pub open spec fn render_term(t: TextTerm) -> Seq<char>
    decreases t,
{
    match t {
        TextTerm::Sym(x) => x,
        TextTerm::Var(x, VariableKind::Any) => seq!['$'] + x,
        TextTerm::Var(x, VariableKind::Distinct) => seq!['$', '$'] + x,
        TextTerm::Group(e) => seq!['('] + render_seq(e) + seq![')'],
    }
}

/// The text of an expression: its terminals separated by single spaces.
pub open spec fn render_seq(e: Seq<TextTerm>) -> Seq<char>
    decreases e,
{
    if e.len() == 0 {
        Seq::empty()
    } else if e.len() == 1 {
        render_term(e[0])
    } else {
        render_seq(e.drop_last()) + seq![' '] + render_term(e.last())
    }
}

/// The text of a statement: nothing for a no-op, else `left -> right`.
pub open spec fn render_statement(st: Option<(Seq<TextTerm>, Seq<TextTerm>)>) -> Seq<char> {
    match st {
        None => Seq::empty(),
        Some((l, r)) => render_seq(l) + seq![' ', '-', '>', ' '] + render_seq(r),
    }
}

/// The text of a label, with the space that follows it.
pub open spec fn render_label(l: Seq<char>) -> Seq<char> {
    seq!['['] + l + seq![']', ' ']
}

/// The text of an item: label, statement, comment. The comment follows a
/// single space, except on a line that holds nothing else.
pub open spec fn render_item(it: TextItem) -> Seq<char> {
    let head = match it.label {
        Some(l) => render_label(l),
        None => Seq::empty(),
    };
    let body = head + render_statement(it.statement);
    match it.comment {
        None => body,
        Some(c) => if it.statement is None && it.label is None {
            body + seq!['/', '/', ' '] + c
        } else {
            body + seq![' ', '/', '/', ' '] + c
        },
    }
}

fn write_terminal(out: &mut String, t: &Terminal, symbols: &SymbolTable)
    requires
        term_in_table(t@, symbols@.len()),
    ensures
        final(out)@ == old(out)@ + render_term(decode_term(symbols@, t@)),
    decreases t,
{
    match t {
        Terminal::Symbol(h) => {
            out.append(symbols.lookup(*h));
        },
        Terminal::Variable(h, k) => {
            match k {
                VariableKind::Any => {
                    out.append("$");
                },
                VariableKind::Distinct => {
                    out.append("$$");
                },
            }
            out.append(symbols.lookup(*h));
            proof {
                reveal_strlit("$");
                reveal_strlit("$$");
            }
        },
        Terminal::Parentheses(e) => {
            proof {
                let n = symbols@.len();
                assert(term_in_table(t@, n) == (forall|i: int|
                    0 <= i < e@.len() ==> term_in_table(#[trigger] e@[i], n)));
            }
            out.append("(");
            write_expression(out, e, symbols);
            out.append(")");
            proof {
                reveal_strlit("(");
                reveal_strlit(")");
            }
        },
    }
    assert(out@ =~= old(out)@ + render_term(decode_term(symbols@, t@)));
}

fn write_expression(out: &mut String, e: &Expression, symbols: &SymbolTable)
    requires
        in_table(e@, symbols@.len()),
    ensures
        final(out)@ == old(out)@ + render_seq(decode_seq(symbols@, e@)),
    decreases e,
{
    let ghost x = decode_seq(symbols@, e@);
    proof {
        lemma_decode_seq(symbols@, e@);
        assert(x.subrange(0, 0) =~= Seq::<TextTerm>::empty());
        assert(old(out)@ + Seq::<char>::empty() =~= old(out)@);
    }
    let mut i: usize = 0;
    while i < e.0.len()
        invariant
            i <= e.0@.len(),
            e@.len() == e.0@.len(),
            x == decode_seq(symbols@, e@),
            x.len() == e@.len(),
            forall|j: int| 0 <= j < e@.len() ==> #[trigger] x[j] == decode_term(symbols@, e@[j]),
            in_table(e@, symbols@.len()),
            out@ == old(out)@ + render_seq(x.subrange(0, i as int)),
        decreases e.0@.len() - i,
    {
        proof { vstd::std_specs::vec::axiom_vec_index_decreases(e.0, i as int); }
        let ghost before = out@;
        if i > 0 {
            out.append(" ");
            proof { reveal_strlit(" "); }
        }
        assert(e@[i as int] == e.0@[i as int]@);
        write_terminal(out, &e.0[i], symbols);
        proof {
            let pre = x.subrange(0, i + 1);
            assert(pre.drop_last() =~= x.subrange(0, i as int));
            assert(pre.last() == x[i as int]);
            if i == 0 {
                assert(pre.len() == 1 && pre[0] == x[0]);
                assert(out@ =~= old(out)@ + render_seq(pre));
            } else {
                assert(out@ =~= old(out)@ + render_seq(pre));
            }
        }
        i = i + 1;
    }
    assert(x.subrange(0, i as int) =~= x);
}

/// A label together with the table that gives its text.
pub struct BoundLabel<'s> {
    pub symbols: &'s SymbolTable,
    pub label: &'s Label,
}

/// An item together with the table that gives its text.
pub struct BoundItem<'s> {
    pub symbols: &'s SymbolTable,
    pub item: &'s Item,
}

/// A statement together with the table that gives its text.
pub struct BoundStatement<'s> {
    pub symbols: &'s SymbolTable,
    pub statement: &'s Statement,
}

/// An expression together with the table that gives its text.
pub struct BoundExpression<'s> {
    pub symbols: &'s SymbolTable,
    pub expr: &'s Expression,
}

/// A terminal together with the table that gives its text.
pub struct BoundTerminal<'s> {
    pub symbols: &'s SymbolTable,
    pub terminal: &'s Terminal,
}

impl Label {
    pub fn bind<'s>(&'s self, symbols: &'s SymbolTable) -> (r: BoundLabel<'s>)
        ensures
            r.symbols == symbols,
            r.label == self,
    {
        BoundLabel { symbols, label: self }
    }
}

impl Item {
    pub fn bind<'s>(&'s self, symbols: &'s SymbolTable) -> (r: BoundItem<'s>)
        ensures
            r.symbols == symbols,
            r.item == self,
    {
        BoundItem { symbols, item: self }
    }
}

impl Statement {
    pub fn bind<'s>(&'s self, symbols: &'s SymbolTable) -> (r: BoundStatement<'s>)
        ensures
            r.symbols == symbols,
            r.statement == self,
    {
        BoundStatement { symbols, statement: self }
    }
}

impl Expression {
    pub fn bind<'s>(&'s self, symbols: &'s SymbolTable) -> (r: BoundExpression<'s>)
        ensures
            r.symbols == symbols,
            r.expr == self,
    {
        BoundExpression { symbols, expr: self }
    }
}

impl Terminal {
    pub fn bind<'s>(&'s self, symbols: &'s SymbolTable) -> (r: BoundTerminal<'s>)
        ensures
            r.symbols == symbols,
            r.terminal == self,
    {
        BoundTerminal { symbols, terminal: self }
    }
}

impl<'s> BoundTerminal<'s> {
    pub fn to_string(&self) -> (r: String)
        requires
            term_in_table(self.terminal@, self.symbols@.len()),
        ensures
            r@ == render_term(decode_term(self.symbols@, self.terminal@)),
    {
        let mut out = String::new();
        write_terminal(&mut out, self.terminal, self.symbols);
        out
    }
}

impl<'s> BoundExpression<'s> {
    pub fn to_string(&self) -> (r: String)
        requires
            in_table(self.expr@, self.symbols@.len()),
        ensures
            r@ == render_seq(decode_seq(self.symbols@, self.expr@)),
    {
        let mut out = String::new();
        write_expression(&mut out, self.expr, self.symbols);
        out
    }
}

fn write_statement(out: &mut String, st: &Statement, symbols: &SymbolTable)
    requires
        statement_in_table(*st, symbols@.len()),
    ensures
        final(out)@ == old(out)@ + render_statement(decode_statement(symbols@, *st)),
{
    match st {
        Statement::Noop => {
            assert(old(out)@ + Seq::<char>::empty() =~= old(out)@);
        },
        Statement::Rewrite(l, r) => {
            write_expression(out, l, symbols);
            out.append(" -> ");
            write_expression(out, r, symbols);
            proof {
                reveal_strlit(" -> ");
            }
            assert(out@ =~= old(out)@ + render_statement(decode_statement(symbols@, *st)));
        },
    }
}

impl<'s> BoundStatement<'s> {
    pub fn to_string(&self) -> (r: String)
        requires
            statement_in_table(*self.statement, self.symbols@.len()),
        ensures
            r@ == render_statement(decode_statement(self.symbols@, *self.statement)),
    {
        let mut out = String::new();
        write_statement(&mut out, self.statement, self.symbols);
        out
    }
}

impl<'s> BoundLabel<'s> {
    /// The label in brackets.
    pub fn to_string(&self) -> (r: String)
        requires
            self.symbols.issued(self.label.0),
        ensures
            r@ == seq!['['] + self.symbols@[self.label.0.index() as int] + seq![']'],
    {
        let mut out = String::new();
        out.append("[");
        out.append(self.symbols.lookup(self.label.0));
        out.append("]");
        proof {
            reveal_strlit("[");
            reveal_strlit("]");
        }
        assert(out@ =~= seq!['['] + self.symbols@[self.label.0.index() as int] + seq![']']);
        out
    }
}

impl<'s> BoundItem<'s> {
    pub fn to_string(&self) -> (r: String)
        requires
            item_in_table(*self.item, self.symbols@.len()),
        ensures
            r@ == render_item(decode_item(self.symbols@, *self.item)),
    {
        let it = self.item;
        let mut out = String::new();
        match &it.label {
            Some(l) => {
                out.append("[");
                out.append(self.symbols.lookup(l.0));
                out.append("] ");
                proof {
                    reveal_strlit("[");
                    reveal_strlit("] ");
                }
            },
            None => {},
        }
        let ghost head = out@;
        write_statement(&mut out, &it.statement, self.symbols);
        match &it.comment {
            Some(c) => {
                if it.statement.is_noop() && it.label.is_none() {
                    out.append("// ");
                    proof { reveal_strlit("// "); }
                } else {
                    out.append(" // ");
                    proof { reveal_strlit(" // "); }
                }
                out.append(c.0.as_str());
            },
            None => {},
        }
        proof {
            let t = decode_item(self.symbols@, *it);
            let h = match t.label {
                Some(l) => render_label(l),
                None => Seq::empty(),
            };
            assert(head =~= h);
        }
        assert(out@ =~= render_item(decode_item(self.symbols@, *it)));
        out
    }
}

} // verus!
