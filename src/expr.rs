use vstd::prelude::*;
use crate::symbol_table::{SymbolHandle, grows};

verus! {

broadcast use {
    vstd::seq::axiom_seq_index_decreases,
    vstd::seq::axiom_seq_subrange_decreases,
    vstd::std_specs::vec::axiom_vec_decreases_to_view,
};

/// How a variable was written: `$name` or `$$name`. Both match alike.
#[derive(Debug, Clone, Copy, PartialEq, Eq, Structural)]
pub enum VariableKind {
    Any,
    Distinct,
}

/// One element of an expression.
#[derive(Debug, PartialEq, Eq)]
pub enum Terminal {
    Variable(SymbolHandle, VariableKind),
    Symbol(SymbolHandle),
    Parentheses(Expression),
}

/// A sequence of terminals.
#[derive(Debug, PartialEq, Eq)]
pub struct Expression(pub Vec<Terminal>);

/// A terminal in the model: equality here is structural equality.
pub enum Term {
    Var(SymbolHandle, VariableKind),
    Sym(SymbolHandle),
    Group(Seq<Term>),
}

impl View for Terminal {
    type V = Term;

    open spec fn view(&self) -> Term
        decreases self,
    {
        match self {
            Terminal::Variable(h, k) => Term::Var(*h, *k),
            Terminal::Symbol(h) => Term::Sym(*h),
            Terminal::Parentheses(e) => Term::Group(terms_view(e.0@)),
        }
    }
}

/// The models of a sequence of terminals.
pub open spec fn terms_view(ts: Seq<Terminal>) -> Seq<Term>
    decreases ts,
{
    if ts.len() == 0 {
        Seq::empty()
    } else {
        terms_view(ts.drop_last()).push(ts.last()@)
    }
}

/// The model of a sequence of terminals has one entry per terminal, in order.
pub broadcast proof fn lemma_terms_view(ts: Seq<Terminal>)
    ensures
        #[trigger] terms_view(ts).len() == ts.len(),
        forall|i: int| 0 <= i < ts.len() ==> #[trigger] terms_view(ts)[i] == ts[i]@,
    decreases ts.len(),
{
    if ts.len() > 0 {
        let init = ts.drop_last();
        lemma_terms_view(init);
        assert(terms_view(ts) == terms_view(init).push(ts.last()@));
        assert forall|i: int| 0 <= i < ts.len() implies #[trigger] terms_view(ts)[i] == ts[i]@ by {
            if i < ts.len() - 1 {
                assert(terms_view(init)[i] == init[i]@);
            }
        }
    }
}

impl View for Expression {
    type V = Seq<Term>;

    open spec fn view(&self) -> Seq<Term> {
        terms_view(self.0@)
    }
}


#[derive(Debug, PartialEq, Eq)]
pub enum Statement {
    /// A rewrite rule `left -> right`.
    Rewrite(Expression, Expression),
    /// A line with nothing to do.
    Noop,
}

impl Statement {
    pub fn is_noop(&self) -> (r: bool)
        ensures
            r == (self is Noop),
    {
        match self {
            Statement::Noop => true,
            _ => false,
        }
    }
}

#[derive(Debug)]
pub struct Label(pub SymbolHandle);

#[derive(Debug)]
pub struct Comment(pub String);

/// One parsed line: an optional label, a statement, an optional comment.
#[derive(Debug)]
pub struct Item {
    pub label: Option<Label>,
    pub comment: Option<Comment>,
    pub statement: Statement,
}

/// A terminal with its atoms spelled out as text.
pub enum TextTerm {
    Var(Seq<char>, VariableKind),
    Sym(Seq<char>),
    Group(Seq<TextTerm>),
}

/// A line in the model: label text, `None` for a no-op or the two sides of a
/// rule, and comment text.
pub struct TextItem {
    pub label: Option<Seq<char>>,
    pub statement: Option<(Seq<TextTerm>, Seq<TextTerm>)>,
    pub comment: Option<Seq<char>>,
}

/// Every handle in `t` is below `n`.
pub open spec fn term_in_table(t: Term, n: nat) -> bool
    decreases t,
{
    match t {
        Term::Var(h, _) => h.index() < n,
        Term::Sym(h) => h.index() < n,
        Term::Group(e) => forall|i: int| 0 <= i < e.len() ==> term_in_table(#[trigger] e[i], n),
    }
}

pub open spec fn in_table(e: Seq<Term>, n: nat) -> bool {
    forall|i: int| 0 <= i < e.len() ==> #[trigger] term_in_table(e[i], n)
}

/// `t` with each handle replaced by its text in `tab`.
pub open spec fn decode_term(tab: Seq<Seq<char>>, t: Term) -> TextTerm
    decreases t,
{
    match t {
        Term::Var(h, k) => TextTerm::Var(tab[h.index() as int], k),
        Term::Sym(h) => TextTerm::Sym(tab[h.index() as int]),
        Term::Group(e) => TextTerm::Group(decode_seq(tab, e)),
    }
}

pub open spec fn decode_seq(tab: Seq<Seq<char>>, e: Seq<Term>) -> Seq<TextTerm>
    decreases e,
{
    if e.len() == 0 {
        Seq::empty()
    } else {
        decode_seq(tab, e.drop_last()).push(decode_term(tab, e.last()))
    }
}

pub proof fn lemma_decode_seq(tab: Seq<Seq<char>>, e: Seq<Term>)
    ensures
        decode_seq(tab, e).len() == e.len(),
        forall|i: int| 0 <= i < e.len() ==> #[trigger] decode_seq(tab, e)[i] == decode_term(tab, e[i]),
    decreases e.len(),
{
    if e.len() > 0 {
        let init = e.drop_last();
        lemma_decode_seq(tab, init);
        assert forall|i: int| 0 <= i < e.len() implies #[trigger] decode_seq(tab, e)[i]
            == decode_term(tab, e[i]) by {
            if i < e.len() - 1 {
                assert(decode_seq(tab, init)[i] == decode_term(tab, init[i]));
            }
        }
    }
}

/// A statement with its handles replaced by text: `None` for a no-op.
pub open spec fn decode_statement(tab: Seq<Seq<char>>, st: Statement) -> Option<
    (Seq<TextTerm>, Seq<TextTerm>),
> {
    match st {
        Statement::Noop => None,
        Statement::Rewrite(l, r) => Some((decode_seq(tab, l@), decode_seq(tab, r@))),
    }
}

pub open spec fn statement_in_table(st: Statement, n: nat) -> bool {
    match st {
        Statement::Noop => true,
        Statement::Rewrite(l, r) => in_table(l@, n) && in_table(r@, n),
    }
}

/// An item with its handles replaced by text.
pub open spec fn decode_item(tab: Seq<Seq<char>>, it: Item) -> TextItem {
    TextItem {
        label: match it.label {
            Some(l) => Some(tab[l.0.index() as int]),
            None => None,
        },
        statement: decode_statement(tab, it.statement),
        comment: match it.comment {
            Some(c) => Some(c.0@),
            None => None,
        },
    }
}

pub open spec fn item_in_table(it: Item, n: nat) -> bool {
    &&& statement_in_table(it.statement, n)
    &&& it.label matches Some(l) ==> l.0.index() < n
}

/// Decoding through a table that has grown gives the same text.
pub proof fn lemma_decode_term_grows(t: Term, small: Seq<Seq<char>>, big: Seq<Seq<char>>)
    requires
        term_in_table(t, small.len()),
        grows(small, big),
    ensures
        term_in_table(t, big.len()),
        decode_term(big, t) == decode_term(small, t),
    decreases t,
{
    match t {
        Term::Var(h, _) => {
            assert(big.subrange(0, small.len() as int)[h.index() as int] == big[h.index() as int]);
        },
        Term::Sym(h) => {
            assert(big.subrange(0, small.len() as int)[h.index() as int] == big[h.index() as int]);
        },
        Term::Group(e) => {
            assert(in_table(e, small.len()));
            lemma_decode_seq_grows(e, small, big);
            assert(term_in_table(t, big.len()) == (forall|i: int|
                0 <= i < e.len() ==> term_in_table(#[trigger] e[i], big.len())));
        },
    }
}

pub proof fn lemma_decode_seq_grows(e: Seq<Term>, small: Seq<Seq<char>>, big: Seq<Seq<char>>)
    requires
        in_table(e, small.len()),
        grows(small, big),
    ensures
        in_table(e, big.len()),
        decode_seq(big, e) == decode_seq(small, e),
    decreases e,
{
    lemma_decode_seq(small, e);
    lemma_decode_seq(big, e);
    assert forall|i: int| 0 <= i < e.len() implies #[trigger] term_in_table(e[i], big.len()) by {
        lemma_decode_term_grows(e[i], small, big);
    }
    assert forall|i: int| 0 <= i < e.len() implies #[trigger] decode_seq(big, e)[i] == decode_seq(
        small,
        e,
    )[i] by {
        lemma_decode_term_grows(e[i], small, big);
    }
    assert(decode_seq(big, e) =~= decode_seq(small, e));
}

impl Terminal {
    pub fn duplicate(&self) -> (r: Terminal)
        ensures
            r@ == self@,
        decreases self,
    {
        match self {
            Terminal::Variable(h, k) => Terminal::Variable(*h, *k),
            Terminal::Symbol(h) => Terminal::Symbol(*h),
            Terminal::Parentheses(e) => Terminal::Parentheses(e.duplicate()),
        }
    }
}

impl Expression {
    pub fn duplicate(&self) -> (r: Expression)
        ensures
            r@ == self@,
        decreases self,
    {
        let mut out: Vec<Terminal> = Vec::new();
        let mut i: usize = 0;
        while i < self.0.len()
            invariant
                i <= self.0@.len(),
                out@.len() == i,
                forall|j: int| 0 <= j < i ==> out@[j]@ == self.0@[j]@,
            decreases self.0@.len() - i,
        {
            proof { vstd::std_specs::vec::axiom_vec_index_decreases(self.0, i as int); }
            let t = self.0[i].duplicate();
            out.push(t);
            i = i + 1;
        }
        let r = Expression(out);
        proof {
            lemma_terms_view(self.0@);
            lemma_terms_view(r.0@);
        }
        assert(r@ =~= self@);
        r
    }
}

impl Terminal {
    /// Structural equality: same variant, same handles, and equal groups.
    pub fn same(&self, other: &Terminal) -> (r: bool)
        ensures
            r == (self@ == other@),
        decreases self,
    {
        match (self, other) {
            (Terminal::Variable(a, k), Terminal::Variable(b, l)) => *a == *b && *k == *l,
            (Terminal::Symbol(a), Terminal::Symbol(b)) => *a == *b,
            (Terminal::Parentheses(e), Terminal::Parentheses(f)) => e.same(f),
            _ => false,
        }
    }
}

impl Expression {
    /// Structural equality: equal lengths and pairwise equal terminals.
    pub fn same(&self, other: &Expression) -> (r: bool)
        ensures
            r == (self@ == other@),
        decreases self,
    {
        proof {
            lemma_terms_view(self.0@);
            lemma_terms_view(other.0@);
        }
        if self.0.len() != other.0.len() {
            return false;
        }
        let mut i: usize = 0;
        while i < self.0.len()
            invariant
                i <= self.0@.len(),
                self.0@.len() == other.0@.len(),
                self@.len() == self.0@.len(),
                other@.len() == other.0@.len(),
                forall|j: int| 0 <= j < self.0@.len() ==> self@[j] == #[trigger] self.0@[j]@,
                forall|j: int| 0 <= j < other.0@.len() ==> other@[j] == #[trigger] other.0@[j]@,
                forall|j: int| 0 <= j < i ==> self@[j] == other@[j],
            decreases self.0@.len() - i,
        {
            proof { vstd::std_specs::vec::axiom_vec_index_decreases(self.0, i as int); }
            if !self.0[i].same(&other.0[i]) {
                assert(self@[i as int] != other@[i as int]);
                return false;
            }
            i = i + 1;
        }
        assert(self@ =~= other@);
        true
    }
}

impl Clone for Terminal {
    fn clone(&self) -> (r: Terminal)
        ensures
            r@ == self@,
    {
        self.duplicate()
    }
}

impl Clone for Expression {
    fn clone(&self) -> (r: Expression)
        ensures
            r@ == self@,
    {
        self.duplicate()
    }
}

} // verus!
