use vstd::prelude::*;
use crate::expr::{Expression, Term, Terminal, in_table, lemma_terms_view, term_in_table};
use crate::matches::{
    Bindings, VariableBinding, bindings_view, bound_to, extends, find_binding, lemma_bound_extends,
    lemma_bound_push, lemma_extends_trans, lemma_match_term_extends,
    match_term, match_terms, term_var_free, var_free, bindings_in_table, lemma_bound_in_table,
};

verus! {

broadcast use {
    vstd::seq::axiom_seq_index_decreases,
    vstd::seq::axiom_seq_subrange_decreases,
    vstd::std_specs::vec::axiom_vec_decreases_to_view,
    lemma_terms_view,
};

/// A template terminal with its bound variables replaced.
pub open spec fn interp_term(t: Term, b: Bindings) -> Term
    decreases t,
{
    match t {
        Term::Sym(_) => t,
        Term::Var(v, _) => match bound_to(b, v) {
            Some(x) => x,
            None => t,
        },
        Term::Group(e) => Term::Group(unwrap_group(interp_seq(e, b))),
    }
}

/// Each terminal of `e` substituted, before redundant parentheses are removed.
pub open spec fn interp_seq(e: Seq<Term>, b: Bindings) -> Seq<Term>
    decreases e,
{
    if e.len() == 0 {
        Seq::empty()
    } else {
        interp_seq(e.drop_last(), b).push(interp_term(e.last(), b))
    }
}

/// An expression that is one parenthesized group, replaced by the group's
/// contents; any other expression as it is.
pub open spec fn unwrap_group(r: Seq<Term>) -> Seq<Term> {
    if r.len() == 1 && r[0] is Group {
        r[0]->Group_0
    } else {
        r
    }
}

/// A template expression with its bound variables replaced, then unwrapped.
pub open spec fn interp_expr(e: Seq<Term>, b: Bindings) -> Seq<Term> {
    unwrap_group(interp_seq(e, b))
}

pub proof fn lemma_interp_seq(e: Seq<Term>, b: Bindings)
    ensures
        interp_seq(e, b).len() == e.len(),
        forall|i: int| 0 <= i < e.len() ==> #[trigger] interp_seq(e, b)[i] == interp_term(e[i], b),
    decreases e.len(),
{
    if e.len() > 0 {
        let init = e.drop_last();
        lemma_interp_seq(init, b);
        assert forall|i: int| 0 <= i < e.len() implies #[trigger] interp_seq(e, b)[i]
            == interp_term(e[i], b) by {
            if i < e.len() - 1 {
                assert(interp_seq(init, b)[i] == interp_term(init[i], b));
            }
        }
    }
}

proof fn lemma_interp_term_in_table(t: Term, b: Bindings, n: nat)
    requires
        term_in_table(t, n),
        bindings_in_table(b, n),
    ensures
        term_in_table(interp_term(t, b), n),
    decreases t,
{
    match t {
        Term::Var(v, _) => {
            if bound_to(b, v) is Some {
                lemma_bound_in_table(b, v, n);
            }
        },
        Term::Sym(_) => {},
        Term::Group(e) => {
            assert(term_in_table(t, n) == (forall|i: int|
                0 <= i < e.len() ==> term_in_table(#[trigger] e[i], n)));
            lemma_interp_seq_in_table(e, b, n);
            let r = interp_seq(e, b);
            let u = unwrap_group(r);
            if lone_group(r) {
                let x = r[0]->Group_0;
                assert(term_in_table(r[0], n));
                assert(term_in_table(r[0], n) == (forall|i: int|
                    0 <= i < x.len() ==> term_in_table(#[trigger] x[i], n)));
            }
            assert(term_in_table(interp_term(t, b), n) == (forall|i: int|
                0 <= i < u.len() ==> term_in_table(#[trigger] u[i], n)));
        },
    }
}

proof fn lemma_interp_seq_in_table(e: Seq<Term>, b: Bindings, n: nat)
    requires
        in_table(e, n),
        bindings_in_table(b, n),
    ensures
        in_table(interp_seq(e, b), n),
    decreases e,
{
    lemma_interp_seq(e, b);
    assert forall|i: int| 0 <= i < e.len() implies #[trigger] term_in_table(interp_seq(e, b)[i], n) by {
        lemma_interp_term_in_table(e[i], b, n);
    }
}

/// Substituting terms whose handles are below `n` into a template whose
/// handles are below `n` gives an expression whose handles are below `n`.
pub proof fn lemma_interp_expr_in_table(e: Seq<Term>, b: Bindings, n: nat)
    requires
        in_table(e, n),
        bindings_in_table(b, n),
    ensures
        in_table(interp_expr(e, b), n),
{
    lemma_interp_seq_in_table(e, b, n);
    let r = interp_seq(e, b);
    if lone_group(r) {
        let x = r[0]->Group_0;
        assert(term_in_table(r[0], n));
        assert(term_in_table(r[0], n) == (forall|i: int|
            0 <= i < x.len() ==> term_in_table(#[trigger] x[i], n)));
    }
}

/// Whether an expression is a single parenthesized group.
pub open spec fn lone_group(e: Seq<Term>) -> bool {
    e.len() == 1 && e[0] is Group
}

/// No expression in `e`, `e` itself or one nested in a group, is a single
/// parenthesized group.
pub open spec fn no_lone_group(e: Seq<Term>) -> bool
    decreases e,
{
    &&& !lone_group(e)
    &&& forall|i: int|
        0 <= i < e.len() ==> match #[trigger] e[i] {
            Term::Group(inner) => no_lone_group(inner),
            _ => true,
        }
}

/// No expression of `s` at a place where the pattern `p` has an expression
/// (`s` itself, or a group facing a group of `p`) is a single parenthesized
/// group.
pub open spec fn keeps_groups(p: Seq<Term>, s: Seq<Term>) -> bool
    decreases p,
{
    &&& !lone_group(s)
    &&& forall|i: int|
        0 <= i < p.len() && i < s.len() ==> match (#[trigger] p[i], s[i]) {
            (Term::Group(pe), Term::Group(se)) => keeps_groups(pe, se),
            _ => true,
        }
}

proof fn lemma_interp_term_identity(t: Term, b: Bindings)
    requires
        term_var_free(t),
        t is Group ==> no_lone_group(t->Group_0),
    ensures
        interp_term(t, b) == t,
    decreases t,
{
    if let Term::Group(e) = t {
        lemma_interp_seq_identity(e, b);
    }
}

proof fn lemma_interp_seq_identity(e: Seq<Term>, b: Bindings)
    requires
        var_free(e),
        no_lone_group(e),
    ensures
        interp_seq(e, b) == e,
    decreases e,
{
    lemma_interp_seq(e, b);
    assert forall|i: int| 0 <= i < e.len() implies #[trigger] interp_seq(e, b)[i] == e[i] by {
        lemma_interp_term_identity(e[i], b);
    }
    assert(interp_seq(e, b) =~= e);
}

/// A template without variables and without redundant parentheses is left
/// as it is by any bindings.
pub proof fn lemma_interpolate_identity(t: Seq<Term>, b: Bindings)
    requires
        var_free(t),
        no_lone_group(t),
    ensures
        interp_expr(t, b) == t,
{
    lemma_interp_seq_identity(t, b);
}

proof fn lemma_match_interp_term(p: Term, s: Term, b: Bindings, big: Bindings)
    requires
        match_term(p, s, b) is Some,
        extends(big, match_term(p, s, b)->Some_0),
        (p, s) matches (Term::Group(pe), Term::Group(se)) ==> keeps_groups(pe, se),
    ensures
        interp_term(p, big) == s,
    decreases p,
{
    let b2 = match_term(p, s, b)->Some_0;
    match p {
        Term::Sym(_) => {},
        Term::Var(v, _) => {
            if bound_to(b, v) is None {
                lemma_bound_push(b, v, s);
            }
            lemma_bound_extends(b2, big, v);
        },
        Term::Group(pe) => {
            let se = s->Group_0;
            lemma_match_interp_seq(pe, se, b, big);
            assert(!lone_group(se));
        },
    }
}

proof fn lemma_match_interp_seq(p: Seq<Term>, s: Seq<Term>, b: Bindings, big: Bindings)
    requires
        match_terms(p, s, b) is Some,
        extends(big, match_terms(p, s, b)->Some_0),
        forall|i: int|
            0 <= i < p.len() && i < s.len() ==> match (#[trigger] p[i], s[i]) {
                (Term::Group(pe), Term::Group(se)) => keeps_groups(pe, se),
                _ => true,
            },
    ensures
        interp_seq(p, big) == s,
    decreases p,
{
    if p.len() > 0 {
        let pi = p.drop_last();
        let si = s.drop_last();
        let bm = match_terms(pi, si, b)->Some_0;
        let b2 = match_terms(p, s, b)->Some_0;
        lemma_match_term_extends(p.last(), s.last(), bm);
        lemma_extends_trans(big, b2, bm);
        assert forall|i: int| 0 <= i < pi.len() && i < si.len() implies match (
            #[trigger] pi[i],
            si[i],
        ) {
            (Term::Group(pe), Term::Group(se)) => keeps_groups(pe, se),
            _ => true,
        } by {
            assert(pi[i] == p[i] && si[i] == s[i]);
        }
        lemma_match_interp_seq(pi, si, b, big);
        assert(p.last() == p[p.len() - 1]);
        lemma_match_interp_term(p.last(), s.last(), bm, big);
        assert(interp_seq(p, big) =~= s);
    }
}

/// Substituting into a pattern the bindings of its match against a subject
/// gives the subject back, unless the subject holds a single parenthesized
/// group where the pattern has an expression.
pub proof fn lemma_interpolate_match(p: Seq<Term>, s: Seq<Term>)
    requires
        match_terms(p, s, Seq::empty()) is Some,
        keeps_groups(p, s),
    ensures
        interp_expr(p, match_terms(p, s, Seq::empty())->Some_0) == s,
{
    let b = match_terms(p, s, Seq::empty())->Some_0;
    assert(b.subrange(0, b.len() as int) =~= b);
    lemma_match_interp_seq(p, s, Seq::empty(), b);
}

/// Substitution of bindings into a template.
pub trait Interpolate: Sized + View {
    /// What the substitution gives, in the model.
    spec fn interpolate_spec(&self, b: Bindings) -> Self::V;

    fn interpolate<'t>(&self, bindings: &[VariableBinding<'t>]) -> (r: Self)
        ensures
            r@ == self.interpolate_spec(bindings_view(bindings@)),
    ;
}

impl Interpolate for Terminal {
    open spec fn interpolate_spec(&self, b: Bindings) -> Term {
        interp_term(self@, b)
    }

    fn interpolate<'t>(&self, bindings: &[VariableBinding<'t>]) -> (r: Self)
        decreases self,
    {
        match self {
            Terminal::Parentheses(e) => Terminal::Parentheses(e.interpolate(bindings)),
            Terminal::Symbol(s) => Terminal::Symbol(*s),
            Terminal::Variable(v, k) => match find_binding(bindings, *v) {
                Some(t) => t.duplicate(),
                None => Terminal::Variable(*v, *k),
            },
        }
    }
}

impl Interpolate for Expression {
    open spec fn interpolate_spec(&self, b: Bindings) -> Seq<Term> {
        interp_expr(self@, b)
    }

    fn interpolate<'t>(&self, bindings: &[VariableBinding<'t>]) -> (r: Self)
        decreases self,
    {
        let ghost b = bindings_view(bindings@);
        let mut out: Vec<Terminal> = Vec::new();
        let mut i: usize = 0;
        while i < self.0.len()
            invariant
                i <= self.0@.len(),
                b == bindings_view(bindings@),
                out@.len() == i,
                forall|j: int| 0 <= j < i ==> #[trigger] out@[j]@ == interp_term(self.0@[j]@, b),
            decreases self.0@.len() - i,
        {
            proof { vstd::std_specs::vec::axiom_vec_index_decreases(self.0, i as int); }
            let t = self.0[i].interpolate(bindings);
            out.push(t);
            i = i + 1;
        }
        proof {
            lemma_interp_seq(self@, b);
            assert(Expression(out)@ =~= interp_seq(self@, b));
        }
        if out.len() == 1 {
            if let Terminal::Parentheses(_) = &out[0] {
                if let Some(Terminal::Parentheses(e)) = out.pop() {
                    return e;
                }
            }
        }
        Expression(out)
    }
}

} // verus!
