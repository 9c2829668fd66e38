use vstd::prelude::*;
use crate::expr::{Expression, Term, Terminal, VariableKind, in_table, lemma_terms_view, term_in_table};
use crate::symbol_table::SymbolHandle;

verus! {

broadcast use {
    vstd::seq::axiom_seq_index_decreases,
    vstd::seq::axiom_seq_subrange_decreases,
    vstd::std_specs::vec::axiom_vec_decreases_to_view,
    lemma_terms_view,
};

/// A variable bound to a terminal of the subject.
pub struct VariableBinding<'t> {
    pub var: SymbolHandle,
    pub expr: &'t Terminal,
}

/// A binding list as (variable, term) pairs.
pub type Bindings = Seq<(SymbolHandle, Term)>;

pub open spec fn bindings_view<'t>(bs: Seq<VariableBinding<'t>>) -> Bindings {
    bs.map_values(|b: VariableBinding<'t>| (b.var, b.expr@))
}

/// The term bound to `v` by the first binding of `v`, if any.
pub open spec fn bound_to(b: Bindings, v: SymbolHandle) -> Option<Term>
    decreases b.len(),
{
    if b.len() == 0 {
        None
    } else if b[0].0 == v {
        Some(b[0].1)
    } else {
        bound_to(b.drop_first(), v)
    }
}

/// Whether some binding holds the term `t`.
pub open spec fn binds_term(b: Bindings, t: Term) -> bool {
    exists|j: int| 0 <= j < b.len() && b[j].1 == t
}

/// Matching one pattern terminal against one subject terminal, extending `b`.
pub open spec fn match_term(p: Term, s: Term, b: Bindings) -> Option<Bindings>
    decreases p,
{
    match p {
        Term::Sym(a) => if s == Term::Sym(a) {
            Some(b)
        } else {
            None
        },
        Term::Group(pe) => match s {
            Term::Group(se) => match_terms(pe, se, b),
            _ => None,
        },
        Term::Var(v, _) => match bound_to(b, v) {
            Some(t) => if t == s {
                Some(b)
            } else {
                None
            },
            None => if binds_term(b, s) {
                None
            } else {
                Some(b.push((v, s)))
            },
        },
    }
}

/// Matching a pattern expression against a subject expression: equal lengths,
/// then terminal by terminal from the left, threading the bindings.
pub open spec fn match_terms(p: Seq<Term>, s: Seq<Term>, b: Bindings) -> Option<Bindings>
    decreases p,
{
    if p.len() != s.len() {
        None
    } else if p.len() == 0 {
        Some(b)
    } else {
        match match_terms(p.drop_last(), s.drop_last(), b) {
            Some(b2) => match_term(p.last(), s.last(), b2),
            None => None,
        }
    }
}

/// A term with no variable anywhere in it.
pub open spec fn term_var_free(t: Term) -> bool
    decreases t,
{
    match t {
        Term::Var(_, _) => false,
        Term::Sym(_) => true,
        Term::Group(e) => forall|i: int| 0 <= i < e.len() ==> term_var_free(#[trigger] e[i]),
    }
}

/// An expression with no variable anywhere in it.
pub open spec fn var_free(e: Seq<Term>) -> bool {
    forall|i: int| 0 <= i < e.len() ==> #[trigger] term_var_free(e[i])
}

proof fn lemma_match_term_reflexive(t: Term, b: Bindings)
    requires
        term_var_free(t),
    ensures
        match_term(t, t, b) == Some(b),
    decreases t,
{
    if let Term::Group(e) = t {
        lemma_match_terms_reflexive(e, b);
    }
}

proof fn lemma_match_terms_reflexive(e: Seq<Term>, b: Bindings)
    requires
        var_free(e),
    ensures
        match_terms(e, e, b) == Some(b),
    decreases e,
{
    if e.len() > 0 {
        let init = e.drop_last();
        assert(var_free(init));
        lemma_match_terms_reflexive(init, b);
        lemma_match_term_reflexive(e.last(), b);
    }
}

/// A variable-free expression matches itself and binds nothing.
pub proof fn lemma_match_reflexive(e: Seq<Term>)
    requires
        var_free(e),
    ensures
        match_terms(e, e, Seq::empty()) == Some(Seq::<(SymbolHandle, Term)>::empty()),
{
    lemma_match_terms_reflexive(e, Seq::empty());
}

/// A variable that occurs twice must match equal terms: `$x op $x` fails
/// against `a op b` when `a` and `b` differ, and against `a op a` binds
/// `$x` to `a` alone.
pub proof fn lemma_match_linear(
    x: SymbolHandle,
    k1: VariableKind,
    k2: VariableKind,
    op: SymbolHandle,
    a: Term,
    b: Term,
)
    ensures
        a != b ==> match_terms(
            seq![Term::Var(x, k1), Term::Sym(op), Term::Var(x, k2)],
            seq![a, Term::Sym(op), b],
            Seq::empty(),
        ) is None,
        match_terms(
            seq![Term::Var(x, k1), Term::Sym(op), Term::Var(x, k2)],
            seq![a, Term::Sym(op), a],
            Seq::empty(),
        ) == Some(seq![(x, a)]),
{
    let e = Seq::<(SymbolHandle, Term)>::empty();
    let one = seq![(x, a)];
    let pa = seq![Term::Var(x, k1)];
    let pb = seq![Term::Var(x, k1), Term::Sym(op)];
    let pc = seq![Term::Var(x, k1), Term::Sym(op), Term::Var(x, k2)];
    let s1 = seq![a];
    let s2 = seq![a, Term::Sym(op)];
    lemma_first_binding(x, a);
    assert(match_terms(pa.drop_last(), s1.drop_last(), e) == Some(e)) by {
        assert(pa.drop_last() =~= Seq::<Term>::empty());
        assert(s1.drop_last() =~= Seq::<Term>::empty());
    }
    assert(pa.last() == pa[0] && s1.last() == a);
    assert(match_term(pa.last(), s1.last(), e) == Some(one));
    assert(match_terms(pa, s1, e) == Some(one));
    assert(pb.drop_last() =~= pa);
    assert(s2.drop_last() =~= s1);
    assert(pb.last() == Term::Sym(op) && s2.last() == Term::Sym(op));
    assert(match_term(pb.last(), s2.last(), one) == Some(one));
    assert(match_terms(pb, s2, e) == Some(one));
    assert(pc.drop_last() =~= pb);
    let sb = seq![a, Term::Sym(op), b];
    let sa = seq![a, Term::Sym(op), a];
    assert(sb.drop_last() =~= s2);
    assert(sa.drop_last() =~= s2);
    assert(bound_to(one, x) == Some(a));
    assert(pc.last() == Term::Var(x, k2) && sb.last() == b && sa.last() == a);
    assert(match_term(pc.last(), sa.last(), one) == Some(one));
    assert(match_terms(pc, sa, e) == Some(one));
    if a != b {
        assert(match_term(pc.last(), sb.last(), one) is None);
        assert(match_terms(pc, sb, e) is None);
    }
}

/// Binding `x` to `a` from no bindings gives the one binding `(x, a)`.
proof fn lemma_first_binding(x: SymbolHandle, a: Term)
    ensures
        bound_to(Seq::empty(), x) is None,
        !binds_term(Seq::empty(), a),
        Seq::<(SymbolHandle, Term)>::empty().push((x, a)) == seq![(x, a)],
        bound_to(seq![(x, a)], x) == Some(a),
        binds_term(seq![(x, a)], a),
{
    let one = seq![(x, a)];
    assert(Seq::<(SymbolHandle, Term)>::empty().push((x, a)) =~= one);
    assert(one[0].1 == a);
}

/// Two different variables never bind equal terms: `$x $y` fails against `a a`.
pub proof fn lemma_match_distinct(
    x: SymbolHandle,
    kx: VariableKind,
    y: SymbolHandle,
    ky: VariableKind,
    a: Term,
)
    requires
        x != y,
    ensures
        match_terms(seq![Term::Var(x, kx), Term::Var(y, ky)], seq![a, a], Seq::empty()) is None,
{
    let e = Seq::<(SymbolHandle, Term)>::empty();
    let one = seq![(x, a)];
    let pa = seq![Term::Var(x, kx)];
    let pb = seq![Term::Var(x, kx), Term::Var(y, ky)];
    let s1 = seq![a];
    let s2 = seq![a, a];
    lemma_first_binding(x, a);
    assert(match_terms(pa.drop_last(), s1.drop_last(), e) == Some(e)) by {
        assert(pa.drop_last() =~= Seq::<Term>::empty());
        assert(s1.drop_last() =~= Seq::<Term>::empty());
    }
    assert(pa.last() == pa[0] && s1.last() == a);
    assert(match_term(pa.last(), s1.last(), e) == Some(one));
    assert(match_terms(pa, s1, e) == Some(one));
    assert(pb.drop_last() =~= pa);
    assert(s2.drop_last() =~= s1);
    assert(one.drop_first() =~= e);
    assert(bound_to(e, y) is None);
    assert(bound_to(one, y) is None);
    assert(pb.last() == Term::Var(y, ky) && s2.last() == a);
    assert(match_term(pb.last(), s2.last(), one) is None);
    assert(match_terms(pb, s2, e) is None);
}

/// `big` starts with `small`.
pub open spec fn extends(big: Bindings, small: Bindings) -> bool {
    small.len() <= big.len() && big.subrange(0, small.len() as int) == small
}

/// A binding found in a list is found, unchanged, in every extension of it.
pub proof fn lemma_bound_extends(small: Bindings, big: Bindings, v: SymbolHandle)
    requires
        extends(big, small),
        bound_to(small, v) is Some,
    ensures
        bound_to(big, v) == bound_to(small, v),
    decreases small.len(),
{
    assert(big[0] == big.subrange(0, small.len() as int)[0]);
    if small[0].0 != v {
        let bs = big.drop_first();
        let ss = small.drop_first();
        assert(bs.subrange(0, ss.len() as int) =~= big.subrange(0, small.len() as int).drop_first());
        lemma_bound_extends(ss, bs, v);
    }
}

/// Pushing a binding of an unbound variable makes it bound to that term.
pub proof fn lemma_bound_push(b: Bindings, v: SymbolHandle, t: Term)
    requires
        bound_to(b, v) is None,
    ensures
        bound_to(b.push((v, t)), v) == Some(t),
    decreases b.len(),
{
    if b.len() > 0 {
        assert(b.push((v, t)).drop_first() =~= b.drop_first().push((v, t)));
        lemma_bound_push(b.drop_first(), v, t);
    } else {
        assert(b.push((v, t))[0] == (v, t));
    }
}

/// A successful match only adds bindings after those it started from.
pub proof fn lemma_match_term_extends(p: Term, s: Term, b: Bindings)
    requires
        match_term(p, s, b) is Some,
    ensures
        extends(match_term(p, s, b)->Some_0, b),
    decreases p,
{
    match p {
        Term::Group(pe) => {
            if let Term::Group(se) = s {
                lemma_match_terms_extends(pe, se, b);
            }
        },
        Term::Var(v, _) => {
            let b2 = match_term(p, s, b)->Some_0;
            assert(b2.subrange(0, b.len() as int) =~= b);
        },
        Term::Sym(_) => {
            assert(b.subrange(0, b.len() as int) =~= b);
        },
    }
}

/// A successful match only adds bindings after those it started from.
pub proof fn lemma_match_terms_extends(p: Seq<Term>, s: Seq<Term>, b: Bindings)
    requires
        match_terms(p, s, b) is Some,
    ensures
        extends(match_terms(p, s, b)->Some_0, b),
    decreases p,
{
    if p.len() == 0 {
        assert(b.subrange(0, b.len() as int) =~= b);
    } else {
        let bm = match_terms(p.drop_last(), s.drop_last(), b)->Some_0;
        lemma_match_terms_extends(p.drop_last(), s.drop_last(), b);
        lemma_match_term_extends(p.last(), s.last(), bm);
        let b2 = match_terms(p, s, b)->Some_0;
        lemma_extends_trans(b2, bm, b);
    }
}

pub proof fn lemma_extends_trans(a: Bindings, b: Bindings, c: Bindings)
    requires
        extends(a, b),
        extends(b, c),
    ensures
        extends(a, c),
{
    assert(a.subrange(0, c.len() as int) =~= a.subrange(0, b.len() as int).subrange(
        0,
        c.len() as int,
    ));
}

/// Every bound term has its handles below `n`.
pub open spec fn bindings_in_table(b: Bindings, n: nat) -> bool {
    forall|j: int| 0 <= j < b.len() ==> term_in_table(#[trigger] b[j].1, n)
}

pub proof fn lemma_bound_in_table(b: Bindings, v: SymbolHandle, n: nat)
    requires
        bindings_in_table(b, n),
        bound_to(b, v) is Some,
    ensures
        term_in_table(bound_to(b, v)->Some_0, n),
    decreases b.len(),
{
    if b[0].0 != v {
        let rest = b.drop_first();
        assert forall|j: int| 0 <= j < rest.len() implies term_in_table(#[trigger] rest[j].1, n) by {
            assert(rest[j] == b[j + 1]);
        }
        lemma_bound_in_table(rest, v, n);
    }
}

/// Matching against a subject whose handles are below `n` binds only such terms.
pub proof fn lemma_match_term_in_table(p: Term, s: Term, b: Bindings, n: nat)
    requires
        match_term(p, s, b) is Some,
        bindings_in_table(b, n),
        term_in_table(s, n),
    ensures
        bindings_in_table(match_term(p, s, b)->Some_0, n),
    decreases p,
{
    match p {
        Term::Group(pe) => {
            let se = s->Group_0;
            assert(term_in_table(s, n) == (forall|i: int|
                0 <= i < se.len() ==> term_in_table(#[trigger] se[i], n)));
            lemma_match_terms_in_table(pe, se, b, n);
        },
        Term::Var(v, _) => {
            let b2 = match_term(p, s, b)->Some_0;
            assert forall|j: int| 0 <= j < b2.len() implies term_in_table(#[trigger] b2[j].1, n) by {
                if j < b.len() {
                    assert(b2[j] == b[j]);
                }
            }
        },
        Term::Sym(_) => {},
    }
}

pub proof fn lemma_match_terms_in_table(p: Seq<Term>, s: Seq<Term>, b: Bindings, n: nat)
    requires
        match_terms(p, s, b) is Some,
        bindings_in_table(b, n),
        in_table(s, n),
    ensures
        bindings_in_table(match_terms(p, s, b)->Some_0, n),
    decreases p,
{
    if p.len() > 0 {
        let si = s.drop_last();
        assert(in_table(si, n)) by {
            assert forall|i: int| 0 <= i < si.len() implies #[trigger] term_in_table(si[i], n) by {
                assert(si[i] == s[i]);
            }
        }
        lemma_match_terms_in_table(p.drop_last(), si, b, n);
        let bm = match_terms(p.drop_last(), si, b)->Some_0;
        assert(term_in_table(s[s.len() - 1], n));
        lemma_match_term_in_table(p.last(), s.last(), bm, n);
    }
}

/// Structural matching of a pattern against a subject.
pub trait Matches: Sized {
    /// The bindings that a match of `self` against `other` leaves, starting
    /// from `b`; `None` when they do not match.
    spec fn match_spec(&self, other: &Self, b: Bindings) -> Option<Bindings>;

    /// Matches `self` against `other`, extending `bindings` on success and
    /// leaving it as it was on failure.
    fn matches<'t>(&self, other: &'t Self, bindings: &mut Vec<VariableBinding<'t>>) -> (r: bool)
        ensures
            r == self.match_spec(other, bindings_view(old(bindings)@)) is Some,
            r ==> bindings_view(final(bindings)@) == self.match_spec(
                other,
                bindings_view(old(bindings)@),
            )->Some_0,
            r ==> final(bindings)@.len() >= old(bindings)@.len() && final(bindings)@.subrange(
                0,
                old(bindings)@.len() as int,
            ) == old(bindings)@,
            !r ==> final(bindings)@ == old(bindings)@,
    ;
}

/// The first binding of `v` in `bs`, scanning from the left.
pub(crate) fn find_binding<'t>(bs: &[VariableBinding<'t>], v: SymbolHandle) -> (r: Option<&'t Terminal>)
    ensures
        match bound_to(bindings_view(bs@), v) {
            Some(t) => r is Some && r->Some_0@ == t,
            None => r is None,
        },
{
    let ghost b = bindings_view(bs@);
    assert(b.subrange(0, b.len() as int) =~= b);
    let mut i: usize = 0;
    while i < bs.len()
        invariant
            i <= bs@.len(),
            b == bindings_view(bs@),
            bound_to(b, v) == bound_to(b.subrange(i as int, b.len() as int), v),
        decreases bs@.len() - i,
    {
        proof {
            let rest = b.subrange(i as int, b.len() as int);
            assert(rest.drop_first() =~= b.subrange(i + 1, b.len() as int));
        }
        if bs[i].var == v {
            return Some(bs[i].expr);
        }
        i = i + 1;
    }
    None
}

/// Whether some binding in `bs` holds a terminal equal to `t`.
fn holds_term<'t>(bs: &[VariableBinding<'t>], t: &Terminal) -> (r: bool)
    ensures
        r == binds_term(bindings_view(bs@), t@),
{
    let ghost b = bindings_view(bs@);
    let mut i: usize = 0;
    while i < bs.len()
        invariant
            i <= bs@.len(),
            b == bindings_view(bs@),
            forall|j: int| 0 <= j < i ==> b[j].1 != t@,
        decreases bs@.len() - i,
    {
        if bs[i].expr.same(t) {
            assert(b[i as int].1 == t@);
            return true;
        }
        i = i + 1;
    }
    false
}

impl Matches for Terminal {
    open spec fn match_spec(&self, other: &Self, b: Bindings) -> Option<Bindings> {
        match_term(self@, other@, b)
    }

    fn matches<'t>(&self, other: &'t Self, bindings: &mut Vec<VariableBinding<'t>>) -> (r: bool)
        decreases self,
    {
        match self {
            Terminal::Symbol(a) => match other {
                Terminal::Symbol(b) => *a == *b,
                _ => false,
            },
            Terminal::Variable(v, _) => {
                match find_binding(bindings.as_slice(), *v) {
                    Some(bound) => {
                        return bound.same(other);
                    },
                    None => {},
                }
                if holds_term(bindings.as_slice(), other) {
                    return false;
                }
                bindings.push(VariableBinding { var: *v, expr: other });
                proof {
                    assert(bindings_view(bindings@) =~= bindings_view(old(bindings)@).push(
                        (*v, other@),
                    ));
                    assert(bindings@.subrange(0, old(bindings)@.len() as int) =~= old(bindings)@);
                }
                true
            },
            Terminal::Parentheses(pe) => match other {
                Terminal::Parentheses(se) => pe.matches(se, bindings),
                _ => false,
            },
        }
    }
}

impl Matches for Expression {
    open spec fn match_spec(&self, other: &Self, b: Bindings) -> Option<Bindings> {
        match_terms(self@, other@, b)
    }

    fn matches<'t>(&self, other: &'t Self, bindings: &mut Vec<VariableBinding<'t>>) -> (r: bool)
        decreases self,
    {
        if self.0.len() != other.0.len() {
            return false;
        }
        let ghost b0 = bindings_view(bindings@);
        let n0 = bindings.len();
        let mut i: usize = 0;
        while i < self.0.len()
            invariant
                i <= self.0@.len(),
                self.0@.len() == other.0@.len(),
                n0 == old(bindings)@.len(),
                b0 == bindings_view(old(bindings)@),
                bindings@.len() >= n0,
                bindings@.subrange(0, n0 as int) == old(bindings)@,
                match_terms(
                    self@.subrange(0, i as int),
                    other@.subrange(0, i as int),
                    b0,
                ) == Some(bindings_view(bindings@)),
            decreases self.0@.len() - i,
        {
            proof {
                vstd::std_specs::vec::axiom_vec_index_decreases(self.0, i as int);
                let ps = self@.subrange(0, i + 1);
                let ss = other@.subrange(0, i + 1);
                assert(ps.drop_last() =~= self@.subrange(0, i as int));
                assert(ss.drop_last() =~= other@.subrange(0, i as int));
                assert(ps.last() == self.0@[i as int]@);
                assert(ss.last() == other.0@[i as int]@);
            }
            let ghost before = bindings@;
            if !self.0[i].matches(&other.0[i], bindings) {
                proof {
                    assert(match_terms(
                        self@.subrange(0, i + 1),
                        other@.subrange(0, i + 1),
                        b0,
                    ) is None);
                }
                bindings.truncate(n0);
                proof {
                    lemma_match_terms_prefix_fails(self@, other@, b0, i as int + 1);
                }
                return false;
            }
            proof {
                assert(bindings@.subrange(0, n0 as int) =~= before.subrange(0, n0 as int));
            }
            i = i + 1;
        }
        proof {
            assert(self@.subrange(0, i as int) =~= self@);
            assert(other@.subrange(0, i as int) =~= other@);
        }
        true
    }
}

/// Once a prefix of the pattern fails to match, the whole pattern fails.
proof fn lemma_match_terms_prefix_fails(p: Seq<Term>, s: Seq<Term>, b: Bindings, k: int)
    requires
        p.len() == s.len(),
        0 <= k <= p.len(),
        match_terms(p.subrange(0, k), s.subrange(0, k), b) is None,
    ensures
        match_terms(p, s, b) is None,
    decreases p.len() - k,
{
    if k < p.len() {
        let ps = p.subrange(0, k + 1);
        let ss = s.subrange(0, k + 1);
        assert(ps.drop_last() =~= p.subrange(0, k));
        assert(ss.drop_last() =~= s.subrange(0, k));
        lemma_match_terms_prefix_fails(p, s, b, k + 1);
    } else {
        assert(p.subrange(0, k) =~= p);
        assert(s.subrange(0, k) =~= s);
    }
}

} // verus!
