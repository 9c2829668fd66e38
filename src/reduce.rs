use vstd::prelude::*;
use crate::expr::{Expression, Term, Terminal, in_table, lemma_terms_view, term_in_table};
use crate::interpolate::{Interpolate, interp_expr, lemma_interp_expr_in_table};
use crate::matches::{
    Bindings, Matches, VariableBinding, bindings_in_table, bindings_view, lemma_match_terms_in_table,
    match_terms,
};

verus! {

broadcast use {
    vstd::seq::axiom_seq_index_decreases,
    vstd::seq::axiom_seq_subrange_decreases,
    vstd::std_specs::vec::axiom_vec_decreases_to_view,
    lemma_terms_view,
};

/// A rule in the model: its pattern and its template.
pub type Rule = (Seq<Term>, Seq<Term>);

/// A rewrite rule: `left` is the pattern, `right` the template.
pub struct RewriteRule {
    pub left: Expression,
    pub right: Expression,
}

impl View for RewriteRule {
    type V = Rule;

    open spec fn view(&self) -> Rule {
        (self.left@, self.right@)
    }
}

impl RewriteRule {
    pub fn new(left: Expression, right: Expression) -> (r: RewriteRule)
        ensures
            r@ == (left@, right@),
    {
        RewriteRule { left, right }
    }
}

/// The rule base: rules in the order they were added.
pub struct RewriteRules {
    rules: Vec<RewriteRule>,
}

impl View for RewriteRules {
    type V = Seq<Rule>;

    closed spec fn view(&self) -> Seq<Rule> {
        self.rules@.map_values(|r: RewriteRule| r@)
    }
}

/// Each rule whose pattern matches `e` from no bindings, in rule order, with
/// the bindings of its match.
pub open spec fn all_matches(rules: Seq<Rule>, e: Seq<Term>) -> Seq<(Rule, Bindings)>
    decreases rules.len(),
{
    if rules.len() == 0 {
        Seq::empty()
    } else {
        let rest = all_matches(rules.drop_last(), e);
        match match_terms(rules.last().0, e, Seq::empty()) {
            Some(b) => rest.push((rules.last(), b)),
            None => rest,
        }
    }
}

/// The model of what `find_matches` returns.
pub open spec fn found_view<'r, 't>(ms: Seq<(&'r RewriteRule, Vec<VariableBinding<'t>>)>) -> Seq<
    (Rule, Bindings),
> {
    ms.map_values(|m: (&'r RewriteRule, Vec<VariableBinding<'t>>)| (m.0@, bindings_view(m.1@)))
}

impl RewriteRules {
    pub fn new() -> (r: RewriteRules)
        ensures
            r@ == Seq::<Rule>::empty(),
    {
        let r = RewriteRules { rules: Vec::new() };
        assert(r@ =~= Seq::<Rule>::empty());
        r
    }

    /// Appends `rule` after the rules already there.
    pub fn add(&mut self, rule: RewriteRule)
        ensures
            final(self)@ == old(self)@.push(rule@),
    {
        self.rules.push(rule);
        assert(self@ =~= old(self)@.push(rule@));
    }

    /// Every rule whose pattern matches `expr`, in rule order, with its bindings.
    pub fn find_matches<'t>(&self, expr: &'t Expression) -> (r: Vec<(&RewriteRule, Vec<VariableBinding<'t>>)>)
        ensures
            found_view(r@) == all_matches(self@, expr@),
    {
        let mut found: Vec<(&RewriteRule, Vec<VariableBinding<'t>>)> = Vec::new();
        let mut i: usize = 0;
        while i < self.rules.len()
            invariant
                i <= self.rules@.len(),
                found_view(found@) == all_matches(self@.subrange(0, i as int), expr@),
            decreases self.rules@.len() - i,
        {
            let rule = &self.rules[i];
            let mut bindings: Vec<VariableBinding<'t>> = Vec::new();
            let ok = rule.left.matches(expr, &mut bindings);
            proof {
                let pre = self@.subrange(0, i + 1);
                assert(pre.drop_last() =~= self@.subrange(0, i as int));
                assert(pre.last() == rule@);
                assert(bindings_view(Seq::<VariableBinding<'t>>::empty()) =~= Seq::<(crate::symbol_table::SymbolHandle, Term)>::empty());
            }
            if ok {
                let ghost before = found@;
                found.push((rule, bindings));
                assert(found_view(found@) =~= found_view(before).push((rule@, bindings_view(bindings@))));
            }
            i = i + 1;
        }
        assert(self@.subrange(0, i as int) =~= self@);
        found
    }
}

/// One rewrite at the root of `e`: the template of the first rule whose
/// pattern matches, substituted with that match's bindings.
pub open spec fn apply_here(e: Seq<Term>, rules: Seq<Rule>) -> Option<Seq<Term>> {
    let m = all_matches(rules, e);
    if m.len() == 0 {
        None
    } else {
        Some(interp_expr(m[0].0.1, m[0].1))
    }
}

/// The terminal that takes the place of a reduced position: the sole
/// terminal of a one-terminal result, else the result in parentheses.
pub open spec fn slot(x: Seq<Term>) -> Term {
    if x.len() == 1 {
        x[0]
    } else {
        Term::Group(x)
    }
}

/// One reduction step of `e` that looks for a redex among the positions from
/// `i` on before trying the rules on `e` itself. Positions are only visited
/// when `e` has more than one terminal; a group is reduced as its contents,
/// a symbol or variable as a one-terminal expression.
pub open spec fn reduce_from(e: Seq<Term>, i: nat, rules: Seq<Rule>) -> Option<Seq<Term>>
    decreases e, e.len() - i,
{
    if e.len() > 1 && i < e.len() {
        let sub = match e[i as int] {
            Term::Group(inner) => reduce_from(inner, 0, rules),
            _ => reduce_from(e.subrange(i as int, i as int + 1), 0, rules),
        };
        match sub {
            Some(x) => Some(e.update(i as int, slot(x))),
            None => reduce_from(e, i + 1, rules),
        }
    } else {
        apply_here(e, rules)
    }
}

/// One leftmost, innermost, first-rule reduction step; `None` when no step applies.
pub open spec fn reduce_spec(e: Seq<Term>, rules: Seq<Rule>) -> Option<Seq<Term>> {
    reduce_from(e, 0, rules)
}

/// No rule matches `e`, nor any place that a reduction step visits inside it:
/// when `e` has more than one terminal, the contents of each group and each
/// symbol or variable on its own.
pub open spec fn no_redex(e: Seq<Term>, rules: Seq<Rule>) -> bool
    decreases e,
{
    &&& all_matches(rules, e).len() == 0
    &&& e.len() > 1 ==> forall|i: int|
        0 <= i < e.len() ==> match #[trigger] e[i] {
            Term::Group(inner) => no_redex(inner, rules),
            t => all_matches(rules, seq![t]).len() == 0,
        }
}

/// The step inside position `i` of `e`, as `reduce_from` tries it.
pub open spec fn step_inside(e: Seq<Term>, i: int, rules: Seq<Rule>) -> Option<Seq<Term>> {
    match e[i] {
        Term::Group(inner) => reduce_from(inner, 0, rules),
        _ => reduce_from(e.subrange(i, i + 1), 0, rules),
    }
}

proof fn lemma_stuck_from(e: Seq<Term>, i: nat, rules: Seq<Rule>)
    requires
        reduce_from(e, i, rules) is None,
    ensures
        apply_here(e, rules) is None,
        e.len() > 1 ==> forall|j: int| i <= j < e.len() ==> #[trigger] step_inside(e, j, rules) is None,
    decreases e.len() - i,
{
    if e.len() > 1 && i < e.len() {
        lemma_stuck_from(e, i + 1, rules);
        assert(step_inside(e, i as int, rules) is None);
    }
}

proof fn lemma_stuck_no_redex(e: Seq<Term>, rules: Seq<Rule>)
    requires
        reduce_from(e, 0, rules) is None,
    ensures
        no_redex(e, rules),
    decreases e,
{
    lemma_stuck_from(e, 0, rules);
    if e.len() > 1 {
        assert forall|i: int| 0 <= i < e.len() implies match #[trigger] e[i] {
            Term::Group(inner) => no_redex(inner, rules),
            t => all_matches(rules, seq![t]).len() == 0,
        } by {
            assert(step_inside(e, i, rules) is None);
            match e[i] {
                Term::Group(inner) => {
                    lemma_stuck_no_redex(inner, rules);
                },
                t => {
                    let one = e.subrange(i, i + 1);
                    assert(one =~= seq![t]);
                    assert(reduce_from(one, 0, rules) == apply_here(one, rules));
                },
            }
        }
    }
}

proof fn lemma_no_redex_from(e: Seq<Term>, i: nat, rules: Seq<Rule>)
    requires
        no_redex(e, rules),
    ensures
        reduce_from(e, i, rules) is None,
    decreases e, e.len() - i,
{
    if e.len() > 1 && i < e.len() {
        match e[i as int] {
            Term::Group(inner) => {
                lemma_no_redex_from(inner, 0, rules);
            },
            t => {
                let one = e.subrange(i as int, i as int + 1);
                assert(one =~= seq![t]);
                assert(all_matches(rules, seq![t]).len() == 0);
                assert(reduce_from(one, 0, rules) == apply_here(one, rules));
            },
        }
        lemma_no_redex_from(e, i + 1, rules);
    }
}

/// Reduction stops exactly on the expressions where no rule applies at any
/// place that a step visits: a step returns nothing there, and only there.
pub proof fn lemma_reduce_fixpoint(e: Seq<Term>, rules: Seq<Rule>)
    ensures
        reduce_spec(e, rules) is None <==> no_redex(e, rules),
{
    if no_redex(e, rules) {
        lemma_no_redex_from(e, 0, rules);
    }
    if reduce_spec(e, rules) is None {
        lemma_stuck_no_redex(e, rules);
    }
}

/// A step depends on the expression and the rule base alone: equal inputs
/// give equal results.
pub proof fn lemma_reduce_deterministic(e1: Seq<Term>, e2: Seq<Term>, r1: Seq<Rule>, r2: Seq<Rule>)
    requires
        e1 == e2,
        r1 == r2,
    ensures
        reduce_spec(e1, r1) == reduce_spec(e2, r2),
{
}

/// Every rule has its handles below `n`.
pub open spec fn rules_in_table(rules: Seq<Rule>, n: nat) -> bool {
    forall|k: int| 0 <= k < rules.len() ==> in_table(#[trigger] rules[k].0, n) && in_table(rules[k].1, n)
}

proof fn lemma_all_matches_in_table(rules: Seq<Rule>, e: Seq<Term>, n: nat)
    requires
        rules_in_table(rules, n),
        in_table(e, n),
    ensures
        forall|k: int|
            0 <= k < all_matches(rules, e).len() ==> in_table(#[trigger] all_matches(rules, e)[k].0.1, n)
                && bindings_in_table(all_matches(rules, e)[k].1, n),
    decreases rules.len(),
{
    if rules.len() > 0 {
        let init = rules.drop_last();
        assert(rules_in_table(init, n)) by {
            assert forall|k: int| 0 <= k < init.len() implies in_table(#[trigger] init[k].0, n) && in_table(init[k].1, n) by {
                assert(init[k] == rules[k]);
            }
        }
        lemma_all_matches_in_table(init, e, n);
        let last = rules.last();
        assert(in_table(rules[rules.len() - 1].0, n));
        assert(in_table(rules[rules.len() - 1].1, n));
        let rest = all_matches(init, e);
        if match_terms(last.0, e, Seq::empty()) is Some {
            lemma_match_terms_in_table(last.0, e, Seq::empty(), n);
            let m = all_matches(rules, e);
            assert forall|k: int| 0 <= k < m.len() implies in_table(#[trigger] m[k].0.1, n)
                && bindings_in_table(m[k].1, n) by {
                if k < rest.len() {
                    assert(m[k] == rest[k]);
                }
            }
        }
    }
}

/// A step never brings in a handle that neither the expression nor the
/// rules hold.
pub proof fn lemma_reduce_from_in_table(e: Seq<Term>, i: nat, rules: Seq<Rule>, n: nat)
    requires
        in_table(e, n),
        rules_in_table(rules, n),
    ensures
        reduce_from(e, i, rules) matches Some(x) ==> in_table(x, n),
    decreases e, e.len() - i,
{
    if e.len() > 1 && i < e.len() {
        let sub = match e[i as int] {
            Term::Group(inner) => reduce_from(inner, 0, rules),
            _ => reduce_from(e.subrange(i as int, i as int + 1), 0, rules),
        };
        match e[i as int] {
            Term::Group(inner) => {
                assert(term_in_table(e[i as int], n));
                assert(term_in_table(e[i as int], n) == (forall|j: int|
                    0 <= j < inner.len() ==> term_in_table(#[trigger] inner[j], n)));
                lemma_reduce_from_in_table(inner, 0, rules, n);
            },
            _ => {
                let one = e.subrange(i as int, i as int + 1);
                assert(in_table(one, n)) by {
                    assert(one[0] == e[i as int]);
                }
                lemma_reduce_from_in_table(one, 0, rules, n);
            },
        }
        match sub {
            Some(x) => {
                assert(term_in_table(slot(x), n)) by {
                    if x.len() != 1 {
                        assert(term_in_table(Term::Group(x), n) == (forall|j: int|
                            0 <= j < x.len() ==> term_in_table(#[trigger] x[j], n)));
                    }
                }
                let u = e.update(i as int, slot(x));
                assert forall|j: int| 0 <= j < u.len() implies #[trigger] term_in_table(u[j], n) by {
                    if j != i {
                        assert(u[j] == e[j]);
                    }
                }
            },
            None => {
                lemma_reduce_from_in_table(e, i + 1, rules, n);
            },
        }
    } else {
        lemma_all_matches_in_table(rules, e, n);
        let m = all_matches(rules, e);
        if m.len() > 0 {
            lemma_interp_expr_in_table(m[0].0.1, m[0].1, n);
        }
    }
}

/// `e` with the terminal at `i` replaced by `t`.
fn replaced(e: &Expression, i: usize, t: Terminal) -> (r: Expression)
    requires
        i < e@.len(),
    ensures
        r@ == e@.update(i as int, t@),
{
    let mut terms: Vec<Terminal> = Vec::new();
    let mut t = Some(t);
    let ghost tv = t->Some_0@;
    let mut j: usize = 0;
    while j < e.0.len()
        invariant
            j <= e.0@.len(),
            e@.len() == e.0@.len(),
            i < e.0@.len(),
            terms@.len() == j,
            j <= i ==> t == Some(t->Some_0) && t->Some_0@ == tv,
            forall|k: int| 0 <= k < j ==> #[trigger] terms@[k]@ == e@.update(i as int, tv)[k],
        decreases e.0@.len() - j,
    {
        if j == i {
            let u = t.take().unwrap();
            terms.push(u);
        } else {
            terms.push(e.0[j].duplicate());
        }
        j = j + 1;
    }
    let r = Expression(terms);
    assert(r@ =~= e@.update(i as int, tv));
    r
}

/// The expression that one step of `reduce_spec` rewrites `e` to, if any.
fn reduced(e: &Expression, rules: &RewriteRules) -> (r: Option<Expression>)
    ensures
        match reduce_spec(e@, rules@) {
            Some(x) => r is Some && r->Some_0@ == x,
            None => r is None,
        },
    decreases e@,
{
    let n = e.0.len();
    if n > 1 {
        let mut i: usize = 0;
        while i < n
            invariant
                n == e.0@.len(),
                n == e@.len(),
                n > 1,
                i <= n,
                reduce_from(e@, 0, rules@) == reduce_from(e@, i as nat, rules@),
            decreases n - i,
        {
            proof { vstd::std_specs::vec::axiom_vec_index_decreases(e.0, i as int); }
            let sub = match &e.0[i] {
                Terminal::Parentheses(inner) => {
                    assert(e@[i as int] == Term::Group(inner@));
                    reduced(inner, rules)
                },
                Terminal::Symbol(s) => {
                    let single = Expression(vec![Terminal::Symbol(*s)]);
                    proof {
                        assert(single@ =~= e@.subrange(i as int, i + 1));
                    }
                    reduced(&single, rules)
                },
                Terminal::Variable(v, k) => {
                    let single = Expression(vec![Terminal::Variable(*v, *k)]);
                    proof {
                        assert(single@ =~= e@.subrange(i as int, i + 1));
                    }
                    reduced(&single, rules)
                },
            };
            match sub {
                Some(mut x) => {
                    let ghost xv = x@;
                    let t = if x.0.len() == 1 {
                        x.0.pop().unwrap()
                    } else {
                        Terminal::Parentheses(x)
                    };
                    assert(t@ == slot(xv));
                    return Some(replaced(e, i, t));
                },
                None => {},
            }
            i = i + 1;
        }
    }
    let ms = rules.find_matches(e);
    if ms.len() == 0 {
        return None;
    }
    Some(ms[0].0.right.interpolate(ms[0].1.as_slice()))
}

impl Expression {
    /// Applies one reduction step in place: the leftmost innermost redex, with
    /// the first rule that matches it. Returns whether a step was applied; the
    /// expression is unchanged when none was.
    pub fn reduce_once(&mut self, rules: &RewriteRules) -> (r: bool)
        ensures
            r == reduce_spec(old(self)@, rules@) is Some,
            r ==> final(self)@ == reduce_spec(old(self)@, rules@)->Some_0,
            !r ==> final(self)@ == old(self)@,
    {
        match reduced(self, rules) {
            Some(x) => {
                *self = x;
                true
            },
            None => false,
        }
    }
}

} // verus!
