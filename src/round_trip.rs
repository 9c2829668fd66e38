use vstd::prelude::*;
use crate::expr::{TextItem, TextTerm, VariableKind};
use crate::parse::{
    Step, arrow_at, atom_char, atom_end, comment_at, expr_at, item_of, label_at,
    label_end, name_char, name_end, noop_at, rewrite_at, skip_ws, stmt_at, sym_at, term_at,
    var_at, white,
};
use crate::unparse::{render_item, render_label, render_seq, render_statement, render_term};

verus! {

broadcast use {
    vstd::seq::axiom_seq_index_decreases,
    vstd::seq::axiom_seq_subrange_decreases,
};

/// `s` holds `x` from position `p` on.
pub open spec fn holds_at(s: Seq<char>, p: nat, x: Seq<char>) -> bool {
    p + x.len() <= s.len() && forall|i: int| 0 <= i < x.len() ==> #[trigger] s[p + i] == x[i]
}

/// No symbol character at `i`: the end of the line, white space or a parenthesis.
pub open spec fn boundary(s: Seq<char>, i: nat) -> bool {
    i >= s.len() || !atom_char(s[i as int])
}

proof fn lemma_skip_ws(s: Seq<char>, p: nat)
    requires
        p <= s.len(),
    ensures
        p <= skip_ws(s, p) <= s.len(),
        skip_ws(s, p) < s.len() ==> !white(s[skip_ws(s, p) as int]),
        forall|i: int| p <= i < skip_ws(s, p) ==> white(#[trigger] s[i]),
    decreases s.len() - p,
{
    if p < s.len() && white(s[p as int]) {
        lemma_skip_ws(s, p + 1);
    }
}

proof fn lemma_atom_end(s: Seq<char>, p: nat)
    requires
        p <= s.len(),
    ensures
        p <= atom_end(s, p) <= s.len(),
        boundary(s, atom_end(s, p)),
        forall|i: int| p <= i < atom_end(s, p) ==> atom_char(#[trigger] s[i]),
    decreases s.len() - p,
{
    if p < s.len() && atom_char(s[p as int]) {
        lemma_atom_end(s, p + 1);
    }
}

proof fn lemma_atom_end_at(s: Seq<char>, p: nat, n: nat)
    requires
        p + n <= s.len(),
        forall|i: int| p <= i < p + n ==> atom_char(#[trigger] s[i]),
        boundary(s, p + n),
    ensures
        atom_end(s, p) == p + n,
    decreases n,
{
    if n > 0 {
        lemma_atom_end_at(s, p + 1, (n - 1) as nat);
    }
}

proof fn lemma_name_end(s: Seq<char>, p: nat)
    requires
        p <= s.len(),
    ensures
        p <= name_end(s, p) <= s.len(),
        name_end(s, p) < s.len() ==> !name_char(s[name_end(s, p) as int]),
        forall|i: int| p <= i < name_end(s, p) ==> name_char(#[trigger] s[i]),
    decreases s.len() - p,
{
    if p < s.len() && name_char(s[p as int]) {
        lemma_name_end(s, p + 1);
    }
}

proof fn lemma_name_end_at(s: Seq<char>, p: nat, n: nat)
    requires
        p + n <= s.len(),
        forall|i: int| p <= i < p + n ==> name_char(#[trigger] s[i]),
        p + n == s.len() || !name_char(s[(p + n) as int]),
    ensures
        name_end(s, p) == p + n,
    decreases n,
{
    if n > 0 {
        lemma_name_end_at(s, p + 1, (n - 1) as nat);
    }
}

proof fn lemma_label_end(s: Seq<char>, p: nat)
    requires
        p <= s.len(),
    ensures
        p <= label_end(s, p) <= s.len(),
        label_end(s, p) < s.len() ==> s[label_end(s, p) as int] == ']',
        forall|i: int| p <= i < label_end(s, p) ==> #[trigger] s[i] != ']',
    decreases s.len() - p,
{
    if p < s.len() && s[p as int] != ']' {
        lemma_label_end(s, p + 1);
    }
}

proof fn lemma_label_end_at(s: Seq<char>, p: nat, n: nat)
    requires
        p + n < s.len(),
        forall|i: int| p <= i < p + n ==> #[trigger] s[i] != ']',
        s[(p + n) as int] == ']',
    ensures
        label_end(s, p) == p + n,
    decreases n,
{
    if n > 0 {
        lemma_label_end_at(s, p + 1, (n - 1) as nat);
    }
}

/// A symbol as the parser produces it: symbol characters only, not a
/// reserved atom, and not readable as a variable.
pub open spec fn valid_sym(x: Seq<char>) -> bool {
    &&& x.len() > 0
    &&& forall|i: int| 0 <= i < x.len() ==> atom_char(#[trigger] x[i])
    &&& x != seq!['-', '>']
    &&& x != seq!['/', '/']
    &&& x[0] == '$' ==> var_at(x, 0) is None
}

/// A variable name as the parser produces it.
pub open spec fn valid_name(x: Seq<char>) -> bool {
    x.len() > 0 && forall|i: int| 0 <= i < x.len() ==> name_char(#[trigger] x[i])
}

pub open spec fn valid_term(t: TextTerm) -> bool
    decreases t,
{
    match t {
        TextTerm::Sym(x) => valid_sym(x),
        TextTerm::Var(x, _) => valid_name(x),
        TextTerm::Group(e) => forall|i: int| 0 <= i < e.len() ==> valid_term(#[trigger] e[i]),
    }
}

pub open spec fn valid_seq(e: Seq<TextTerm>) -> bool {
    forall|i: int| 0 <= i < e.len() ==> valid_term(#[trigger] e[i])
}

proof fn lemma_holds_index(s: Seq<char>, p: nat, x: Seq<char>)
    requires
        holds_at(s, p, x),
    ensures
        forall|j: int| p <= j < p + x.len() ==> #[trigger] s[j] == x[j - p],
{
    assert forall|j: int| p <= j < p + x.len() implies #[trigger] s[j] == x[j - p] by {
        assert(s[p + (j - p)] == x[j - p]);
    }
}

proof fn lemma_holds_split(s: Seq<char>, p: nat, a: Seq<char>, b: Seq<char>)
    requires
        holds_at(s, p, a + b),
    ensures
        holds_at(s, p, a),
        holds_at(s, p + a.len(), b),
{
    assert forall|i: int| 0 <= i < a.len() implies #[trigger] s[p + i] == a[i] by {
        assert(s[p + i] == (a + b)[i]);
    }
    assert forall|i: int| 0 <= i < b.len() implies #[trigger] s[(p + a.len()) + i] == b[i] by {
        assert(s[p + (a.len() + i)] == (a + b)[a.len() + i]);
    }
}

/// Reading a variable at a `$` inside a symbol gives what reading it in the
/// symbol alone gives, when the symbol ends at a boundary.
proof fn lemma_var_in_context(s: Seq<char>, p: nat, x: Seq<char>)
    requires
        holds_at(s, p, x),
        x.len() > 0,
        forall|i: int| 0 <= i < x.len() ==> atom_char(#[trigger] x[i]),
        boundary(s, p + x.len()),
    ensures
        (var_at(s, p) is None) == (var_at(x, 0) is None),
{
    let dx = 1 < x.len() && x[1] == '$';
    let ds = p + 1 < s.len() && s[p + 1int] == '$';
    if x.len() >= 2 {
        assert(s[p + 1int] == x[1]);
    } else {
        assert(p + 1 >= s.len() || !atom_char(s[p + 1int]));
    }
    assert(dx == ds);
    let q: nat = if dx {
        2
    } else {
        1
    };
    lemma_name_end(x, q);
    let nx = name_end(x, q);
    assert forall|i: int| p + q <= i < p + nx implies name_char(#[trigger] s[i]) by {
        assert(s[p + (i - p)] == x[i - p]);
    }
    if nx < x.len() {
        assert(s[(p + nx) as int] == x[nx as int]);
    }
    lemma_name_end_at(s, p + q, (nx - q) as nat);
}

/// The text of a valid expression with more than one terminal is its first
/// terminal, a space, and the text of the others.
proof fn lemma_render_front(e: Seq<TextTerm>)
    requires
        e.len() >= 2,
    ensures
        render_seq(e) == render_term(e[0]) + seq![' '] + render_seq(e.drop_first()),
    decreases e.len(),
{
    let init = e.drop_last();
    let rest = e.drop_first();
    assert(rest.drop_last() =~= init.drop_first());
    assert(rest.last() == e.last());
    if e.len() == 2 {
        assert(init.len() == 1 && init[0] == e[0]);
        assert(rest.len() == 1 && rest[0] == e.last());
        assert(render_seq(init) == render_term(e[0]));
        assert(render_seq(rest) == render_term(e.last()));
    } else {
        lemma_render_front(init);
        assert(init[0] == e[0]);
        assert(render_seq(rest) == render_seq(rest.drop_last()) + seq![' '] + render_term(
            rest.last(),
        ));
        assert(render_seq(e) =~= render_term(e[0]) + seq![' '] + render_seq(rest));
    }
}

/// The text of a valid terminal is not empty and does not start with white space.
proof fn lemma_render_term_head(t: TextTerm)
    requires
        valid_term(t),
    ensures
        render_term(t).len() > 0,
        atom_char(render_term(t)[0]) || render_term(t)[0] == '(',
{
}

/// A valid terminal written at `p` and followed by a boundary reads back as itself.
proof fn lemma_parse_term(s: Seq<char>, p: nat, t: TextTerm)
    requires
        valid_term(t),
        holds_at(s, p, render_term(t)),
        boundary(s, p + render_term(t).len()),
    ensures
        term_at(s, p) == Step::Took(t, p + render_term(t).len()),
    decreases t,
{
    let r = render_term(t);
    assert(s[p + 0int] == r[0]);
    match t {
        TextTerm::Sym(x) => {
            lemma_holds_index(s, p, x);
            if x[0] == '$' {
                lemma_var_in_context(s, p, x);
            }
            lemma_atom_end_at(s, p, x.len());
            assert(s.subrange(p as int, (p + x.len()) as int) =~= x);
        },
        TextTerm::Var(x, k) => {
            let q: nat = match k {
                VariableKind::Any => p + 1,
                VariableKind::Distinct => p + 2,
            };
            let pre: Seq<char> = match k {
                VariableKind::Any => seq!['$'],
                VariableKind::Distinct => seq!['$', '$'],
            };
            assert(r == pre + x);
            lemma_holds_split(s, p, pre, x);
            lemma_holds_index(s, q, x);
            assert(s[q + 0int] == x[0]);
            if k == VariableKind::Distinct {
                assert(s[p + 1int] == r[1]);
            }
            assert(boundary(s, q + x.len()));
            if q + x.len() < s.len() {
                assert(!atom_char(s[(q + x.len()) as int]));
            }
            lemma_name_end_at(s, q, x.len());
            assert(s.subrange(q as int, (q + x.len()) as int) =~= x);
        },
        TextTerm::Group(e) => {
            let inner = render_seq(e);
            assert(r == seq!['('] + inner + seq![')']);
            lemma_holds_split(s, p, seq!['('] + inner, seq![')']);
            lemma_holds_split(s, p, seq!['('], inner);
            let q = p + 1 + inner.len();
            assert(s[q + 0int] == ')');
            assert(!white(')'));
            assert(term_at(s, q) == Step::Stopped((q, crate::parse::ErrorKind::ExpectedToken(crate::parse::Token::Symbol))));
            assert(expr_at(s, q) == Ok::<(Seq<TextTerm>, nat), (nat, crate::parse::ErrorKind)>((Seq::empty(), q)));
            assert(valid_seq(e));
            lemma_parse_seq(s, p + 1, e, q);
        },
    }
}

/// A valid expression written at `p`, followed by a boundary where the
/// expression reading stops, reads back as itself.
proof fn lemma_parse_seq(s: Seq<char>, p: nat, e: Seq<TextTerm>, q2: nat)
    requires
        valid_seq(e),
        holds_at(s, p, render_seq(e)),
        boundary(s, p + render_seq(e).len()),
        expr_at(s, p + render_seq(e).len()) == Ok::<(Seq<TextTerm>, nat), (nat, crate::parse::ErrorKind)>((Seq::empty(), q2)),
    ensures
        expr_at(s, p) == Ok::<(Seq<TextTerm>, nat), (nat, crate::parse::ErrorKind)>((e, q2)),
    decreases e,
{
    if e.len() == 0 {
        assert(render_seq(e).len() == 0);
        assert(e =~= Seq::<TextTerm>::empty());
    } else {
        let t = e[0];
        let r0 = render_term(t);
        lemma_render_term_head(t);
        if e.len() == 1 {
            assert(render_seq(e) == r0);
            lemma_parse_term(s, p, t);
            assert(s[p + 0int] == r0[0]);
            assert(!white(s[p as int]));
            assert(expr_at(s, p) == Ok::<(Seq<TextTerm>, nat), (nat, crate::parse::ErrorKind)>((seq![t] + Seq::<TextTerm>::empty(), q2)));
            assert(seq![t] + Seq::<TextTerm>::empty() =~= e);
        } else {
            let rest = e.drop_first();
            lemma_render_front(e);
            lemma_holds_split(s, p, r0 + seq![' '], render_seq(rest));
            lemma_holds_split(s, p, r0, seq![' ']);
            let r = p + r0.len();
            assert(s[r + 0int] == ' ');
            lemma_parse_term(s, p, t);
            assert(s[p + 0int] == r0[0]);
            assert(!white(s[p as int]));
            assert(valid_seq(rest)) by {
                assert forall|i: int| 0 <= i < rest.len() implies valid_term(#[trigger] rest[i]) by {
                    assert(rest[i] == e[i + 1]);
                }
            }
            assert(render_seq(e).len() == r0.len() + 1 + render_seq(rest).len());
            lemma_parse_seq(s, r + 1, rest, q2);
            assert(r < s.len());
            assert(white(s[r as int]));
            assert(expr_at(s, r) == expr_at(s, r + 1));
            assert(term_at(s, p) == Step::Took(t, r));
            assert(expr_at(s, p) == Ok::<(Seq<TextTerm>, nat), (nat, crate::parse::ErrorKind)>((seq![t] + rest, q2)));
            assert(seq![t] + rest =~= e);
        }
    }
}

/// Reading an expression skips white space before it.
proof fn lemma_expr_skip(s: Seq<char>, p: nat, q: nat)
    requires
        p <= q <= s.len(),
        forall|i: int| p <= i < q ==> white(#[trigger] s[i]),
    ensures
        expr_at(s, p) == expr_at(s, q),
    decreases q - p,
{
    if p < q {
        lemma_expr_skip(s, p + 1, q);
    }
}

/// White space skipping stops at the first other character.
proof fn lemma_skip_to(s: Seq<char>, p: nat, q: nat)
    requires
        p <= q <= s.len(),
        forall|i: int| p <= i < q ==> white(#[trigger] s[i]),
        q == s.len() || !white(s[q as int]),
    ensures
        skip_ws(s, p) == q,
    decreases q - p,
{
    if p < q {
        lemma_skip_to(s, p + 1, q);
    }
}

/// An expression stops at ` -> ` or at ` // `: a space, a reserved atom and a
/// space (or the end of the line).
proof fn lemma_stop_reserved(s: Seq<char>, d: nat, x: Seq<char>)
    requires
        x == seq!['-', '>'] || x == seq!['/', '/'],
        d + 3 <= s.len(),
        s[d as int] == ' ',
        s[d + 1int] == x[0],
        s[d + 2int] == x[1],
        d + 3 == s.len() || s[d + 3int] == ' ',
    ensures
        expr_at(s, d) == Ok::<(Seq<TextTerm>, nat), (nat, crate::parse::ErrorKind)>((Seq::empty(), d + 1)),
{
    assert(white(s[d as int]));
    assert(x[0] == '-' || x[0] == '/');
    assert(x[1] == '>' || x[1] == '/');
    assert(!white('-') && !white('/') && !white('>') && white(' '));
    assert(atom_char(s[d + 1int]) && atom_char(s[d + 2int]));
    lemma_atom_end_at(s, d + 1, 2);
    assert(s.subrange(d + 1int, d + 3int) =~= x);
    assert(sym_at(s, d + 1) is Stopped);
    assert(term_at(s, d + 1) is Stopped);
    assert(expr_at(s, d + 1) == Ok::<(Seq<TextTerm>, nat), (nat, crate::parse::ErrorKind)>((Seq::empty(), d + 1)));
    assert(expr_at(s, d) == expr_at(s, d + 1));
}

/// The comment read at a `// ` is the text after it, when that text does not
/// start with white space.
proof fn lemma_comment_back(s: Seq<char>, j: nat, c: Seq<char>)
    requires
        j + 3 + c.len() == s.len(),
        s[j as int] == '/',
        s[j + 1int] == '/',
        s[j + 2int] == ' ',
        holds_at(s, j + 3, c),
        c.len() == 0 || !white(c[0]),
    ensures
        comment_at(s, j) == Some(c),
{
    lemma_holds_index(s, j + 3, c);
    if c.len() > 0 {
        assert(s[j + 3int] == c[0]);
    }
    lemma_skip_to(s, j + 2, j + 3);
    assert(s.subrange(j + 3int, s.len() as int) =~= c);
}

pub open spec fn valid_label(l: Seq<char>) -> bool {
    l.len() > 0 && forall|i: int| 0 <= i < l.len() ==> #[trigger] l[i] != ']'
}

pub open spec fn valid_comment(c: Seq<char>) -> bool {
    c.len() == 0 || !white(c[0])
}

/// Text that starts with `//`.
pub open spec fn opens_comment(x: Seq<char>) -> bool {
    x.len() >= 2 && x[0] == '/' && x[1] == '/'
}

/// An item as the parser produces it.
pub open spec fn valid_item(t: TextItem) -> bool {
    &&& t.label matches Some(l) ==> valid_label(l)
    &&& t.statement matches Some((l, r)) ==> l.len() > 0 && valid_seq(l) && valid_seq(r)
        && !opens_comment(render_seq(l))
    &&& t.comment matches Some(c) ==> valid_comment(c)
}

proof fn lemma_render_seq_head(e: Seq<TextTerm>)
    requires
        e.len() > 0,
        valid_seq(e),
    ensures
        render_seq(e).len() > 0,
        render_seq(e)[0] == render_term(e[0])[0],
        !white(render_seq(e)[0]),
{
    lemma_render_term_head(e[0]);
    if e.len() >= 2 {
        lemma_render_front(e);
    }
    assert(!white('('));
}

proof fn lemma_holds_whole(s: Seq<char>)
    ensures
        holds_at(s, 0, s),
{
}

/// A rule `l -> r` written at `a`, then the end of the line or ` // `, reads
/// back as itself; the reading stops at the end or at the `//`.
proof fn lemma_parse_rule(s: Seq<char>, p0: nat, a: nat, l: Seq<TextTerm>, r: Seq<TextTerm>, stop: nat)
    requires
        l.len() > 0,
        valid_seq(l),
        valid_seq(r),
        !opens_comment(render_seq(l)),
        p0 <= a,
        forall|i: int| p0 <= i < a ==> white(#[trigger] s[i]),
        holds_at(s, a, render_statement(Some((l, r)))),
        ({
            let d = a + render_statement(Some((l, r))).len();
            ||| d == s.len() && stop == d
            ||| d + 4 <= s.len() && s[d as int] == ' ' && s[d + 1int] == '/' && s[d + 2int] == '/'
                && s[d + 3int] == ' ' && stop == d + 1
        }),
    ensures
        noop_at(s, p0) is None,
        rewrite_at(s, p0) == Ok::<(Seq<TextTerm>, Seq<TextTerm>, nat), (nat, crate::parse::ErrorKind)>((l, r, stop)),
{
    let lt = render_seq(l);
    let rt = render_seq(r);
    let arrow = seq![' ', '-', '>', ' '];
    assert(render_statement(Some((l, r))) == lt + arrow + rt);
    lemma_holds_split(s, a, lt + arrow, rt);
    lemma_holds_split(s, a, lt, arrow);
    lemma_holds_index(s, a, lt);
    let b = a + lt.len();
    let c0 = b + 4;
    let d = c0 + rt.len();
    assert(s[b + 0int] == ' ' && s[b + 1int] == '-' && s[b + 2int] == '>' && s[b + 3int] == ' ');
    lemma_render_seq_head(l);
    assert(s[a + 0int] == lt[0]);
    lemma_skip_to(s, p0, a);
    if lt.len() >= 2 {
        assert(s[a + 1int] == lt[1]);
    }
    assert(noop_at(s, p0) is None);
    lemma_expr_skip(s, p0, a);
    lemma_stop_reserved(s, b, seq!['-', '>']);
    lemma_parse_seq(s, a, l, b + 1);
    lemma_skip_to(s, b + 1, b + 1);
    assert(arrow_at(s, b + 1) == Ok::<nat, (nat, crate::parse::ErrorKind)>(b + 3));
    assert(white(s[b + 3int]));
    lemma_expr_skip(s, b + 3, c0);
    if d == s.len() {
        assert(expr_at(s, d) == Ok::<(Seq<TextTerm>, nat), (nat, crate::parse::ErrorKind)>((Seq::empty(), d)));
    } else {
        lemma_stop_reserved(s, d, seq!['/', '/']);
    }
    lemma_parse_seq(s, c0, r, stop);
}

/// Where the statement of a written item starts to be read: after the
/// label, or at the start.
spec fn label_stop(t: TextItem) -> nat {
    match t.label {
        Some(l) => l.len() + 2,
        None => 0,
    }
}

spec fn head_of(t: TextItem) -> Seq<char> {
    match t.label {
        Some(l) => render_label(l),
        None => Seq::empty(),
    }
}

proof fn lemma_item_layout(t: TextItem)
    ensures
        render_item(t) == head_of(t) + render_statement(t.statement) + render_item(t).subrange(
            (head_of(t).len() + render_statement(t.statement).len()) as int,
            render_item(t).len() as int,
        ),
        holds_at(render_item(t), 0, head_of(t)),
        holds_at(render_item(t), head_of(t).len(), render_statement(t.statement)),
{
    let s = render_item(t);
    let body = head_of(t) + render_statement(t.statement);
    let tail = s.subrange(body.len() as int, s.len() as int);
    assert(s =~= body + tail);
    lemma_holds_whole(s);
    lemma_holds_split(s, 0, body, tail);
    lemma_holds_split(s, 0, head_of(t), render_statement(t.statement));
}

proof fn lemma_label_part(t: TextItem)
    requires
        valid_item(t),
        t.label is None ==> label_at(render_item(t), 0) is None,
    ensures
        label_at(render_item(t), 0) == match t.label {
            Some(l) => Some((l, label_stop(t))),
            None => None,
        },
        label_stop(t) <= head_of(t).len(),
        forall|i: int| label_stop(t) <= i < head_of(t).len() ==> white(#[trigger] render_item(t)[i]),
{
    let s = render_item(t);
    let head = head_of(t);
    lemma_item_layout(t);
    lemma_holds_index(s, 0, head);
    if let Some(l) = t.label {
        assert(head == seq!['['] + l + seq![']', ' ']);
        assert(s[0] == head[0]);
        assert forall|i: int| 1 <= i < 1 + l.len() implies #[trigger] s[i] != ']' by {
            assert(s[i] == head[i]);
            assert(head[i] == l[i - 1]);
        }
        assert(s[1 + l.len() as int] == head[1 + l.len() as int]);
        lemma_label_end_at(s, 1, l.len());
        assert(s.subrange(1, 1 + l.len() as int) =~= l);
        assert(s[l.len() + 2int] == head[l.len() + 2int]);
        assert(white(' '));
    }
}

proof fn lemma_noop_part(t: TextItem) -> (q: nat)
    requires
        valid_item(t),
        t.statement is None,
        label_stop(t) <= head_of(t).len(),
        forall|i: int| label_stop(t) <= i < head_of(t).len() ==> white(#[trigger] render_item(t)[i]),
    ensures
        stmt_at(render_item(t), label_stop(t)) == Ok::<(Option<(Seq<TextTerm>, Seq<TextTerm>)>, nat), (nat, crate::parse::ErrorKind)>((None, q)),
        comment_at(render_item(t), skip_ws(render_item(t), q)) == t.comment,
{
    let s = render_item(t);
    let pp = head_of(t).len();
    let p0 = label_stop(t);
    lemma_item_layout(t);
    let tail = s.subrange(pp as int, s.len() as int);
    assert(render_statement(t.statement).len() == 0);
    assert forall|i: int| 0 <= i < tail.len() implies #[trigger] s[pp + i] == tail[i] by {}
    match t.comment {
        None => {
            assert(s.len() == pp);
            lemma_skip_to(s, p0, pp);
            lemma_skip_to(s, pp, pp);
            pp
        },
        Some(c) => {
            assert(!white('/'));
            if t.label is None {
                assert(tail =~= seq!['/', '/', ' '] + c);
                assert(s[0] == '/' && s[1] == '/' && s[2] == ' ');
                lemma_skip_to(s, 0, 0);
                assert(holds_at(s, 3, c)) by {
                    assert forall|i: int| 0 <= i < c.len() implies #[trigger] s[3 + i] == c[i] by {
                        assert(s[3 + i] == tail[3 + i]);
                    }
                }
                lemma_comment_back(s, 0, c);
                0
            } else {
                assert(tail =~= seq![' ', '/', '/', ' '] + c);
                let j = pp + 1;
                assert(s[pp as int] == ' ' && s[j as int] == '/' && s[j + 1int] == '/' && s[j + 2int]
                    == ' ');
                lemma_skip_to(s, p0, j);
                lemma_skip_to(s, j, j);
                assert(holds_at(s, j + 3, c)) by {
                    assert forall|i: int| 0 <= i < c.len() implies #[trigger] s[(j + 3) + i] == c[i] by {
                        assert(s[(j + 3) + i] == tail[4 + i]);
                    }
                }
                lemma_comment_back(s, j, c);
                j
            }
        },
    }
}

proof fn lemma_rule_part(t: TextItem) -> (q: nat)
    requires
        valid_item(t),
        t.statement is Some,
        label_stop(t) <= head_of(t).len(),
        forall|i: int| label_stop(t) <= i < head_of(t).len() ==> white(#[trigger] render_item(t)[i]),
    ensures
        stmt_at(render_item(t), label_stop(t)) == Ok::<(Option<(Seq<TextTerm>, Seq<TextTerm>)>, nat), (nat, crate::parse::ErrorKind)>((t.statement, q)),
        comment_at(render_item(t), skip_ws(render_item(t), q)) == t.comment,
{
    let s = render_item(t);
    let pp = head_of(t).len();
    let p0 = label_stop(t);
    let (l, r) = t.statement->Some_0;
    let st = render_statement(t.statement);
    lemma_item_layout(t);
    let d = pp + st.len();
    let tail = s.subrange(d as int, s.len() as int);
    assert forall|i: int| 0 <= i < tail.len() implies #[trigger] s[d + i] == tail[i] by {}
    match t.comment {
        None => {
            assert(s.len() == d);
            lemma_parse_rule(s, p0, pp, l, r, d);
            lemma_skip_to(s, d, d);
            d
        },
        Some(c) => {
            assert(tail =~= seq![' ', '/', '/', ' '] + c);
            assert(s[d as int] == ' ' && s[d + 1int] == '/' && s[d + 2int] == '/' && s[d + 3int]
                == ' ');
            lemma_parse_rule(s, p0, pp, l, r, d + 1);
            assert(!white('/'));
            lemma_skip_to(s, d + 1, d + 1);
            assert(holds_at(s, d + 4, c)) by {
                assert forall|i: int| 0 <= i < c.len() implies #[trigger] s[(d + 4) + i] == c[i] by {
                    assert(s[(d + 4) + i] == tail[4 + i]);
                }
            }
            lemma_comment_back(s, d + 1, c);
            d + 1
        },
    }
}

/// A valid item written out reads back as itself, unless it has no label
/// and its text would read as starting with one.
pub proof fn lemma_render_then_parse(t: TextItem)
    requires
        valid_item(t),
        t.label is None ==> label_at(render_item(t), 0) is None,
    ensures
        item_of(render_item(t)) == Ok::<TextItem, (nat, crate::parse::ErrorKind)>(t),
{
    lemma_label_part(t);
    let q = if t.statement is None {
        lemma_noop_part(t)
    } else {
        lemma_rule_part(t)
    };
    let s = render_item(t);
    assert(item_of(s) == Ok::<TextItem, (nat, crate::parse::ErrorKind)>(
        TextItem { label: t.label, statement: t.statement, comment: comment_at(s, skip_ws(s, q)) },
    ));
}

/// A terminal that the parser reads is valid.
proof fn lemma_term_valid(s: Seq<char>, p: nat)
    requires
        p < s.len(),
        !white(s[p as int]),
        term_at(s, p) is Took,
    ensures
        valid_term(term_at(s, p)->Took_0),
    decreases s.len() - p, 0nat,
{
    if s[p as int] == '(' {
        lemma_expr_valid(s, p + 1);
        let ts = expr_at(s, p + 1)->Ok_0.0;
        assert(valid_term(TextTerm::Group(ts)) == (forall|i: int|
            0 <= i < ts.len() ==> valid_term(#[trigger] ts[i])));
    } else if s[p as int] == '$' && var_at(s, p) is Some {
        let d = p + 1 < s.len() && s[p + 1int] == '$';
        let q: nat = if d {
            p + 2
        } else {
            p + 1
        };
        lemma_name_end(s, q);
        let e = name_end(s, q);
        let x = s.subrange(q as int, e as int);
        assert forall|i: int| 0 <= i < x.len() implies name_char(#[trigger] x[i]) by {
            assert(x[i] == s[q + i]);
        }
    } else {
        lemma_atom_end(s, p);
        let e = atom_end(s, p);
        let x = s.subrange(p as int, e as int);
        assert(atom_char(s[p as int]));
        assert forall|i: int| 0 <= i < x.len() implies atom_char(#[trigger] x[i]) by {
            assert(x[i] == s[p + i]);
        }
        assert(holds_at(s, p, x)) by {
            assert forall|i: int| 0 <= i < x.len() implies #[trigger] s[p + i] == x[i] by {}
        }
        if x[0] == '$' {
            assert(s[p as int] == x[0]);
            lemma_var_in_context(s, p, x);
        }
    }
}

/// The terminals that the parser reads are valid.
proof fn lemma_expr_valid(s: Seq<char>, p: nat)
    requires
        expr_at(s, p) is Ok,
    ensures
        valid_seq(expr_at(s, p)->Ok_0.0),
    decreases s.len() - p, 1nat,
{
    if p >= s.len() {
    } else if white(s[p as int]) {
        lemma_expr_valid(s, p + 1);
    } else {
        match term_at(s, p) {
            Step::Took(t, r) => {
                lemma_term_valid(s, p);
                if p < r <= s.len() {
                    lemma_expr_valid(s, r);
                    let ts = expr_at(s, r)->Ok_0.0;
                    let all = seq![t] + ts;
                    assert forall|i: int| 0 <= i < all.len() implies valid_term(#[trigger] all[i]) by {
                        if i > 0 {
                            assert(all[i] == ts[i - 1]);
                        }
                    }
                }
            },
            _ => {},
        }
    }
}

/// The first character of an expression's text, and the second when the
/// first terminal's text has one character.
proof fn lemma_render_seq_second(e: Seq<TextTerm>)
    requires
        e.len() >= 2,
        render_term(e[0]).len() == 1,
    ensures
        render_seq(e)[1] == ' ',
{
    lemma_render_front(e);
}

proof fn lemma_render_seq_prefix(e: Seq<TextTerm>)
    requires
        e.len() >= 1,
    ensures
        forall|i: int| 0 <= i < render_term(e[0]).len() ==> #[trigger] render_seq(e)[i] == render_term(e[0])[i],
        render_term(e[0]).len() <= render_seq(e).len(),
{
    if e.len() >= 2 {
        lemma_render_front(e);
    }
}

/// The left side of a rule that the parser reads does not start with `//`.
proof fn lemma_rule_left_not_comment(s: Seq<char>, p: nat)
    requires
        p <= s.len(),
        noop_at(s, p) is None,
        expr_at(s, p) is Ok,
        expr_at(s, p)->Ok_0.0.len() > 0,
    ensures
        !opens_comment(render_seq(expr_at(s, p)->Ok_0.0)),
{
    let q0 = skip_ws(s, p);
    lemma_skip_ws(s, p);
    lemma_expr_skip(s, p, q0);
    let l = expr_at(s, p)->Ok_0.0;
    assert(q0 < s.len());
    assert(!white(s[q0 as int]));
    let t = term_at(s, q0)->Took_0;
    assert(term_at(s, q0) is Took);
    assert(l[0] == t) by {
        let r = term_at(s, q0)->Took_1;
        if q0 < r <= s.len() {
            let ts = expr_at(s, r)->Ok_0.0;
            assert(l == seq![t] + ts);
        }
    }
    lemma_render_seq_prefix(l);
    if opens_comment(render_seq(l)) {
        let rt = render_term(t);
        match t {
            TextTerm::Sym(x) => {
                lemma_atom_end(s, q0);
                assert(x == s.subrange(q0 as int, atom_end(s, q0) as int));
                if rt.len() >= 2 {
                    assert(s[q0 as int] == x[0] && s[q0 + 1int] == x[1]);
                } else {
                    assert(l.len() >= 2);
                    lemma_render_seq_second(l);
                }
            },
            TextTerm::Var(x, k) => {},
            TextTerm::Group(_) => {},
        }
    }
}

/// What the parser reads from a line is a valid item.
pub proof fn lemma_parsed_valid(s: Seq<char>)
    requires
        item_of(s) is Ok,
    ensures
        valid_item(item_of(s)->Ok_0),
{
    let t = item_of(s)->Ok_0;
    let p: nat = match label_at(s, 0) {
        Some((_, e)) => e,
        None => 0,
    };
    if let Some((l, e)) = label_at(s, 0) {
        lemma_label_end(s, 1);
        assert forall|i: int| 0 <= i < l.len() implies #[trigger] l[i] != ']' by {
            assert(l[i] == s[1 + i]);
        }
    }
    let (st, q) = stmt_at(s, p)->Ok_0;
    if let Some((l, r)) = st {
        let (l2, r2, e) = rewrite_at(s, p)->Ok_0;
        lemma_expr_valid(s, p);
        let q1 = expr_at(s, p)->Ok_0.1;
        let a = arrow_at(s, skip_ws(s, q1))->Ok_0;
        lemma_expr_valid(s, a);
        lemma_rule_left_not_comment(s, p);
    }
    let c0 = skip_ws(s, q);
    if let Some(c) = comment_at(s, c0) {
        let j = skip_ws(s, c0 + 2);
        lemma_skip_ws(s, c0 + 2);
        if c.len() > 0 {
            assert(c[0] == s[j as int]);
        }
    }
}

/// Writing out an item that was read from a line, then reading that text,
/// gives the same item; the one exception is an item without a label whose
/// text would read as starting with a label.
pub proof fn lemma_round_trip(s: Seq<char>)
    requires
        item_of(s) is Ok,
        item_of(s)->Ok_0.label is None ==> label_at(render_item(item_of(s)->Ok_0), 0) is None,
    ensures
        item_of(render_item(item_of(s)->Ok_0)) == item_of(s),
{
    lemma_parsed_valid(s);
    lemma_render_then_parse(item_of(s)->Ok_0);
}

/// Writing out the terminals read from the start of a line, then reading
/// that text, gives the same terminals and reads the whole text.
pub proof fn lemma_expression_round_trip(s: Seq<char>)
    requires
        expr_at(s, 0) is Ok,
    ensures
        expr_at(render_seq(expr_at(s, 0)->Ok_0.0), 0) == Ok::<(Seq<TextTerm>, nat), (nat, crate::parse::ErrorKind)>(
            (expr_at(s, 0)->Ok_0.0, render_seq(expr_at(s, 0)->Ok_0.0).len()),
        ),
{
    let ts = expr_at(s, 0)->Ok_0.0;
    let t = render_seq(ts);
    lemma_expr_valid(s, 0);
    lemma_holds_whole(t);
    assert(expr_at(t, t.len()) == Ok::<(Seq<TextTerm>, nat), (nat, crate::parse::ErrorKind)>((Seq::empty(), t.len())));
    lemma_parse_seq(t, 0, ts, t.len());
}

} // verus!
