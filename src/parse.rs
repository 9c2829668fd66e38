use vstd::prelude::*;
use crate::expr::{
    Comment, Expression, Item, Label, Statement, Term, Terminal, TextItem, TextTerm, VariableKind,
    decode_item, decode_seq, decode_statement, decode_term, in_table, item_in_table,
    lemma_decode_seq_grows, lemma_terms_view, statement_in_table, term_in_table,
};
use crate::symbol_table::{SymbolTable, grows, lemma_grows_trans};

verus! {

broadcast use {
    vstd::seq::axiom_seq_index_decreases,
    vstd::seq::axiom_seq_subrange_decreases,
    vstd::std_specs::vec::axiom_vec_decreases_to_view,
    lemma_terms_view,
};

/// What the parser expected to find.
#[derive(Debug, PartialEq, Eq)]
pub enum Token {
    Symbol,
    Constant(&'static str),
    Eof,
}

#[derive(Debug, PartialEq, Eq)]
pub enum ErrorKind {
    ReservedSymbol(&'static str),
    UnexpectedEoF,
    ExpectedToken(Token),
}

/// A parse failure: the column (in characters) where it was found, and why.
#[derive(Debug)]
pub struct ParseError {
    idx: usize,
    error: ErrorKind,
}

/// A parse failure in the model: column and kind.
pub type PErr = (nat, ErrorKind);

impl View for ParseError {
    type V = PErr;

    closed spec fn view(&self) -> PErr {
        (self.idx as nat, self.error)
    }
}

impl ParseError {
    pub fn column(&self) -> (r: usize)
        ensures
            r as nat == self@.0,
    {
        self.idx
    }

    pub fn kind(&self) -> (r: &ErrorKind)
        ensures
            *r == self@.1,
    {
        &self.error
    }
}

/// Unicode White_Space, the characters that separate terminals.
pub open spec fn white(c: char) -> bool {
    let u = c as u32;
    ||| 0x9 <= u <= 0xd
    ||| u == 0x20
    ||| u == 0x85
    ||| u == 0xa0
    ||| u == 0x1680
    ||| 0x2000 <= u <= 0x200a
    ||| u == 0x2028
    ||| u == 0x2029
    ||| u == 0x202f
    ||| u == 0x205f
    ||| u == 0x3000
}

/// Whether `c` is white space.
pub fn is_white(c: char) -> (r: bool)
    ensures
        r == white(c),
{
    let u = c as u32;
    (0x9 <= u && u <= 0xd) || u == 0x20 || u == 0x85 || u == 0xa0 || u == 0x1680 || (0x2000 <= u
        && u <= 0x200a) || u == 0x2028 || u == 0x2029 || u == 0x202f || u == 0x205f || u == 0x3000
}

/// What `char::is_alphanumeric` says of `c`.
pub uninterp spec fn alnum(c: char) -> bool;

/// Relies on `char::is_alphanumeric`: whether `c` is alphabetic or numeric in
/// Unicode, which depends on `c` alone. Among ASCII characters these are the
/// letters and the decimal digits.
#[verifier::external_body]
fn is_alnum(c: char) -> (r: bool)
    ensures
        r == alnum(c),
        (c as u32) < 128 ==> (r == (('a' <= c && c <= 'z') || ('A' <= c && c <= 'Z') || ('0' <= c
            && c <= '9'))),
{
    c.is_alphanumeric()
}

/// A character of a variable's name: an alphanumeric character. White space,
/// parentheses and `$` are none, which the definition states outright.
pub open spec fn name_char(c: char) -> bool {
    alnum(c) && !white(c) && c != '(' && c != ')' && c != '$'
}

/// A character of a symbol.
pub open spec fn atom_char(c: char) -> bool {
    !white(c) && c != '(' && c != ')'
}

/// The first position from `p` on that is not white space.
pub open spec fn skip_ws(s: Seq<char>, p: nat) -> nat
    decreases s.len() - p,
{
    if p < s.len() && white(s[p as int]) {
        skip_ws(s, p + 1)
    } else {
        p
    }
}

/// The end of the run of symbol characters that starts at `p`.
pub open spec fn atom_end(s: Seq<char>, p: nat) -> nat
    decreases s.len() - p,
{
    if p < s.len() && atom_char(s[p as int]) {
        atom_end(s, p + 1)
    } else {
        p
    }
}

/// The end of the run of name characters that starts at `p`.
pub open spec fn name_end(s: Seq<char>, p: nat) -> nat
    decreases s.len() - p,
{
    if p < s.len() && name_char(s[p as int]) {
        name_end(s, p + 1)
    } else {
        p
    }
}

/// The first `]` from `p` on, or the end of the line.
pub open spec fn label_end(s: Seq<char>, p: nat) -> nat
    decreases s.len() - p,
{
    if p < s.len() && s[p as int] != ']' {
        label_end(s, p + 1)
    } else {
        p
    }
}

/// A variable at `p` (which holds `$`): `$name` or `$$name`, and where it ends.
pub open spec fn var_at(s: Seq<char>, p: nat) -> Option<(TextTerm, nat)> {
    let d = p + 1 < s.len() && s[p + 1int] == '$';
    let q: nat = if d {
        p + 2
    } else {
        p + 1
    };
    let e = name_end(s, q);
    if e > q {
        Some(
            (
                TextTerm::Var(
                    s.subrange(q as int, e as int),
                    if d {
                        VariableKind::Distinct
                    } else {
                        VariableKind::Any
                    },
                ),
                e,
            ),
        )
    } else {
        None
    }
}

/// The outcome of reading one terminal: a terminal and where it ends; a stop
/// at a place where no terminal begins, with the reason; or a failure.
pub enum Step {
    Took(TextTerm, nat),
    Stopped(PErr),
    Failed(PErr),
}

/// A symbol at `p`: the longest run of symbol characters there. No run, or
/// one of the reserved atoms `->` and `//`, stops the expression.
pub open spec fn sym_at(s: Seq<char>, p: nat) -> Step {
    let e = atom_end(s, p);
    let t = s.subrange(p as int, e as int);
    if e == p {
        Step::Stopped((p, ErrorKind::ExpectedToken(Token::Symbol)))
    } else if t == seq!['-', '>'] {
        Step::Stopped((p, ErrorKind::ReservedSymbol("->")))
    } else if t == seq!['/', '/'] {
        Step::Stopped((p, ErrorKind::ReservedSymbol("//")))
    } else {
        Step::Took(TextTerm::Sym(t), e)
    }
}

/// The `)` that closes a group, expected at `q`.
pub open spec fn close_at(s: Seq<char>, q: nat) -> Result<nat, PErr> {
    if q >= s.len() {
        Err((q, ErrorKind::UnexpectedEoF))
    } else if s[q as int] == ')' {
        Ok(q + 1)
    } else {
        Err((q, ErrorKind::ExpectedToken(Token::Constant(")"))))
    }
}

/// The arrow `->` of a rule, expected at `q`.
pub open spec fn arrow_at(s: Seq<char>, q: nat) -> Result<nat, PErr> {
    if q + 1 < s.len() && s[q as int] == '-' && s[q + 1int] == '>' {
        Ok(q + 2)
    } else if q >= s.len() || (q + 1 == s.len() && s[q as int] == '-') {
        Err((q, ErrorKind::UnexpectedEoF))
    } else {
        Err((q, ErrorKind::ExpectedToken(Token::Constant("->"))))
    }
}

/// One terminal at `p`, which is not white space.
pub open spec fn term_at(s: Seq<char>, p: nat) -> Step
    decreases s.len() - p, 0nat,
{
    if p >= s.len() {
        Step::Stopped((p, ErrorKind::UnexpectedEoF))
    } else if s[p as int] == '(' {
        match expr_at(s, p + 1) {
            Err(x) => Step::Failed(x),
            Ok((ts, q)) => match close_at(s, q) {
                Ok(r) => Step::Took(TextTerm::Group(ts), r),
                Err(x) => Step::Failed(x),
            },
        }
    } else if s[p as int] == ')' {
        Step::Stopped((p, ErrorKind::ExpectedToken(Token::Symbol)))
    } else if s[p as int] == '$' && var_at(s, p) is Some {
        Step::Took(var_at(s, p)->Some_0.0, var_at(s, p)->Some_0.1)
    } else {
        sym_at(s, p)
    }
}

/// The terminals from `p` on, up to the first place where none begins, and
/// that place.
pub open spec fn expr_at(s: Seq<char>, p: nat) -> Result<(Seq<TextTerm>, nat), PErr>
    decreases s.len() - p, 1nat,
{
    if p >= s.len() {
        Ok((Seq::empty(), p))
    } else if white(s[p as int]) {
        expr_at(s, p + 1)
    } else {
        match term_at(s, p) {
            Step::Took(t, r) => if p < r <= s.len() {
                match expr_at(s, r) {
                    Ok((ts, e)) => Ok((seq![t] + ts, e)),
                    Err(x) => Err(x),
                }
            } else {
                Ok((seq![t], r))
            },
            Step::Stopped(_) => Ok((Seq::empty(), p)),
            Step::Failed(x) => Err(x),
        }
    }
}

/// Why no terminal begins at `q`.
pub open spec fn stop_reason(s: Seq<char>, q: nat) -> PErr {
    match term_at(s, q) {
        Step::Stopped(x) => x,
        Step::Failed(x) => x,
        Step::Took(_, _) => (q, ErrorKind::UnexpectedEoF),
    }
}

/// A rule `left -> right` from `p` on; the left side is not empty.
pub open spec fn rewrite_at(s: Seq<char>, p: nat) -> Result<(Seq<TextTerm>, Seq<TextTerm>, nat), PErr> {
    match expr_at(s, p) {
        Err(x) => Err(x),
        Ok((l, q)) => if l.len() == 0 {
            Err(stop_reason(s, q))
        } else {
            match arrow_at(s, skip_ws(s, q)) {
                Err(x) => Err(x),
                Ok(r) => match expr_at(s, r) {
                    Err(x) => Err(x),
                    Ok((rt, e)) => Ok((l, rt, e)),
                },
            }
        },
    }
}

/// A no-op from `p` on: only white space before the end or a comment.
pub open spec fn noop_at(s: Seq<char>, p: nat) -> Option<nat> {
    let q = skip_ws(s, p);
    if q >= s.len() || (q + 1 < s.len() && s[q as int] == '/' && s[q + 1int] == '/') {
        Some(q)
    } else {
        None
    }
}

/// A statement from `p` on: a no-op (`None`) or a rule, and where it ends.
pub open spec fn stmt_at(s: Seq<char>, p: nat) -> Result<
    (Option<(Seq<TextTerm>, Seq<TextTerm>)>, nat),
    PErr,
> {
    match noop_at(s, p) {
        Some(q) => Ok((None, q)),
        None => match rewrite_at(s, p) {
            Err(x) => Err(x),
            Ok((l, r, e)) => Ok((Some((l, r)), e)),
        },
    }
}

/// A label `[text]` at `p`, and where it ends.
pub open spec fn label_at(s: Seq<char>, p: nat) -> Option<(Seq<char>, nat)> {
    if p < s.len() && s[p as int] == '[' {
        let e = label_end(s, p + 1);
        if p + 1 < e < s.len() {
            Some((s.subrange(p + 1int, e as int), e + 1))
        } else {
            None
        }
    } else {
        None
    }
}

/// A comment `// text` at `p`: the rest of the line after `//` and white space.
pub open spec fn comment_at(s: Seq<char>, p: nat) -> Option<Seq<char>> {
    if p + 1 < s.len() && s[p as int] == '/' && s[p + 1int] == '/' {
        Some(s.subrange(skip_ws(s, p + 2) as int, s.len() as int))
    } else {
        None
    }
}

/// A whole line: optional label, statement, optional comment. What follows
/// the statement and is no comment is ignored.
pub open spec fn item_of(s: Seq<char>) -> Result<TextItem, PErr> {
    let (label, p) = match label_at(s, 0) {
        Some((l, e)) => (Some(l), e),
        None => (None, 0nat),
    };
    match stmt_at(s, p) {
        Err(x) => Err(x),
        Ok((st, q)) => Ok(
            TextItem { label, statement: st, comment: comment_at(s, skip_ws(s, q)) },
        ),
    }
}

/// The model of a parse result that continues with `r`, after the terms `a`.
pub open spec fn prepend(a: Seq<TextTerm>, r: Result<(Seq<TextTerm>, nat), PErr>) -> Result<
    (Seq<TextTerm>, nat),
    PErr,
> {
    match r {
        Ok((ts, e)) => Ok((a + ts, e)),
        Err(x) => Err(x),
    }
}

/// The characters of `s`, one per entry.
pub(crate) fn chars_of(s: &str) -> (r: Vec<char>)
    ensures
        r@ == s@,
{
    let n = s.unicode_len();
    let mut v: Vec<char> = Vec::new();
    let mut i: usize = 0;
    while i < n
        invariant
            n == s@.len(),
            i <= n,
            v@ == s@.subrange(0, i as int),
        decreases n - i,
    {
        v.push(s.get_char(i));
        i = i + 1;
        assert(v@ =~= s@.subrange(0, i as int));
    }
    assert(s@.subrange(0, n as int) =~= s@);
    v
}

/// The first position from `p` on that is not white space.
fn skip_white(s: &Vec<char>, p: usize) -> (r: usize)
    requires
        p <= s@.len(),
    ensures
        r == skip_ws(s@, p as nat),
        p <= r <= s@.len(),
{
    let mut i = p;
    while i < s.len() && is_white(s[i])
        invariant
            p <= i <= s@.len(),
            skip_ws(s@, p as nat) == skip_ws(s@, i as nat),
        decreases s@.len() - i,
    {
        i = i + 1;
    }
    i
}

/// The end of the run of symbol characters from `p`.
fn scan_atom(s: &Vec<char>, p: usize) -> (r: usize)
    requires
        p <= s@.len(),
    ensures
        r == atom_end(s@, p as nat),
        p <= r <= s@.len(),
{
    let mut i = p;
    while i < s.len() && !is_white(s[i]) && s[i] != '(' && s[i] != ')'
        invariant
            p <= i <= s@.len(),
            atom_end(s@, p as nat) == atom_end(s@, i as nat),
        decreases s@.len() - i,
    {
        i = i + 1;
    }
    i
}

/// The end of the run of name characters from `p`.
fn scan_name(s: &Vec<char>, p: usize) -> (r: usize)
    requires
        p <= s@.len(),
    ensures
        r == name_end(s@, p as nat),
        p <= r <= s@.len(),
{
    let mut i = p;
    while i < s.len() && is_alnum(s[i]) && !is_white(s[i]) && s[i] != '(' && s[i] != ')' && s[i]
        != '$'
        invariant
            p <= i <= s@.len(),
            name_end(s@, p as nat) == name_end(s@, i as nat),
        decreases s@.len() - i,
    {
        i = i + 1;
    }
    i
}

/// The first `]` from `p` on, or the end.
fn scan_label(s: &Vec<char>, p: usize) -> (r: usize)
    requires
        p <= s@.len(),
    ensures
        r == label_end(s@, p as nat),
        p <= r <= s@.len(),
{
    let mut i = p;
    while i < s.len() && s[i] != ']'
        invariant
            p <= i <= s@.len(),
            label_end(s@, p as nat) == label_end(s@, i as nat),
        decreases s@.len() - i,
    {
        i = i + 1;
    }
    i
}

/// The handle of the text between `a` and `b`.
fn intern_span(line: &str, a: usize, b: usize, symbols: &mut SymbolTable) -> (r:
    crate::symbol_table::SymbolHandle)
    requires
        a <= b <= line@.len(),
        old(symbols).wf(),
    ensures
        final(symbols).wf(),
        grows(old(symbols)@, final(symbols)@),
        r.index() < final(symbols)@.len(),
        final(symbols)@[r.index() as int] == line@.subrange(a as int, b as int),
{
    let text = line.substring_char(a, b);
    symbols.handle(text)
}

/// The outcome of reading one terminal.
enum Parsed {
    Took(Terminal, usize),
    Stopped(ParseError),
    Failed(ParseError),
}

/// `r` is what the model says of reading a terminal, decoded through `tab`.
spec fn parsed_as(tab: Seq<Seq<char>>, r: Parsed, st: Step) -> bool {
    match st {
        Step::Took(t, q) => r matches Parsed::Took(u, e) && term_in_table(u@, tab.len())
            && decode_term(tab, u@) == t && e as nat == q,
        Step::Stopped(x) => r matches Parsed::Stopped(err) && err@ == x,
        Step::Failed(x) => r matches Parsed::Failed(err) && err@ == x,
    }
}

/// `r` is what the model says of reading an expression, decoded through `tab`.
spec fn expr_parsed_as(
    tab: Seq<Seq<char>>,
    r: Result<(Expression, usize), ParseError>,
    m: Result<(Seq<TextTerm>, nat), PErr>,
) -> bool {
    match m {
        Ok((ts, q)) => r matches Ok((e, p)) && in_table(e@, tab.len()) && decode_seq(tab, e@) == ts
            && p as nat == q,
        Err(x) => r matches Err(err) && err@ == x,
    }
}

impl Terminal {
    fn try_parse_variable(line: &str, chars: &Vec<char>, p: usize, symbols: &mut SymbolTable) -> (r:
        Option<(Terminal, usize)>)
        requires
            chars@ == line@,
            p < chars@.len(),
            old(symbols).wf(),
        ensures
            final(symbols).wf(),
            grows(old(symbols)@, final(symbols)@),
            match var_at(chars@, p as nat) {
                Some((t, e)) => r matches Some((u, q)) && term_in_table(u@, final(symbols)@.len())
                    && decode_term(final(symbols)@, u@) == t && q as nat == e,
                None => r is None,
            },
            r matches Some((_, e)) ==> e <= chars@.len(),
    {
        let n = chars.len();
        let distinct = p + 1 < n && chars[p + 1] == '$';
        let q = if distinct {
            p + 2
        } else {
            p + 1
        };
        let e = scan_name(chars, q);
        if e > q {
            let h = intern_span(line, q, e, symbols);
            let kind = if distinct {
                VariableKind::Distinct
            } else {
                VariableKind::Any
            };
            Some((Terminal::Variable(h, kind), e))
        } else {
            proof {
                assert(grows(old(symbols)@, symbols@)) by {
                    assert(symbols@.subrange(0, symbols@.len() as int) =~= symbols@);
                }
            }
            None
        }
    }

    fn try_parse_symbol(line: &str, chars: &Vec<char>, p: usize, symbols: &mut SymbolTable) -> (r:
        Parsed)
        requires
            chars@ == line@,
            p <= chars@.len(),
            old(symbols).wf(),
        ensures
            final(symbols).wf(),
            grows(old(symbols)@, final(symbols)@),
            parsed_as(final(symbols)@, r, sym_at(chars@, p as nat)),
            r matches Parsed::Took(_, e) ==> e <= chars@.len(),
    {
        proof {
            assert(symbols@.subrange(0, symbols@.len() as int) =~= symbols@);
        }
        let e = scan_atom(chars, p);
        let ghost t = chars@.subrange(p as int, e as int);
        if e == p {
            return Parsed::Stopped(ParseError { idx: p, error: ErrorKind::ExpectedToken(Token::Symbol) });
        }
        if e - p == 2 && chars[p] == '-' && chars[p + 1] == '>' {
            assert(t =~= seq!['-', '>']);
            return Parsed::Stopped(ParseError { idx: p, error: ErrorKind::ReservedSymbol("->") });
        }
        if e - p == 2 && chars[p] == '/' && chars[p + 1] == '/' {
            assert(t =~= seq!['/', '/']);
            assert(t != seq!['-', '>']) by {
                assert(t[0] != seq!['-', '>'][0]);
            }
            return Parsed::Stopped(ParseError { idx: p, error: ErrorKind::ReservedSymbol("//") });
        }
        assert(t != seq!['-', '>']) by {
            if t == seq!['-', '>'] {
                assert(t.len() == 2 && t[0] == '-' && t[1] == '>');
            }
        }
        assert(t != seq!['/', '/']) by {
            if t == seq!['/', '/'] {
                assert(t.len() == 2 && t[0] == '/' && t[1] == '/');
            }
        }
        let h = intern_span(line, p, e, symbols);
        Parsed::Took(Terminal::Symbol(h), e)
    }

    fn try_parse_parens(line: &str, chars: &Vec<char>, p: usize, symbols: &mut SymbolTable) -> (r:
        Parsed)
        requires
            chars@ == line@,
            p < chars@.len(),
            chars@[p as int] == '(',
            old(symbols).wf(),
        ensures
            final(symbols).wf(),
            grows(old(symbols)@, final(symbols)@),
            parsed_as(final(symbols)@, r, term_at(chars@, p as nat)),
            r matches Parsed::Took(_, e) ==> e <= chars@.len(),
        decreases chars@.len() - p, 0nat,
    {
        let n = chars.len();
        match Expression::try_parse_at(line, chars, p + 1, symbols) {
            Err(e) => Parsed::Failed(e),
            Ok((e, q)) => {
                proof {
                    let n = symbols@.len();
                    assert(term_in_table(Term::Group(e@), n) == (forall|i: int|
                        0 <= i < e@.len() ==> term_in_table(#[trigger] e@[i], n)));
                }
                if q >= chars.len() {
                    Parsed::Failed(ParseError { idx: q, error: ErrorKind::UnexpectedEoF })
                } else if chars[q] == ')' {
                    Parsed::Took(Terminal::Parentheses(e), q + 1)
                } else {
                    Parsed::Failed(
                        ParseError { idx: q, error: ErrorKind::ExpectedToken(Token::Constant(")")) },
                    )
                }
            },
        }
    }

    /// One terminal at `p`, which is not white space.
    fn try_parse_at(line: &str, chars: &Vec<char>, p: usize, symbols: &mut SymbolTable) -> (r:
        Parsed)
        requires
            chars@ == line@,
            p < chars@.len(),
            old(symbols).wf(),
        ensures
            final(symbols).wf(),
            grows(old(symbols)@, final(symbols)@),
            parsed_as(final(symbols)@, r, term_at(chars@, p as nat)),
            r matches Parsed::Took(_, e) ==> e <= chars@.len(),
        decreases chars@.len() - p, 1nat,
    {
        proof {
            assert(symbols@.subrange(0, symbols@.len() as int) =~= symbols@);
        }
        let c = chars[p];
        if c == '(' {
            return Terminal::try_parse_parens(line, chars, p, symbols);
        }
        if c == ')' {
            return Parsed::Stopped(
                ParseError { idx: p, error: ErrorKind::ExpectedToken(Token::Symbol) },
            );
        }
        if c == '$' {
            match Terminal::try_parse_variable(line, chars, p, symbols) {
                Some((t, e)) => {
                    return Parsed::Took(t, e);
                },
                None => {},
            }
        }
        let ghost mid = symbols@;
        let r = Terminal::try_parse_symbol(line, chars, p, symbols);
        proof {
            lemma_grows_trans(old(symbols)@, mid, symbols@);
        }
        r
    }
}

impl Expression {
    /// The terminals from `p` on, up to the first place where none begins.
    fn try_parse_at(line: &str, chars: &Vec<char>, p: usize, symbols: &mut SymbolTable) -> (r:
        Result<(Expression, usize), ParseError>)
        requires
            chars@ == line@,
            p <= chars@.len(),
            old(symbols).wf(),
        ensures
            final(symbols).wf(),
            grows(old(symbols)@, final(symbols)@),
            expr_parsed_as(final(symbols)@, r, expr_at(chars@, p as nat)),
            r matches Ok((_, q)) ==> q <= chars@.len(),
        decreases chars@.len() - p, 2nat,
    {
        let ghost s = chars@;
        let mut acc: Vec<Terminal> = Vec::new();
        let mut cur = p;
        proof {
            assert(symbols@.subrange(0, symbols@.len() as int) =~= symbols@);
            assert(decode_seq(symbols@, Expression(acc)@) =~= Seq::<TextTerm>::empty());
            assert(prepend(Seq::empty(), expr_at(s, p as nat)) == expr_at(s, p as nat)) by {
                match expr_at(s, p as nat) {
                    Ok((ts, e)) => {
                        assert(Seq::<TextTerm>::empty() + ts =~= ts);
                    },
                    Err(_) => {},
                }
            }
        }
        loop
            invariant
                s == chars@,
                chars@ == line@,
                p <= cur <= s.len(),
                symbols.wf(),
                grows(old(symbols)@, symbols@),
                in_table(Expression(acc)@, symbols@.len()),
                expr_at(s, p as nat) == prepend(
                    decode_seq(symbols@, Expression(acc)@),
                    expr_at(s, cur as nat),
                ),
            decreases s.len() - cur,
        {
            let ghost a = decode_seq(symbols@, Expression(acc)@);
            if cur >= chars.len() {
                proof {
                    assert(a + Seq::<TextTerm>::empty() =~= a);
                }
                return Ok((Expression(acc), cur));
            }
            if is_white(chars[cur]) {
                cur = cur + 1;
            } else {
                let ghost before = symbols@;
                let ghost acc_before = Expression(acc)@;
                match Terminal::try_parse_at(line, chars, cur, symbols) {
                    Parsed::Took(t, r) => {
                        proof {
                            lemma_grows_trans(old(symbols)@, before, symbols@);
                            lemma_decode_seq_grows(acc_before, before, symbols@);
                        }
                        let ghost tv = t@;
                        acc.push(t);
                        proof {
                            assert(Expression(acc)@ =~= acc_before.push(tv));
                            assert(acc_before.push(tv).drop_last() =~= acc_before);
                            let na = decode_seq(symbols@, Expression(acc)@);
                            assert(na == a.push(decode_term(symbols@, tv)));
                            assert forall|i: int| 0 <= i < Expression(acc)@.len() implies #[trigger] term_in_table(
                                Expression(acc)@[i],
                                symbols@.len(),
                            ) by {
                                if i < acc_before.len() {
                                    assert(Expression(acc)@[i] == acc_before[i]);
                                }
                            }
                        }
                        if r > cur && r <= chars.len() {
                            proof {
                                let na = decode_seq(symbols@, Expression(acc)@);
                                match expr_at(s, r as nat) {
                                    Ok((ts, e)) => {
                                        assert(a + (seq![decode_term(symbols@, tv)] + ts) =~= na
                                            + ts);
                                    },
                                    Err(_) => {},
                                }
                            }
                            cur = r;
                        } else {
                            proof {
                                let na = decode_seq(symbols@, Expression(acc)@);
                                assert(a + seq![decode_term(symbols@, tv)] =~= na);
                            }
                            return Ok((Expression(acc), r));
                        }
                    },
                    Parsed::Stopped(_) => {
                        proof {
                            lemma_grows_trans(old(symbols)@, before, symbols@);
                            lemma_decode_seq_grows(acc_before, before, symbols@);
                            assert(a + Seq::<TextTerm>::empty() =~= a);
                        }
                        return Ok((Expression(acc), cur));
                    },
                    Parsed::Failed(e) => {
                        proof {
                            lemma_grows_trans(old(symbols)@, before, symbols@);
                        }
                        return Err(e);
                    },
                }
            }
        }
    }
}

impl Statement {
    fn try_parse_noop(chars: &Vec<char>, p: usize) -> (r: Option<usize>)
        requires
            p <= chars@.len(),
        ensures
            match noop_at(chars@, p as nat) {
                Some(q) => r matches Some(x) && x as nat == q && x <= chars@.len(),
                None => r is None,
            },
    {
        let q = skip_white(chars, p);
        let n = chars.len();
        if q >= n || (q + 1 < n && chars[q] == '/' && chars[q + 1] == '/') {
            Some(q)
        } else {
            None
        }
    }

    fn try_parse_rewrite(line: &str, chars: &Vec<char>, p: usize, symbols: &mut SymbolTable) -> (r:
        Result<(Statement, usize), ParseError>)
        requires
            chars@ == line@,
            p <= chars@.len(),
            old(symbols).wf(),
        ensures
            final(symbols).wf(),
            grows(old(symbols)@, final(symbols)@),
            match rewrite_at(chars@, p as nat) {
                Ok((l, rt, e)) => r matches Ok((st, q)) && statement_in_table(
                    st,
                    final(symbols)@.len(),
                ) && decode_statement(final(symbols)@, st) == Some((l, rt)) && q as nat == e,
                Err(x) => r matches Err(err) && err@ == x,
            },
            r matches Ok((_, q)) ==> q <= chars@.len(),
    {
        let (left, q) = match Expression::try_parse_at(line, chars, p, symbols) {
            Ok(v) => v,
            Err(e) => {
                return Err(e);
            },
        };
        let ghost mid = symbols@;
        if left.0.len() == 0 {
            if q < chars.len() {
                match Terminal::try_parse_at(line, chars, q, symbols) {
                    Parsed::Stopped(e) => {
                        proof { lemma_grows_trans(old(symbols)@, mid, symbols@); }
                        return Err(e);
                    },
                    Parsed::Failed(e) => {
                        proof { lemma_grows_trans(old(symbols)@, mid, symbols@); }
                        return Err(e);
                    },
                    Parsed::Took(_, _) => {
                        proof { lemma_grows_trans(old(symbols)@, mid, symbols@); }
                        return Err(ParseError { idx: q, error: ErrorKind::UnexpectedEoF });
                    },
                }
            } else {
                return Err(ParseError { idx: q, error: ErrorKind::UnexpectedEoF });
            }
        }
        let a = skip_white(chars, q);
        let n = chars.len();
        let r = if a < n && a + 1 < n && chars[a] == '-' && chars[a + 1] == '>' {
            a + 2
        } else if a >= n || (a + 1 == n && chars[a] == '-') {
            return Err(ParseError { idx: a, error: ErrorKind::UnexpectedEoF });
        } else {
            return Err(
                ParseError { idx: a, error: ErrorKind::ExpectedToken(Token::Constant("->")) },
            );
        };
        let (right, e) = match Expression::try_parse_at(line, chars, r, symbols) {
            Ok(v) => v,
            Err(e) => {
                proof { lemma_grows_trans(old(symbols)@, mid, symbols@); }
                return Err(e);
            },
        };
        proof {
            lemma_grows_trans(old(symbols)@, mid, symbols@);
            lemma_decode_seq_grows(left@, mid, symbols@);
        }
        Ok((Statement::Rewrite(left, right), e))
    }

    fn try_parse_at(line: &str, chars: &Vec<char>, p: usize, symbols: &mut SymbolTable) -> (r:
        Result<(Statement, usize), ParseError>)
        requires
            chars@ == line@,
            p <= chars@.len(),
            old(symbols).wf(),
        ensures
            final(symbols).wf(),
            grows(old(symbols)@, final(symbols)@),
            match stmt_at(chars@, p as nat) {
                Ok((st, e)) => r matches Ok((u, q)) && statement_in_table(u, final(symbols)@.len())
                    && decode_statement(final(symbols)@, u) == st && q as nat == e,
                Err(x) => r matches Err(err) && err@ == x,
            },
            r matches Ok((_, q)) ==> q <= chars@.len(),
    {
        match Statement::try_parse_noop(chars, p) {
            Some(q) => {
                proof {
                    assert(symbols@.subrange(0, symbols@.len() as int) =~= symbols@);
                }
                Ok((Statement::Noop, q))
            },
            None => Statement::try_parse_rewrite(line, chars, p, symbols),
        }
    }
}

impl Label {
    fn try_parse_at(line: &str, chars: &Vec<char>, p: usize, symbols: &mut SymbolTable) -> (r:
        Option<(Label, usize)>)
        requires
            chars@ == line@,
            p <= chars@.len(),
            old(symbols).wf(),
        ensures
            final(symbols).wf(),
            grows(old(symbols)@, final(symbols)@),
            match label_at(chars@, p as nat) {
                Some((t, e)) => r matches Some((l, q)) && l.0.index() < final(symbols)@.len()
                    && final(symbols)@[l.0.index() as int] == t && q as nat == e,
                None => r is None,
            },
            r matches Some((_, q)) ==> q <= chars@.len(),
    {
        proof {
            assert(symbols@.subrange(0, symbols@.len() as int) =~= symbols@);
        }
        if p < chars.len() && chars[p] == '[' {
            let e = scan_label(chars, p + 1);
            if p + 1 < e && e < chars.len() {
                let h = intern_span(line, p + 1, e, symbols);
                return Some((Label(h), e + 1));
            }
        }
        None
    }
}

impl Comment {
    fn try_parse_at(line: &str, chars: &Vec<char>, p: usize) -> (r: Option<Comment>)
        requires
            chars@ == line@,
            p <= chars@.len(),
        ensures
            match comment_at(chars@, p as nat) {
                Some(t) => r matches Some(c) && c.0@ == t,
                None => r is None,
            },
    {
        let n = chars.len();
        if p < n && p + 1 < n && chars[p] == '/' && chars[p + 1] == '/' {
            let q = skip_white(chars, p + 2);
            let text = line.substring_char(q, n);
            Some(Comment(text.to_owned()))
        } else {
            None
        }
    }
}

impl Item {
    fn try_parse_at(line: &str, chars: &Vec<char>, symbols: &mut SymbolTable) -> (r: Result<
        Item,
        ParseError,
    >)
        requires
            chars@ == line@,
            old(symbols).wf(),
        ensures
            final(symbols).wf(),
            grows(old(symbols)@, final(symbols)@),
            match item_of(chars@) {
                Ok(t) => r matches Ok(it) && item_in_table(it, final(symbols)@.len()) && decode_item(
                    final(symbols)@,
                    it,
                ) == t,
                Err(x) => r matches Err(err) && err@ == x,
            },
    {
        let (label, p) = match Label::try_parse_at(line, chars, 0, symbols) {
            Some((l, e)) => (Some(l), e),
            None => (None, 0),
        };
        let ghost mid = symbols@;
        let (statement, q) = match Statement::try_parse_at(line, chars, p, symbols) {
            Ok(v) => v,
            Err(e) => {
                proof { lemma_grows_trans(old(symbols)@, mid, symbols@); }
                return Err(e);
            },
        };
        proof {
            lemma_grows_trans(old(symbols)@, mid, symbols@);
            if label is Some {
                let l = label->Some_0;
                assert(symbols@.subrange(0, mid.len() as int)[l.0.index() as int]
                    == symbols@[l.0.index() as int]);
            }
        }
        let c = skip_white(chars, q);
        let comment = Comment::try_parse_at(line, chars, c);
        Ok(Item { label, comment, statement })
    }
}

/// Parsing a whole line into a value of the library, interning its atoms.
pub trait TryParse: Sized {
    /// What parsing the line `s` gives, read through the table `tab` that the
    /// parse leaves.
    spec fn parse_spec(s: Seq<char>, tab: Seq<Seq<char>>, r: Result<Self, ParseError>) -> bool;

    fn parse(s: &str, symbols: &mut SymbolTable) -> (r: Result<Self, ParseError>)
        requires
            old(symbols).wf(),
        ensures
            final(symbols).wf(),
            grows(old(symbols)@, final(symbols)@),
            Self::parse_spec(s@, final(symbols)@, r),
    ;
}

impl TryParse for Expression {
    /// The terminals at the start of the line; the rest is ignored.
    open spec fn parse_spec(s: Seq<char>, tab: Seq<Seq<char>>, r: Result<Self, ParseError>) -> bool {
        match expr_at(s, 0) {
            Ok((ts, _)) => r matches Ok(e) && in_table(e@, tab.len()) && decode_seq(tab, e@) == ts,
            Err(x) => r matches Err(err) && err@ == x,
        }
    }

    fn parse(s: &str, symbols: &mut SymbolTable) -> (r: Result<Self, ParseError>) {
        let chars = chars_of(s);
        match Expression::try_parse_at(s, &chars, 0, symbols) {
            Ok((e, _)) => Ok(e),
            Err(e) => Err(e),
        }
    }
}

impl TryParse for Statement {
    /// The statement at the start of the line; the rest is ignored.
    open spec fn parse_spec(s: Seq<char>, tab: Seq<Seq<char>>, r: Result<Self, ParseError>) -> bool {
        match stmt_at(s, 0) {
            Ok((st, _)) => r matches Ok(u) && statement_in_table(u, tab.len()) && decode_statement(
                tab,
                u,
            ) == st,
            Err(x) => r matches Err(err) && err@ == x,
        }
    }

    fn parse(s: &str, symbols: &mut SymbolTable) -> (r: Result<Self, ParseError>) {
        let chars = chars_of(s);
        match Statement::try_parse_at(s, &chars, 0, symbols) {
            Ok((st, _)) => Ok(st),
            Err(e) => Err(e),
        }
    }
}

impl TryParse for Item {
    open spec fn parse_spec(s: Seq<char>, tab: Seq<Seq<char>>, r: Result<Self, ParseError>) -> bool {
        match item_of(s) {
            Ok(t) => r matches Ok(it) && item_in_table(it, tab.len()) && decode_item(tab, it) == t,
            Err(x) => r matches Err(err) && err@ == x,
        }
    }

    fn parse(s: &str, symbols: &mut SymbolTable) -> (r: Result<Self, ParseError>) {
        let chars = chars_of(s);
        Item::try_parse_at(s, &chars, symbols)
    }
}

} // verus!
