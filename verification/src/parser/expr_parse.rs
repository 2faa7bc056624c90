//! Parsers for expressions; each one does what the `sp_*` function of the same name states.
use vstd::prelude::*;

use crate::ast::{Exp, SExp, sexp, sexps, sarms, prim_of_chars, lemma_sexp_apply, lemma_sexp_begin, lemma_sexp_match};
use crate::env::{Name, Tokens};
use crate::lexer::{Token, TokKind, stoks};
use crate::display::{names_ok, def_names_ok, params_ok, lemma_names_ok_mono, lemma_def_names_ok_mono};
use crate::parser::{exp_names_ok, def_res_names_ok, ParseError, PErr, PRes, Names, perr, spans_view, res_exp, room, word, is_lit, is_lit_text, var_name, bracketed, fun_name, unary_prim, kind_at, word_at, name_at, lit_of_chars, case_is_dynamic, has_dynamic, sp_exp, sp_literal, sp_variable, sp_pointer, sp_indexer, sp_if, sp_while, sp_exps, sp_begin, sp_call, sp_binary, sp_unary, sp_set_value, sp_set, sp_arms, sp_match};
use crate::ast::prim_of_word;
use crate::text::chars_of;

verus! {

/// The spec result of a list parser, with `acc` in front of what it parsed.
pub open spec fn prepend_exps(acc: Seq<SExp>, r: PRes<Seq<SExp>>) -> PRes<Seq<SExp>> {
    match r {
        Ok((es, q, ns)) => Ok((acc + es, q, ns)),
        Err(e) => Err(e),
    }
}

pub open spec fn res_exps(r: Result<(Vec<Exp>, usize), ParseError>, ns: Names) -> PRes<Seq<SExp>> {
    match r {
        Ok((es, q)) => Ok((sexps(es@), q as int, ns)),
        Err(x) => Err(perr(&x)),
    }
}

pub open spec fn res_arms(r: Result<(Vec<(Exp, Exp)>, Vec<(usize, usize)>, Exp, usize), ParseError>, ns: Names) -> Result<(Seq<(SExp, SExp)>, Seq<(int, int)>, SExp, int, Names), PErr> {
    match r {
        Ok((a, s, d, q)) => Ok((sarms(a@), spans_view(s@), sexp(&d), q as int, ns)),
        Err(x) => Err(perr(&x)),
    }
}

pub open spec fn prepend_arms(acc: Seq<(SExp, SExp)>, sacc: Seq<(int, int)>, r: Result<(Seq<(SExp, SExp)>, Seq<(int, int)>, SExp, int, Names), PErr>) -> Result<(Seq<(SExp, SExp)>, Seq<(int, int)>, SExp, int, Names), PErr> {
    match r {
        Ok((a, s, d, q, ns)) => Ok((acc + a, sacc + s, d, q, ns)),
        Err(e) => Err(e),
    }
}

/// Whether both sides of every arm only use tokens below `n`.
pub open spec fn arms_names_ok(a: Seq<(SExp, SExp)>, n: nat) -> bool {
    forall|i: int| 0 <= i < a.len() ==> names_ok(#[trigger] a[i].0, n) && names_ok(a[i].1, n)
}

impl Exp {
    /// Parses one expression at token `p`.
    pub fn parse(ts: &Vec<Token>, p: usize, tokens: &mut Tokens) -> (r: Result<(Exp, usize), ParseError>)
        requires
            room(old(tokens), stoks(ts@), p as int),
        ensures
            final(tokens).wf(),
            old(tokens).symbols().len() <= final(tokens).symbols().len(),
            exp_names_ok(&r, final(tokens).symbols().len()),
            res_exp(r, final(tokens).names()) == sp_exp(stoks(ts@), p as int, old(tokens).names()),
            r is Ok ==> p < r->Ok_0.1 <= ts@.len() && room(final(tokens), stoks(ts@), r->Ok_0.1 as int),
        decreases ts@.len() - p, 1int,
    {
        if p >= ts.len() {
            return Err(ParseError::Syntax(p));
        }
        if ts[p].kind == TokKind::Word {
            let w = &ts[p].text;
            if is_lit(w) {
                parse_literal(ts, p, tokens)
            } else if var_name(w) {
                if bracketed(w) {
                    if kind_at(ts, p + 1, TokKind::CloseBracket) {
                        parse_pointer(ts, p, tokens)
                    } else {
                        parse_indexer(ts, p, tokens)
                    }
                } else if w[0] == '\'' {
                    crate::parser::macro_parse::parse_macroval(ts, p, tokens)
                } else {
                    parse_variable(ts, p, tokens)
                }
            } else {
                Err(ParseError::Syntax(p))
            }
        } else if ts[p].kind == TokKind::Open && kind_at(ts, p + 1, TokKind::Word) {
            let w = &ts[p + 1].text;
            if crate::text::text_is(w, "if") {
                parse_if(ts, p + 2, tokens)
            } else if crate::text::text_is(w, "while") {
                parse_while(ts, p + 2, tokens)
            } else if crate::text::text_is(w, "begin") {
                parse_begin(ts, p + 2, tokens)
            } else if crate::text::text_is(w, "set") {
                parse_set(ts, p + 2, tokens)
            } else if crate::text::text_is(w, "match") {
                parse_match(ts, p + 2, tokens)
            } else {
                match prim_of_chars(w) {
                    Some(op) => {
                        if unary_prim(op) {
                            parse_unary(ts, p + 1, tokens)
                        } else {
                            parse_binary(ts, p + 1, tokens)
                        }
                    },
                    None => {
                        if fun_name(w) {
                            parse_call(ts, p + 1, tokens)
                        } else {
                            Err(ParseError::Syntax(p + 1))
                        }
                    },
                }
            }
        } else if ts[p].kind == TokKind::Open {
            Err(ParseError::Syntax(p + 1))
        } else {
            Err(ParseError::Syntax(p))
        }
    }
}

/// An integer literal at `p`.
pub fn parse_literal(ts: &Vec<Token>, p: usize, tokens: &mut Tokens) -> (r: Result<(Exp, usize), ParseError>)
    requires
        p < ts@.len(),
        is_lit_text(word(stoks(ts@), p as int)),
        room(old(tokens), stoks(ts@), p as int),
    ensures
        final(tokens).wf(),
        old(tokens).symbols().len() <= final(tokens).symbols().len(),
        exp_names_ok(&r, final(tokens).symbols().len()),
        res_exp(r, final(tokens).names()) == sp_literal(stoks(ts@), p as int, old(tokens).names()),
        r is Ok ==> p < r->Ok_0.1 <= ts@.len() && room(final(tokens), stoks(ts@), r->Ok_0.1 as int),
{
    match lit_of_chars(&ts[p].text) {
        Some(v) => Ok((Exp::Literal(v), p + 1)),
        None => Err(ParseError::Literal(p)),
    }
}

/// A plain variable at `p`.
pub fn parse_variable(ts: &Vec<Token>, p: usize, tokens: &mut Tokens) -> (r: Result<(Exp, usize), ParseError>)
    requires
        p < ts@.len(),
        room(old(tokens), stoks(ts@), p as int),
    ensures
        final(tokens).wf(),
        old(tokens).symbols().len() <= final(tokens).symbols().len(),
        exp_names_ok(&r, final(tokens).symbols().len()),
        res_exp(r, final(tokens).names()) == sp_variable(stoks(ts@), p as int, old(tokens).names()),
        r is Ok ==> p < r->Ok_0.1 <= ts@.len() && room(final(tokens), stoks(ts@), r->Ok_0.1 as int),
{
    let n = name_at(ts, p, tokens);
    Ok((Exp::Var(n, None), p + 1))
}

/// An array passed whole, `a[]`, at `p`.
pub fn parse_pointer(ts: &Vec<Token>, p: usize, tokens: &mut Tokens) -> (r: Result<(Exp, usize), ParseError>)
    requires
        p + 1 < ts@.len(),
        room(old(tokens), stoks(ts@), p as int),
    ensures
        final(tokens).wf(),
        old(tokens).symbols().len() <= final(tokens).symbols().len(),
        exp_names_ok(&r, final(tokens).symbols().len()),
        res_exp(r, final(tokens).names()) == sp_pointer(stoks(ts@), p as int, old(tokens).names()),
        r is Ok ==> p < r->Ok_0.1 <= ts@.len() && room(final(tokens), stoks(ts@), r->Ok_0.1 as int),
{
    let n = name_at(ts, p, tokens);
    Ok((Exp::Var(n, None), p + 2))
}

/// An array element, `a[i]`, whose name is at `p`.
pub fn parse_indexer(ts: &Vec<Token>, p: usize, tokens: &mut Tokens) -> (r: Result<(Exp, usize), ParseError>)
    requires
        p < ts@.len(),
        room(old(tokens), stoks(ts@), p as int),
    ensures
        final(tokens).wf(),
        old(tokens).symbols().len() <= final(tokens).symbols().len(),
        exp_names_ok(&r, final(tokens).symbols().len()),
        res_exp(r, final(tokens).names()) == sp_indexer(stoks(ts@), p as int, old(tokens).names()),
        r is Ok ==> p < r->Ok_0.1 <= ts@.len() && room(final(tokens), stoks(ts@), r->Ok_0.1 as int),
    decreases ts@.len() - p, 0int,
{
    let n = name_at(ts, p, tokens);
    let (i, q) = Exp::parse(ts, p + 1, tokens)?;
    if kind_at(ts, q, TokKind::CloseBracket) {
        Ok((Exp::Var(n, Some(Box::new(i))), q + 1))
    } else {
        Err(ParseError::Syntax(q))
    }
}

/// `(if c t f)`, from the token after `if`.
pub fn parse_if(ts: &Vec<Token>, q: usize, tokens: &mut Tokens) -> (r: Result<(Exp, usize), ParseError>)
    requires
        q <= ts@.len(),
        room(old(tokens), stoks(ts@), q as int),
    ensures
        final(tokens).wf(),
        old(tokens).symbols().len() <= final(tokens).symbols().len(),
        exp_names_ok(&r, final(tokens).symbols().len()),
        res_exp(r, final(tokens).names()) == sp_if(stoks(ts@), q as int, old(tokens).names()),
        r is Ok ==> q < r->Ok_0.1 <= ts@.len() && room(final(tokens), stoks(ts@), r->Ok_0.1 as int),
    decreases ts@.len() - q, 3int,
{
    let (c, q1) = Exp::parse(ts, q, tokens)?;
    let ghost n1 = tokens.symbols().len();
    let (t, q2) = Exp::parse(ts, q1, tokens)?;
    let ghost n2 = tokens.symbols().len();
    let (f, q3) = Exp::parse(ts, q2, tokens)?;
    proof {
        lemma_names_ok_mono(sexp(&c), n1, tokens.symbols().len());
        lemma_names_ok_mono(sexp(&t), n2, tokens.symbols().len());
    }
    if kind_at(ts, q3, TokKind::Close) {
        Ok((Exp::If(Box::new(c), Box::new(t), Box::new(f)), q3 + 1))
    } else {
        Err(ParseError::Syntax(q3))
    }
}

/// `(while g b)`, from the token after `while`.
pub fn parse_while(ts: &Vec<Token>, q: usize, tokens: &mut Tokens) -> (r: Result<(Exp, usize), ParseError>)
    requires
        q <= ts@.len(),
        room(old(tokens), stoks(ts@), q as int),
    ensures
        final(tokens).wf(),
        old(tokens).symbols().len() <= final(tokens).symbols().len(),
        exp_names_ok(&r, final(tokens).symbols().len()),
        res_exp(r, final(tokens).names()) == sp_while(stoks(ts@), q as int, old(tokens).names()),
        r is Ok ==> q < r->Ok_0.1 <= ts@.len() && room(final(tokens), stoks(ts@), r->Ok_0.1 as int),
    decreases ts@.len() - q, 3int,
{
    let (g, q1) = Exp::parse(ts, q, tokens)?;
    let ghost n1 = tokens.symbols().len();
    let (b, q2) = Exp::parse(ts, q1, tokens)?;
    proof {
        lemma_names_ok_mono(sexp(&g), n1, tokens.symbols().len());
    }
    if kind_at(ts, q2, TokKind::Close) {
        Ok((Exp::While(Box::new(g), Box::new(b)), q2 + 1))
    } else {
        Err(ParseError::Syntax(q2))
    }
}

/// Expressions up to and including a closing parenthesis.
pub fn parse_exps(ts: &Vec<Token>, q0: usize, tokens: &mut Tokens) -> (r: Result<(Vec<Exp>, usize), ParseError>)
    requires
        q0 <= ts@.len(),
        room(old(tokens), stoks(ts@), q0 as int),
    ensures
        final(tokens).wf(),
        old(tokens).symbols().len() <= final(tokens).symbols().len(),
        r matches Ok((es, _)) ==> forall|i: int| 0 <= i < es@.len() ==> names_ok(#[trigger] sexps(es@)[i], final(tokens).symbols().len()),
        res_exps(r, final(tokens).names()) == sp_exps(stoks(ts@), q0 as int, old(tokens).names()),
        r is Ok ==> q0 < r->Ok_0.1 <= ts@.len() && room(final(tokens), stoks(ts@), r->Ok_0.1 as int),
    decreases ts@.len() - q0, 2int,
{
    let ghost ns0 = tokens.names();
    let mut es: Vec<Exp> = Vec::new();
    let mut q = q0;
    while q < ts.len()
        invariant
            q0 <= q <= ts@.len(),
            room(tokens, stoks(ts@), q as int),
            ns0 == old(tokens).names(),
            old(tokens).symbols().len() <= tokens.symbols().len(),
            forall|i: int| 0 <= i < es@.len() ==> names_ok(#[trigger] sexps(es@)[i], tokens.symbols().len()),
            sp_exps(stoks(ts@), q0 as int, ns0) == prepend_exps(sexps(es@), sp_exps(stoks(ts@), q as int, tokens.names())),
        decreases ts@.len() - q,
    {
        let ghost ns = tokens.names();
        if ts[q].kind == TokKind::Close {
            proof {
                assert(sp_exps(stoks(ts@), q as int, ns) == Ok::<(Seq<SExp>, int, Names), PErr>((Seq::<SExp>::empty(), q + 1, ns)));
                assert(sexps(es@) + Seq::<SExp>::empty() =~= sexps(es@));
                assert(prepend_exps(sexps(es@), sp_exps(stoks(ts@), q as int, ns)) == Ok::<(Seq<SExp>, int, Names), PErr>((sexps(es@), q + 1, ns)));
                assert(sp_exps(stoks(ts@), q0 as int, ns0) == Ok::<(Seq<SExp>, int, Names), PErr>((sexps(es@), q + 1, ns)));
            }
            return Ok((es, q + 1));
        }
        let ghost acc = sexps(es@);
        let ghost n0 = tokens.symbols().len();
        let (e, q1) = match Exp::parse(ts, q, tokens) {
            Ok(x) => x,
            Err(x) => {
                proof {
                    assert(sp_exps(stoks(ts@), q as int, ns) == Err::<(Seq<SExp>, int, Names), PErr>(perr(&x)));
                }
                return Err(x);
            },
        };
        proof {
            assert(sp_exps(stoks(ts@), q as int, ns) == match sp_exps(stoks(ts@), q1 as int, tokens.names()) {
                Err(x) => Err(x),
                Ok((es2, q2, ns2)) => Ok((seq![sexp(&e)] + es2, q2, ns2)),
            });
            assert(sexps(es@.push(e)) =~= acc.push(sexp(&e)));
            assert forall|i: int| 0 <= i < acc.len() implies names_ok(#[trigger] acc[i], tokens.symbols().len()) by {
                lemma_names_ok_mono(acc[i], n0, tokens.symbols().len());
            }
            let rest = sp_exps(stoks(ts@), q1 as int, tokens.names());
            if rest is Ok {
                assert(acc + (seq![sexp(&e)] + rest->Ok_0.0) =~= acc.push(sexp(&e)) + rest->Ok_0.0);
            }
        }
        es.push(e);
        q = q1;
    }
    Err(ParseError::Syntax(q))
}

/// `(begin e ...)`, from the token after `begin`.
pub fn parse_begin(ts: &Vec<Token>, q: usize, tokens: &mut Tokens) -> (r: Result<(Exp, usize), ParseError>)
    requires
        q <= ts@.len(),
        room(old(tokens), stoks(ts@), q as int),
    ensures
        final(tokens).wf(),
        old(tokens).symbols().len() <= final(tokens).symbols().len(),
        exp_names_ok(&r, final(tokens).symbols().len()),
        res_exp(r, final(tokens).names()) == sp_begin(stoks(ts@), q as int, old(tokens).names()),
        r is Ok ==> q < r->Ok_0.1 <= ts@.len() && room(final(tokens), stoks(ts@), r->Ok_0.1 as int),
    decreases ts@.len() - q, 3int,
{
    let (es, q1) = parse_exps(ts, q, tokens)?;
    proof {
        lemma_sexp_begin(es);
    }
    Ok((Exp::Begin(es), q1))
}

/// `(f e ...)`, from the function's name.
pub fn parse_call(ts: &Vec<Token>, p: usize, tokens: &mut Tokens) -> (r: Result<(Exp, usize), ParseError>)
    requires
        p < ts@.len(),
        room(old(tokens), stoks(ts@), p as int),
    ensures
        final(tokens).wf(),
        old(tokens).symbols().len() <= final(tokens).symbols().len(),
        exp_names_ok(&r, final(tokens).symbols().len()),
        res_exp(r, final(tokens).names()) == sp_call(stoks(ts@), p as int, old(tokens).names()),
        r is Ok ==> p < r->Ok_0.1 <= ts@.len() && room(final(tokens), stoks(ts@), r->Ok_0.1 as int),
    decreases ts@.len() - p, 3int,
{
    let f = name_at(ts, p, tokens);
    let (es, q) = parse_exps(ts, p + 1, tokens)?;
    proof {
        lemma_sexp_apply(f, es);
    }
    Ok((Exp::Apply(f, es), q))
}

/// `(op l r)`, from the operator.
pub fn parse_binary(ts: &Vec<Token>, p: usize, tokens: &mut Tokens) -> (r: Result<(Exp, usize), ParseError>)
    requires
        p < ts@.len(),
        prim_of_word(word(stoks(ts@), p as int)) is Some,
        room(old(tokens), stoks(ts@), p as int),
    ensures
        final(tokens).wf(),
        old(tokens).symbols().len() <= final(tokens).symbols().len(),
        exp_names_ok(&r, final(tokens).symbols().len()),
        res_exp(r, final(tokens).names()) == sp_binary(stoks(ts@), p as int, old(tokens).names()),
        r is Ok ==> p < r->Ok_0.1 <= ts@.len() && room(final(tokens), stoks(ts@), r->Ok_0.1 as int),
    decreases ts@.len() - p, 3int,
{
    let op = prim_of_chars(&ts[p].text).unwrap();
    let (l, q1) = Exp::parse(ts, p + 1, tokens)?;
    let ghost n1 = tokens.symbols().len();
    let (r, q2) = Exp::parse(ts, q1, tokens)?;
    proof {
        lemma_names_ok_mono(sexp(&l), n1, tokens.symbols().len());
    }
    if kind_at(ts, q2, TokKind::Close) {
        Ok((Exp::Binary(op, Box::new(l), Box::new(r)), q2 + 1))
    } else {
        Err(ParseError::Syntax(q2))
    }
}

/// `(op e)`, from the operator.
pub fn parse_unary(ts: &Vec<Token>, p: usize, tokens: &mut Tokens) -> (r: Result<(Exp, usize), ParseError>)
    requires
        p < ts@.len(),
        prim_of_word(word(stoks(ts@), p as int)) is Some,
        room(old(tokens), stoks(ts@), p as int),
    ensures
        final(tokens).wf(),
        old(tokens).symbols().len() <= final(tokens).symbols().len(),
        exp_names_ok(&r, final(tokens).symbols().len()),
        res_exp(r, final(tokens).names()) == sp_unary(stoks(ts@), p as int, old(tokens).names()),
        r is Ok ==> p < r->Ok_0.1 <= ts@.len() && room(final(tokens), stoks(ts@), r->Ok_0.1 as int),
    decreases ts@.len() - p, 3int,
{
    let op = prim_of_chars(&ts[p].text).unwrap();
    let (b, q1) = Exp::parse(ts, p + 1, tokens)?;
    if kind_at(ts, q1, TokKind::Close) {
        Ok((Exp::Unary(op, Box::new(b)), q1 + 1))
    } else {
        Err(ParseError::Syntax(q1))
    }
}

/// The value of an assignment to `n`, then the closing parenthesis.
pub fn parse_set_value(ts: &Vec<Token>, q: usize, tokens: &mut Tokens, n: Name, idx: Option<Box<Exp>>) -> (r: Result<(Exp, usize), ParseError>)
    requires
        q <= ts@.len(),
        room(old(tokens), stoks(ts@), q as int),
        0 <= n < old(tokens).symbols().len(),
        idx matches Some(i) ==> names_ok(sexp(&i), old(tokens).symbols().len()),
    ensures
        final(tokens).wf(),
        old(tokens).symbols().len() <= final(tokens).symbols().len(),
        exp_names_ok(&r, final(tokens).symbols().len()),
        res_exp(r, final(tokens).names()) == sp_set_value(stoks(ts@), q as int, old(tokens).names(), n, match idx {
            Some(i) => Some(sexp(&i)),
            None => None,
        }),
        r is Ok ==> q < r->Ok_0.1 <= ts@.len() && room(final(tokens), stoks(ts@), r->Ok_0.1 as int),
    decreases ts@.len() - q, 2int,
{
    let ghost n0 = tokens.symbols().len();
    let (v, q1) = Exp::parse(ts, q, tokens)?;
    proof {
        if idx is Some {
            lemma_names_ok_mono(sexp(&idx->Some_0), n0, tokens.symbols().len());
        }
    }
    if kind_at(ts, q1, TokKind::Close) {
        Ok((Exp::Assign(n, idx, Box::new(v)), q1 + 1))
    } else {
        Err(ParseError::Syntax(q1))
    }
}

/// `(set x e)` or `(set a[i] e)`, from the token after `set`.
pub fn parse_set(ts: &Vec<Token>, q: usize, tokens: &mut Tokens) -> (r: Result<(Exp, usize), ParseError>)
    requires
        q <= ts@.len(),
        room(old(tokens), stoks(ts@), q as int),
    ensures
        final(tokens).wf(),
        old(tokens).symbols().len() <= final(tokens).symbols().len(),
        exp_names_ok(&r, final(tokens).symbols().len()),
        res_exp(r, final(tokens).names()) == sp_set(stoks(ts@), q as int, old(tokens).names()),
        r is Ok ==> q < r->Ok_0.1 <= ts@.len() && room(final(tokens), stoks(ts@), r->Ok_0.1 as int),
    decreases ts@.len() - q, 3int,
{
    if !(kind_at(ts, q, TokKind::Word) && var_name(&ts[q].text)) {
        return Err(ParseError::Syntax(q));
    }
    let n = name_at(ts, q, tokens);
    if bracketed(&ts[q].text) {
        if kind_at(ts, q + 1, TokKind::CloseBracket) {
            parse_set_value(ts, q + 2, tokens, n, None)
        } else {
            let (i, q1) = Exp::parse(ts, q + 1, tokens)?;
            if !kind_at(ts, q1, TokKind::CloseBracket) {
                return Err(ParseError::Syntax(q1));
            }
            parse_set_value(ts, q1 + 1, tokens, n, Some(Box::new(i)))
        }
    } else {
        parse_set_value(ts, q + 1, tokens, n, None)
    }
}

/// The arms of a match, through the default arm and the closing parenthesis.
#[verifier::spinoff_prover]
pub fn parse_match_arms(ts: &Vec<Token>, q0: usize, tokens: &mut Tokens) -> (r: Result<(Vec<(Exp, Exp)>, Vec<(usize, usize)>, Exp, usize), ParseError>)
    requires
        q0 <= ts@.len(),
        room(old(tokens), stoks(ts@), q0 as int),
    ensures
        final(tokens).wf(),
        old(tokens).symbols().len() <= final(tokens).symbols().len(),
        r matches Ok((a, _, d, _)) ==> names_ok(sexp(&d), final(tokens).symbols().len()) && arms_names_ok(sarms(a@), final(tokens).symbols().len()),
        res_arms(r, final(tokens).names()) == sp_arms(stoks(ts@), q0 as int, old(tokens).names()),
        r is Ok ==> q0 < r->Ok_0.3 <= ts@.len() && room(final(tokens), stoks(ts@), r->Ok_0.3 as int),
    decreases ts@.len() - q0, 2int,
{
    let ghost ns0 = tokens.names();
    let mut arms: Vec<(Exp, Exp)> = Vec::new();
    let mut spans: Vec<(usize, usize)> = Vec::new();
    let mut q = q0;
    loop
        invariant
            q0 <= q <= ts@.len(),
            room(tokens, stoks(ts@), q as int),
            ns0 == old(tokens).names(),
            old(tokens).symbols().len() <= tokens.symbols().len(),
            arms_names_ok(sarms(arms@), tokens.symbols().len()),
            sp_arms(stoks(ts@), q0 as int, ns0) == prepend_arms(sarms(arms@), spans_view(spans@), sp_arms(stoks(ts@), q as int, tokens.names())),
        decreases ts@.len() - q,
    {
        if !kind_at(ts, q, TokKind::Open) {
            return Err(ParseError::Syntax(q));
        }
        if word_at(ts, q + 1, "_") {
            if !word_at(ts, q + 2, "=>") {
                return Err(ParseError::Syntax(q + 2));
            }
            let ghost n0 = tokens.symbols().len();
            let (d, q1) = Exp::parse(ts, q + 3, tokens)?;
            proof {
                let a = sarms(arms@);
                assert forall|i: int| 0 <= i < a.len() implies names_ok(#[trigger] a[i].0, tokens.symbols().len()) && names_ok(a[i].1, tokens.symbols().len()) by {
                    lemma_names_ok_mono(a[i].0, n0, tokens.symbols().len());
                    lemma_names_ok_mono(a[i].1, n0, tokens.symbols().len());
                }
            }
            if !kind_at(ts, q1, TokKind::Close) {
                return Err(ParseError::Syntax(q1));
            }
            if !kind_at(ts, q1 + 1, TokKind::Close) {
                return Err(ParseError::Syntax(q1 + 1));
            }
            proof {
                assert(names_ok(sexp(&d), tokens.symbols().len()));
                assert(sarms(arms@) + Seq::<(SExp, SExp)>::empty() =~= sarms(arms@));
                assert(spans_view(spans@) + Seq::<(int, int)>::empty() =~= spans_view(spans@));
            }
            return Ok((arms, spans, d, q1 + 2));
        }
        let ghost a0 = sarms(arms@);
        let ghost s0 = spans_view(spans@);
        let ghost n0 = tokens.symbols().len();
        let (c, q1) = Exp::parse(ts, q + 1, tokens)?;
        let ghost n1 = tokens.symbols().len();
        if !word_at(ts, q1, "=>") {
            return Err(ParseError::Syntax(q1));
        }
        let (t, q2) = Exp::parse(ts, q1 + 1, tokens)?;
        proof {
            let n2 = tokens.symbols().len();
            lemma_names_ok_mono(sexp(&c), n1, n2);
            assert forall|i: int| 0 <= i < a0.len() implies names_ok(#[trigger] a0[i].0, n2) && names_ok(a0[i].1, n2) by {
                lemma_names_ok_mono(a0[i].0, n0, n2);
                lemma_names_ok_mono(a0[i].1, n0, n2);
            }
        }
        if !kind_at(ts, q2, TokKind::Close) {
            return Err(ParseError::Syntax(q2));
        }
        let dynamic = case_is_dynamic(&c);
        let ghost cv = sexp(&c);
        let ghost tv = sexp(&t);
        if dynamic {
            spans.push((ts[q + 1].start, ts[q1 - 1].end));
        }
        arms.push((c, t));
        proof {
            assert(sarms(arms@) =~= a0.push((cv, tv)));
            let n2 = tokens.symbols().len();
            assert forall|i: int| 0 <= i < arms@.len() implies names_ok(#[trigger] sarms(arms@)[i].0, n2) && names_ok(sarms(arms@)[i].1, n2) by {
                if i < a0.len() {
                    assert(sarms(arms@)[i] == a0[i]);
                } else {
                    assert(sarms(arms@)[i] == (cv, tv));
                    assert(names_ok(cv, n2));
                    assert(names_ok(tv, n2));
                }
            }
            let sp = if has_dynamic(cv) {
                seq![(stoks(ts@)[q + 1].start, stoks(ts@)[q1 - 1].end)]
            } else {
                Seq::<(int, int)>::empty()
            };
            assert(sarms(arms@) =~= a0 + seq![(cv, tv)]);
            assert(spans_view(spans@) =~= s0 + sp);
            let rest = sp_arms(stoks(ts@), q2 + 1, tokens.names());
            if rest is Ok {
                let (ra, rs, rd, rq, rn) = rest->Ok_0;
                assert(a0 + (seq![(cv, tv)] + ra) =~= (a0 + seq![(cv, tv)]) + ra);
                assert(s0 + (sp + rs) =~= (s0 + sp) + rs);
            }
        }
        q = q2 + 1;
    }
}

/// `(match e (c => t) ... (_ => d))`, from the token after `match`.
pub fn parse_match(ts: &Vec<Token>, q: usize, tokens: &mut Tokens) -> (r: Result<(Exp, usize), ParseError>)
    requires
        q <= ts@.len(),
        room(old(tokens), stoks(ts@), q as int),
    ensures
        final(tokens).wf(),
        old(tokens).symbols().len() <= final(tokens).symbols().len(),
        exp_names_ok(&r, final(tokens).symbols().len()),
        res_exp(r, final(tokens).names()) == sp_match(stoks(ts@), q as int, old(tokens).names()),
        r is Ok ==> q < r->Ok_0.1 <= ts@.len() && room(final(tokens), stoks(ts@), r->Ok_0.1 as int),
    decreases ts@.len() - q, 3int,
{
    let (p, q1) = Exp::parse(ts, q, tokens)?;
    let ghost n1 = tokens.symbols().len();
    let (arms, spans, d, q2) = parse_match_arms(ts, q1, tokens)?;
    proof {
        lemma_names_ok_mono(sexp(&p), n1, tokens.symbols().len());
    }
    let pb = Box::new(p);
    let db = Box::new(d);
    proof {
        lemma_sexp_match(pb, arms, db);
    }
    let m = Exp::Match(pb, arms, db);
    if spans.len() > 0 {
        proof {
            tokens.lemma_wf();
        }
        let text = m.to_string(tokens);
        Err(ParseError::NonStatic(chars_of(text.as_str()), spans))
    } else {
        Ok((m, q2))
    }
}

} // verus!
