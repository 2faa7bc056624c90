//! Parsers for top-level definitions; each one does what the `sp_*` function of the same name states.
use vstd::prelude::*;

use crate::ast::{Def, Exp, SDef, sexp, sdef};
use crate::env::{Name, Tokens};
use crate::lexer::{Token, TokKind, stoks};
use crate::parser::macro_parse::{parse_inliner, parse_replacer, parse_undef, parse_importfile, parse_importlib};
use crate::display::{names_ok, def_names_ok, params_ok, lemma_names_ok_mono, lemma_def_names_ok_mono};
use crate::parser::{exp_names_ok, def_res_names_ok, ParseError, PErr, PRes, Names, perr, res_exp, res_def, room, word, var_name, fun_name, bracketed, kind_at, word_at, name_at, is_var_name, ends_bracket, sp_exp, sp_params, sp_val_body, sp_val, sp_alloc, sp_define, sp_check_expect, sp_check_assert, sp_def, step};

verus! {

pub open spec fn res_params(r: Result<(Vec<Name>, usize), ParseError>, ns: Names) -> PRes<Seq<Name>> {
    match r {
        Ok((xs, q)) => Ok((xs@, q as int, ns)),
        Err(x) => Err(perr(&x)),
    }
}

pub open spec fn prepend_params(acc: Seq<Name>, r: PRes<Seq<Name>>) -> PRes<Seq<Name>> {
    match r {
        Ok((xs, q, ns)) => Ok((acc + xs, q, ns)),
        Err(e) => Err(e),
    }
}

/// Parameter names, `x` or `a[]`, up to and including a closing parenthesis.
pub fn parse_params(ts: &Vec<Token>, q0: usize, tokens: &mut Tokens) -> (r: Result<(Vec<Name>, usize), ParseError>)
    requires
        room(old(tokens), stoks(ts@), q0 as int),
    ensures
        final(tokens).wf(),
        old(tokens).symbols().len() <= final(tokens).symbols().len(),
        r matches Ok((xs, _)) ==> params_ok(xs@, final(tokens).symbols().len()),
        res_params(r, final(tokens).names()) == sp_params(stoks(ts@), q0 as int, old(tokens).names()),
        r is Ok ==> q0 < r->Ok_0.1 <= ts@.len() && room(final(tokens), stoks(ts@), r->Ok_0.1 as int),
{
    let ghost ns0 = tokens.names();
    let mut xs: Vec<Name> = Vec::new();
    let mut q = q0;
    loop
        invariant
            q0 <= q <= ts@.len(),
            room(tokens, stoks(ts@), q as int),
            ns0 == old(tokens).names(),
            old(tokens).symbols().len() <= tokens.symbols().len(),
            params_ok(xs@, tokens.symbols().len()),
            sp_params(stoks(ts@), q0 as int, ns0) == prepend_params(xs@, sp_params(stoks(ts@), q as int, tokens.names())),
        decreases ts@.len() - q,
    {
        let ghost ns = tokens.names();
        if q >= ts.len() {
            return Err(ParseError::Syntax(q));
        }
        if ts[q].kind == TokKind::Close {
            proof {
                assert(xs@ + Seq::<Name>::empty() =~= xs@);
            }
            return Ok((xs, q + 1));
        }
        if !(ts[q].kind == TokKind::Word && var_name(&ts[q].text)) {
            return Err(ParseError::Syntax(q));
        }
        let b = bracketed(&ts[q].text);
        if b && !kind_at(ts, q + 1, TokKind::CloseBracket) {
            return Err(ParseError::Syntax(q + 1));
        }
        let n = name_at(ts, q, tokens);
        let ghost acc = xs@;
        xs.push(n);
        q = if b { q + 2 } else { q + 1 };
        proof {
            let rest = sp_params(stoks(ts@), q as int, tokens.names());
            if rest is Ok {
                assert(acc + (seq![n] + rest->Ok_0.0) =~= xs@ + rest->Ok_0.0);
            }
        }
    }
}

/// The value of a `val` and its closing parenthesis.
pub fn parse_val_body(ts: &Vec<Token>, q: usize, tokens: &mut Tokens, n: Name) -> (r: Result<(Option<Def>, usize), ParseError>)
    requires
        room(old(tokens), stoks(ts@), q as int),
        0 <= n < old(tokens).symbols().len(),
    ensures
        final(tokens).wf(),
        old(tokens).symbols().len() <= final(tokens).symbols().len(),
        def_res_names_ok(&r, final(tokens).symbols().len()),
        res_def(r, final(tokens).names()) == sp_val_body(stoks(ts@), q as int, old(tokens).names(), n),
        r is Ok ==> q < r->Ok_0.1 <= ts@.len() && room(final(tokens), stoks(ts@), r->Ok_0.1 as int),
    decreases ts@.len() - q, 2int,
{
    let (e, q1) = Exp::parse(ts, q, tokens)?;
    if kind_at(ts, q1, TokKind::Close) {
        Ok((Some(Def::Val(n, e)), q1 + 1))
    } else {
        Err(ParseError::Syntax(q1))
    }
}

/// `(val x e)`, from the variable's name.
pub fn parse_val(ts: &Vec<Token>, q: usize, tokens: &mut Tokens) -> (r: Result<(Option<Def>, usize), ParseError>)
    requires
        q < ts@.len(),
        room(old(tokens), stoks(ts@), q as int),
    ensures
        final(tokens).wf(),
        old(tokens).symbols().len() <= final(tokens).symbols().len(),
        def_res_names_ok(&r, final(tokens).symbols().len()),
        res_def(r, final(tokens).names()) == sp_val(stoks(ts@), q as int, old(tokens).names()),
        r is Ok ==> q < r->Ok_0.1 <= ts@.len() && room(final(tokens), stoks(ts@), r->Ok_0.1 as int),
    decreases ts@.len() - q, 3int,
{
    let n = name_at(ts, q, tokens);
    parse_val_body(ts, q + 1, tokens, n)
}

/// `(val a[] e)`, allocating an array, from the array's name.
pub fn parse_alloc(ts: &Vec<Token>, q: usize, tokens: &mut Tokens) -> (r: Result<(Option<Def>, usize), ParseError>)
    requires
        q + 1 < ts@.len(),
        room(old(tokens), stoks(ts@), q as int),
    ensures
        final(tokens).wf(),
        old(tokens).symbols().len() <= final(tokens).symbols().len(),
        def_res_names_ok(&r, final(tokens).symbols().len()),
        res_def(r, final(tokens).names()) == sp_alloc(stoks(ts@), q as int, old(tokens).names()),
        r is Ok ==> q < r->Ok_0.1 <= ts@.len() && room(final(tokens), stoks(ts@), r->Ok_0.1 as int),
    decreases ts@.len() - q, 3int,
{
    let n = name_at(ts, q, tokens);
    parse_val_body(ts, q + 2, tokens, n)
}

/// `(define f (x ...) body)`, from the function's name.
pub fn parse_define(ts: &Vec<Token>, q: usize, tokens: &mut Tokens) -> (r: Result<(Option<Def>, usize), ParseError>)
    requires
        room(old(tokens), stoks(ts@), q as int),
    ensures
        final(tokens).wf(),
        old(tokens).symbols().len() <= final(tokens).symbols().len(),
        def_res_names_ok(&r, final(tokens).symbols().len()),
        res_def(r, final(tokens).names()) == sp_define(stoks(ts@), q as int, old(tokens).names()),
        r is Ok ==> q < r->Ok_0.1 <= ts@.len() && room(final(tokens), stoks(ts@), r->Ok_0.1 as int),
    decreases ts@.len() - q, 3int,
{
    if !(kind_at(ts, q, TokKind::Word) && fun_name(&ts[q].text)) {
        return Err(ParseError::Syntax(q));
    }
    if !kind_at(ts, q + 1, TokKind::Open) {
        return Err(ParseError::Syntax(q + 1));
    }
    let f = name_at(ts, q, tokens);
    let (xs, q1) = parse_params(ts, q + 2, tokens)?;
    let ghost n1 = tokens.symbols().len();
    let (b, q2) = Exp::parse(ts, q1, tokens)?;
    assert(params_ok(xs@, tokens.symbols().len())) by {
        assert forall|i: int| 0 <= i < xs@.len() implies 0 <= #[trigger] xs@[i] < tokens.symbols().len() by {
            assert(xs@[i] < n1);
        }
    }
    if kind_at(ts, q2, TokKind::Close) {
        Ok((Some(Def::Define(f, xs, b)), q2 + 1))
    } else {
        Err(ParseError::Syntax(q2))
    }
}

/// `(check-expect l r)`, from the token after `check-expect`.
pub fn parse_check_expect(ts: &Vec<Token>, q: usize, tokens: &mut Tokens) -> (r: Result<(Option<Def>, usize), ParseError>)
    requires
        room(old(tokens), stoks(ts@), q as int),
    ensures
        final(tokens).wf(),
        old(tokens).symbols().len() <= final(tokens).symbols().len(),
        def_res_names_ok(&r, final(tokens).symbols().len()),
        res_def(r, final(tokens).names()) == sp_check_expect(stoks(ts@), q as int, old(tokens).names()),
        r is Ok ==> q < r->Ok_0.1 <= ts@.len() && room(final(tokens), stoks(ts@), r->Ok_0.1 as int),
    decreases ts@.len() - q, 3int,
{
    let (l, q1) = Exp::parse(ts, q, tokens)?;
    let ghost n1 = tokens.symbols().len();
    let (r, q2) = Exp::parse(ts, q1, tokens)?;
    proof {
        lemma_names_ok_mono(sexp(&l), n1, tokens.symbols().len());
    }
    if kind_at(ts, q2, TokKind::Close) {
        Ok((Some(Def::CheckExpect(l, r)), q2 + 1))
    } else {
        Err(ParseError::Syntax(q2))
    }
}

/// `(check-assert e)`, from the token after `check-assert`.
pub fn parse_check_assert(ts: &Vec<Token>, q: usize, tokens: &mut Tokens) -> (r: Result<(Option<Def>, usize), ParseError>)
    requires
        room(old(tokens), stoks(ts@), q as int),
    ensures
        final(tokens).wf(),
        old(tokens).symbols().len() <= final(tokens).symbols().len(),
        def_res_names_ok(&r, final(tokens).symbols().len()),
        res_def(r, final(tokens).names()) == sp_check_assert(stoks(ts@), q as int, old(tokens).names()),
        r is Ok ==> q < r->Ok_0.1 <= ts@.len() && room(final(tokens), stoks(ts@), r->Ok_0.1 as int),
    decreases ts@.len() - q, 3int,
{
    let (e, q1) = Exp::parse(ts, q, tokens)?;
    if kind_at(ts, q1, TokKind::Close) {
        Ok((Some(Def::CheckAssert(e)), q1 + 1))
    } else {
        Err(ParseError::Syntax(q1))
    }
}

impl Def {
    /// Parses one top-level form at token `p`; a file import gives no definition.
    pub fn parse(ts: &Vec<Token>, p: usize, tokens: &mut Tokens) -> (r: Result<(Option<Def>, usize), ParseError>)
        requires
            room(old(tokens), stoks(ts@), p as int),
        ensures
            final(tokens).wf(),
            old(tokens).symbols().len() <= final(tokens).symbols().len(),
            def_res_names_ok(&r, final(tokens).symbols().len()),
            res_def(r, final(tokens).names()) == sp_def(stoks(ts@), p as int, old(tokens).names()),
            r is Ok ==> p < r->Ok_0.1 <= ts@.len() && room(final(tokens), stoks(ts@), r->Ok_0.1 as int),
        decreases ts@.len() - p, 4int,
    {
        if p >= ts.len() {
            return Err(ParseError::Syntax(p));
        }
        let open = ts[p].kind == TokKind::Open;
        if open && word_at(ts, p + 1, "val") {
            if !(kind_at(ts, p + 2, TokKind::Word) && var_name(&ts[p + 2].text)) {
                Err(ParseError::Syntax(p + 2))
            } else if bracketed(&ts[p + 2].text) {
                if kind_at(ts, p + 3, TokKind::CloseBracket) {
                    parse_alloc(ts, p + 2, tokens)
                } else {
                    Err(ParseError::Syntax(p + 3))
                }
            } else {
                parse_val(ts, p + 2, tokens)
            }
        } else if open && word_at(ts, p + 1, "define") {
            parse_define(ts, p + 2, tokens)
        } else if open && word_at(ts, p + 1, "check-expect") {
            parse_check_expect(ts, p + 2, tokens)
        } else if open && word_at(ts, p + 1, "check-assert") {
            parse_check_assert(ts, p + 2, tokens)
        } else if open && word_at(ts, p + 1, "#undef") {
            parse_undef(ts, p + 2, tokens)
        } else if ts[p].kind == TokKind::HashOpen {
            if word_at(ts, p + 1, "replace") {
                if kind_at(ts, p + 2, TokKind::Open) {
                    parse_inliner(ts, p + 3, tokens)
                } else {
                    parse_replacer(ts, p + 2, tokens)
                }
            } else if word_at(ts, p + 1, "undef") {
                parse_undef(ts, p + 2, tokens)
            } else if word_at(ts, p + 1, "import") {
                if kind_at(ts, p + 2, TokKind::Str) {
                    parse_importfile(ts, p + 2, tokens)
                } else {
                    parse_importlib(ts, p + 2, tokens)
                }
            } else {
                Err(ParseError::Syntax(p + 1))
            }
        } else {
            let (e, q) = Exp::parse(ts, p, tokens)?;
            Ok((Some(Def::Exp(e)), q))
        }
    }
}

} // verus!
