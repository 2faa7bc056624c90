//! Parsers for macro values and the `#(...)` forms.
use vstd::prelude::*;

use crate::ast::{Def, Exp, SDef, sexp};
use crate::env::{Name, Tokens, Tokenizer, tokenize_spec};
use crate::implib::{lib_listing, lib_spec, lib_fn_names, listing_view};
use crate::lexer::{Token, TokKind, stoks};
use crate::display::{names_ok, def_names_ok, params_ok, lemma_names_ok_mono, lemma_def_names_ok_mono};
use crate::parser::{exp_names_ok, def_res_names_ok, ParseError, res_exp, res_def, room, word, name_at, kind_at, macro_name, sp_variable, sp_replacer, sp_inliner, sp_undef, sp_importlib, sp_importfile, tokenize_all};
use crate::parser::def_parse::parse_params;
use crate::text::string_of;

verus! {

/// A macro value, `'NAME`, at `p`: it stands as a variable until macros are expanded.
pub fn parse_macroval(ts: &Vec<Token>, p: usize, tokens: &mut Tokens) -> (r: Result<(Exp, usize), ParseError>)
    requires
        p < ts@.len(),
        room(old(tokens), stoks(ts@), p as int),
    ensures
        final(tokens).wf(),
        old(tokens).symbols().len() <= final(tokens).symbols().len(),
        exp_names_ok(&r, final(tokens).symbols().len()),
        res_exp(r, final(tokens).names()) == sp_variable(stoks(ts@), p as int, old(tokens).names()),
        r is Ok ==> p < r->Ok_0.1 <= ts@.len() && room(final(tokens), stoks(ts@), r->Ok_0.1 as int),
{
    let n = name_at(ts, p, tokens);
    Ok((Exp::Var(n, None), p + 1))
}

/// `#(replace 'M e)`, from the macro's name.
pub fn parse_replacer(ts: &Vec<Token>, q: usize, tokens: &mut Tokens) -> (r: Result<(Option<Def>, usize), ParseError>)
    requires
        room(old(tokens), stoks(ts@), q as int),
    ensures
        final(tokens).wf(),
        old(tokens).symbols().len() <= final(tokens).symbols().len(),
        def_res_names_ok(&r, final(tokens).symbols().len()),
        res_def(r, final(tokens).names()) == sp_replacer(stoks(ts@), q as int, old(tokens).names()),
        r is Ok ==> q < r->Ok_0.1 <= ts@.len() && room(final(tokens), stoks(ts@), r->Ok_0.1 as int),
    decreases ts@.len() - q, 3int,
{
    if !(kind_at(ts, q, TokKind::Word) && macro_name(&ts[q].text)) {
        return Err(ParseError::Syntax(q));
    }
    let n = name_at(ts, q, tokens);
    let (e, q1) = Exp::parse(ts, q + 1, tokens)?;
    if kind_at(ts, q1, TokKind::Close) {
        Ok((Some(Def::Alias(n, e)), q1 + 1))
    } else {
        Err(ParseError::Syntax(q1))
    }
}

/// `#(replace ('M x ...) body)`, from the macro's name.
pub fn parse_inliner(ts: &Vec<Token>, q: usize, tokens: &mut Tokens) -> (r: Result<(Option<Def>, usize), ParseError>)
    requires
        room(old(tokens), stoks(ts@), q as int),
    ensures
        final(tokens).wf(),
        old(tokens).symbols().len() <= final(tokens).symbols().len(),
        def_res_names_ok(&r, final(tokens).symbols().len()),
        res_def(r, final(tokens).names()) == sp_inliner(stoks(ts@), q as int, old(tokens).names()),
        r is Ok ==> q < r->Ok_0.1 <= ts@.len() && room(final(tokens), stoks(ts@), r->Ok_0.1 as int),
    decreases ts@.len() - q, 3int,
{
    if !(kind_at(ts, q, TokKind::Word) && macro_name(&ts[q].text)) {
        return Err(ParseError::Syntax(q));
    }
    let n = name_at(ts, q, tokens);
    let (xs, q1) = parse_params(ts, q + 1, tokens)?;
    let (b, q2) = Exp::parse(ts, q1, tokens)?;
    if kind_at(ts, q2, TokKind::Close) {
        Ok((Some(Def::Inline(n, xs, b)), q2 + 1))
    } else {
        Err(ParseError::Syntax(q2))
    }
}

/// `#(undef 'M)` or `(#undef 'M)`, from the macro's name.
pub fn parse_undef(ts: &Vec<Token>, q: usize, tokens: &mut Tokens) -> (r: Result<(Option<Def>, usize), ParseError>)
    requires
        room(old(tokens), stoks(ts@), q as int),
    ensures
        final(tokens).wf(),
        old(tokens).symbols().len() <= final(tokens).symbols().len(),
        def_res_names_ok(&r, final(tokens).symbols().len()),
        res_def(r, final(tokens).names()) == sp_undef(stoks(ts@), q as int, old(tokens).names()),
        r is Ok ==> q < r->Ok_0.1 <= ts@.len() && room(final(tokens), stoks(ts@), r->Ok_0.1 as int),
{
    if !(kind_at(ts, q, TokKind::Word) && macro_name(&ts[q].text)) {
        return Err(ParseError::Syntax(q));
    }
    if !kind_at(ts, q + 1, TokKind::Close) {
        return Err(ParseError::Syntax(q + 1));
    }
    let n = name_at(ts, q, tokens);
    Ok((Some(Def::Undef(n)), q + 2))
}

/// `#(import lib)`, from the library's name: the library's functions are tokenized.
pub fn parse_importlib(ts: &Vec<Token>, q: usize, tokens: &mut Tokens) -> (r: Result<(Option<Def>, usize), ParseError>)
    requires
        room(old(tokens), stoks(ts@), q as int),
    ensures
        final(tokens).wf(),
        old(tokens).symbols().len() <= final(tokens).symbols().len(),
        def_res_names_ok(&r, final(tokens).symbols().len()),
        res_def(r, final(tokens).names()) == sp_importlib(stoks(ts@), q as int, old(tokens).names()),
        r is Ok ==> q < r->Ok_0.1 <= ts@.len() && room(final(tokens), stoks(ts@), r->Ok_0.1 as int),
{
    if !kind_at(ts, q, TokKind::Word) {
        return Err(ParseError::Syntax(q));
    }
    if !kind_at(ts, q + 1, TokKind::Close) {
        return Err(ParseError::Syntax(q + 1));
    }
    let w = &ts[q].text;
    match lib_listing(w) {
        None => Err(ParseError::UnboundLib(w.clone())),
        Some(l) => {
            let ghost ns0 = tokens.names();
            let ghost fs = lib_fn_names(listing_view(l));
            let n = l.1.len();
            assert(n <= 2);
            for k in 0..n
                invariant
                    n == l.1@.len(),
                    n <= 2,
                    fs == lib_fn_names(listing_view(l)),
                    q + 2 <= ts@.len(),
                    tokens.wf(),
                    tokens.symbols().len() + (ts@.len() - q) - k < crate::env::IT,
                    ts@.len() < crate::env::IT,
                    tokens.names() == tokenize_all(ns0, fs.take(k as int)),
                    old(tokens).symbols().len() <= tokens.symbols().len(),
            {
                let ghost before = tokens.names();
                tokens.tokenize(l.1[k].0);
                proof {
                    assert(fs.take(k + 1).drop_last() =~= fs.take(k as int));
                    assert(fs.take(k + 1).last() == l.1@[k as int].0@);
                }
            }
            proof {
                assert(fs.take(n as int) =~= fs);
            }
            Ok((Some(Def::Import(string_of(w))), q + 2))
        },
    }
}

/// `#(import "file")`: the file's code is joined in before parsing, so no definition stands here.
pub fn parse_importfile(ts: &Vec<Token>, q: usize, tokens: &mut Tokens) -> (r: Result<(Option<Def>, usize), ParseError>)
    requires
        q < ts@.len(),
        room(old(tokens), stoks(ts@), q as int),
    ensures
        final(tokens).wf(),
        old(tokens).symbols().len() <= final(tokens).symbols().len(),
        def_res_names_ok(&r, final(tokens).symbols().len()),
        res_def(r, final(tokens).names()) == sp_importfile(stoks(ts@), q as int, old(tokens).names()),
        r is Ok ==> q < r->Ok_0.1 <= ts@.len() && room(final(tokens), stoks(ts@), r->Ok_0.1 as int),
{
    if !kind_at(ts, q + 1, TokKind::Close) {
        return Err(ParseError::Syntax(q + 1));
    }
    Ok((None, q + 2))
}

} // verus!
