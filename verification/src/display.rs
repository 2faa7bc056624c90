//! The text of expressions and definitions, as the compiler shows them.
use vstd::prelude::*;

use crate::ast::{Def, Exp, SDef, SExp, Ast, sexp, sdef, sexps, sarms, prim_text, lemma_sexp_apply, lemma_sexp_begin, lemma_sexp_match};
use crate::env::{Name, Tokens};
use crate::text::{i32_text, int_text, push_chars};

verus! {

pub type Syms = Seq<Seq<char>>;

pub open spec fn ends_bracket_text(s: Seq<char>) -> bool {
    s.len() > 0 && s.last() == '['
}

/// Whether every name in an expression stands for a token of `syms`.
pub open spec fn names_ok(e: SExp, n: nat) -> bool
    decreases e,
{
    match e {
        SExp::Literal(_) => true,
        SExp::Var(x, None) => 0 <= x < n,
        SExp::Var(x, Some(i)) => 0 <= x < n && names_ok(*i, n),
        SExp::Binary(_, l, r) => names_ok(*l, n) && names_ok(*r, n),
        SExp::Unary(_, b) => names_ok(*b, n),
        SExp::Apply(f, es) => 0 <= f < n && forall|i: int| 0 <= i < es.len() ==> names_ok(#[trigger] es[i], n),
        SExp::If(c, t, f) => names_ok(*c, n) && names_ok(*t, n) && names_ok(*f, n),
        SExp::While(g, b) => names_ok(*g, n) && names_ok(*b, n),
        SExp::Begin(es) => forall|i: int| 0 <= i < es.len() ==> names_ok(#[trigger] es[i], n),
        SExp::Assign(x, None, v) => 0 <= x < n && names_ok(*v, n),
        SExp::Assign(x, Some(i), v) => 0 <= x < n && names_ok(*i, n) && names_ok(*v, n),
        SExp::Match(p, cs, d) => names_ok(*p, n) && names_ok(*d, n) && forall|i: int|
            0 <= i < cs.len() ==> names_ok(#[trigger] cs[i].0, n) && names_ok(cs[i].1, n),
    }
}

pub open spec fn params_ok(xs: Seq<Name>, n: nat) -> bool {
    forall|i: int| 0 <= i < xs.len() ==> 0 <= #[trigger] xs[i] < n
}

/// Whether every name in a definition stands for a token of `syms`.
pub open spec fn def_names_ok(d: SDef, n: nat) -> bool {
    match d {
        SDef::Define(f, xs, b) => 0 <= f < n && params_ok(xs, n) && names_ok(b, n),
        SDef::Val(x, e) => 0 <= x < n && names_ok(e, n),
        SDef::Exp(e) => names_ok(e, n),
        SDef::CheckExpect(l, r) => names_ok(l, n) && names_ok(r, n),
        SDef::CheckAssert(e) => names_ok(e, n),
        SDef::Import(_) => true,
        SDef::Alias(x, e) => 0 <= x < n && names_ok(e, n),
        SDef::Inline(x, xs, e) => 0 <= x < n && params_ok(xs, n) && names_ok(e, n),
        SDef::Undef(x) => 0 <= x < n,
    }
}

/// The text of an expression.
pub open spec fn exp_text(e: SExp, syms: Syms) -> Seq<char>
    decreases e,
{
    match e {
        SExp::Literal(l) => int_text(l as int),
        SExp::Var(x, None) => if ends_bracket_text(syms[x as int]) {
            syms[x as int] + "]"@
        } else {
            syms[x as int]
        },
        SExp::Var(x, Some(i)) => syms[x as int] + exp_text(*i, syms) + "]"@,
        SExp::Assign(x, None, v) => "(set "@ + syms[x as int] + " "@ + exp_text(*v, syms) + ")"@,
        SExp::Assign(x, Some(i), v) => "(set "@ + syms[x as int] + exp_text(*i, syms) + "] "@ + exp_text(*v, syms) + ")"@,
        SExp::Unary(p, b) => "("@ + prim_text(p) + " "@ + exp_text(*b, syms) + ")"@,
        SExp::Binary(p, l, r) => "("@ + prim_text(p) + " "@ + exp_text(*l, syms) + " "@ + exp_text(*r, syms) + ")"@,
        SExp::If(c, t, f) => "(if "@ + exp_text(*c, syms) + " "@ + exp_text(*t, syms) + " "@ + exp_text(*f, syms) + ")"@,
        SExp::While(g, b) => "(while "@ + exp_text(*g, syms) + " "@ + exp_text(*b, syms) + ")"@,
        SExp::Begin(es) => "(begin "@ + exps_text(es, syms) + ")"@,
        SExp::Apply(f, es) => "("@ + syms[f as int] + (if es.len() == 0 {
            ""@
        } else {
            " "@
        }) + exps_text(es, syms) + ")"@,
        SExp::Match(p, cs, d) => "(match "@ + exp_text(*p, syms) + " "@ + (if cs.len() == 0 {
            "\x08"@
        } else {
            arms_text(cs, syms)
        }) + " (_ => "@ + exp_text(*d, syms) + "))"@,
    }
}

/// The texts of expressions, joined by spaces.
pub open spec fn exps_text(es: Seq<SExp>, syms: Syms) -> Seq<char>
    decreases es,
{
    if es.len() == 0 {
        Seq::empty()
    } else if es.len() == 1 {
        exp_text(es[0], syms)
    } else {
        exps_text(es.drop_last(), syms) + " "@ + exp_text(es.last(), syms)
    }
}

/// The texts of match arms, `(case => result)`, joined by spaces.
pub open spec fn arms_text(cs: Seq<(SExp, SExp)>, syms: Syms) -> Seq<char>
    decreases cs,
{
    if cs.len() == 0 {
        Seq::empty()
    } else if cs.len() == 1 {
        "("@ + exp_text(cs[0].0, syms) + " => "@ + exp_text(cs[0].1, syms) + ")"@
    } else {
        arms_text(cs.drop_last(), syms) + " "@ + "("@ + exp_text(cs.last().0, syms) + " => "@ + exp_text(cs.last().1, syms) + ")"@
    }
}


/// Names in range stay in range when the table grows.
pub proof fn lemma_names_ok_mono(e: SExp, n: nat, m: nat)
    requires
        names_ok(e, n),
        n <= m,
    ensures
        names_ok(e, m),
    decreases e,
{
    match e {
        SExp::Var(_, Some(i)) => lemma_names_ok_mono(*i, n, m),
        SExp::Binary(_, l, r) => {
            lemma_names_ok_mono(*l, n, m);
            lemma_names_ok_mono(*r, n, m);
        },
        SExp::Unary(_, b) => lemma_names_ok_mono(*b, n, m),
        SExp::Apply(_, es) => {
            assert forall|i: int| 0 <= i < es.len() implies names_ok(#[trigger] es[i], m) by {
                lemma_names_ok_mono(es[i], n, m);
            }
        },
        SExp::If(c, t, f) => {
            lemma_names_ok_mono(*c, n, m);
            lemma_names_ok_mono(*t, n, m);
            lemma_names_ok_mono(*f, n, m);
        },
        SExp::While(g, b) => {
            lemma_names_ok_mono(*g, n, m);
            lemma_names_ok_mono(*b, n, m);
        },
        SExp::Begin(es) => {
            assert forall|i: int| 0 <= i < es.len() implies names_ok(#[trigger] es[i], m) by {
                lemma_names_ok_mono(es[i], n, m);
            }
        },
        SExp::Assign(_, None, v) => lemma_names_ok_mono(*v, n, m),
        SExp::Assign(_, Some(i), v) => {
            lemma_names_ok_mono(*i, n, m);
            lemma_names_ok_mono(*v, n, m);
        },
        SExp::Match(p, cs, d) => {
            lemma_names_ok_mono(*p, n, m);
            lemma_names_ok_mono(*d, n, m);
            assert forall|i: int| 0 <= i < cs.len() implies names_ok(#[trigger] cs[i].0, m) && names_ok(cs[i].1, m) by {
                lemma_names_ok_mono(cs[i].0, n, m);
                lemma_names_ok_mono(cs[i].1, n, m);
            }
        },
        _ => {},
    }
}

pub proof fn lemma_def_names_ok_mono(d: SDef, n: nat, m: nat)
    requires
        def_names_ok(d, n),
        n <= m,
    ensures
        def_names_ok(d, m),
{
    match d {
        SDef::Define(_, _, b) => lemma_names_ok_mono(b, n, m),
        SDef::Val(_, e) => lemma_names_ok_mono(e, n, m),
        SDef::Exp(e) => lemma_names_ok_mono(e, n, m),
        SDef::CheckExpect(l, r) => {
            lemma_names_ok_mono(l, n, m);
            lemma_names_ok_mono(r, n, m);
        },
        SDef::CheckAssert(e) => lemma_names_ok_mono(e, n, m),
        SDef::Alias(_, e) => lemma_names_ok_mono(e, n, m),
        SDef::Inline(_, _, e) => lemma_names_ok_mono(e, n, m),
        _ => {},
    }
}

/// The arguments of a call whose names are tokens below `n` only use tokens below `n`.
pub proof fn lemma_apply_names(f: Name, es: Seq<SExp>, n: nat)
    requires
        names_ok(SExp::Apply(f, es), n),
    ensures
        0 <= f < n,
        forall|i: int| 0 <= i < es.len() ==> names_ok(#[trigger] es[i], n),
{
    let e = SExp::Apply(f, es);
    assert(e matches SExp::Apply(g, fs) && g == f && fs == es);
    assert(names_ok(e, n));
}

/// The text of a call.
pub proof fn lemma_apply_text(f: Name, es: Seq<SExp>, syms: Syms)
    ensures
        exp_text(SExp::Apply(f, es), syms) == "("@ + syms[f as int] + (if es.len() == 0 {
            ""@
        } else {
            " "@
        }) + exps_text(es, syms) + ")"@,
{
    let e = SExp::Apply(f, es);
    assert(e matches SExp::Apply(g, fs) && g == f && fs == es);
}

/// The names of an expression's parts are in range when its own are.
pub proof fn lemma_names_ok_parts(e: &Exp, n: nat)
    requires
        names_ok(sexp(e), n),
    ensures
        match e {
            Exp::Literal(_) => true,
            Exp::Var(x, None) => 0 <= *x < n,
            Exp::Var(x, Some(i)) => 0 <= *x < n && names_ok(sexp(i), n),
            Exp::Binary(_, l, r) => names_ok(sexp(l), n) && names_ok(sexp(r), n),
            Exp::Unary(_, b) => names_ok(sexp(b), n),
            Exp::Apply(f, es) => 0 <= *f < n && forall|i: int| 0 <= i < es@.len() ==> names_ok(#[trigger] sexps(es@)[i], n),
            Exp::If(c, t, f) => names_ok(sexp(c), n) && names_ok(sexp(t), n) && names_ok(sexp(f), n),
            Exp::While(g, b) => names_ok(sexp(g), n) && names_ok(sexp(b), n),
            Exp::Begin(es) => forall|i: int| 0 <= i < es@.len() ==> names_ok(#[trigger] sexps(es@)[i], n),
            Exp::Assign(x, None, v) => 0 <= *x < n && names_ok(sexp(v), n),
            Exp::Assign(x, Some(i), v) => 0 <= *x < n && names_ok(sexp(i), n) && names_ok(sexp(v), n),
            Exp::Match(p, cs, d) => names_ok(sexp(p), n) && names_ok(sexp(d), n) && forall|i: int|
                0 <= i < cs@.len() ==> names_ok(#[trigger] sarms(cs@)[i].0, n) && names_ok(sarms(cs@)[i].1, n),
        },
{
    crate::ast::lemma_sexp_lists(e);
    match e {
        Exp::Apply(f, es) => {
            assert forall|i: int| 0 <= i < es@.len() implies names_ok(#[trigger] sexps(es@)[i], n) by {
                assert(sexp(e)->Apply_1[i] == sexps(es@)[i]);
            }
        },
        Exp::Begin(es) => {
            assert forall|i: int| 0 <= i < es@.len() implies names_ok(#[trigger] sexps(es@)[i], n) by {
                assert(sexp(e)->Begin_0[i] == sexps(es@)[i]);
            }
        },
        Exp::Match(p, cs, d) => {
            assert forall|i: int| 0 <= i < cs@.len() implies names_ok(#[trigger] sarms(cs@)[i].0, n) && names_ok(sarms(cs@)[i].1, n) by {
                assert(sexp(e)->Match_1[i] == sarms(cs@)[i]);
            }
        },
        _ => {},
    }
}

/// Whether a text ends in `[`.
pub fn str_ends_bracket(s: &str) -> (r: bool)
    ensures
        r == ends_bracket_text(s@),
{
    let n = s.unicode_len();
    n > 0 && s.get_char(n - 1) == '['
}

/// Appends the text of `e` to `out`.
#[verifier::rlimit(40)]
#[verifier::spinoff_prover]
pub fn write_exp(e: &Exp, tokens: &Tokens, out: &mut String)
    requires
        tokens.wf(),
        names_ok(sexp(e), tokens.symbols().len()),
    ensures
        final(out)@ == old(out)@ + exp_text(sexp(e), tokens.symbols()),
    decreases e,
{
    let ghost syms = tokens.symbols();
    let ghost o = out@;
    proof {
        crate::ast::lemma_sexp_lists(e);
        lemma_names_ok_parts(e, syms.len());
    }
    match e {
        Exp::Literal(l) => {
            push_chars(out, &i32_text(*l));
        },
        Exp::Var(x, None) => {
            let s = tokens.translate(x);
            out.append(s);
            if str_ends_bracket(s) {
                out.append("]");
            }
        },
        Exp::Var(x, Some(i)) => {
            out.append(tokens.translate(x));
            write_exp(i, tokens, out);
            out.append("]");
            assert(out@ =~= o + exp_text(sexp(e), syms));
        },
        Exp::Assign(x, None, v) => {
            out.append("(set ");
            out.append(tokens.translate(x));
            out.append(" ");
            write_exp(v, tokens, out);
            out.append(")");
            assert(out@ =~= o + exp_text(sexp(e), syms));
        },
        Exp::Assign(x, Some(i), v) => {
            out.append("(set ");
            out.append(tokens.translate(x));
            write_exp(i, tokens, out);
            out.append("] ");
            write_exp(v, tokens, out);
            out.append(")");
            assert(out@ =~= o + exp_text(sexp(e), syms));
        },
        Exp::Unary(p, b) => {
            out.append("(");
            out.append(p.to_str());
            out.append(" ");
            write_exp(b, tokens, out);
            out.append(")");
            assert(out@ =~= o + exp_text(sexp(e), syms));
        },
        Exp::Binary(p, l, r) => {
            out.append("(");
            out.append(p.to_str());
            out.append(" ");
            write_exp(l, tokens, out);
            out.append(" ");
            write_exp(r, tokens, out);
            out.append(")");
            assert(out@ =~= o + exp_text(sexp(e), syms));
        },
        Exp::If(c, t, f) => {
            out.append("(if ");
            write_exp(c, tokens, out);
            out.append(" ");
            write_exp(t, tokens, out);
            out.append(" ");
            write_exp(f, tokens, out);
            out.append(")");
            assert(out@ =~= o + exp_text(sexp(e), syms));
        },
        Exp::While(g, b) => {
            out.append("(while ");
            write_exp(g, tokens, out);
            out.append(" ");
            write_exp(b, tokens, out);
            out.append(")");
            assert(out@ =~= o + exp_text(sexp(e), syms));
        },
        Exp::Begin(es) => {
            out.append("(begin ");
            write_exps(es.as_slice(), tokens, out);
            out.append(")");
            assert(out@ =~= o + exp_text(sexp(e), syms));
        },
        Exp::Apply(f, es) => {
            out.append("(");
            out.append(tokens.translate(f));
            if es.len() != 0 {
                out.append(" ");
            } else {
                out.append("");
            }
            write_exps(es.as_slice(), tokens, out);
            out.append(")");
            assert(out@ =~= o + exp_text(sexp(e), syms));
        },
        Exp::Match(p, cs, d) => {
            out.append("(match ");
            write_exp(p, tokens, out);
            out.append(" ");
            if cs.len() == 0 {
                out.append("\x08");
            } else {
                write_arms(cs, tokens, out);
            }
            out.append(" (_ => ");
            write_exp(d, tokens, out);
            out.append("))");
            assert(out@ =~= o + exp_text(sexp(e), syms));
        },
    }
}

/// Appends the texts of `es`, joined by spaces.
pub fn write_exps(es: &[Exp], tokens: &Tokens, out: &mut String)
    requires
        tokens.wf(),
        forall|i: int| 0 <= i < es@.len() ==> names_ok(#[trigger] sexps(es@)[i], tokens.symbols().len()),
    ensures
        final(out)@ == old(out)@ + exps_text(sexps(es@), tokens.symbols()),
    decreases es@,
{
    let ghost syms = tokens.symbols();
    let ghost o = out@;
    let ghost v = sexps(es@);
    let mut k: usize = 0;
    while k < es.len()
        invariant
            tokens.wf(),
            syms == tokens.symbols(),
            v == sexps(es@),
            k <= es@.len(),
            forall|i: int| 0 <= i < es@.len() ==> names_ok(#[trigger] v[i], syms.len()),
            out@ == o + exps_text(v.take(k as int), syms),
        decreases es@.len() - k,
    {
        let ghost before = out@;
        if k > 0 {
            out.append(" ");
        }
        assert(names_ok(v[k as int], syms.len()));
        write_exp(&es[k], tokens, out);
        proof {
            let t = v.take(k as int + 1);
            assert(t.drop_last() =~= v.take(k as int));
            assert(t.last() == sexp(&es@[k as int]));
            if k == 0 {
                assert(t.len() == 1);
                assert(out@ =~= o + exps_text(t, syms));
            } else {
                assert(out@ =~= o + exps_text(t, syms));
            }
        }
        k = k + 1;
    }
    assert(v.take(es@.len() as int) =~= v);
}

/// Appends the texts of match arms, joined by spaces.
pub fn write_arms(cs: &Vec<(Exp, Exp)>, tokens: &Tokens, out: &mut String)
    requires
        tokens.wf(),
        forall|i: int| 0 <= i < cs@.len() ==> names_ok(#[trigger] sarms(cs@)[i].0, tokens.symbols().len()) && names_ok(sarms(cs@)[i].1, tokens.symbols().len()),
    ensures
        final(out)@ == old(out)@ + arms_text(sarms(cs@), tokens.symbols()),
    decreases cs,
{
    let ghost syms = tokens.symbols();
    let ghost o = out@;
    let ghost v = sarms(cs@);
    let mut k: usize = 0;
    while k < cs.len()
        invariant
            tokens.wf(),
            syms == tokens.symbols(),
            v == sarms(cs@),
            k <= cs@.len(),
            forall|i: int| 0 <= i < cs@.len() ==> names_ok(#[trigger] v[i].0, syms.len()) && names_ok(v[i].1, syms.len()),
            out@ == o + arms_text(v.take(k as int), syms),
        decreases cs@.len() - k,
    {
        if k > 0 {
            out.append(" ");
        }
        assert(names_ok(v[k as int].0, syms.len()));
        out.append("(");
        write_exp(&cs[k].0, tokens, out);
        out.append(" => ");
        write_exp(&cs[k].1, tokens, out);
        out.append(")");
        proof {
            let t = v.take(k as int + 1);
            assert(t.drop_last() =~= v.take(k as int));
            assert(t.last() == (sexp(&cs@[k as int].0), sexp(&cs@[k as int].1)));
            assert(out@ =~= o + arms_text(t, syms));
        }
        k = k + 1;
    }
    assert(v.take(cs@.len() as int) =~= v);
}


/// The text of one parameter: an array parameter shows as `a[ \x08]`.
pub open spec fn param_text(x: Name, syms: Syms) -> Seq<char> {
    if ends_bracket_text(syms[x as int]) {
        syms[x as int] + " "@ + "\x08]"@
    } else {
        syms[x as int]
    }
}

/// The texts of parameters, joined by spaces.
pub open spec fn params_text(xs: Seq<Name>, syms: Syms) -> Seq<char>
    decreases xs.len(),
{
    if xs.len() == 0 {
        Seq::empty()
    } else if xs.len() == 1 {
        param_text(xs[0], syms)
    } else {
        params_text(xs.drop_last(), syms) + " "@ + param_text(xs.last(), syms)
    }
}

/// The text of a definition.
pub open spec fn def_text(d: SDef, syms: Syms) -> Seq<char> {
    match d {
        SDef::Exp(e) => exp_text(e, syms),
        SDef::Val(x, e) => if ends_bracket_text(syms[x as int]) {
            "(val "@ + syms[x as int] + "] "@ + exp_text(e, syms) + ")"@
        } else {
            "(val "@ + syms[x as int] + " "@ + exp_text(e, syms) + ")"@
        },
        SDef::Define(f, xs, b) => "(define "@ + syms[f as int] + " ("@ + params_text(xs, syms) + ") "@ + exp_text(b, syms) + ")"@,
        SDef::CheckExpect(l, r) => "(check-expect "@ + exp_text(l, syms) + " "@ + exp_text(r, syms) + ")"@,
        SDef::CheckAssert(e) => "(check-assert "@ + exp_text(e, syms) + ")"@,
        SDef::Import(n) => "#(import "@ + n + ")"@,
        SDef::Alias(x, e) => "#(replace "@ + syms[x as int] + " "@ + exp_text(e, syms) + ")"@,
        SDef::Inline(x, xs, e) => "#(replace ("@ + syms[x as int] + " "@ + params_text(xs, syms) + ") "@ + exp_text(e, syms) + ")"@,
        SDef::Undef(x) => "#(undef "@ + syms[x as int] + ")"@,
    }
}

/// The text of a program: each definition's text on a line of its own.
pub open spec fn ast_text(ds: Seq<SDef>, syms: Syms) -> Seq<char>
    decreases ds.len(),
{
    if ds.len() == 0 {
        Seq::empty()
    } else {
        ast_text(ds.drop_last(), syms) + def_text(ds.last(), syms) + "\n"@
    }
}

/// The pieces that show a parameter: its name, and for an array a backspace and `]`.
pub fn translate_param<'a>(n: &Name, tokens: &'a Tokens) -> (r: Vec<&'a str>)
    requires
        tokens.wf(),
        0 <= *n < tokens.symbols().len(),
    ensures
        r@.len() >= 1,
        r@[0]@ == tokens.symbols()[*n as int],
        ends_bracket_text(tokens.symbols()[*n as int]) ==> r@.len() == 2 && r@[1]@ == "\x08]"@,
        !ends_bracket_text(tokens.symbols()[*n as int]) ==> r@.len() == 1,
{
    let p = tokens.translate(n);
    let mut v: Vec<&'a str> = Vec::new();
    v.push(p);
    if str_ends_bracket(p) {
        v.push("\x08]");
    }
    v
}

/// Appends the texts of parameters, joined by spaces.
pub fn write_params(xs: &Vec<Name>, tokens: &Tokens, out: &mut String)
    requires
        tokens.wf(),
        params_ok(xs@, tokens.symbols().len()),
    ensures
        final(out)@ == old(out)@ + params_text(xs@, tokens.symbols()),
{
    let ghost syms = tokens.symbols();
    let ghost o = out@;
    let mut k: usize = 0;
    while k < xs.len()
        invariant
            tokens.wf(),
            syms == tokens.symbols(),
            k <= xs@.len(),
            params_ok(xs@, syms.len()),
            out@ == o + params_text(xs@.take(k as int), syms),
        decreases xs@.len() - k,
    {
        if k > 0 {
            out.append(" ");
        }
        let pieces = translate_param(&xs[k], tokens);
        out.append(pieces[0]);
        if pieces.len() > 1 {
            out.append(" ");
            out.append(pieces[1]);
        }
        proof {
            let t = xs@.take(k as int + 1);
            assert(t.drop_last() =~= xs@.take(k as int));
            assert(t.last() == xs@[k as int]);
            assert(out@ =~= o + params_text(t, syms));
        }
        k = k + 1;
    }
    assert(xs@.take(xs@.len() as int) =~= xs@);
}

/// Appends the text of a definition.
pub fn write_def(d: &Def, tokens: &Tokens, out: &mut String)
    requires
        tokens.wf(),
        def_names_ok(sdef(d), tokens.symbols().len()),
    ensures
        final(out)@ == old(out)@ + def_text(sdef(d), tokens.symbols()),
{
    let ghost syms = tokens.symbols();
    let ghost o = out@;
    match d {
        Def::Exp(e) => {
            write_exp(e, tokens, out);
        },
        Def::Val(x, e) => {
            out.append("(val ");
            let s = tokens.translate(x);
            out.append(s);
            if str_ends_bracket(s) {
                out.append("] ");
            } else {
                out.append(" ");
            }
            write_exp(e, tokens, out);
            out.append(")");
            assert(out@ =~= o + def_text(sdef(d), syms));
        },
        Def::Define(f, xs, b) => {
            out.append("(define ");
            out.append(tokens.translate(f));
            out.append(" (");
            write_params(xs, tokens, out);
            out.append(") ");
            write_exp(b, tokens, out);
            out.append(")");
            assert(out@ =~= o + def_text(sdef(d), syms));
        },
        Def::CheckExpect(l, r) => {
            out.append("(check-expect ");
            write_exp(l, tokens, out);
            out.append(" ");
            write_exp(r, tokens, out);
            out.append(")");
            assert(out@ =~= o + def_text(sdef(d), syms));
        },
        Def::CheckAssert(e) => {
            out.append("(check-assert ");
            write_exp(e, tokens, out);
            out.append(")");
            assert(out@ =~= o + def_text(sdef(d), syms));
        },
        Def::Import(n) => {
            out.append("#(import ");
            out.append(n.as_str());
            out.append(")");
            assert(out@ =~= o + def_text(sdef(d), syms));
        },
        Def::Alias(x, e) => {
            out.append("#(replace ");
            out.append(tokens.translate(x));
            out.append(" ");
            write_exp(e, tokens, out);
            out.append(")");
            assert(out@ =~= o + def_text(sdef(d), syms));
        },
        Def::Inline(x, xs, e) => {
            out.append("#(replace (");
            out.append(tokens.translate(x));
            out.append(" ");
            write_params(xs, tokens, out);
            out.append(") ");
            write_exp(e, tokens, out);
            out.append(")");
            assert(out@ =~= o + def_text(sdef(d), syms));
        },
        Def::Undef(x) => {
            out.append("#(undef ");
            out.append(tokens.translate(x));
            out.append(")");
            assert(out@ =~= o + def_text(sdef(d), syms));
        },
    }
}

impl Exp {
    /// The text of this expression, with its names spelled out.
    pub fn to_string(&self, tokens: &Tokens) -> (r: String)
        requires
            tokens.wf(),
            names_ok(self@, tokens.symbols().len()),
        ensures
            r@ == exp_text(self@, tokens.symbols()),
    {
        let mut out = String::new();
        write_exp(self, tokens, &mut out);
        assert(out@ =~= exp_text(self@, tokens.symbols()));
        out
    }
}

impl Def {
    /// The text of this definition, with its names spelled out.
    pub fn to_string(&self, tokens: &Tokens) -> (r: String)
        requires
            tokens.wf(),
            def_names_ok(self@, tokens.symbols().len()),
        ensures
            r@ == def_text(self@, tokens.symbols()),
    {
        let mut out = String::new();
        write_def(self, tokens, &mut out);
        assert(out@ =~= def_text(self@, tokens.symbols()));
        out
    }
}

/// Things that can be shown with the names of a token table.
pub trait TokenString {
    spec fn showable(&self, tokens: &Tokens) -> bool;

    fn to_string(&self, tokens: &Tokens) -> String
        requires
            self.showable(tokens),
    ;
}

impl TokenString for Ast {
    open spec fn showable(&self, tokens: &Tokens) -> bool {
        tokens.wf() && forall|i: int| 0 <= i < self@.len() ==> def_names_ok(#[trigger] sdef(&self@[i]), tokens.symbols().len())
    }

    /// Each definition's text, on a line of its own.
    fn to_string(&self, tokens: &Tokens) -> (r: String)
        ensures
            r@ == ast_text(crate::ast::sdefs(self@), tokens.symbols()),
    {
        let ghost syms = tokens.symbols();
        let ghost ds = crate::ast::sdefs(self@);
        let mut out = String::new();
        let mut k: usize = 0;
        while k < self.len()
            invariant
                tokens.wf(),
                syms == tokens.symbols(),
                ds == crate::ast::sdefs(self@),
                k <= self@.len(),
                forall|i: int| 0 <= i < self@.len() ==> def_names_ok(#[trigger] sdef(&self@[i]), syms.len()),
                out@ == ast_text(ds.take(k as int), syms),
            decreases self@.len() - k,
        {
            write_def(&self[k], tokens, &mut out);
            out.append("\n");
            proof {
                let t = ds.take(k as int + 1);
                assert(t.drop_last() =~= ds.take(k as int));
                assert(t.last() == sdef(&self@[k as int]));
                assert(out@ =~= ast_text(t, syms));
            }
            k = k + 1;
        }
        assert(ds.take(self@.len() as int) =~= ds);
        out
    }
}

} // verus!
