//! Macros: `#(replace 'M e)` replaces every use of `'M` with `e`; `#(replace ('F x ...) e)`
//! replaces every call `('F a ...)` with `e`, its parameters standing for the arguments;
//! `(#undef 'M)` removes both kinds of macro named `'M`. Macro definitions leave the program;
//! every other definition has its macros expanded.
use vstd::prelude::*;

use crate::ast::{Ast, Def, Exp, SDef, SExp, sdef, sdefs, sexp, sexps, sarms, lemma_sexp_lists};
use crate::display::Syms;
use crate::env::{Name, Tokens};
use crate::text::{nat_text, nat_digits, push_chars};

verus! {

/// How deeply macros may expand inside one another.
pub const MAX_MACRO_DEPTH: u32 = 100;

// Copies

/// An exact copy of an expression.
pub fn copy_exp(e: &Exp) -> (r: Exp)
    ensures
        r@ == e@,
    decreases e,
{
    proof {
        lemma_sexp_lists(e);
    }
    let r = match e {
        Exp::Literal(l) => Exp::Literal(*l),
        Exp::Var(n, None) => Exp::Var(*n, None),
        Exp::Var(n, Some(i)) => Exp::Var(*n, Some(Box::new(copy_exp(i)))),
        Exp::Binary(p, l, r) => Exp::Binary(*p, Box::new(copy_exp(l)), Box::new(copy_exp(r))),
        Exp::Unary(p, b) => Exp::Unary(*p, Box::new(copy_exp(b))),
        Exp::Apply(n, es) => Exp::Apply(*n, copy_exps(es.as_slice())),
        Exp::If(c, t, f) => Exp::If(Box::new(copy_exp(c)), Box::new(copy_exp(t)), Box::new(copy_exp(f))),
        Exp::While(g, b) => Exp::While(Box::new(copy_exp(g)), Box::new(copy_exp(b))),
        Exp::Begin(es) => Exp::Begin(copy_exps(es.as_slice())),
        Exp::Assign(n, None, v) => Exp::Assign(*n, None, Box::new(copy_exp(v))),
        Exp::Assign(n, Some(i), v) => Exp::Assign(*n, Some(Box::new(copy_exp(i))), Box::new(copy_exp(v))),
        Exp::Match(p, cs, d) => Exp::Match(Box::new(copy_exp(p)), copy_arms(cs), Box::new(copy_exp(d))),
    };
    proof {
        lemma_sexp_lists(&r);
    }
    r
}

/// Exact copies of expressions.
pub fn copy_exps(es: &[Exp]) -> (r: Vec<Exp>)
    ensures
        sexps(r@) == sexps(es@),
    decreases es@,
{
    let mut r: Vec<Exp> = Vec::new();
    let mut k: usize = 0;
    while k < es.len()
        invariant
            k <= es@.len(),
            r@.len() == k,
            forall|i: int| 0 <= i < k ==> sexp(&#[trigger] r@[i]) == sexp(&es@[i]),
        decreases es@.len() - k,
    {
        let c = copy_exp(&es[k]);
        r.push(c);
        k = k + 1;
    }
    assert(sexps(r@) =~= sexps(es@));
    r
}

/// Exact copies of match arms.
pub fn copy_arms(cs: &Vec<(Exp, Exp)>) -> (r: Vec<(Exp, Exp)>)
    ensures
        sarms(r@) == sarms(cs@),
    decreases cs,
{
    let mut r: Vec<(Exp, Exp)> = Vec::new();
    let mut k: usize = 0;
    while k < cs.len()
        invariant
            k <= cs@.len(),
            r@.len() == k,
            forall|i: int| 0 <= i < k ==> sexp(&(#[trigger] r@[i]).0) == sexp(&cs@[i].0) && sexp(&r@[i].1) == sexp(&cs@[i].1),
        decreases cs@.len() - k,
    {
        let a = copy_exp(&cs[k].0);
        let b = copy_exp(&cs[k].1);
        r.push((a, b));
        k = k + 1;
    }
    assert(sarms(r@) =~= sarms(cs@));
    r
}

// Substitution

/// How many parameters have an argument.
pub open spec fn zip_len(formals: Seq<Name>, args: Seq<SExp>) -> int {
    if formals.len() < args.len() {
        formals.len() as int
    } else {
        args.len() as int
    }
}

/// The argument of the last of the first `m` parameters that is named `x`, if any.
pub open spec fn formal_arg(formals: Seq<Name>, args: Seq<SExp>, x: Name, m: int) -> Option<SExp>
    decreases m,
{
    if m <= 0 {
        None
    } else if formals[m - 1] == x {
        Some(args[m - 1])
    } else {
        formal_arg(formals, args, x, m - 1)
    }
}

/// The body of an inline macro with its parameters replaced by the arguments: a use of a
/// parameter `x` (indexed or not) whose argument is a variable `y` becomes `y` with the same
/// index; one whose argument is anything else becomes that argument.
pub open spec fn subst(e: SExp, fs: Seq<Name>, args: Seq<SExp>) -> SExp
    decreases e,
{
    match e {
        SExp::Literal(l) => SExp::Literal(l),
        SExp::Var(x, i) => {
            let i2 = match i {
                Some(b) => Some(Box::new(subst(*b, fs, args))),
                None => None,
            };
            match formal_arg(fs, args, x, zip_len(fs, args)) {
                Some(SExp::Var(y, _)) => SExp::Var(y, i2),
                Some(a) => a,
                None => SExp::Var(x, i2),
            }
        },
        SExp::Binary(p, l, r) => SExp::Binary(p, Box::new(subst(*l, fs, args)), Box::new(subst(*r, fs, args))),
        SExp::Unary(p, b) => SExp::Unary(p, Box::new(subst(*b, fs, args))),
        SExp::Apply(n, es) => SExp::Apply(n, subst_list(es, fs, args)),
        SExp::If(c, t, f) => SExp::If(Box::new(subst(*c, fs, args)), Box::new(subst(*t, fs, args)), Box::new(subst(*f, fs, args))),
        SExp::While(g, b) => SExp::While(Box::new(subst(*g, fs, args)), Box::new(subst(*b, fs, args))),
        SExp::Begin(es) => SExp::Begin(subst_list(es, fs, args)),
        SExp::Assign(x, None, v) => SExp::Assign(x, None, Box::new(subst(*v, fs, args))),
        SExp::Assign(x, Some(i), v) => SExp::Assign(x, Some(Box::new(subst(*i, fs, args))), Box::new(subst(*v, fs, args))),
        SExp::Match(p, cs, d) => SExp::Match(Box::new(subst(*p, fs, args)), subst_arms(cs, fs, args), Box::new(subst(*d, fs, args))),
    }
}

pub open spec fn subst_list(es: Seq<SExp>, fs: Seq<Name>, args: Seq<SExp>) -> Seq<SExp>
    decreases es,
{
    if es.len() == 0 {
        Seq::empty()
    } else {
        subst_list(es.drop_last(), fs, args).push(subst(es.last(), fs, args))
    }
}

pub open spec fn subst_arms(cs: Seq<(SExp, SExp)>, fs: Seq<Name>, args: Seq<SExp>) -> Seq<(SExp, SExp)>
    decreases cs,
{
    if cs.len() == 0 {
        Seq::empty()
    } else {
        subst_arms(cs.drop_last(), fs, args).push((subst(cs.last().0, fs, args), subst(cs.last().1, fs, args)))
    }
}

/// Where the argument for `x` stands (see `formal_arg`).
fn find_formal(formals: &Vec<Name>, args: &[Exp], x: Name) -> (r: Option<usize>)
    ensures
        match formal_arg(formals@, sexps(args@), x, zip_len(formals@, sexps(args@))) {
            Some(a) => r matches Some(j) && j < args@.len() && sexp(&args@[j as int]) == a,
            None => r is None,
        },
{
    let m = if formals.len() < args.len() { formals.len() } else { args.len() };
    let ghost av = sexps(args@);
    let mut k = m;
    while k > 0
        invariant
            k <= m,
            m == zip_len(formals@, av),
            m <= formals@.len(),
            m <= args@.len(),
            av == sexps(args@),
            formal_arg(formals@, av, x, m as int) == formal_arg(formals@, av, x, k as int),
        decreases k,
    {
        if formals[k - 1] == x {
            return Some(k - 1);
        }
        k = k - 1;
    }
    None
}

/// The body of an inline macro with its parameters replaced by the arguments (see `subst`).
pub fn substitute(body: &Exp, formals: &Vec<Name>, args: &[Exp]) -> (r: Exp)
    ensures
        r@ == subst(body@, formals@, sexps(args@)),
    decreases body,
{
    proof {
        lemma_sexp_lists(body);
    }
    let r = match body {
        Exp::Literal(l) => Exp::Literal(*l),
        Exp::Var(x, i) => {
            let i2 = match i {
                Some(b) => Some(Box::new(substitute(b, formals, args))),
                None => None,
            };
            match find_formal(formals, args, *x) {
                Some(j) => match &args[j] {
                    Exp::Var(y, _) => Exp::Var(*y, i2),
                    a => copy_exp(a),
                },
                None => Exp::Var(*x, i2),
            }
        },
        Exp::Binary(p, l, r) => Exp::Binary(*p, Box::new(substitute(l, formals, args)), Box::new(substitute(r, formals, args))),
        Exp::Unary(p, b) => Exp::Unary(*p, Box::new(substitute(b, formals, args))),
        Exp::Apply(n, es) => Exp::Apply(*n, substitute_list(es.as_slice(), formals, args)),
        Exp::If(c, t, f) => Exp::If(
            Box::new(substitute(c, formals, args)),
            Box::new(substitute(t, formals, args)),
            Box::new(substitute(f, formals, args)),
        ),
        Exp::While(g, b) => Exp::While(Box::new(substitute(g, formals, args)), Box::new(substitute(b, formals, args))),
        Exp::Begin(es) => Exp::Begin(substitute_list(es.as_slice(), formals, args)),
        Exp::Assign(x, None, v) => Exp::Assign(*x, None, Box::new(substitute(v, formals, args))),
        Exp::Assign(x, Some(i), v) => Exp::Assign(*x, Some(Box::new(substitute(i, formals, args))), Box::new(substitute(v, formals, args))),
        Exp::Match(p, cs, d) => Exp::Match(
            Box::new(substitute(p, formals, args)),
            substitute_arms(cs, formals, args),
            Box::new(substitute(d, formals, args)),
        ),
    };
    proof {
        lemma_sexp_lists(&r);
    }
    r
}

fn substitute_list(es: &[Exp], formals: &Vec<Name>, args: &[Exp]) -> (r: Vec<Exp>)
    ensures
        sexps(r@) == subst_list(sexps(es@), formals@, sexps(args@)),
    decreases es@,
{
    let ghost v = sexps(es@);
    let mut r: Vec<Exp> = Vec::new();
    let mut k: usize = 0;
    while k < es.len()
        invariant
            k <= es@.len(),
            v == sexps(es@),
            sexps(r@) == subst_list(v.take(k as int), formals@, sexps(args@)),
        decreases es@.len() - k,
    {
        let c = substitute(&es[k], formals, args);
        let ghost r0 = r@;
        r.push(c);
        proof {
            let t = v.take(k + 1);
            assert(t.drop_last() =~= v.take(k as int));
            assert(t.last() == sexp(&es@[k as int]));
            assert(sexps(r@) =~= sexps(r0).push(sexp(&c)));
        }
        k = k + 1;
    }
    assert(v.take(es@.len() as int) =~= v);
    r
}

fn substitute_arms(cs: &Vec<(Exp, Exp)>, formals: &Vec<Name>, args: &[Exp]) -> (r: Vec<(Exp, Exp)>)
    ensures
        sarms(r@) == subst_arms(sarms(cs@), formals@, sexps(args@)),
    decreases cs,
{
    let ghost v = sarms(cs@);
    let mut r: Vec<(Exp, Exp)> = Vec::new();
    let mut k: usize = 0;
    while k < cs.len()
        invariant
            k <= cs@.len(),
            v == sarms(cs@),
            sarms(r@) == subst_arms(v.take(k as int), formals@, sexps(args@)),
        decreases cs@.len() - k,
    {
        let a = substitute(&cs[k].0, formals, args);
        let b = substitute(&cs[k].1, formals, args);
        let ghost r0 = r@;
        r.push((a, b));
        proof {
            let t = v.take(k + 1);
            assert(t.drop_last() =~= v.take(k as int));
            assert(t.last() == (sexp(&cs@[k as int].0), sexp(&cs@[k as int].1)));
            assert(sarms(r@) =~= sarms(r0).push((sexp(&a), sexp(&b))));
        }
        k = k + 1;
    }
    assert(v.take(cs@.len() as int) =~= v);
    r
}

// The macro environment

/// The macros in force: replacement macros and inline function macros, the later shadowing
/// the earlier of the same name.
pub struct MacroEnv {
    replacers: Vec<(Name, Exp)>,
    functions: Vec<(Name, Vec<Name>, Exp)>,
}

/// The model of a macro environment.
pub struct SMacroEnv {
    pub reps: Seq<(Name, SExp)>,
    pub funs: Seq<(Name, Seq<Name>, SExp)>,
}

impl View for MacroEnv {
    type V = SMacroEnv;

    closed spec fn view(&self) -> SMacroEnv {
        SMacroEnv {
            reps: self.replacers@.map_values(|p: (Name, Exp)| (p.0, sexp(&p.1))),
            funs: self.functions@.map_values(|p: (Name, Vec<Name>, Exp)| (p.0, p.1@, sexp(&p.2))),
        }
    }
}

/// Keeps the replacement macros that are not named `k`.
pub open spec fn other_rep(k: Name) -> spec_fn((Name, SExp)) -> bool {
    |p: (Name, SExp)| p.0 != k
}

/// Keeps the inline macros that are not named `k`.
pub open spec fn other_fun(k: Name) -> spec_fn((Name, Seq<Name>, SExp)) -> bool {
    |p: (Name, Seq<Name>, SExp)| p.0 != k
}

/// The replacement of the macro `k`, if one is in force.
pub open spec fn rep_lookup(reps: Seq<(Name, SExp)>, k: Name) -> Option<SExp>
    decreases reps.len(),
{
    if reps.len() == 0 {
        None
    } else if reps.last().0 == k {
        Some(reps.last().1)
    } else {
        rep_lookup(reps.drop_last(), k)
    }
}

/// The parameters and body of the inline macro `k`, if one is in force.
pub open spec fn fun_lookup(funs: Seq<(Name, Seq<Name>, SExp)>, k: Name) -> Option<(Seq<Name>, SExp)>
    decreases funs.len(),
{
    if funs.len() == 0 {
        None
    } else if funs.last().0 == k {
        Some((funs.last().1, funs.last().2))
    } else {
        fun_lookup(funs.drop_last(), k)
    }
}

proof fn lemma_rep_without(reps: Seq<(Name, SExp)>, k: Name, j: Name)
    ensures
        rep_lookup(reps.filter(other_rep(k)), j) == (if j == k { None } else { rep_lookup(reps, j) }),
    decreases reps.len(),
{
    let f = other_rep(k);
    if reps.len() > 0 {
        let init = reps.drop_last();
        let x = reps.last();
        lemma_rep_without(init, k, j);
        assert(init.push(x) =~= reps);
        init.lemma_filter_push(x, f);
        if f(x) {
            assert(reps.filter(f) == init.filter(f).push(x));
            assert(init.filter(f).push(x).drop_last() =~= init.filter(f));
        } else {
            assert(reps.filter(f) == init.filter(f));
        }
    } else {
        assert(reps.filter(f) =~= Seq::<(Name, SExp)>::empty());
    }
}

proof fn lemma_fun_without(funs: Seq<(Name, Seq<Name>, SExp)>, k: Name, j: Name)
    ensures
        fun_lookup(funs.filter(other_fun(k)), j) == (if j == k { None } else { fun_lookup(funs, j) }),
    decreases funs.len(),
{
    let f = other_fun(k);
    if funs.len() > 0 {
        let init = funs.drop_last();
        let x = funs.last();
        lemma_fun_without(init, k, j);
        assert(init.push(x) =~= funs);
        init.lemma_filter_push(x, f);
        if f(x) {
            assert(funs.filter(f) == init.filter(f).push(x));
            assert(init.filter(f).push(x).drop_last() =~= init.filter(f));
        } else {
            assert(funs.filter(f) == init.filter(f));
        }
    } else {
        assert(funs.filter(f) =~= Seq::<(Name, Seq<Name>, SExp)>::empty());
    }
}

/// The environment after a definition: a macro definition changes it, any other leaves it.
pub open spec fn env_after(env: SMacroEnv, d: SDef) -> SMacroEnv {
    match d {
        SDef::Alias(n, e) => SMacroEnv { reps: env.reps.push((n, e)), ..env },
        SDef::Inline(n, xs, b) => SMacroEnv { funs: env.funs.push((n, xs, b)), ..env },
        SDef::Undef(n) => SMacroEnv {
            reps: env.reps.filter(other_rep(n)),
            funs: env.funs.filter(other_fun(n)),
        },
        _ => env,
    }
}

/// What each macro definition does to the macros in force, told by looking macros up: a
/// replacement macro `n` replaces what `n` stood for as a replacement, an inline macro `n`
/// replaces what `n` stood for as an inline macro, `(#undef n)` leaves no macro of either kind
/// named `n`; every other name keeps what it stood for, and any other definition changes
/// nothing.
pub proof fn lemma_macro_definitions(env: SMacroEnv, d: SDef, k: Name)
    ensures
        d matches SDef::Alias(n, e) ==> rep_lookup(env_after(env, d).reps, n) == Some(e)
            && fun_lookup(env_after(env, d).funs, n) == fun_lookup(env.funs, n),
        d matches SDef::Inline(n, xs, b) ==> fun_lookup(env_after(env, d).funs, n) == Some((xs, b))
            && rep_lookup(env_after(env, d).reps, n) == rep_lookup(env.reps, n),
        d matches SDef::Undef(n) ==> rep_lookup(env_after(env, d).reps, n) is None
            && fun_lookup(env_after(env, d).funs, n) is None,
        match d {
            SDef::Alias(n, _) => k != n,
            SDef::Inline(n, _, _) => k != n,
            SDef::Undef(n) => k != n,
            _ => true,
        } ==> rep_lookup(env_after(env, d).reps, k) == rep_lookup(env.reps, k)
            && fun_lookup(env_after(env, d).funs, k) == fun_lookup(env.funs, k),
{
    match d {
        SDef::Alias(n, e) => {
            assert(env_after(env, d).reps.drop_last() =~= env.reps);
        },
        SDef::Inline(n, xs, b) => {
            assert(env_after(env, d).funs.drop_last() =~= env.funs);
        },
        SDef::Undef(n) => {
            lemma_rep_without(env.reps, n, n);
            lemma_fun_without(env.funs, n, n);
            lemma_rep_without(env.reps, n, k);
            lemma_fun_without(env.funs, n, k);
        },
        _ => {},
    }
}

/// Whether a definition defines or removes a macro.
pub open spec fn is_macro_def(d: SDef) -> bool {
    d is Alias || d is Inline || d is Undef
}

impl MacroEnv {
    pub fn new() -> (r: Self)
        ensures
            r@.reps == Seq::<(Name, SExp)>::empty(),
            r@.funs == Seq::<(Name, Seq<Name>, SExp)>::empty(),
    {
        let r = MacroEnv { replacers: Vec::new(), functions: Vec::new() };
        assert(r@.reps =~= Seq::<(Name, SExp)>::empty());
        assert(r@.funs =~= Seq::<(Name, Seq<Name>, SExp)>::empty());
        r
    }

    /// Takes in a macro definition, or hands back any other definition.
    pub fn try_push(&mut self, def: Def) -> (r: Result<(), Def>)
        ensures
            is_macro_def(def@) ==> r is Ok,
            !is_macro_def(def@) ==> (r matches Err(d) && d@ == def@),
            final(self)@ == env_after(old(self)@, def@),
    {
        match def {
            Def::Alias(n, e) => {
                let ghost ev = e@;
                self.replacers.push((n, e));
                assert(self@.reps =~= old(self)@.reps.push((n, ev)));
                assert(self@.funs =~= old(self)@.funs);
                Ok(())
            },
            Def::Inline(n, xs, b) => {
                let ghost xv = xs@;
                let ghost bv = b@;
                self.functions.push((n, xs, b));
                assert(self@.funs =~= old(self)@.funs.push((n, xv, bv)));
                assert(self@.reps =~= old(self)@.reps);
                Ok(())
            },
            Def::Undef(n) => {
                self.remove(n);
                Ok(())
            },
            _ => {
                Err(def)
            },
        }
    }

    /// Removes every macro named `n`.
    fn remove(&mut self, n: Name)
        ensures
            final(self)@.reps == old(self)@.reps.filter(other_rep(n)),
            final(self)@.funs == old(self)@.funs.filter(other_fun(n)),
    {
        let ghost fr = other_rep(n);
        let ghost ff = other_fun(n);
        let ghost reps0 = self@.reps;
        let ghost funs0 = self@.funs;
        let ghost fvec0 = self.functions@;
        let mut reps: Vec<(Name, Exp)> = Vec::new();
        std::mem::swap(&mut reps, &mut self.replacers);
        assert(self.replacers@ =~= Seq::<(Name, Exp)>::empty());
        let ghost rv = reps@;
        assert(reps0 =~= rv.map_values(|p: (Name, Exp)| (p.0, sexp(&p.1))));
        assert(reps0.take(0).filter(fr) =~= Seq::<(Name, SExp)>::empty());
        for p in it: reps
            invariant
                it.seq() == rv,
                reps0 == rv.map_values(|p: (Name, Exp)| (p.0, sexp(&p.1))),
                fr == other_rep(n),
                self.functions@ == fvec0,
                self@.reps == reps0.take(it.index() as int).filter(fr),
        {
            let ghost i = it.index();
            let ghost before = self@.reps;
            if p.0 != n {
                let ghost pv = (p.0, sexp(&p.1));
                self.replacers.push(p);
                assert(self@.reps =~= before.push(pv));
            } else {
                assert(self@.reps =~= before);
            }
            proof {
                assert(reps0.take(i + 1) =~= reps0.take(i).push(reps0[i]));
                reps0.take(i).lemma_filter_push(reps0[i], fr);
            }
        }
        assert(reps0.take(rv.len() as int) =~= reps0);
        let mut funs: Vec<(Name, Vec<Name>, Exp)> = Vec::new();
        std::mem::swap(&mut funs, &mut self.functions);
        assert(self.functions@ =~= Seq::<(Name, Vec<Name>, Exp)>::empty());
        let ghost fv = funs@;
        let ghost reps1 = self@.reps;
        assert(funs0 =~= fv.map_values(|p: (Name, Vec<Name>, Exp)| (p.0, p.1@, sexp(&p.2))));
        assert(funs0.take(0).filter(ff) =~= Seq::<(Name, Seq<Name>, SExp)>::empty());
        for p in it: funs
            invariant
                it.seq() == fv,
                funs0 == fv.map_values(|p: (Name, Vec<Name>, Exp)| (p.0, p.1@, sexp(&p.2))),
                ff == other_fun(n),
                self@.funs == funs0.take(it.index() as int).filter(ff),
                self@.reps == reps1,
        {
            let ghost i = it.index();
            let ghost before = self@.funs;
            if p.0 != n {
                let ghost pv = (p.0, p.1@, sexp(&p.2));
                self.functions.push(p);
                assert(self@.funs =~= before.push(pv));
            } else {
                assert(self@.funs =~= before);
            }
            assert(self@.reps =~= reps1);
            proof {
                assert(funs0.take(i + 1) =~= funs0.take(i).push(funs0[i]));
                funs0.take(i).lemma_filter_push(funs0[i], ff);
            }
        }
        assert(funs0.take(fv.len() as int) =~= funs0);
    }

    /// Where the replacement of `k` stands, if one is in force.
    fn replacer(&self, k: Name) -> (r: Option<&Exp>)
        ensures
            match rep_lookup(self@.reps, k) {
                Some(e) => r matches Some(x) && x@ == e,
                None => r is None,
            },
    {
        let ghost reps = self@.reps;
        let mut i = self.replacers.len();
        assert(reps.take(i as int) =~= reps);
        while i > 0
            invariant
                i <= self.replacers@.len(),
                reps == self@.reps,
                rep_lookup(reps, k) == rep_lookup(reps.take(i as int), k),
            decreases i,
        {
            assert(reps.take(i as int).drop_last() =~= reps.take(i - 1));
            if self.replacers[i - 1].0 == k {
                return Some(&self.replacers[i - 1].1);
            }
            i = i - 1;
        }
        None
    }

    /// Where the inline macro `k` stands, if one is in force.
    fn function(&self, k: Name) -> (r: Option<(&Vec<Name>, &Exp)>)
        ensures
            match fun_lookup(self@.funs, k) {
                Some((xs, b)) => r matches Some((ys, c)) && ys@ == xs && c@ == b,
                None => r is None,
            },
    {
        let ghost funs = self@.funs;
        let mut i = self.functions.len();
        assert(funs.take(i as int) =~= funs);
        while i > 0
            invariant
                i <= self.functions@.len(),
                funs == self@.funs,
                fun_lookup(funs, k) == fun_lookup(funs.take(i as int), k),
            decreases i,
        {
            assert(funs.take(i as int).drop_last() =~= funs.take(i - 1));
            if self.functions[i - 1].0 == k {
                return Some((&self.functions[i - 1].1, &self.functions[i - 1].2));
            }
            i = i - 1;
        }
        None
    }
}

// Expansion

/// Why expanding macros failed: an unknown replacement macro, an unknown inline macro, or
/// macros nested too deeply, counted from the outermost one.
#[derive(Clone, Copy, PartialEq, Eq, Debug, Structural)]
pub enum MacroFail {
    Undefined(Name),
    UndefinedInline(Name),
    TooDeep(Name),
}

pub open spec fn fail_name(f: MacroFail) -> Name {
    match f {
        MacroFail::Undefined(n) => n,
        MacroFail::UndefinedInline(n) => n,
        MacroFail::TooDeep(n) => n,
    }
}

/// Whether token `n` names a macro: its text starts with a quote.
pub open spec fn is_macro(syms: Syms, n: Name) -> bool {
    0 <= n < syms.len() && syms[n as int].len() > 0 && syms[n as int][0] == '\''
}

/// The macro that an expression uses at its top, if any: `'M`, or a call `('F ...)`.
pub open spec fn macro_of(e: SExp, syms: Syms) -> Option<Name> {
    match e {
        SExp::Var(m, None) => if is_macro(syms, m) {
            Some(m)
        } else {
            None
        },
        SExp::Apply(m, _) => if is_macro(syms, m) {
            Some(m)
        } else {
            None
        },
        _ => None,
    }
}

/// An expression with its macros expanded, inside `depth` macro expansions, the outermost of
/// which is `origin`; each use of a macro is replaced and the replacement expanded in turn.
pub open spec fn expand(e: SExp, env: SMacroEnv, syms: Syms, depth: int, origin: Name) -> Result<SExp, MacroFail>
    decreases MAX_MACRO_DEPTH + 1 - depth, e,
{
    if depth < 0 || depth > MAX_MACRO_DEPTH + 1 {
        Err(MacroFail::TooDeep(origin))
    } else {
        match macro_of(e, syms) {
            Some(m) => {
                let org = if depth == 0 {
                    m
                } else {
                    origin
                };
                if depth > MAX_MACRO_DEPTH {
                    Err(MacroFail::TooDeep(org))
                } else {
                    match e {
                        SExp::Apply(_, args) => match fun_lookup(env.funs, m) {
                            None => Err(MacroFail::UndefinedInline(m)),
                            Some((fs, b)) => expand(subst(b, fs, args), env, syms, depth + 1, org),
                        },
                        _ => match rep_lookup(env.reps, m) {
                            None => Err(MacroFail::Undefined(m)),
                            Some(r) => expand(r, env, syms, depth + 1, org),
                        },
                    }
                }
            },
            None => match e {
                SExp::Literal(l) => Ok(SExp::Literal(l)),
                SExp::Var(n, None) => Ok(SExp::Var(n, None)),
                SExp::Var(n, Some(i)) => match expand(*i, env, syms, depth, origin) {
                    Err(x) => Err(x),
                    Ok(i2) => Ok(SExp::Var(n, Some(Box::new(i2)))),
                },
                SExp::Binary(p, l, r) => match expand(*l, env, syms, depth, origin) {
                    Err(x) => Err(x),
                    Ok(l2) => match expand(*r, env, syms, depth, origin) {
                        Err(x) => Err(x),
                        Ok(r2) => Ok(SExp::Binary(p, Box::new(l2), Box::new(r2))),
                    },
                },
                SExp::Unary(p, b) => match expand(*b, env, syms, depth, origin) {
                    Err(x) => Err(x),
                    Ok(b2) => Ok(SExp::Unary(p, Box::new(b2))),
                },
                SExp::Apply(n, es) => match expand_list(es, env, syms, depth, origin) {
                    Err(x) => Err(x),
                    Ok(es2) => Ok(SExp::Apply(n, es2)),
                },
                SExp::If(c, t, f) => match expand(*c, env, syms, depth, origin) {
                    Err(x) => Err(x),
                    Ok(c2) => match expand(*t, env, syms, depth, origin) {
                        Err(x) => Err(x),
                        Ok(t2) => match expand(*f, env, syms, depth, origin) {
                            Err(x) => Err(x),
                            Ok(f2) => Ok(SExp::If(Box::new(c2), Box::new(t2), Box::new(f2))),
                        },
                    },
                },
                SExp::While(g, b) => match expand(*g, env, syms, depth, origin) {
                    Err(x) => Err(x),
                    Ok(g2) => match expand(*b, env, syms, depth, origin) {
                        Err(x) => Err(x),
                        Ok(b2) => Ok(SExp::While(Box::new(g2), Box::new(b2))),
                    },
                },
                SExp::Begin(es) => match expand_list(es, env, syms, depth, origin) {
                    Err(x) => Err(x),
                    Ok(es2) => Ok(SExp::Begin(es2)),
                },
                SExp::Assign(x, None, v) => match expand(*v, env, syms, depth, origin) {
                    Err(y) => Err(y),
                    Ok(v2) => Ok(SExp::Assign(x, None, Box::new(v2))),
                },
                SExp::Assign(x, Some(i), v) => match expand(*i, env, syms, depth, origin) {
                    Err(y) => Err(y),
                    Ok(i2) => match expand(*v, env, syms, depth, origin) {
                        Err(y) => Err(y),
                        Ok(v2) => Ok(SExp::Assign(x, Some(Box::new(i2)), Box::new(v2))),
                    },
                },
                SExp::Match(p, cs, d) => match expand(*p, env, syms, depth, origin) {
                    Err(x) => Err(x),
                    Ok(p2) => match expand_arms(cs, env, syms, depth, origin) {
                        Err(x) => Err(x),
                        Ok(cs2) => match expand(*d, env, syms, depth, origin) {
                            Err(x) => Err(x),
                            Ok(d2) => Ok(SExp::Match(Box::new(p2), cs2, Box::new(d2))),
                        },
                    },
                },
            },
        }
    }
}

/// Expressions with their macros expanded, in order; the first failure stops it.
pub open spec fn expand_list(es: Seq<SExp>, env: SMacroEnv, syms: Syms, depth: int, origin: Name) -> Result<Seq<SExp>, MacroFail>
    decreases MAX_MACRO_DEPTH + 1 - depth, es,
{
    if es.len() == 0 {
        Ok(Seq::empty())
    } else {
        match expand_list(es.drop_last(), env, syms, depth, origin) {
            Err(x) => Err(x),
            Ok(init) => match expand(es.last(), env, syms, depth, origin) {
                Err(x) => Err(x),
                Ok(l) => Ok(init.push(l)),
            },
        }
    }
}

/// Match arms with their macros expanded, case before result.
pub open spec fn expand_arms(cs: Seq<(SExp, SExp)>, env: SMacroEnv, syms: Syms, depth: int, origin: Name) -> Result<Seq<(SExp, SExp)>, MacroFail>
    decreases MAX_MACRO_DEPTH + 1 - depth, cs,
{
    if cs.len() == 0 {
        Ok(Seq::empty())
    } else {
        match expand_arms(cs.drop_last(), env, syms, depth, origin) {
            Err(x) => Err(x),
            Ok(init) => match expand(cs.last().0, env, syms, depth, origin) {
                Err(x) => Err(x),
                Ok(a) => match expand(cs.last().1, env, syms, depth, origin) {
                    Err(x) => Err(x),
                    Ok(b) => Ok(init.push((a, b))),
                },
            },
        }
    }
}

pub open spec fn res_m(r: Result<Exp, MacroFail>) -> Result<SExp, MacroFail> {
    match r {
        Ok(e) => Ok(e@),
        Err(f) => Err(f),
    }
}

/// Whether token `n` names a macro.
fn is_macro_token(tokens: &Tokens, n: Name) -> (r: bool)
    requires
        tokens.wf(),
    ensures
        r == is_macro(tokens.symbols(), n),
{
    if n < 0 || n as usize >= tokens.len() {
        return false;
    }
    let s = tokens.translate(&n);
    s.unicode_len() > 0 && s.get_char(0) == '\''
}

/// The macro an expression uses at its top (see `macro_of`).
fn macro_at(e: &Exp, tokens: &Tokens) -> (r: Option<Name>)
    requires
        tokens.wf(),
    ensures
        r == macro_of(e@, tokens.symbols()),
{
    proof {
        lemma_sexp_lists(e);
    }
    match e {
        Exp::Var(m, None) => if is_macro_token(tokens, *m) {
            Some(*m)
        } else {
            None
        },
        Exp::Apply(m, _) => if is_macro_token(tokens, *m) {
            Some(*m)
        } else {
            None
        },
        _ => None,
    }
}

/// Expands the macros of an expression (see `expand`).
pub fn expand_exp(e: &Exp, env: &MacroEnv, tokens: &Tokens, depth: u32, origin: Name) -> (r: Result<Exp, MacroFail>)
    requires
        tokens.wf(),
        depth <= MAX_MACRO_DEPTH + 1,
        depth > 0 ==> is_macro(tokens.symbols(), origin),
    ensures
        res_m(r) == expand(e@, env@, tokens.symbols(), depth as int, origin),
        r matches Err(f) ==> is_macro(tokens.symbols(), fail_name(f)),
    decreases MAX_MACRO_DEPTH + 1 - depth, e,
{
    proof {
        lemma_sexp_lists(e);
    }
    let ghost syms = tokens.symbols();
    match macro_at(e, tokens) {
        Some(m) => {
            let org = if depth == 0 { m } else { origin };
            if depth > MAX_MACRO_DEPTH {
                return Err(MacroFail::TooDeep(org));
            }
            match e {
                Exp::Apply(_, args) => match env.function(m) {
                    None => Err(MacroFail::UndefinedInline(m)),
                    Some((fs, b)) => {
                        let body = substitute(b, fs, args.as_slice());
                        expand_exp(&body, env, tokens, depth + 1, org)
                    },
                },
                _ => match env.replacer(m) {
                    None => Err(MacroFail::Undefined(m)),
                    Some(rep) => expand_exp(rep, env, tokens, depth + 1, org),
                },
            }
        },
        None => {
            let r = match e {
                Exp::Literal(l) => Exp::Literal(*l),
                Exp::Var(n, None) => Exp::Var(*n, None),
                Exp::Var(n, Some(i)) => Exp::Var(*n, Some(Box::new(expand_exp(i, env, tokens, depth, origin)?))),
                Exp::Binary(p, l, r) => {
                    let l2 = expand_exp(l, env, tokens, depth, origin)?;
                    let r2 = expand_exp(r, env, tokens, depth, origin)?;
                    Exp::Binary(*p, Box::new(l2), Box::new(r2))
                },
                Exp::Unary(p, b) => Exp::Unary(*p, Box::new(expand_exp(b, env, tokens, depth, origin)?)),
                Exp::Apply(n, es) => Exp::Apply(*n, expand_exps(es.as_slice(), env, tokens, depth, origin)?),
                Exp::If(c, t, f) => {
                    let c2 = expand_exp(c, env, tokens, depth, origin)?;
                    let t2 = expand_exp(t, env, tokens, depth, origin)?;
                    let f2 = expand_exp(f, env, tokens, depth, origin)?;
                    Exp::If(Box::new(c2), Box::new(t2), Box::new(f2))
                },
                Exp::While(g, b) => {
                    let g2 = expand_exp(g, env, tokens, depth, origin)?;
                    let b2 = expand_exp(b, env, tokens, depth, origin)?;
                    Exp::While(Box::new(g2), Box::new(b2))
                },
                Exp::Begin(es) => Exp::Begin(expand_exps(es.as_slice(), env, tokens, depth, origin)?),
                Exp::Assign(x, None, v) => Exp::Assign(*x, None, Box::new(expand_exp(v, env, tokens, depth, origin)?)),
                Exp::Assign(x, Some(i), v) => {
                    let i2 = expand_exp(i, env, tokens, depth, origin)?;
                    let v2 = expand_exp(v, env, tokens, depth, origin)?;
                    Exp::Assign(*x, Some(Box::new(i2)), Box::new(v2))
                },
                Exp::Match(p, cs, d) => {
                    let p2 = expand_exp(p, env, tokens, depth, origin)?;
                    let cs2 = expand_arms_exec(cs, env, tokens, depth, origin)?;
                    let d2 = expand_exp(d, env, tokens, depth, origin)?;
                    Exp::Match(Box::new(p2), cs2, Box::new(d2))
                },
            };
            proof {
                lemma_sexp_lists(&r);
            }
            Ok(r)
        },
    }
}

fn expand_exps(es: &[Exp], env: &MacroEnv, tokens: &Tokens, depth: u32, origin: Name) -> (r: Result<Vec<Exp>, MacroFail>)
    requires
        tokens.wf(),
        depth <= MAX_MACRO_DEPTH + 1,
        depth > 0 ==> is_macro(tokens.symbols(), origin),
    ensures
        match r {
            Ok(v) => expand_list(sexps(es@), env@, tokens.symbols(), depth as int, origin) == Ok::<Seq<SExp>, MacroFail>(sexps(v@)),
            Err(f) => expand_list(sexps(es@), env@, tokens.symbols(), depth as int, origin) == Err::<Seq<SExp>, MacroFail>(f)
                && is_macro(tokens.symbols(), fail_name(f)),
        },
    decreases MAX_MACRO_DEPTH + 1 - depth, es@,
{
    let ghost v = sexps(es@);
    let ghost syms = tokens.symbols();
    let mut out: Vec<Exp> = Vec::new();
    let mut k: usize = 0;
    assert(v.take(0) =~= Seq::<SExp>::empty());
    assert(sexps(out@) =~= Seq::<SExp>::empty());
    while k < es.len()
        invariant
            k <= es@.len(),
            v == sexps(es@),
            syms == tokens.symbols(),
            tokens.wf(),
            depth <= MAX_MACRO_DEPTH + 1,
            depth > 0 ==> is_macro(syms, origin),
            expand_list(v.take(k as int), env@, syms, depth as int, origin) == Ok::<Seq<SExp>, MacroFail>(sexps(out@)),
        decreases es@.len() - k,
    {
        proof {
            let t = v.take(k + 1);
            assert(t.drop_last() =~= v.take(k as int));
            assert(t.last() == sexp(&es@[k as int]));
        }
        match expand_exp(&es[k], env, tokens, depth, origin) {
            Err(f) => {
                proof {
                    lemma_list_fails(v, k as int, env@, syms, depth as int, origin, f);
                }
                return Err(f);
            },
            Ok(x) => {
                let ghost o0 = out@;
                out.push(x);
                assert(sexps(out@) =~= sexps(o0).push(x@));
            },
        }
        k = k + 1;
    }
    assert(v.take(es@.len() as int) =~= v);
    Ok(out)
}

/// A failure at an element makes the whole list fail that way.
proof fn lemma_list_fails(v: Seq<SExp>, k: int, env: SMacroEnv, syms: Syms, depth: int, origin: Name, f: MacroFail)
    requires
        0 <= k < v.len(),
        expand_list(v.take(k), env, syms, depth, origin) is Ok,
        expand(v[k], env, syms, depth, origin) == Err::<SExp, MacroFail>(f),
    ensures
        expand_list(v, env, syms, depth, origin) == Err::<Seq<SExp>, MacroFail>(f),
    decreases v.len(),
{
    if k == v.len() - 1 {
        assert(v.drop_last() =~= v.take(k));
    } else {
        assert(v.drop_last().take(k) =~= v.take(k));
        assert(v.drop_last()[k] == v[k]);
        lemma_list_fails(v.drop_last(), k, env, syms, depth, origin, f);
    }
}

/// A failure at an arm makes all the arms fail that way.
proof fn lemma_arms_fail(v: Seq<(SExp, SExp)>, k: int, env: SMacroEnv, syms: Syms, depth: int, origin: Name, f: MacroFail)
    requires
        0 <= k < v.len(),
        expand_arms(v.take(k), env, syms, depth, origin) is Ok,
        expand(v[k].0, env, syms, depth, origin) == Err::<SExp, MacroFail>(f) || (expand(v[k].0, env, syms, depth, origin) is Ok
            && expand(v[k].1, env, syms, depth, origin) == Err::<SExp, MacroFail>(f)),
    ensures
        expand_arms(v, env, syms, depth, origin) == Err::<Seq<(SExp, SExp)>, MacroFail>(f),
    decreases v.len(),
{
    if k == v.len() - 1 {
        assert(v.drop_last() =~= v.take(k));
    } else {
        assert(v.drop_last().take(k) =~= v.take(k));
        assert(v.drop_last()[k] == v[k]);
        lemma_arms_fail(v.drop_last(), k, env, syms, depth, origin, f);
    }
}

fn expand_arms_exec(cs: &Vec<(Exp, Exp)>, env: &MacroEnv, tokens: &Tokens, depth: u32, origin: Name) -> (r: Result<Vec<(Exp, Exp)>, MacroFail>)
    requires
        tokens.wf(),
        depth <= MAX_MACRO_DEPTH + 1,
        depth > 0 ==> is_macro(tokens.symbols(), origin),
    ensures
        match r {
            Ok(v) => expand_arms(sarms(cs@), env@, tokens.symbols(), depth as int, origin) == Ok::<Seq<(SExp, SExp)>, MacroFail>(sarms(v@)),
            Err(f) => expand_arms(sarms(cs@), env@, tokens.symbols(), depth as int, origin) == Err::<Seq<(SExp, SExp)>, MacroFail>(f)
                && is_macro(tokens.symbols(), fail_name(f)),
        },
    decreases MAX_MACRO_DEPTH + 1 - depth, cs,
{
    let ghost v = sarms(cs@);
    let ghost syms = tokens.symbols();
    let mut out: Vec<(Exp, Exp)> = Vec::new();
    let mut k: usize = 0;
    assert(v.take(0) =~= Seq::<(SExp, SExp)>::empty());
    assert(sarms(out@) =~= Seq::<(SExp, SExp)>::empty());
    while k < cs.len()
        invariant
            k <= cs@.len(),
            v == sarms(cs@),
            syms == tokens.symbols(),
            tokens.wf(),
            depth <= MAX_MACRO_DEPTH + 1,
            depth > 0 ==> is_macro(syms, origin),
            expand_arms(v.take(k as int), env@, syms, depth as int, origin) == Ok::<Seq<(SExp, SExp)>, MacroFail>(sarms(out@)),
        decreases cs@.len() - k,
    {
        proof {
            let t = v.take(k + 1);
            assert(t.drop_last() =~= v.take(k as int));
            assert(t.last() == (sexp(&cs@[k as int].0), sexp(&cs@[k as int].1)));
        }
        let a = match expand_exp(&cs[k].0, env, tokens, depth, origin) {
            Err(f) => {
                proof {
                    lemma_arms_fail(v, k as int, env@, syms, depth as int, origin, f);
                }
                return Err(f);
            },
            Ok(a) => a,
        };
        let b = match expand_exp(&cs[k].1, env, tokens, depth, origin) {
            Err(f) => {
                proof {
                    lemma_arms_fail(v, k as int, env@, syms, depth as int, origin, f);
                }
                return Err(f);
            },
            Ok(b) => b,
        };
        let ghost o0 = out@;
        let ghost pv = (a@, b@);
        out.push((a, b));
        assert(sarms(out@) =~= sarms(o0).push(pv));
        k = k + 1;
    }
    assert(v.take(cs@.len() as int) =~= v);
    Ok(out)
}

// Programs

/// A definition with its macros expanded.
pub open spec fn expand_def(d: SDef, env: SMacroEnv, syms: Syms) -> Result<SDef, MacroFail> {
    match d {
        SDef::Define(n, xs, b) => match expand(b, env, syms, 0, 0) {
            Err(x) => Err(x),
            Ok(b2) => Ok(SDef::Define(n, xs, b2)),
        },
        SDef::Val(n, e) => match expand(e, env, syms, 0, 0) {
            Err(x) => Err(x),
            Ok(e2) => Ok(SDef::Val(n, e2)),
        },
        SDef::Exp(e) => match expand(e, env, syms, 0, 0) {
            Err(x) => Err(x),
            Ok(e2) => Ok(SDef::Exp(e2)),
        },
        SDef::CheckExpect(l, r) => match expand(l, env, syms, 0, 0) {
            Err(x) => Err(x),
            Ok(l2) => match expand(r, env, syms, 0, 0) {
                Err(x) => Err(x),
                Ok(r2) => Ok(SDef::CheckExpect(l2, r2)),
            },
        },
        SDef::CheckAssert(e) => match expand(e, env, syms, 0, 0) {
            Err(x) => Err(x),
            Ok(e2) => Ok(SDef::CheckAssert(e2)),
        },
        _ => Ok(d),
    }
}

/// A program with its macro definitions taken out, in order, and its other definitions
/// expanded with the macros in force where they stand.
pub open spec fn preprocess(ds: Seq<SDef>, env: SMacroEnv, syms: Syms) -> Result<Seq<SDef>, MacroFail>
    decreases ds.len(),
{
    if ds.len() == 0 {
        Ok(Seq::empty())
    } else if is_macro_def(ds[0]) {
        preprocess(ds.drop_first(), env_after(env, ds[0]), syms)
    } else {
        match expand_def(ds[0], env, syms) {
            Err(x) => Err(x),
            Ok(d2) => match preprocess(ds.drop_first(), env, syms) {
                Err(x) => Err(x),
                Ok(rest) => Ok(seq![d2] + rest),
            },
        }
    }
}

pub open spec fn prepend_defs(acc: Seq<SDef>, r: Result<Seq<SDef>, MacroFail>) -> Result<Seq<SDef>, MacroFail> {
    match r {
        Ok(ds) => Ok(acc + ds),
        Err(x) => Err(x),
    }
}

pub open spec fn no_macros() -> SMacroEnv {
    SMacroEnv { reps: Seq::empty(), funs: Seq::empty() }
}

/// Whether no part of an expression uses a macro, as `'M` or as a call `('F ...)`.
pub open spec fn macro_free(e: SExp, syms: Syms) -> bool
    decreases e,
{
    macro_of(e, syms) is None && match e {
        SExp::Literal(_) => true,
        SExp::Var(_, None) => true,
        SExp::Var(_, Some(i)) => macro_free(*i, syms),
        SExp::Binary(_, l, r) => macro_free(*l, syms) && macro_free(*r, syms),
        SExp::Unary(_, b) => macro_free(*b, syms),
        SExp::Apply(_, es) => forall|i: int| 0 <= i < es.len() ==> macro_free(#[trigger] es[i], syms),
        SExp::If(c, t, f) => macro_free(*c, syms) && macro_free(*t, syms) && macro_free(*f, syms),
        SExp::While(g, b) => macro_free(*g, syms) && macro_free(*b, syms),
        SExp::Begin(es) => forall|i: int| 0 <= i < es.len() ==> macro_free(#[trigger] es[i], syms),
        SExp::Assign(_, None, v) => macro_free(*v, syms),
        SExp::Assign(_, Some(i), v) => macro_free(*i, syms) && macro_free(*v, syms),
        SExp::Match(p, cs, d) => macro_free(*p, syms) && macro_free(*d, syms) && forall|i: int|
            0 <= i < cs.len() ==> macro_free(#[trigger] cs[i].0, syms) && macro_free(cs[i].1, syms),
    }
}

/// Whether a definition is no macro definition and uses no macro.
pub open spec fn def_macro_free(d: SDef, syms: Syms) -> bool {
    match d {
        SDef::Define(_, _, b) => macro_free(b, syms),
        SDef::Val(_, e) => macro_free(e, syms),
        SDef::Exp(e) => macro_free(e, syms),
        SDef::CheckExpect(l, r) => macro_free(l, syms) && macro_free(r, syms),
        SDef::CheckAssert(e) => macro_free(e, syms),
        SDef::Import(_) => true,
        SDef::Alias(..) | SDef::Inline(..) | SDef::Undef(_) => false,
    }
}

/// What an expression expands to uses no macro.
proof fn lemma_expand_macro_free(e: SExp, env: SMacroEnv, syms: Syms, depth: int, origin: Name)
    ensures
        expand(e, env, syms, depth, origin) matches Ok(e2) ==> macro_free(e2, syms),
    decreases MAX_MACRO_DEPTH + 1 - depth, e,
{
    if depth < 0 || depth > MAX_MACRO_DEPTH + 1 {
    } else {
        match macro_of(e, syms) {
            Some(m) => {
                let org = if depth == 0 {
                    m
                } else {
                    origin
                };
                if depth <= MAX_MACRO_DEPTH {
                    match e {
                        SExp::Apply(_, args) => match fun_lookup(env.funs, m) {
                            None => {},
                            Some((fs, b)) => {
                                lemma_expand_macro_free(subst(b, fs, args), env, syms, depth + 1, org);
                            },
                        },
                        _ => match rep_lookup(env.reps, m) {
                            None => {},
                            Some(r) => {
                                lemma_expand_macro_free(r, env, syms, depth + 1, org);
                            },
                        },
                    }
                }
            },
            None => match e {
                SExp::Literal(_) => {},
                SExp::Var(_, None) => {},
                SExp::Var(_, Some(i)) => {
                    lemma_expand_macro_free(*i, env, syms, depth, origin);
                },
                SExp::Binary(_, l, r) => {
                    lemma_expand_macro_free(*l, env, syms, depth, origin);
                    lemma_expand_macro_free(*r, env, syms, depth, origin);
                },
                SExp::Unary(_, b) => {
                    lemma_expand_macro_free(*b, env, syms, depth, origin);
                },
                SExp::Apply(_, es) => {
                    lemma_expand_list_macro_free(es, env, syms, depth, origin);
                },
                SExp::If(c, t, f) => {
                    lemma_expand_macro_free(*c, env, syms, depth, origin);
                    lemma_expand_macro_free(*t, env, syms, depth, origin);
                    lemma_expand_macro_free(*f, env, syms, depth, origin);
                },
                SExp::While(g, b) => {
                    lemma_expand_macro_free(*g, env, syms, depth, origin);
                    lemma_expand_macro_free(*b, env, syms, depth, origin);
                },
                SExp::Begin(es) => {
                    lemma_expand_list_macro_free(es, env, syms, depth, origin);
                },
                SExp::Assign(_, None, v) => {
                    lemma_expand_macro_free(*v, env, syms, depth, origin);
                },
                SExp::Assign(_, Some(i), v) => {
                    lemma_expand_macro_free(*i, env, syms, depth, origin);
                    lemma_expand_macro_free(*v, env, syms, depth, origin);
                },
                SExp::Match(p, cs, d) => {
                    lemma_expand_macro_free(*p, env, syms, depth, origin);
                    lemma_expand_arms_macro_free(cs, env, syms, depth, origin);
                    lemma_expand_macro_free(*d, env, syms, depth, origin);
                },
            },
        }
    }
}

/// What a list of expressions expands to uses no macro.
proof fn lemma_expand_list_macro_free(es: Seq<SExp>, env: SMacroEnv, syms: Syms, depth: int, origin: Name)
    ensures
        expand_list(es, env, syms, depth, origin) matches Ok(es2) ==> forall|i: int|
            0 <= i < es2.len() ==> macro_free(#[trigger] es2[i], syms),
    decreases MAX_MACRO_DEPTH + 1 - depth, es,
{
    if es.len() > 0 {
        lemma_expand_list_macro_free(es.drop_last(), env, syms, depth, origin);
        lemma_expand_macro_free(es.last(), env, syms, depth, origin);
    }
}

/// What match arms expand to use no macro.
proof fn lemma_expand_arms_macro_free(
    cs: Seq<(SExp, SExp)>,
    env: SMacroEnv,
    syms: Syms,
    depth: int,
    origin: Name,
)
    ensures
        expand_arms(cs, env, syms, depth, origin) matches Ok(cs2) ==> forall|i: int|
            0 <= i < cs2.len() ==> macro_free(#[trigger] cs2[i].0, syms) && macro_free(cs2[i].1, syms),
    decreases MAX_MACRO_DEPTH + 1 - depth, cs,
{
    if cs.len() > 0 {
        lemma_expand_arms_macro_free(cs.drop_last(), env, syms, depth, origin);
        lemma_expand_macro_free(cs.last().0, env, syms, depth, origin);
        lemma_expand_macro_free(cs.last().1, env, syms, depth, origin);
    }
}

/// Expansion leaves no macro behind: a program that expands keeps no macro definition, and no
/// expression of it uses a macro.
pub proof fn lemma_preprocess_macro_free(ds: Seq<SDef>, env: SMacroEnv, syms: Syms)
    ensures
        preprocess(ds, env, syms) matches Ok(out) ==> forall|i: int|
            0 <= i < out.len() ==> def_macro_free(#[trigger] out[i], syms),
    decreases ds.len(),
{
    if ds.len() > 0 {
        if is_macro_def(ds[0]) {
            lemma_preprocess_macro_free(ds.drop_first(), env_after(env, ds[0]), syms);
        } else {
            lemma_preprocess_macro_free(ds.drop_first(), env, syms);
            match ds[0] {
                SDef::Define(_, _, b) => {
                    lemma_expand_macro_free(b, env, syms, 0, 0);
                },
                SDef::Val(_, e) => {
                    lemma_expand_macro_free(e, env, syms, 0, 0);
                },
                SDef::Exp(e) => {
                    lemma_expand_macro_free(e, env, syms, 0, 0);
                },
                SDef::CheckExpect(l, r) => {
                    lemma_expand_macro_free(l, env, syms, 0, 0);
                    lemma_expand_macro_free(r, env, syms, 0, 0);
                },
                SDef::CheckAssert(e) => {
                    lemma_expand_macro_free(e, env, syms, 0, 0);
                },
                _ => {},
            }
            if let Ok(out) = preprocess(ds, env, syms) {
                let d2 = expand_def(ds[0], env, syms)->Ok_0;
                let rest = preprocess(ds.drop_first(), env, syms)->Ok_0;
                assert(out == seq![d2] + rest);
                assert forall|i: int| 0 <= i < out.len() implies def_macro_free(
                    #[trigger] out[i],
                    syms,
                ) by {
                    if i > 0 {
                        assert(out[i] == rest[i - 1]);
                    }
                }
            }
        }
    }
}

/// The message of a failed expansion.
pub open spec fn fail_text(f: MacroFail, syms: Syms) -> Seq<char> {
    match f {
        MacroFail::Undefined(m) => "Macro "@ + syms[m as int] + " not defined"@,
        MacroFail::UndefinedInline(m) => "Inline function macro "@ + syms[m as int] + " not defined"@,
        MacroFail::TooDeep(m) => "Recursive macro, depth "@ + nat_text(MAX_MACRO_DEPTH as nat) + " exceeded on "@ + syms[m as int],
    }
}

/// Expands the macros of a definition (see `expand_def`).
fn expand_def_exec(d: Def, env: &MacroEnv, tokens: &Tokens) -> (r: Result<Def, MacroFail>)
    requires
        tokens.wf(),
    ensures
        match r {
            Ok(d2) => expand_def(d@, env@, tokens.symbols()) == Ok::<SDef, MacroFail>(d2@),
            Err(f) => expand_def(d@, env@, tokens.symbols()) == Err::<SDef, MacroFail>(f) && is_macro(tokens.symbols(), fail_name(f)),
        },
{
    match d {
        Def::Define(n, xs, b) => {
            let b2 = expand_exp(&b, env, tokens, 0, 0)?;
            Ok(Def::Define(n, xs, b2))
        },
        Def::Val(n, e) => {
            let e2 = expand_exp(&e, env, tokens, 0, 0)?;
            Ok(Def::Val(n, e2))
        },
        Def::Exp(e) => {
            let e2 = expand_exp(&e, env, tokens, 0, 0)?;
            Ok(Def::Exp(e2))
        },
        Def::CheckExpect(l, r) => {
            let l2 = expand_exp(&l, env, tokens, 0, 0)?;
            let r2 = expand_exp(&r, env, tokens, 0, 0)?;
            Ok(Def::CheckExpect(l2, r2))
        },
        Def::CheckAssert(e) => {
            let e2 = expand_exp(&e, env, tokens, 0, 0)?;
            Ok(Def::CheckAssert(e2))
        },
        _ => Ok(d),
    }
}

/// The message of a failed expansion (see `fail_text`).
fn fail_message(f: MacroFail, tokens: &Tokens) -> (r: String)
    requires
        tokens.wf(),
        is_macro(tokens.symbols(), fail_name(f)),
    ensures
        r@ == fail_text(f, tokens.symbols()),
{
    match f {
        MacroFail::Undefined(m) => {
            let mut out = "Macro ".to_owned();
            out.append(tokens.translate(&m));
            out.append(" not defined");
            out
        },
        MacroFail::UndefinedInline(m) => {
            let mut out = "Inline function macro ".to_owned();
            out.append(tokens.translate(&m));
            out.append(" not defined");
            out
        },
        MacroFail::TooDeep(m) => {
            let mut out = "Recursive macro, depth ".to_owned();
            push_chars(&mut out, &nat_digits(MAX_MACRO_DEPTH as u64));
            out.append(" exceeded on ");
            out.append(tokens.translate(&m));
            out
        },
    }
}

/// Takes the macro definitions out of a program and expands the macros of the rest (see
/// `preprocess`).
pub fn preprocessor(ast: Ast, tokens: &Tokens) -> (r: Result<Ast, String>)
    requires
        tokens.wf(),
    ensures
        match preprocess(sdefs(ast@), no_macros(), tokens.symbols()) {
            Ok(ds) => r matches Ok(a) && sdefs(a@) == ds,
            Err(f) => r matches Err(m) && m@ == fail_text(f, tokens.symbols()),
        },
{
    let ghost all = sdefs(ast@);
    let ghost syms = tokens.symbols();
    let mut env = MacroEnv::new();
    assert(env@ == no_macros());
    let mut out: Ast = Vec::new();
    assert(all.skip(0) =~= all);
    assert(sdefs(out@) + Seq::<SDef>::empty() =~= Seq::<SDef>::empty());
    assert(sdefs(out@) =~= Seq::<SDef>::empty());
    for def in it: ast
        invariant
            tokens.wf(),
            syms == tokens.symbols(),
            all == sdefs(it.seq()),
            preprocess(all, no_macros(), syms) == prepend_defs(sdefs(out@), preprocess(all.skip(it.index() as int), env@, syms)),
    {
        let ghost i = it.index();
        let ghost rest = all.skip(i as int);
        let ghost dv = def@;
        proof {
            assert(rest.len() > 0);
            assert(rest[0] == dv);
            assert(rest.drop_first() =~= all.skip(i + 1));
        }
        let ghost env0 = env@;
        match env.try_push(def) {
            Ok(()) => {},
            Err(d) => {
                match expand_def_exec(d, &env, tokens) {
                    Err(f) => {
                        return Err(fail_message(f, tokens));
                    },
                    Ok(d2) => {
                        let ghost o0 = sdefs(out@);
                        let ghost d2v = d2@;
                        out.push(d2);
                        proof {
                            assert(sdefs(out@) =~= o0.push(d2v));
                            let tail = preprocess(all.skip(i + 1), env@, syms);
                            if tail is Ok {
                                assert(o0 + (seq![d2v] + tail->Ok_0) =~= o0.push(d2v) + tail->Ok_0);
                            }
                        }
                    },
                }
            },
        }
    }
    proof {
        assert(all.skip(all.len() as int) =~= Seq::<SDef>::empty());
        assert(sdefs(out@) + Seq::<SDef>::empty() =~= sdefs(out@));
    }
    Ok(out)
}

} // verus!
