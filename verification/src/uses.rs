//! What an expression and a definition use, told by their parts: every name used where the
//! code is evaluated is among the dependencies that the lazy graph waits for.
use vstd::prelude::*;

use crate::ast::{SDef, SExp};
use crate::env::Name;
use crate::lazygraph::{freevars, freevars_list, freevars_results, in_dependency_order, provided, uses, Dep};

verus! {

/// Whether `s` is a part of `e` that is evaluated: `e` itself, or an evaluated part of one of
/// its subexpressions, every one of them but the patterns of a match's cases.
pub open spec fn evaluated_part(s: SExp, e: SExp) -> bool
    decreases e,
{
    s == e || match e {
        SExp::Literal(_) => false,
        SExp::Var(_, None) => false,
        SExp::Var(_, Some(i)) => evaluated_part(s, *i),
        SExp::Assign(_, None, v) => evaluated_part(s, *v),
        SExp::Assign(_, Some(i), v) => evaluated_part(s, *i) || evaluated_part(s, *v),
        SExp::Binary(_, l, r) => evaluated_part(s, *l) || evaluated_part(s, *r),
        SExp::Unary(_, b) => evaluated_part(s, *b),
        SExp::If(c, t, f) => evaluated_part(s, *c) || evaluated_part(s, *t) || evaluated_part(s, *f),
        SExp::While(g, b) => evaluated_part(s, *g) || evaluated_part(s, *b),
        SExp::Begin(es) => exists|k: int| 0 <= k < es.len() && evaluated_part(s, #[trigger] es[k]),
        SExp::Apply(_, es) => exists|k: int| 0 <= k < es.len() && evaluated_part(s, #[trigger] es[k]),
        SExp::Match(p, cs, d) => evaluated_part(s, *p) || evaluated_part(s, *d) || exists|k: int|
            0 <= k < cs.len() && evaluated_part(s, #[trigger] cs[k].1),
    }
}

/// The name an expression uses at its top: a variable, indexed or not, and an assignment use a
/// global; a call uses a function.
pub open spec fn used_name(s: SExp) -> Option<Dep> {
    match s {
        SExp::Var(n, _) => Some(Dep::Global(n)),
        SExp::Assign(n, _, _) => Some(Dep::Global(n)),
        SExp::Apply(n, _) => Some(Dep::Function(n)),
        _ => None,
    }
}

/// What a list of expressions uses includes what each of them uses.
proof fn lemma_freevars_list_has(es: Seq<SExp>, formals: Set<Dep>, k: int)
    requires
        0 <= k < es.len(),
    ensures
        freevars(es[k], formals).subset_of(freevars_list(es, formals)),
    decreases es.len(),
{
    if k < es.len() - 1 {
        lemma_freevars_list_has(es.drop_last(), formals, k);
        assert(es.drop_last()[k] == es[k]);
    }
}

/// What the results of match arms use includes what each result uses.
proof fn lemma_freevars_results_has(cs: Seq<(SExp, SExp)>, formals: Set<Dep>, k: int)
    requires
        0 <= k < cs.len(),
    ensures
        freevars(cs[k].1, formals).subset_of(freevars_results(cs, formals)),
    decreases cs.len(),
{
    if k < cs.len() - 1 {
        lemma_freevars_results_has(cs.drop_last(), formals, k);
        assert(cs.drop_last()[k] == cs[k]);
    }
}

/// Every global read or assigned and every function called anywhere an expression is
/// evaluated, in every branch of an `if` and every arm of a `match`, is among what it uses,
/// unless it is one of the formals.
pub proof fn lemma_used_names_are_free(e: SExp, formals: Set<Dep>, s: SExp)
    ensures
        evaluated_part(s, e) && used_name(s) is Some && !formals.contains(used_name(s)->Some_0)
            ==> freevars(e, formals).contains(used_name(s)->Some_0),
    decreases e,
{
    if evaluated_part(s, e) && used_name(s) is Some && !formals.contains(used_name(s)->Some_0) {
        if s != e {
            match e {
                SExp::Var(_, Some(i)) => lemma_used_names_are_free(*i, formals, s),
                SExp::Assign(_, None, v) => lemma_used_names_are_free(*v, formals, s),
                SExp::Assign(_, Some(i), v) => {
                    lemma_used_names_are_free(*i, formals, s);
                    lemma_used_names_are_free(*v, formals, s);
                },
                SExp::Binary(_, l, r) => {
                    lemma_used_names_are_free(*l, formals, s);
                    lemma_used_names_are_free(*r, formals, s);
                },
                SExp::Unary(_, b) => lemma_used_names_are_free(*b, formals, s),
                SExp::If(c, t, f) => {
                    lemma_used_names_are_free(*c, formals, s);
                    lemma_used_names_are_free(*t, formals, s);
                    lemma_used_names_are_free(*f, formals, s);
                },
                SExp::While(g, b) => {
                    lemma_used_names_are_free(*g, formals, s);
                    lemma_used_names_are_free(*b, formals, s);
                },
                SExp::Begin(es) => {
                    let k = choose|k: int| 0 <= k < es.len() && evaluated_part(s, #[trigger] es[k]);
                    lemma_used_names_are_free(es[k], formals, s);
                    lemma_freevars_list_has(es, formals, k);
                },
                SExp::Apply(_, es) => {
                    let k = choose|k: int| 0 <= k < es.len() && evaluated_part(s, #[trigger] es[k]);
                    lemma_used_names_are_free(es[k], formals, s);
                    lemma_freevars_list_has(es, formals, k);
                },
                SExp::Match(p, cs, d) => {
                    lemma_used_names_are_free(*p, formals, s);
                    lemma_used_names_are_free(*d, formals, s);
                    if exists|k: int| 0 <= k < cs.len() && evaluated_part(s, #[trigger] cs[k].1) {
                        let k = choose|k: int| 0 <= k < cs.len() && evaluated_part(s, #[trigger] cs[k].1);
                        lemma_used_names_are_free(cs[k].1, formals, s);
                        lemma_freevars_results_has(cs, formals, k);
                    }
                },
                _ => {},
            }
        }
    }
}

/// A function waits for every function it calls and every global it reads or assigns, other
/// than its parameters, wherever in its body that happens; a `val` or a top-level expression
/// waits for every one it uses.
pub proof fn lemma_definitions_wait_for_what_they_use(d: SDef, s: SExp)
    ensures
        d matches SDef::Define(_, xs, b) ==> (evaluated_part(s, b) && used_name(s) is Some
            && !(used_name(s) matches Some(Dep::Global(x)) && xs.contains(x))
            ==> uses(d).contains(used_name(s)->Some_0)),
        d matches SDef::Val(_, e) ==> (evaluated_part(s, e) && used_name(s) is Some ==> uses(d).contains(used_name(s)->Some_0)),
        d matches SDef::Exp(e) ==> (evaluated_part(s, e) && used_name(s) is Some ==> uses(d).contains(used_name(s)->Some_0)),
{
    match d {
        SDef::Define(_, xs, b) => {
            let gs = xs.map_values(|x: Name| Dep::Global(x));
            let formals = gs.to_set();
            if formals.contains(used_name(s)->Some_0) && used_name(s) is Some {
                let k = choose|k: int| 0 <= k < gs.len() && #[trigger] gs[k] == used_name(s)->Some_0;
                assert(used_name(s) == Some(Dep::Global(xs[k])));
                assert(xs.contains(xs[k]));
            }
            lemma_used_names_are_free(b, formals, s);
        },
        SDef::Val(_, e) => lemma_used_names_are_free(e, Set::empty(), s),
        SDef::Exp(e) => lemma_used_names_are_free(e, Set::empty(), s),
        _ => {},
    }
}

/// Definitions released in dependency order (as `LazyGraph::bump` releases them) come after
/// every function their bodies call, in any branch: each such function was resolved before,
/// or is defined by a definition released earlier.
pub proof fn lemma_released_after_callees(ds: Seq<SDef>, resolved: Set<Dep>, j: int, s: SExp, g: Name)
    requires
        in_dependency_order(ds, resolved),
        0 <= j < ds.len(),
    ensures
        ds[j] matches SDef::Define(_, _, b) ==> (evaluated_part(s, b) && used_name(s) == Some(
            Dep::Function(g),
        ) ==> (resolved + provided(ds.take(j))).contains(Dep::Function(g))),
{
    lemma_definitions_wait_for_what_they_use(ds[j], s);
    assert(uses(ds[j]).subset_of(resolved + provided(ds.take(j))));
}

/// What a list of expressions uses comes from one of them.
proof fn lemma_freevars_list_from(es: Seq<SExp>, formals: Set<Dep>, d: Dep)
    ensures
        freevars_list(es, formals).contains(d) ==> exists|k: int|
            0 <= k < es.len() && freevars(#[trigger] es[k], formals).contains(d),
    decreases es.len(),
{
    if es.len() > 0 && freevars_list(es, formals).contains(d) {
        let init = es.drop_last();
        lemma_freevars_list_from(init, formals, d);
        if freevars_list(init, formals).contains(d) {
            let k = choose|k: int| 0 <= k < init.len() && freevars(#[trigger] init[k], formals).contains(d);
            assert(es[k] == init[k]);
        } else {
            assert(freevars(es[es.len() - 1], formals).contains(d));
        }
    }
}

/// What the results of match arms use comes from one of them.
proof fn lemma_freevars_results_from(cs: Seq<(SExp, SExp)>, formals: Set<Dep>, d: Dep)
    ensures
        freevars_results(cs, formals).contains(d) ==> exists|k: int|
            0 <= k < cs.len() && freevars(#[trigger] cs[k].1, formals).contains(d),
    decreases cs.len(),
{
    if cs.len() > 0 && freevars_results(cs, formals).contains(d) {
        let init = cs.drop_last();
        lemma_freevars_results_from(init, formals, d);
        if freevars_results(init, formals).contains(d) {
            let k = choose|k: int| 0 <= k < init.len() && freevars(#[trigger] init[k].1, formals).contains(d);
            assert(cs[k] == init[k]);
        } else {
            assert(freevars(cs[cs.len() - 1].1, formals).contains(d));
        }
    }
}

/// An expression uses nothing but the names that its evaluated parts use, and none of the
/// formals.
pub proof fn lemma_free_names_are_used(e: SExp, formals: Set<Dep>, d: Dep)
    ensures
        freevars(e, formals).contains(d) ==> !formals.contains(d) && exists|s: SExp|
            #[trigger] evaluated_part(s, e) && used_name(s) == Some(d),
    decreases e,
{
    if freevars(e, formals).contains(d) {
        match e {
            SExp::Var(n, None) => {
                assert(evaluated_part(e, e));
            },
            SExp::Var(n, Some(i)) => {
                assert(evaluated_part(e, e));
                lemma_free_names_are_used(*i, formals, d);
                if freevars(*i, formals).contains(d) {
                    let s = choose|s: SExp| #[trigger] evaluated_part(s, *i) && used_name(s) == Some(d);
                    assert(evaluated_part(s, e));
                }
            },
            SExp::Assign(n, None, v) => {
                assert(evaluated_part(e, e));
                lemma_free_names_are_used(*v, formals, d);
                if freevars(*v, formals).contains(d) {
                    let s = choose|s: SExp| #[trigger] evaluated_part(s, *v) && used_name(s) == Some(d);
                    assert(evaluated_part(s, e));
                }
            },
            SExp::Assign(n, Some(i), v) => {
                assert(evaluated_part(e, e));
                lemma_free_names_are_used(*i, formals, d);
                lemma_free_names_are_used(*v, formals, d);
                if freevars(*i, formals).contains(d) {
                    let s = choose|s: SExp| #[trigger] evaluated_part(s, *i) && used_name(s) == Some(d);
                    assert(evaluated_part(s, e));
                } else if freevars(*v, formals).contains(d) {
                    let s = choose|s: SExp| #[trigger] evaluated_part(s, *v) && used_name(s) == Some(d);
                    assert(evaluated_part(s, e));
                }
            },
            SExp::Binary(_, l, r) => {
                lemma_free_names_are_used(*l, formals, d);
                lemma_free_names_are_used(*r, formals, d);
                if freevars(*l, formals).contains(d) {
                    let s = choose|s: SExp| #[trigger] evaluated_part(s, *l) && used_name(s) == Some(d);
                    assert(evaluated_part(s, e));
                } else {
                    let s = choose|s: SExp| #[trigger] evaluated_part(s, *r) && used_name(s) == Some(d);
                    assert(evaluated_part(s, e));
                }
            },
            SExp::Unary(_, b) => {
                lemma_free_names_are_used(*b, formals, d);
                let s = choose|s: SExp| #[trigger] evaluated_part(s, *b) && used_name(s) == Some(d);
                assert(evaluated_part(s, e));
            },
            SExp::If(c, t, f) => {
                lemma_free_names_are_used(*c, formals, d);
                lemma_free_names_are_used(*t, formals, d);
                lemma_free_names_are_used(*f, formals, d);
                if freevars(*c, formals).contains(d) {
                    let s = choose|s: SExp| #[trigger] evaluated_part(s, *c) && used_name(s) == Some(d);
                    assert(evaluated_part(s, e));
                } else if freevars(*t, formals).contains(d) {
                    let s = choose|s: SExp| #[trigger] evaluated_part(s, *t) && used_name(s) == Some(d);
                    assert(evaluated_part(s, e));
                } else {
                    let s = choose|s: SExp| #[trigger] evaluated_part(s, *f) && used_name(s) == Some(d);
                    assert(evaluated_part(s, e));
                }
            },
            SExp::While(g, b) => {
                lemma_free_names_are_used(*g, formals, d);
                lemma_free_names_are_used(*b, formals, d);
                if freevars(*g, formals).contains(d) {
                    let s = choose|s: SExp| #[trigger] evaluated_part(s, *g) && used_name(s) == Some(d);
                    assert(evaluated_part(s, e));
                } else {
                    let s = choose|s: SExp| #[trigger] evaluated_part(s, *b) && used_name(s) == Some(d);
                    assert(evaluated_part(s, e));
                }
            },
            SExp::Begin(es) => {
                lemma_freevars_list_from(es, formals, d);
                let k = choose|k: int| 0 <= k < es.len() && freevars(#[trigger] es[k], formals).contains(d);
                lemma_free_names_are_used(es[k], formals, d);
                let s = choose|s: SExp| #[trigger] evaluated_part(s, es[k]) && used_name(s) == Some(d);
                assert(evaluated_part(s, e));
            },
            SExp::Apply(n, es) => {
                assert(evaluated_part(e, e));
                lemma_freevars_list_from(es, formals, d);
                if freevars_list(es, formals).contains(d) {
                    let k = choose|k: int| 0 <= k < es.len() && freevars(#[trigger] es[k], formals).contains(d);
                    lemma_free_names_are_used(es[k], formals, d);
                    let s = choose|s: SExp| #[trigger] evaluated_part(s, es[k]) && used_name(s) == Some(d);
                    assert(evaluated_part(s, e));
                }
            },
            SExp::Match(p, cs, dd) => {
                lemma_free_names_are_used(*p, formals, d);
                lemma_free_names_are_used(*dd, formals, d);
                lemma_freevars_results_from(cs, formals, d);
                if freevars(*p, formals).contains(d) {
                    let s = choose|s: SExp| #[trigger] evaluated_part(s, *p) && used_name(s) == Some(d);
                    assert(evaluated_part(s, e));
                } else if freevars(*dd, formals).contains(d) {
                    let s = choose|s: SExp| #[trigger] evaluated_part(s, *dd) && used_name(s) == Some(d);
                    assert(evaluated_part(s, e));
                } else {
                    let k = choose|k: int| 0 <= k < cs.len() && freevars(#[trigger] cs[k].1, formals).contains(d);
                    lemma_free_names_are_used(cs[k].1, formals, d);
                    let s = choose|s: SExp| #[trigger] evaluated_part(s, cs[k].1) && used_name(s) == Some(d);
                    assert(evaluated_part(s, e));
                }
            },
            SExp::Literal(_) => {},
        }
    }
}

} // verus!
