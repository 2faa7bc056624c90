//! The dependency graph that holds back a definition until everything it uses is defined.
use vstd::prelude::*;

use crate::ast::{Def, Exp, SDef, SExp, sexp, sexps, sarms, sdef, sdefs};
use crate::display::{TokenString, Syms, def_text, def_names_ok, ends_bracket_text, str_ends_bracket};
use crate::env::{Name, IT, Tokens, first_index};
use crate::implib::{libmapping, lib_spec, listing_view, unbound_lib_msg, SListing};
use crate::text::{i32_text, int_text, push_chars};
use crate::types::lib_fns_tokenized;

verus! {

/// What a definition provides or uses: a function or a global, by name.
#[derive(PartialEq, Eq, Hash, Copy, Clone, Debug, Structural)]
pub enum Dep {
    Function(Name),
    Global(Name),
}

// Free names

/// The global `n`, unless it is one of the formals.
pub open spec fn free_global(n: Name, formals: Set<Dep>) -> Set<Dep> {
    if formals.contains(Dep::Global(n)) {
        Set::empty()
    } else {
        set![Dep::Global(n)]
    }
}

/// The function `n`, unless it is one of the formals.
pub open spec fn free_function(n: Name, formals: Set<Dep>) -> Set<Dep> {
    if formals.contains(Dep::Function(n)) {
        Set::empty()
    } else {
        set![Dep::Function(n)]
    }
}

/// The globals and functions an expression uses, other than the formals. The cases of a
/// match are patterns, and are not counted.
pub open spec fn freevars(e: SExp, formals: Set<Dep>) -> Set<Dep>
    decreases e,
{
    match e {
        SExp::Literal(_) => Set::empty(),
        SExp::Var(n, None) => free_global(n, formals),
        SExp::Var(n, Some(i)) => free_global(n, formals) + freevars(*i, formals),
        SExp::Assign(n, None, v) => free_global(n, formals) + freevars(*v, formals),
        SExp::Assign(n, Some(i), v) => free_global(n, formals) + freevars(*i, formals) + freevars(*v, formals),
        SExp::Binary(_, l, r) => freevars(*l, formals) + freevars(*r, formals),
        SExp::Unary(_, b) => freevars(*b, formals),
        SExp::If(c, t, f) => freevars(*c, formals) + freevars(*t, formals) + freevars(*f, formals),
        SExp::While(g, b) => freevars(*g, formals) + freevars(*b, formals),
        SExp::Begin(es) => freevars_list(es, formals),
        SExp::Apply(n, es) => free_function(n, formals) + freevars_list(es, formals),
        SExp::Match(p, cs, d) => freevars(*p, formals) + freevars_results(cs, formals) + freevars(*d, formals),
    }
}

/// The free names of a list of expressions.
pub open spec fn freevars_list(es: Seq<SExp>, formals: Set<Dep>) -> Set<Dep>
    decreases es,
{
    if es.len() == 0 {
        Set::empty()
    } else {
        freevars_list(es.drop_last(), formals) + freevars(es.last(), formals)
    }
}

/// The free names of the results of match arms.
pub open spec fn freevars_results(cs: Seq<(SExp, SExp)>, formals: Set<Dep>) -> Set<Dep>
    decreases cs,
{
    if cs.len() == 0 {
        Set::empty()
    } else {
        freevars_results(cs.drop_last(), formals) + freevars(cs.last().1, formals)
    }
}

/// What an expression uses never includes its formals.
pub proof fn lemma_formals_not_free(e: SExp, formals: Set<Dep>)
    ensures
        freevars(e, formals).disjoint(formals),
    decreases e,
{
    match e {
        SExp::Var(_, Some(i)) => lemma_formals_not_free(*i, formals),
        SExp::Assign(_, None, v) => lemma_formals_not_free(*v, formals),
        SExp::Assign(_, Some(i), v) => {
            lemma_formals_not_free(*i, formals);
            lemma_formals_not_free(*v, formals);
        },
        SExp::Binary(_, l, r) => {
            lemma_formals_not_free(*l, formals);
            lemma_formals_not_free(*r, formals);
        },
        SExp::Unary(_, b) => lemma_formals_not_free(*b, formals),
        SExp::If(c, t, f) => {
            lemma_formals_not_free(*c, formals);
            lemma_formals_not_free(*t, formals);
            lemma_formals_not_free(*f, formals);
        },
        SExp::While(g, b) => {
            lemma_formals_not_free(*g, formals);
            lemma_formals_not_free(*b, formals);
        },
        SExp::Begin(es) => lemma_formals_not_free_list(es, formals),
        SExp::Apply(_, es) => lemma_formals_not_free_list(es, formals),
        SExp::Match(p, cs, d) => {
            lemma_formals_not_free(*p, formals);
            lemma_formals_not_free_results(cs, formals);
            lemma_formals_not_free(*d, formals);
        },
        _ => {},
    }
}

/// What a list of expressions uses never includes the formals.
pub proof fn lemma_formals_not_free_list(es: Seq<SExp>, formals: Set<Dep>)
    ensures
        freevars_list(es, formals).disjoint(formals),
    decreases es,
{
    if es.len() > 0 {
        lemma_formals_not_free_list(es.drop_last(), formals);
        lemma_formals_not_free(es.last(), formals);
    }
}

/// What the results of match arms use never includes the formals.
pub proof fn lemma_formals_not_free_results(cs: Seq<(SExp, SExp)>, formals: Set<Dep>)
    ensures
        freevars_results(cs, formals).disjoint(formals),
    decreases cs,
{
    if cs.len() > 0 {
        lemma_formals_not_free_results(cs.drop_last(), formals);
        lemma_formals_not_free(cs.last().1, formals);
    }
}

// Small sets of dependencies, kept as vectors without repeats

/// Whether `v` holds `d`.
pub fn has_dep(v: &Vec<Dep>, d: Dep) -> (r: bool)
    ensures
        r == v@.contains(d),
{
    let mut k: usize = 0;
    while k < v.len()
        invariant
            k <= v@.len(),
            forall|i: int| 0 <= i < k ==> v@[i] != d,
        decreases v@.len() - k,
    {
        if v[k] == d {
            return true;
        }
        k = k + 1;
    }
    false
}

/// Adds `d` to `v` unless it is there.
pub fn insert_dep(v: &mut Vec<Dep>, d: Dep)
    ensures
        final(v)@.to_set() == old(v)@.to_set().insert(d),
        old(v)@.no_duplicates() ==> final(v)@.no_duplicates(),
        final(v)@.contains(d),
        final(v)@ == old(v)@ || final(v)@ == old(v)@.push(d),
{
    if !has_dep(v, d) {
        v.push(d);
        assert(v@.to_set() =~= old(v)@.to_set().insert(d)) by {
            assert forall|x: Dep| v@.contains(x) <==> (old(v)@.contains(x) || x == d) by {
                if v@.contains(x) {
                    let i = choose|i: int| 0 <= i < v@.len() && v@[i] == x;
                    if i < old(v)@.len() {
                        assert(old(v)@[i] == x);
                    }
                }
                if old(v)@.contains(x) {
                    let i = choose|i: int| 0 <= i < old(v)@.len() && old(v)@[i] == x;
                    assert(v@[i] == x);
                }
                if x == d {
                    assert(v@[v@.len() - 1] == d);
                }
            }
        }
        assert(v@[v@.len() - 1] == d);
    } else {
        assert(v@.to_set() =~= old(v)@.to_set().insert(d));
    }
}

impl Exp {
    /// Adds the globals and functions this expression uses, other than the formals, to `deps`.
    pub fn freevars(&self, deps: &mut Vec<Dep>, formals: &Vec<Dep>)
        ensures
            final(deps)@.to_set() == old(deps)@.to_set() + freevars(self@, formals@.to_set()),
            old(deps)@.no_duplicates() ==> final(deps)@.no_duplicates(),
        decreases self,
    {
        let ghost fs = formals@.to_set();
        let ghost d0 = deps@.to_set();
        proof {
            crate::ast::lemma_sexp_lists(self);
        }
        match self {
            Exp::Literal(_) => {
                assert(deps@.to_set() =~= d0 + freevars(self@, fs));
            },
            Exp::Var(n, i) => {
                if !has_dep(formals, Dep::Global(*n)) {
                    insert_dep(deps, Dep::Global(*n));
                }
                let ghost d1 = deps@.to_set();
                assert(d1 =~= d0 + free_global(*n, fs));
                match i {
                    Some(i) => {
                        i.freevars(deps, formals);
                    },
                    None => {},
                }
                assert(deps@.to_set() =~= d0 + freevars(self@, fs));
            },
            Exp::Assign(n, i, v) => {
                if !has_dep(formals, Dep::Global(*n)) {
                    insert_dep(deps, Dep::Global(*n));
                }
                assert(deps@.to_set() =~= d0 + free_global(*n, fs));
                match i {
                    Some(i) => {
                        i.freevars(deps, formals);
                    },
                    None => {},
                }
                v.freevars(deps, formals);
                assert(deps@.to_set() =~= d0 + freevars(self@, fs));
            },
            Exp::Binary(_, l, r) => {
                l.freevars(deps, formals);
                r.freevars(deps, formals);
                assert(deps@.to_set() =~= d0 + freevars(self@, fs));
            },
            Exp::Unary(_, b) => {
                b.freevars(deps, formals);
            },
            Exp::If(c, t, f) => {
                c.freevars(deps, formals);
                t.freevars(deps, formals);
                f.freevars(deps, formals);
                assert(deps@.to_set() =~= d0 + freevars(self@, fs));
            },
            Exp::While(g, b) => {
                g.freevars(deps, formals);
                b.freevars(deps, formals);
                assert(deps@.to_set() =~= d0 + freevars(self@, fs));
            },
            Exp::Begin(es) => {
                list_freevars(es.as_slice(), deps, formals);
            },
            Exp::Apply(n, xs) => {
                if !has_dep(formals, Dep::Function(*n)) {
                    insert_dep(deps, Dep::Function(*n));
                }
                assert(deps@.to_set() =~= d0 + free_function(*n, fs));
                list_freevars(xs.as_slice(), deps, formals);
                assert(deps@.to_set() =~= d0 + freevars(self@, fs));
            },
            Exp::Match(p, bs, d) => {
                p.freevars(deps, formals);
                results_freevars(bs, deps, formals);
                d.freevars(deps, formals);
                assert(deps@.to_set() =~= d0 + freevars(self@, fs));
            },
        }
    }
}

/// Adds the free names of each expression of `es` to `deps`.
fn list_freevars(es: &[Exp], deps: &mut Vec<Dep>, formals: &Vec<Dep>)
    ensures
        final(deps)@.to_set() == old(deps)@.to_set() + freevars_list(sexps(es@), formals@.to_set()),
        old(deps)@.no_duplicates() ==> final(deps)@.no_duplicates(),
    decreases es@,
{
    let ghost fs = formals@.to_set();
    let ghost d0 = deps@.to_set();
    let ghost v = sexps(es@);
    let mut k: usize = 0;
    while k < es.len()
        invariant
            k <= es@.len(),
            v == sexps(es@),
            fs == formals@.to_set(),
            deps@.to_set() == d0 + freevars_list(v.take(k as int), fs),
            old(deps)@.no_duplicates() ==> deps@.no_duplicates(),
        decreases es@.len() - k,
    {
        es[k].freevars(deps, formals);
        proof {
            let t = v.take(k + 1);
            assert(t.drop_last() =~= v.take(k as int));
            assert(t.last() == sexp(&es@[k as int]));
            assert(deps@.to_set() =~= d0 + freevars_list(t, fs));
        }
        k = k + 1;
    }
    assert(v.take(es@.len() as int) =~= v);
}

/// Adds the free names of the result of each match arm to `deps`.
fn results_freevars(cs: &Vec<(Exp, Exp)>, deps: &mut Vec<Dep>, formals: &Vec<Dep>)
    ensures
        final(deps)@.to_set() == old(deps)@.to_set() + freevars_results(sarms(cs@), formals@.to_set()),
        old(deps)@.no_duplicates() ==> final(deps)@.no_duplicates(),
    decreases cs,
{
    let ghost fs = formals@.to_set();
    let ghost d0 = deps@.to_set();
    let ghost v = sarms(cs@);
    let mut k: usize = 0;
    while k < cs.len()
        invariant
            k <= cs@.len(),
            v == sarms(cs@),
            fs == formals@.to_set(),
            deps@.to_set() == d0 + freevars_results(v.take(k as int), fs),
            old(deps)@.no_duplicates() ==> deps@.no_duplicates(),
        decreases cs@.len() - k,
    {
        cs[k].1.freevars(deps, formals);
        proof {
            let t = v.take(k + 1);
            assert(t.drop_last() =~= v.take(k as int));
            assert(t.last().1 == sexp(&cs@[k as int].1));
            assert(deps@.to_set() =~= d0 + freevars_results(t, fs));
        }
        k = k + 1;
    }
    assert(v.take(cs@.len() as int) =~= v);
}

// The graph

/// Why a dependency cannot be resolved: it still waits for others, or it was never added.
enum LazyGraphError<T> {
    CannotResolve(T, Vec<T>),
    NotFound(T),
}

/// Definitions waiting for what they use, what is already defined, and the waiting definitions.
pub struct LazyGraph<D, E> {
    still_unresolved: Vec<(D, Vec<D>)>,
    already_resolved: Vec<D>,
    defs: Vec<(D, E)>,
}

/// Whether some pair of `s` has the key `k`.
pub open spec fn has_key<V>(s: Seq<(Dep, V)>, k: Dep) -> bool {
    exists|i: int| 0 <= i < s.len() && (#[trigger] s[i]).0 == k
}

/// No key occurs twice among the pairs of `s`.
pub open spec fn keys_unique<V>(s: Seq<(Dep, V)>) -> bool {
    forall|i: int, j: int| 0 <= i < j < s.len() ==> (#[trigger] s[i]).0 != (#[trigger] s[j]).0
}

/// Where the key `k` stands among the pairs of `s`.
pub open spec fn key_at<V>(s: Seq<(Dep, V)>, k: Dep) -> int {
    choose|i: int| 0 <= i < s.len() && (#[trigger] s[i]).0 == k
}

/// The map that pairs with unique keys stand for, with each value read through `f`.
pub open spec fn pairs_map<V, W>(s: Seq<(Dep, V)>, f: spec_fn(V) -> W) -> Map<Dep, W> {
    Map::new(|k: Dep| has_key(s, k), |k: Dep| f(s[key_at(s, k)].1))
}

pub open spec fn dep_set(v: Vec<Dep>) -> Set<Dep> {
    v@.to_set()
}

pub open spec fn def_model(d: Def) -> SDef {
    sdef(&d)
}

proof fn lemma_pairs_lookup<V, W>(s: Seq<(Dep, V)>, f: spec_fn(V) -> W, i: int)
    requires
        keys_unique(s),
        0 <= i < s.len(),
    ensures
        pairs_map(s, f).contains_key(s[i].0),
        pairs_map(s, f)[s[i].0] == f(s[i].1),
        key_at(s, s[i].0) == i,
{
    assert(has_key(s, s[i].0));
    let j = key_at(s, s[i].0);
    if j != i {
        if j < i {
            assert(s[j].0 != s[i].0);
        } else {
            assert(s[i].0 != s[j].0);
        }
    }
}

/// Replacing the value of one pair changes the map at that key alone.
proof fn lemma_pairs_update<V, W>(s: Seq<(Dep, V)>, f: spec_fn(V) -> W, i: int, v: V)
    requires
        keys_unique(s),
        0 <= i < s.len(),
    ensures
        keys_unique(s.update(i, (s[i].0, v))),
        pairs_map(s.update(i, (s[i].0, v)), f) == pairs_map(s, f).insert(s[i].0, f(v)),
{
    let t = s.update(i, (s[i].0, v));
    assert forall|a: int, b: int| 0 <= a < b < t.len() implies (#[trigger] t[a]).0 != (#[trigger] t[b]).0 by {
        assert(t[a].0 == s[a].0 && t[b].0 == s[b].0);
    }
    let m = pairs_map(t, f);
    let m0 = pairs_map(s, f).insert(s[i].0, f(v));
    assert forall|k: Dep| #[trigger] m.contains_key(k) <==> m0.contains_key(k) by {
        if has_key(t, k) {
            let j = choose|j: int| 0 <= j < t.len() && (#[trigger] t[j]).0 == k;
            assert(s[j].0 == k);
        }
        if has_key(s, k) {
            let j = choose|j: int| 0 <= j < s.len() && (#[trigger] s[j]).0 == k;
            assert(t[j].0 == k);
        }
        if k == s[i].0 {
            assert(t[i].0 == k);
        }
    }
    assert forall|k: Dep| #[trigger] m.contains_key(k) implies m[k] == m0[k] by {
        let j = choose|j: int| 0 <= j < t.len() && (#[trigger] t[j]).0 == k;
        lemma_pairs_lookup(t, f, j);
        if j != i {
            assert(s[j] == t[j]);
            lemma_pairs_lookup(s, f, j);
        }
    }
    assert(m =~= m0);
}

/// A pair with a new key adds that key to the map.
proof fn lemma_pairs_push<V, W>(s: Seq<(Dep, V)>, f: spec_fn(V) -> W, k: Dep, v: V)
    requires
        keys_unique(s),
        !has_key(s, k),
    ensures
        keys_unique(s.push((k, v))),
        pairs_map(s.push((k, v)), f) == pairs_map(s, f).insert(k, f(v)),
{
    let t = s.push((k, v));
    assert forall|a: int, b: int| 0 <= a < b < t.len() implies (#[trigger] t[a]).0 != (#[trigger] t[b]).0 by {
        if b == s.len() {
            assert(t[a] == s[a]);
        } else {
            assert(t[a] == s[a] && t[b] == s[b]);
        }
    }
    let m = pairs_map(t, f);
    let m0 = pairs_map(s, f).insert(k, f(v));
    assert forall|x: Dep| #[trigger] m.contains_key(x) <==> m0.contains_key(x) by {
        if has_key(t, x) {
            let j = choose|j: int| 0 <= j < t.len() && (#[trigger] t[j]).0 == x;
            if j < s.len() {
                assert(s[j] == t[j]);
            }
        }
        if has_key(s, x) {
            let j = choose|j: int| 0 <= j < s.len() && (#[trigger] s[j]).0 == x;
            assert(t[j] == s[j]);
        }
        if x == k {
            assert(t[s.len() as int].0 == k);
        }
    }
    assert forall|x: Dep| #[trigger] m.contains_key(x) implies m[x] == m0[x] by {
        let j = choose|j: int| 0 <= j < t.len() && (#[trigger] t[j]).0 == x;
        lemma_pairs_lookup(t, f, j);
        if j < s.len() {
            assert(s[j] == t[j]);
            lemma_pairs_lookup(s, f, j);
        }
    }
    assert(m =~= m0);
}

/// Dropping a pair drops its key from the map.
proof fn lemma_pairs_remove<V, W>(s: Seq<(Dep, V)>, f: spec_fn(V) -> W, i: int)
    requires
        keys_unique(s),
        0 <= i < s.len(),
    ensures
        keys_unique(s.remove(i)),
        pairs_map(s.remove(i), f) == pairs_map(s, f).remove(s[i].0),
{
    let t = s.remove(i);
    assert forall|a: int, b: int| 0 <= a < b < t.len() implies (#[trigger] t[a]).0 != (#[trigger] t[b]).0 by {
        let a0 = if a < i { a } else { a + 1 };
        let b0 = if b < i { b } else { b + 1 };
        assert(t[a] == s[a0] && t[b] == s[b0]);
    }
    let m = pairs_map(t, f);
    let m0 = pairs_map(s, f).remove(s[i].0);
    assert forall|x: Dep| #[trigger] m.contains_key(x) <==> m0.contains_key(x) by {
        if has_key(t, x) {
            let j = choose|j: int| 0 <= j < t.len() && (#[trigger] t[j]).0 == x;
            let j0 = if j < i { j } else { j + 1 };
            assert(t[j] == s[j0]);
            assert(s[i].0 != s[j0].0 || i == j0);
        }
        if has_key(s, x) && x != s[i].0 {
            let j = choose|j: int| 0 <= j < s.len() && (#[trigger] s[j]).0 == x;
            if j < i {
                assert(t[j] == s[j]);
            } else {
                assert(t[j - 1] == s[j]);
            }
        }
    }
    assert forall|x: Dep| #[trigger] m.contains_key(x) implies m[x] == m0[x] by {
        let j = choose|j: int| 0 <= j < t.len() && (#[trigger] t[j]).0 == x;
        let j0 = if j < i { j } else { j + 1 };
        assert(t[j] == s[j0]);
        lemma_pairs_lookup(t, f, j);
        lemma_pairs_lookup(s, f, j0);
    }
    assert(m =~= m0);
}

/// Where `d` stands among the keys of `s`, if it is one.
fn find_entry<V>(s: &Vec<(Dep, V)>, d: &Dep) -> (r: Option<usize>)
    ensures
        match r {
            Some(i) => i < s@.len() && s@[i as int].0 == *d,
            None => !has_key(s@, *d),
        },
{
    let mut k: usize = 0;
    while k < s.len()
        invariant
            k <= s@.len(),
            forall|i: int| 0 <= i < k ==> (#[trigger] s@[i]).0 != *d,
        decreases s@.len() - k,
    {
        if s[k].0 == *d {
            return Some(k);
        }
        k = k + 1;
    }
    None
}

/// Takes `d` out of `v`.
fn remove_dep(v: &mut Vec<Dep>, d: Dep)
    requires
        old(v)@.no_duplicates(),
    ensures
        final(v)@.to_set() == old(v)@.to_set().remove(d),
        final(v)@.no_duplicates(),
{
    let mut k: usize = 0;
    while k < v.len()
        invariant
            k <= v@.len(),
            v@ == old(v)@,
            old(v)@.no_duplicates(),
            forall|i: int| 0 <= i < k ==> v@[i] != d,
        decreases v@.len() - k,
    {
        if v[k] == d {
            let ghost before = v@;
            v.remove(k);
            proof {
                assert forall|x: Dep| v@.contains(x) <==> (before.contains(x) && x != d) by {
                    if v@.contains(x) {
                        let i = choose|i: int| 0 <= i < v@.len() && v@[i] == x;
                        let i0 = if i < k { i } else { i + 1 };
                        assert(v@[i] == before[i0]);
                        assert(before[i0] != before[k as int] || i0 == k);
                    }
                    if before.contains(x) && x != d {
                        let i = choose|i: int| 0 <= i < before.len() && before[i] == x;
                        if i < k {
                            assert(v@[i] == x);
                        } else {
                            assert(i != k);
                            assert(v@[i - 1] == x);
                        }
                    }
                }
                assert(v@.to_set() =~= before.to_set().remove(d));
                assert forall|a: int, b: int| 0 <= a < b < v@.len() implies v@[a] != v@[b] by {
                    let a0 = if a < k { a } else { a + 1 };
                    let b0 = if b < k { b } else { b + 1 };
                    assert(v@[a] == before[a0] && v@[b] == before[b0]);
                }
            }
            return;
        }
        k = k + 1;
    }
    assert(v@.to_set() =~= old(v)@.to_set().remove(d));
}

/// Every entry of `s` stands in the map `pairs_map(s, f)`.
proof fn lemma_pairs_all<V, W>(s: Seq<(Dep, V)>, f: spec_fn(V) -> W)
    requires
        keys_unique(s),
    ensures
        forall|i: int| 0 <= i < s.len() ==> pairs_map(s, f).contains_key(#[trigger] s[i].0) && pairs_map(s, f)[s[i].0] == f(s[i].1),
{
    assert forall|i: int| 0 <= i < s.len() implies pairs_map(s, f).contains_key(#[trigger] s[i].0) && pairs_map(s, f)[s[i].0] == f(s[i].1) by {
        lemma_pairs_lookup(s, f, i);
    }
}

/// A list of distinct elements of `u` is no longer than `u`.
proof fn lemma_keys_bound_seq(u: Seq<Dep>, ks: Seq<Dep>)
    requires
        ks.no_duplicates(),
        forall|j: int| 0 <= j < ks.len() ==> u.contains(#[trigger] ks[j]),
    ensures
        ks.len() <= u.len(),
{
    assert forall|x: Dep| ks.to_set().contains(x) implies u.to_set().contains(x) by {
        let j = choose|j: int| 0 <= j < ks.len() && ks[j] == x;
        assert(u.contains(ks[j]));
    }
    ks.unique_seq_to_set();
    u.lemma_cardinality_of_set();
    vstd::seq_lib::seq_to_set_is_finite(u);
    vstd::set_lib::lemma_len_subset(ks.to_set(), u.to_set());
}

/// The name a dependency is about.
fn dep_name_of(d: &Dep) -> (n: Name)
    ensures
        n == dep_name(*d),
{
    match d {
        Dep::Function(n) => *n,
        Dep::Global(n) => *n,
    }
}

/// A list of distinct keys of `s` is no longer than `s`.
proof fn lemma_keys_bound<V>(s: Seq<(Dep, V)>, ks: Seq<Dep>)
    requires
        ks.no_duplicates(),
        forall|j: int| 0 <= j < ks.len() ==> has_key(s, #[trigger] ks[j]),
    ensures
        ks.len() <= s.len(),
{
    let keys = s.map_values(|p: (Dep, V)| p.0);
    assert forall|x: Dep| ks.to_set().contains(x) implies keys.to_set().contains(x) by {
        let j = choose|j: int| 0 <= j < ks.len() && ks[j] == x;
        assert(has_key(s, ks[j]));
        let i = choose|i: int| 0 <= i < s.len() && (#[trigger] s[i]).0 == x;
        assert(keys[i] == x);
    }
    ks.unique_seq_to_set();
    keys.lemma_cardinality_of_set();
    vstd::seq_lib::seq_to_set_is_finite(keys);
    vstd::set_lib::lemma_len_subset(ks.to_set(), keys.to_set());
}

/// The first `n` entries of `ready` are resolved.
pub open spec fn done(ready: Seq<Dep>, n: int) -> Set<Dep> {
    ready.take(n).to_set()
}

/// Entry `x` of `s0`, unless it is resolved, still waits for something outside the first
/// `n` entries of `ready`.
spec fn stuck(s0: Seq<(Dep, Vec<Dep>)>, rs0: Set<Dep>, ready: Seq<Dep>, x: int, n: int) -> bool {
    !rs0.contains(s0[x].0) && !ready.contains(s0[x].0) ==> !s0[x].1@.to_set().subset_of(done(ready, n))
}

/// `ready` is an order in which `d`, and what waited for it, can be compiled: it starts with
/// `d`, holds nothing twice and nothing resolved before, and each entry waited for nothing
/// but entries before it.
pub open spec fn resolution_order(waiting: Map<Dep, Set<Dep>>, resolved: Set<Dep>, d: Dep, ready: Seq<Dep>) -> bool {
    &&& ready.len() >= 1
    &&& ready[0] == d
    &&& ready.no_duplicates()
    &&& forall|j: int| 0 <= j < ready.len() ==> !resolved.contains(#[trigger] ready[j]) && waiting.contains_key(ready[j])
        && waiting[ready[j]].subset_of(done(ready, j))
}

/// Nothing else that waits, unresolved, has everything it waits for in `ready`.
pub open spec fn resolution_complete(waiting: Map<Dep, Set<Dep>>, resolved: Set<Dep>, ready: Seq<Dep>) -> bool {
    forall|k: Dep| #[trigger] waiting.contains_key(k) && !resolved.contains(k) && !ready.contains(k) ==> !waiting[k].subset_of(ready.to_set())
}

/// What still waits once `ready` is resolved, and for what.
pub open spec fn after_resolution(waiting: Map<Dep, Set<Dep>>, ready: Seq<Dep>) -> Map<Dep, Set<Dep>> {
    Map::new(|k: Dep| waiting.contains_key(k) && !ready.contains(k), |k: Dep| waiting[k] - ready.to_set())
}

/// What a definition provides, and what it uses: a global for a `val`, a function for a
/// `define` (whose parameters are not counted as used), and the result `IT` for a
/// top-level expression. Other definitions have no dependencies.
pub open spec fn def_deps(d: SDef) -> Option<(Dep, Set<Dep>)> {
    match d {
        SDef::Val(n, e) => Some((Dep::Global(n), freevars(e, Set::empty()))),
        SDef::Define(n, bs, e) => Some((Dep::Function(n), freevars(e, bs.map_values(|b: Name| Dep::Global(b)).to_set()))),
        SDef::Exp(e) => Some((Dep::Global(IT), freevars(e, Set::empty()))),
        _ => None,
    }
}

/// What a definition uses, as far as the graph keeps track.
pub open spec fn uses(d: SDef) -> Set<Dep> {
    match def_deps(d) {
        Some((_, ds)) => ds,
        None => Set::empty(),
    }
}

/// What some definitions provide.
pub open spec fn provided(ds: Seq<SDef>) -> Set<Dep> {
    Set::new(|x: Dep| exists|j: int| 0 <= j < ds.len() && def_deps(#[trigger] ds[j]) is Some && def_deps(ds[j])->Some_0.0 == x)
}

/// Each definition of `ds` uses only what is in `resolved` or provided before it.
pub open spec fn in_dependency_order(ds: Seq<SDef>, resolved: Set<Dep>) -> bool {
    forall|j: int| 0 <= j < ds.len() ==> uses(#[trigger] ds[j]).subset_of(resolved + provided(ds.take(j)))
}

proof fn lemma_single_in_order(d: SDef, resolved: Set<Dep>)
    requires
        uses(d).subset_of(resolved),
    ensures
        in_dependency_order(seq![d], resolved),
{
    assert forall|j: int| 0 <= j < seq![d].len() implies uses(#[trigger] seq![d][j]).subset_of(resolved + provided(seq![d].take(j))) by {
        assert(seq![d][j] == d);
    }
}

/// Definitions that come out in a resolution order are in dependency order, when each uses
/// nothing but what it waited for and what was resolved.
proof fn lemma_ready_in_order(
    w1: Map<Dep, Set<Dep>>,
    r0: Set<Dep>,
    h1: Map<Dep, SDef>,
    k: Dep,
    ready: Seq<Dep>,
    out: Seq<SDef>,
)
    requires
        resolution_order(w1, r0, k, ready),
        forall|a: int| 0 <= a < ready.len() ==> h1.contains_key(#[trigger] ready[a]) && def_deps(h1[ready[a]]) is Some
            && def_deps(h1[ready[a]])->Some_0.0 == ready[a] && def_deps(h1[ready[a]])->Some_0.1.subset_of(w1[ready[a]] + r0),
        out == ready.map_values(|x: Dep| h1[x]),
    ensures
        in_dependency_order(out, r0),
{
    assert forall|j: int| 0 <= j < out.len() implies uses(#[trigger] out[j]).subset_of(r0 + provided(out.take(j))) by {
        let x = ready[j];
        assert(out[j] == h1[x]);
        assert(w1[x].subset_of(done(ready, j)));
        assert forall|y: Dep| uses(out[j]).contains(y) implies (r0 + provided(out.take(j))).contains(y) by {
            if !r0.contains(y) {
                assert(w1[x].contains(y));
                assert(done(ready, j).contains(y));
                let i = choose|i: int| 0 <= i < ready.take(j).len() && ready.take(j)[i] == y;
                assert(out.take(j)[i] == h1[ready[i]]);
                assert(def_deps(out.take(j)[i])->Some_0.0 == y);
            }
        }
    }
}

/// The functions of a library, by their tokens.
pub open spec fn lib_deps(li: SListing, names: Seq<Seq<char>>) -> Set<Dep> {
    Set::new(|d: Dep| exists|i: int| 0 <= i < li.1.len() && d == Dep::Function(first_index(names, #[trigger] li.1[i].0) as Name))
}

/// What waits after `add`: `d` also waits for the unresolved ones of `ds`.
pub open spec fn added(waiting: Map<Dep, Set<Dep>>, resolved: Set<Dep>, d: Dep, ds: Set<Dep>) -> Map<Dep, Set<Dep>> {
    waiting.insert(d, (if waiting.contains_key(d) {
        waiting[d]
    } else {
        Set::empty()
    }) + (ds - resolved))
}

/// The name a dependency is about.
pub open spec fn dep_name(d: Dep) -> Name {
    match d {
        Dep::Function(n) => n,
        Dep::Global(n) => n,
    }
}

/// How a dependency is named in messages.
pub open spec fn dep_text(d: Dep, syms: Syms) -> Seq<char> {
    match d {
        Dep::Global(n) => "global "@ + syms[n as int],
        Dep::Function(n) => "function "@ + syms[n as int],
    }
}

/// How a resolved dependency is listed.
pub open spec fn resolved_text(d: Dep, syms: Syms) -> Seq<char> {
    match d {
        Dep::Global(n) => "val("@ + syms[n as int] + ", "@ + int_text(n as int) + ")"@,
        Dep::Function(n) => "fun("@ + syms[n as int] + ")"@,
    }
}

/// The listings of resolved dependencies, joined by spaces.
pub open spec fn resolved_list_text(ds: Seq<Dep>, syms: Syms) -> Seq<char>
    decreases ds.len(),
{
    if ds.len() == 0 {
        Seq::empty()
    } else if ds.len() == 1 {
        resolved_text(ds[0], syms)
    } else {
        resolved_list_text(ds.drop_last(), syms) + " "@ + resolved_text(ds.last(), syms)
    }
}

/// Something that may be the result `IT` of a top-level expression.
pub trait TheIt {
    fn is_the_it(&self) -> bool;
}

impl TheIt for Dep {
    /// Whether this is the global `IT`.
    fn is_the_it(&self) -> (r: bool)
        ensures
            r == (*self == Dep::Global(IT)),
    {
        match self {
            Dep::Global(n) => *n == IT,
            Dep::Function(_) => false,
        }
    }
}

impl TokenString for Dep {
    open spec fn showable(&self, tokens: &Tokens) -> bool {
        tokens.wf() && 0 <= dep_name(*self) < tokens.symbols().len()
    }

    /// `global x` or `function f`.
    fn to_string(&self, tokens: &Tokens) -> (r: String)
        ensures
            r@ == dep_text(*self, tokens.symbols()),
    {
        match self {
            Dep::Global(n) => {
                let mut out = "global ".to_owned();
                out.append(tokens.translate(n));
                out
            },
            Dep::Function(n) => {
                let mut out = "function ".to_owned();
                out.append(tokens.translate(n));
                out
            },
        }
    }
}

/// What the lazy graph needs to know of a definition.
pub trait GetDeps<T> {
    fn deps(&self) -> Option<(T, Vec<T>)>;

    fn is_import(&self) -> Option<&str>;

    fn as_function(n: &Name) -> T;
}

impl GetDeps<Dep> for Def {
    /// What the definition provides, and what it uses (see `def_deps`).
    fn deps(&self) -> (r: Option<(Dep, Vec<Dep>)>)
        ensures
            match def_deps(self@) {
                None => r is None,
                Some((d, ds)) => r matches Some((d2, v)) && d2 == d && v@.to_set() == ds && v@.no_duplicates(),
            },
    {
        let mut res: Vec<Dep> = Vec::new();
        match self {
            Def::Val(n, e) => {
                let formals: Vec<Dep> = Vec::new();
                assert(formals@.to_set() =~= Set::<Dep>::empty());
                assert(res@.to_set() =~= Set::<Dep>::empty());
                e.freevars(&mut res, &formals);
                assert(res@.to_set() =~= freevars(e@, Set::empty()));
                Some((Dep::Global(*n), res))
            },
            Def::Define(n, bs, e) => {
                let mut formals: Vec<Dep> = Vec::new();
                for k in 0..bs.len()
                    invariant
                        formals@ == bs@.take(k as int).map_values(|b: Name| Dep::Global(b)),
                {
                    formals.push(Dep::Global(bs[k]));
                    assert(bs@.take(k + 1).map_values(|b: Name| Dep::Global(b)) =~= bs@.take(k as int).map_values(|b: Name| Dep::Global(b)).push(Dep::Global(bs@[k as int])));
                }
                assert(bs@.take(bs@.len() as int) =~= bs@);
                assert(res@.to_set() =~= Set::<Dep>::empty());
                e.freevars(&mut res, &formals);
                assert(res@.to_set() =~= freevars(e@, bs@.map_values(|b: Name| Dep::Global(b)).to_set()));
                Some((Dep::Function(*n), res))
            },
            Def::Exp(e) => {
                let formals: Vec<Dep> = Vec::new();
                assert(formals@.to_set() =~= Set::<Dep>::empty());
                assert(res@.to_set() =~= Set::<Dep>::empty());
                e.freevars(&mut res, &formals);
                assert(res@.to_set() =~= freevars(e@, Set::empty()));
                Some((Dep::Global(IT), res))
            },
            _ => None,
        }
    }

    /// The library an import names.
    fn is_import(&self) -> (r: Option<&str>)
        ensures
            match self@ {
                SDef::Import(l) => r matches Some(s) && s@ == l,
                _ => r is None,
            },
    {
        match self {
            Def::Import(n) => Some(n.as_str()),
            _ => None,
        }
    }

    /// The dependency on the function `name`.
    fn as_function(name: &Name) -> (r: Dep)
        ensures
            r == Dep::Function(*name),
    {
        Dep::Function(*name)
    }
}

/// What `bump` answers for a top-level expression that uses `ds`: the expression itself
/// when all of `ds` is resolved, else the expression and what it misses.
pub open spec fn top_level_outcome(r: Result<Vec<Def>, (Def, Vec<Dep>)>, def: SDef, ds: Set<Dep>, resolved: Set<Dep>) -> bool {
    if ds.subset_of(resolved) {
        r matches Ok(v) && sdefs(v@) == seq![def]
    } else {
        r matches Err((d, v)) && d@ == def && v@.to_set() == ds - resolved && v@.no_duplicates()
    }
}

/// What `bump` does with a definition `def` that provides `k` and uses `ds`, from the state
/// (`w0`, `r0`, `h0`) to the state (`w`, `rs`, `h`): it is held and waits for what of `ds` is
/// unresolved. If `k` was resolved before, or still waits, nothing comes back. Otherwise `k`
/// and every held definition that now waits for nothing else are resolved, and come back in
/// an order in which each follows what it waited for.
pub open spec fn held_outcome(
    w0: Map<Dep, Set<Dep>>,
    r0: Seq<Dep>,
    h0: Map<Dep, SDef>,
    k: Dep,
    ds: Set<Dep>,
    def: SDef,
    r: Result<Vec<Def>, (Def, Vec<Dep>)>,
    w: Map<Dep, Set<Dep>>,
    rs: Seq<Dep>,
    h: Map<Dep, SDef>,
) -> bool {
    let w1 = added(w0, r0.to_set(), k, ds);
    let h1 = h0.insert(k, def);
    if r0.to_set().contains(k) || !w1[k].is_empty() {
        &&& r matches Ok(v) && v@.len() == 0
        &&& w == w1
        &&& h == h1
        &&& rs == r0
    } else {
        r matches Ok(v) && exists|ready: Seq<Dep>|
            {
                &&& resolution_order(w1, r0.to_set(), k, ready)
                &&& resolution_complete(w1, r0.to_set(), ready)
                &&& sdefs(v@) == ready.map_values(|x: Dep| h1[x])
                &&& w == after_resolution(w1, ready)
                &&& h == h1.remove_keys(ready.to_set())
                &&& rs == r0 + ready
            }
    }
}

// Explaining a refusal

/// The dependencies that the functions of `s` wait for, one list after another.
pub open spec fn all_waited(s: Seq<(Dep, Vec<Dep>)>) -> Seq<Dep>
    decreases s.len(),
{
    if s.len() == 0 {
        Seq::empty()
    } else {
        all_waited(s.drop_last()) + s.last().1@
    }
}

proof fn lemma_all_waited(s: Seq<(Dep, Vec<Dep>)>, x: int, y: Dep)
    requires
        0 <= x < s.len(),
        s[x].1@.contains(y),
    ensures
        all_waited(s).contains(y),
    decreases s.len(),
{
    let last = s.last().1@;
    let init = all_waited(s.drop_last());
    if x == s.len() - 1 {
        let j = choose|j: int| 0 <= j < last.len() && last[j] == y;
        assert((init + last)[init.len() + j] == y);
    } else {
        assert(s.drop_last()[x] == s[x]);
        lemma_all_waited(s.drop_last(), x, y);
        let j = choose|j: int| 0 <= j < init.len() && init[j] == y;
        assert((init + last)[j] == y);
    }
}

/// `v` holds `start`, and with each function that waits, everything it waits for.
pub open spec fn search_closed(w: Map<Dep, Set<Dep>>, start: Set<Dep>, v: Set<Dep>) -> bool {
    &&& start.subset_of(v)
    &&& forall|f: Dep| #[trigger] v.contains(f) && f is Function && w.contains_key(f) ==> w[f].subset_of(v)
}

/// `v` is the least set closed in that way: what a search from `start` reaches.
pub open spec fn search_from(w: Map<Dep, Set<Dep>>, start: Set<Dep>, v: Set<Dep>) -> bool {
    &&& search_closed(w, start, v)
    &&& forall|v2: Set<Dep>| #[trigger] search_closed(w, start, v2) ==> v.subset_of(v2)
}

/// What a search reaches and is missing: a global, or a function that is not waiting.
pub open spec fn is_missing(w: Map<Dep, Set<Dep>>, d: Dep) -> bool {
    d is Global || !w.contains_key(d)
}

/// How a missing function is named.
pub open spec fn missing_fn_text(d: Dep, syms: Syms) -> Seq<char> {
    "'"@ + syms[dep_name(d) as int] + "'"@
}

/// How a missing global is named.
pub open spec fn missing_global_text(d: Dep, syms: Syms) -> Seq<char> {
    if ends_bracket_text(syms[dep_name(d) as int]) {
        syms[dep_name(d) as int] + "]"@
    } else {
        syms[dep_name(d) as int]
    }
}

/// The names of missing functions, joined by `", "`.
pub open spec fn missing_fns_text(ds: Seq<Dep>, syms: Syms) -> Seq<char>
    decreases ds.len(),
{
    if ds.len() == 0 {
        Seq::empty()
    } else if ds.len() == 1 {
        missing_fn_text(ds[0], syms)
    } else {
        missing_fns_text(ds.drop_last(), syms) + ", "@ + missing_fn_text(ds.last(), syms)
    }
}

/// The names of missing globals, joined by `", "`.
pub open spec fn missing_globals_text(ds: Seq<Dep>, syms: Syms) -> Seq<char>
    decreases ds.len(),
{
    if ds.len() == 0 {
        Seq::empty()
    } else if ds.len() == 1 {
        missing_global_text(ds[0], syms)
    } else {
        missing_globals_text(ds.drop_last(), syms) + ", "@ + missing_global_text(ds.last(), syms)
    }
}

/// The message for a definition that cannot be compiled, with the missing functions `fs` and
/// the missing globals `gs`.
pub open spec fn explain_text(def: SDef, syms: Syms, fs: Seq<Dep>, gs: Seq<Dep>) -> Seq<char> {
    "Cannot compile "@ + (if def is Exp {
        "top level expression"@
    } else {
        "definition"@
    }) + ": "@ + def_text(def, syms) + "\n"@ + (if fs.len() > 0 {
        "Unbound functions: "@ + missing_fns_text(fs, syms)
    } else {
        ""@
    }) + (if fs.len() > 0 && gs.len() > 0 {
        "\n"@
    } else {
        ""@
    }) + (if gs.len() > 0 {
        "Unbound globals: "@ + missing_globals_text(gs, syms)
    } else {
        ""@
    })
}

/// A copy of a list of dependencies.
fn copy_deps(v: &Vec<Dep>) -> (r: Vec<Dep>)
    ensures
        r@ == v@,
{
    let mut r: Vec<Dep> = Vec::new();
    for k in 0..v.len()
        invariant
            r@ == v@.take(k as int),
    {
        r.push(v[k]);
        assert(v@.take(k + 1) =~= v@.take(k as int).push(v@[k as int]));
    }
    assert(v@.take(v@.len() as int) =~= v@);
    r
}

impl LazyGraph<Dep, Def> {
    /// What each waiting definition still waits for.
    pub closed spec fn waiting(&self) -> Map<Dep, Set<Dep>> {
        pairs_map(self.still_unresolved@, |v: Vec<Dep>| dep_set(v))
    }

    /// What is defined, in the order it was resolved.
    pub closed spec fn resolved_seq(&self) -> Seq<Dep> {
        self.already_resolved@
    }

    /// What is defined.
    pub open spec fn resolved(&self) -> Set<Dep> {
        self.resolved_seq().to_set()
    }

    /// The definitions held until they can be compiled, by what they define.
    pub closed spec fn held(&self) -> Map<Dep, SDef> {
        pairs_map(self.defs@, |d: Def| def_model(d))
    }

    /// The vectors stand for maps and sets: no key and no element occurs twice.
    pub closed spec fn repr_ok(&self) -> bool {
        &&& keys_unique(self.still_unresolved@)
        &&& forall|i: int| 0 <= i < self.still_unresolved@.len() ==> (#[trigger] self.still_unresolved@[i]).1@.no_duplicates()
        &&& self.already_resolved@.no_duplicates()
        &&& keys_unique(self.defs@)
    }

    /// A definition that waits and is not resolved waits for something, and is held.
    pub open spec fn waits_well(&self, k: Dep) -> bool {
        self.waiting().contains_key(k) && !self.resolved().contains(k) ==> !self.waiting()[k].is_empty() && self.held().contains_key(k)
    }

    /// A held definition waits, provides its key, and uses nothing but what it waits for
    /// and what is resolved.
    pub open spec fn holds_well(&self, k: Dep) -> bool {
        self.held().contains_key(k) ==> {
            &&& self.waiting().contains_key(k)
            &&& def_deps(self.held()[k]) is Some
            &&& def_deps(self.held()[k])->Some_0.0 == k
            &&& def_deps(self.held()[k])->Some_0.1.subset_of(self.waiting()[k] + self.resolved())
        }
    }

    pub open spec fn wf(&self) -> bool {
        &&& self.repr_ok()
        &&& forall|k: Dep| #[trigger] self.waits_well(k)
        &&& forall|k: Dep| #[trigger] self.holds_well(k)
    }

    /// An empty graph.
    pub fn new() -> (r: Self)
        ensures
            r.wf(),
            r.waiting() == Map::<Dep, Set<Dep>>::empty(),
            r.resolved_seq() == Seq::<Dep>::empty(),
            r.held() == Map::<Dep, SDef>::empty(),
    {
        let r = LazyGraph { still_unresolved: Vec::new(), already_resolved: Vec::new(), defs: Vec::new() };
        assert(r.waiting() =~= Map::<Dep, Set<Dep>>::empty());
        assert(r.held() =~= Map::<Dep, SDef>::empty());
        r
    }

    /// Records that `depee` waits for `new_depcys`, but for what is already resolved.
    fn add(&mut self, depee: &Dep, new_depcys: Vec<Dep>)
        requires
            old(self).repr_ok(),
        ensures
            final(self).repr_ok(),
            final(self).waiting() == old(self).waiting().insert(*depee, (if old(self).waiting().contains_key(*depee) {
                old(self).waiting()[*depee]
            } else {
                Set::empty()
            }) + (new_depcys@.to_set() - old(self).resolved())),
            final(self).resolved_seq() == old(self).resolved_seq(),
            final(self).held() == old(self).held(),
    {
        let ghost f = |v: Vec<Dep>| dep_set(v);
        let ghost res = self.already_resolved@.to_set();
        let ghost w0 = self.waiting();
        let (k, mut set, at): (Dep, Vec<Dep>, Option<usize>) = match find_entry(&self.still_unresolved, depee) {
            Some(i) => {
                let (k, v) = self.still_unresolved.remove(i);
                (k, v, Some(i))
            },
            None => (*depee, Vec::new(), None),
        };
        let ghost set0 = set@.to_set();
        assert(set0 == (if w0.contains_key(*depee) { w0[*depee] } else { Set::<Dep>::empty() })) by {
            match at {
                Some(i) => {
                    lemma_pairs_lookup(old(self).still_unresolved@, f, i as int);
                },
                None => {
                    assert(set@ =~= Seq::<Dep>::empty());
                },
            }
        }
        let mut j: usize = 0;
        while j < new_depcys.len()
            invariant
                j <= new_depcys@.len(),
                self.already_resolved@ == old(self).already_resolved@,
                res == self.already_resolved@.to_set(),
                at is Some ==> set0 == w0[*depee],
                set@.no_duplicates(),
                set@.to_set() == set0 + (new_depcys@.take(j as int).to_set() - res),
            decreases new_depcys@.len() - j,
        {
            let d = new_depcys[j];
            if !has_dep(&self.already_resolved, d) {
                insert_dep(&mut set, d);
            }
            proof {
                assert(new_depcys@.take(j + 1) =~= new_depcys@.take(j as int).push(d));
                new_depcys@.take(j as int).lemma_push_to_set_commute(d);
                assert(set@.to_set() =~= set0 + (new_depcys@.take(j + 1).to_set() - res));
            }
            j = j + 1;
        }
        assert(new_depcys@.take(new_depcys@.len() as int) =~= new_depcys@);
        let ghost sv = set@.to_set();
        match at {
            Some(i) => {
                self.still_unresolved.insert(i, (k, set));
                proof {
                    let s0 = old(self).still_unresolved@;
                    assert(self.still_unresolved@ =~= s0.update(i as int, (s0[i as int].0, set)));
                    lemma_pairs_update(s0, f, i as int, set);
                    assert forall|x: int| 0 <= x < self.still_unresolved@.len() implies (#[trigger] self.still_unresolved@[x]).1@.no_duplicates() by {
                        if x != i {
                            assert(self.still_unresolved@[x] == s0[x]);
                        }
                    }
                }
            },
            None => {
                self.still_unresolved.push((k, set));
                proof {
                    let s0 = old(self).still_unresolved@;
                    lemma_pairs_push(s0, f, *depee, set);
                    assert forall|x: int| 0 <= x < self.still_unresolved@.len() implies (#[trigger] self.still_unresolved@[x]).1@.no_duplicates() by {
                        if x < s0.len() {
                            assert(self.still_unresolved@[x] == s0[x]);
                        }
                    }
                }
            },
        }
        assert(self.waiting() =~= w0.insert(*depee, sv));
    }

    /// Resolves `depee` if nothing it waits for is missing, then, in turn, every waiting
    /// definition that waited for nothing else; the resolved ones come back in that order.
    #[verifier::rlimit(60)]
    fn try_resolve(&mut self, depee: &Dep) -> (r: Result<Vec<Dep>, LazyGraphError<Dep>>)
        requires
            old(self).repr_ok(),
            forall|k: Dep|
                k != *depee && #[trigger] old(self).waiting().contains_key(k) && !old(self).resolved().contains(k)
                    ==> !old(self).waiting()[k].is_empty(),
        ensures
            final(self).repr_ok(),
            final(self).held() == old(self).held(),
            old(self).resolved().contains(*depee) ==> {
                &&& r matches Ok(v) && v@.len() == 0
                &&& final(self).waiting() == old(self).waiting()
                &&& final(self).resolved_seq() == old(self).resolved_seq()
            },
            !old(self).resolved().contains(*depee) && !old(self).waiting().contains_key(*depee) ==> {
                &&& r matches Err(LazyGraphError::NotFound(x)) && x == *depee
                &&& final(self).waiting() == old(self).waiting()
                &&& final(self).resolved_seq() == old(self).resolved_seq()
            },
            !old(self).resolved().contains(*depee) && old(self).waiting().contains_key(*depee) && !old(self).waiting()[*depee].is_empty() ==> {
                &&& r matches Err(LazyGraphError::CannotResolve(x, v)) && x == *depee && v@.to_set() == old(self).waiting()[*depee]
                &&& final(self).waiting() == old(self).waiting()
                &&& final(self).resolved_seq() == old(self).resolved_seq()
            },
            !old(self).resolved().contains(*depee) && old(self).waiting().contains_key(*depee) && old(self).waiting()[*depee].is_empty() ==> (
                r matches Ok(ready) && resolution_order(old(self).waiting(), old(self).resolved(), *depee, ready@)
                    && resolution_complete(old(self).waiting(), old(self).resolved(), ready@)
                    && final(self).waiting() == after_resolution(old(self).waiting(), ready@)
                    && final(self).resolved_seq() == old(self).resolved_seq() + ready@),
    {
        let ghost f = |v: Vec<Dep>| dep_set(v);
        let ghost s0 = self.still_unresolved@;
        let ghost w0 = self.waiting();
        let ghost r0 = self.already_resolved@;
        let ghost rs0 = r0.to_set();
        let d = *depee;
        proof {
            lemma_pairs_all(s0, f);
        }
        if has_dep(&self.already_resolved, d) {
            return Ok(Vec::new());
        }
        let i = match find_entry(&self.still_unresolved, depee) {
            None => {
                return Err(LazyGraphError::NotFound(d));
            },
            Some(i) => i,
        };
        if self.still_unresolved[i].1.len() > 0 {
            let v = copy_deps(&self.still_unresolved[i].1);
            proof {
                assert(v@.to_set().contains(v@[0]));
            }
            return Err(LazyGraphError::CannotResolve(d, v));
        }
        assert(w0[d] =~= Set::<Dep>::empty()) by {
            assert(s0[i as int].1@.len() == 0);
        }
        let mut ready: Vec<Dep> = Vec::new();
        ready.push(d);
        self.already_resolved.push(d);
        proof {
            assert(done(ready@, 0) =~= Set::<Dep>::empty());
            assert forall|x: int| 0 <= x < s0.len() implies #[trigger] stuck(s0, rs0, ready@, x, 0) by {
                assert(ready@[0] == d);
                if !rs0.contains(s0[x].0) && !ready@.contains(s0[x].0) {
                    assert(s0[x].0 != d);
                    assert(w0.contains_key(s0[x].0));
                }
            }
        }
        let mut idx: usize = 0;
        while idx < ready.len()
            invariant
                keys_unique(s0),
                w0 == pairs_map(s0, f),
                forall|x: int| 0 <= x < s0.len() ==> w0.contains_key(#[trigger] s0[x].0) && w0[s0[x].0] == s0[x].1@.to_set(),
                rs0 == r0.to_set(),
                self.defs == old(self).defs,
                self.still_unresolved@.len() == s0.len(),
                forall|x: int| 0 <= x < s0.len() ==> (#[trigger] self.still_unresolved@[x]).0 == s0[x].0
                    && self.still_unresolved@[x].1@.no_duplicates()
                    && self.still_unresolved@[x].1@.to_set() == s0[x].1@.to_set() - done(ready@, idx as int),
                self.already_resolved@ == r0 + ready@,
                r0.no_duplicates(),
                resolution_order(w0, rs0, d, ready@),
                idx <= ready@.len() <= s0.len(),
                forall|x: int| 0 <= x < s0.len() ==> #[trigger] stuck(s0, rs0, ready@, x, idx as int),
            decreases s0.len() - ready@.len(), ready@.len() - idx,
        {
            let r = ready[idx];
            let ghost before = done(ready@, idx as int);
            let ghost after = done(ready@, idx + 1);
            assert(ready@.take(idx + 1) =~= ready@.take(idx as int).push(r));
            proof {
                ready@.take(idx as int).lemma_push_to_set_commute(r);
            }
            assert(after == before.insert(r));
            let ghost len0 = ready@.len();
            let mut w: usize = 0;
            while w < self.still_unresolved.len()
                invariant
                    keys_unique(s0),
                    w0 == pairs_map(s0, f),
                    forall|x: int| 0 <= x < s0.len() ==> w0.contains_key(#[trigger] s0[x].0) && w0[s0[x].0] == s0[x].1@.to_set(),
                    rs0 == r0.to_set(),
                    self.defs == old(self).defs,
                    self.still_unresolved@.len() == s0.len(),
                    w <= s0.len(),
                    idx < len0 <= ready@.len() <= s0.len(),
                    r == ready@[idx as int],
                    before == done(ready@, idx as int),
                    after == done(ready@, idx + 1),
                    after == before.insert(r),
                    forall|x: int| 0 <= x < s0.len() ==> (#[trigger] self.still_unresolved@[x]).0 == s0[x].0
                        && self.still_unresolved@[x].1@.no_duplicates()
                        && self.still_unresolved@[x].1@.to_set() == s0[x].1@.to_set() - (if x < w { after } else { before }),
                    self.already_resolved@ == r0 + ready@,
                    r0.no_duplicates(),
                    resolution_order(w0, rs0, d, ready@),
                    forall|x: int| 0 <= x < w ==> #[trigger] stuck(s0, rs0, ready@, x, idx + 1),
                    forall|x: int| w <= x < s0.len() ==> #[trigger] stuck(s0, rs0, ready@, x, idx as int),
                decreases s0.len() - w,
            {
                let ghost ready_before = ready@;
                let (k, mut set) = self.still_unresolved.remove(w);
                remove_dep(&mut set, r);
                let empty = set.len() == 0;
                self.still_unresolved.insert(w, (k, set));
                assert(k == s0[w as int].0);
                let ghost cur = s0[w as int].1@.to_set() - after;
                assert(set@.to_set() =~= cur);
                if empty && !has_dep(&self.already_resolved, k) {
                    ready.push(k);
                    self.already_resolved.push(k);
                    proof {
                        assert(set@.len() == 0);
                        assert(cur =~= Set::<Dep>::empty());
                        let j = ready_before.len() as int;
                        assert(!(r0 + ready_before).contains(k));
                        assert(!rs0.contains(k)) by {
                            if rs0.contains(k) {
                                let a = choose|a: int| 0 <= a < r0.len() && r0[a] == k;
                                assert((r0 + ready_before)[a] == k);
                            }
                        }
                        assert(!ready_before.contains(k)) by {
                            if ready_before.contains(k) {
                                let a = choose|a: int| 0 <= a < ready_before.len() && ready_before[a] == k;
                                assert((r0 + ready_before)[r0.len() + a] == k);
                            }
                        }
                        assert forall|a: int| 0 <= a < j implies ready@.take(a) == ready_before.take(a) by {
                            assert(ready@.take(a) =~= ready_before.take(a));
                        }
                        assert(w0[k].subset_of(done(ready@, j))) by {
                            assert(w0[k] == s0[w as int].1@.to_set());
                            assert forall|y: Dep| w0[k].contains(y) implies done(ready@, j).contains(y) by {
                                assert(!cur.contains(y));
                                assert(after.contains(y));
                                assert(ready_before.take(idx + 1).contains(y));
                                let b = choose|b: int| 0 <= b < ready_before.take(idx + 1).len() && #[trigger] ready_before.take(idx + 1)[b] == y;
                                assert(ready@.take(j)[b] == y);
                            }
                        }
                        assert(resolution_order(w0, rs0, d, ready@)) by {
                            assert forall|a: int| 0 <= a < ready@.len() implies !rs0.contains(#[trigger] ready@[a]) && w0.contains_key(ready@[a])
                                && w0[ready@[a]].subset_of(done(ready@, a)) by {
                                if a < j {
                                    assert(ready@[a] == ready_before[a]);
                                    assert(done(ready@, a) == done(ready_before, a));
                                }
                            }
                            assert(ready@.no_duplicates()) by {
                                assert forall|a: int, b: int| 0 <= a < ready@.len() && 0 <= b < ready@.len() && a != b implies ready@[a] != ready@[b] by {
                                    if a < j && b < j {
                                        assert(ready@[a] == ready_before[a] && ready@[b] == ready_before[b]);
                                    } else if a < j {
                                        assert(ready@[a] == ready_before[a]);
                                    } else if b < j {
                                        assert(ready@[b] == ready_before[b]);
                                    }
                                }
                            }
                        }
                        assert(done(ready@, idx as int) == before) by {
                            assert(ready@.take(idx as int) =~= ready_before.take(idx as int));
                        }
                        assert(done(ready@, idx + 1) == after) by {
                            assert(ready@.take(idx + 1) =~= ready_before.take(idx + 1));
                        }
                        assert((r0 + ready_before).push(k) =~= r0 + ready@);
                        assert forall|a: int| 0 <= a < ready@.len() implies has_key(s0, #[trigger] ready@[a]) by {
                            assert(w0.contains_key(ready@[a]));
                        }
                        lemma_keys_bound(s0, ready@);
                    }
                }
                proof {
                    assert forall|x: int| 0 <= x < w + 1 implies #[trigger] stuck(s0, rs0, ready@, x, idx + 1) by {
                        if x == w {
                            if s0[x].1@.to_set().subset_of(after) {
                                assert(cur =~= Set::<Dep>::empty());
                                assert(set@.len() == 0) by {
                                    if set@.len() > 0 {
                                        assert(set@.to_set().contains(set@[0]));
                                    }
                                }
                                assert(ready@.contains(k) || rs0.contains(k)) by {
                                    if !ready_before.contains(k) && !rs0.contains(k) {
                                        assert(ready@.last() == k);
                                    } else if ready_before.contains(k) {
                                        let a = choose|a: int| 0 <= a < ready_before.len() && ready_before[a] == k;
                                        assert(ready@[a] == k);
                                    }
                                }
                            }
                        } else {
                            assert(stuck(s0, rs0, ready_before, x, idx + 1));
                            assert(ready_before.contains(s0[x].0) ==> ready@.contains(s0[x].0)) by {
                                if ready_before.contains(s0[x].0) {
                                    let a = choose|a: int| 0 <= a < ready_before.len() && ready_before[a] == s0[x].0;
                                    assert(ready@[a] == s0[x].0);
                                }
                            }
                        }
                    }
                    assert forall|x: int| w + 1 <= x < s0.len() implies #[trigger] stuck(s0, rs0, ready@, x, idx as int) by {
                        assert(stuck(s0, rs0, ready_before, x, idx as int));
                        assert(ready_before.contains(s0[x].0) ==> ready@.contains(s0[x].0)) by {
                            if ready_before.contains(s0[x].0) {
                                let a = choose|a: int| 0 <= a < ready_before.len() && ready_before[a] == s0[x].0;
                                assert(ready@[a] == s0[x].0);
                            }
                        }
                    }
                    assert forall|x: int| 0 <= x < s0.len() implies (#[trigger] self.still_unresolved@[x]).0 == s0[x].0
                        && self.still_unresolved@[x].1@.no_duplicates()
                        && self.still_unresolved@[x].1@.to_set() == s0[x].1@.to_set() - (if x < w + 1 { after } else { before }) by {
                        if x == w {
                            assert(self.still_unresolved@[x] == (k, set));
                        }
                    }
                }
                w = w + 1;
            }
            idx = idx + 1;
        }
        assert(ready@.take(ready@.len() as int) =~= ready@);
        let ghost rset = ready@.to_set();
        proof {
            assert forall|x: Dep| #[trigger] w0.contains_key(x) && !rs0.contains(x) && !ready@.contains(x) implies !w0[x].subset_of(rset) by {
                let a = choose|a: int| 0 <= a < s0.len() && (#[trigger] s0[a]).0 == x;
                assert(w0[s0[a].0] == s0[a].1@.to_set());
                assert(stuck(s0, rs0, ready@, a, ready@.len() as int));
            }
        }
        proof {
            assert forall|k: Dep| has_key(s0, k) && !ready@.contains(k) implies #[trigger] has_key(self.still_unresolved@, k) by {
                let a = choose|a: int| 0 <= a < s0.len() && (#[trigger] s0[a]).0 == k;
                assert(self.still_unresolved@[a].0 == k);
            }
            assert forall|x: int| 0 <= x < self.still_unresolved@.len() implies has_key(s0, (#[trigger] self.still_unresolved@[x]).0)
                && self.still_unresolved@[x].1@.no_duplicates()
                && self.still_unresolved@[x].1@.to_set() == w0[self.still_unresolved@[x].0] - rset by {
                assert(self.still_unresolved@[x].0 == s0[x].0);
                assert(w0[s0[x].0] == s0[x].1@.to_set());
            }
            assert forall|a: int, b: int| 0 <= a < b < self.still_unresolved@.len() implies (#[trigger] self.still_unresolved@[a]).0 != (#[trigger] self.still_unresolved@[b]).0 by {
                assert(self.still_unresolved@[a].0 == s0[a].0);
                assert(self.still_unresolved@[b].0 == s0[b].0);
            }
        }
        let mut w: usize = 0;
        while w < self.still_unresolved.len()
            invariant
                keys_unique(s0),
                forall|x: int| 0 <= x < s0.len() ==> w0.contains_key(#[trigger] s0[x].0) && w0[s0[x].0] == s0[x].1@.to_set(),
                self.defs == old(self).defs,
                rset == ready@.to_set(),
                self.already_resolved@ == r0 + ready@,
                r0.no_duplicates(),
                rs0 == r0.to_set(),
                resolution_order(w0, rs0, d, ready@),
                resolution_complete(w0, rs0, ready@),
                w <= self.still_unresolved@.len(),
                keys_unique(self.still_unresolved@),
                forall|x: int| 0 <= x < self.still_unresolved@.len() ==> has_key(s0, (#[trigger] self.still_unresolved@[x]).0)
                    && self.still_unresolved@[x].1@.no_duplicates()
                    && self.still_unresolved@[x].1@.to_set() == w0[self.still_unresolved@[x].0] - rset,
                forall|x: int| 0 <= x < w ==> !ready@.contains((#[trigger] self.still_unresolved@[x]).0),
                forall|k: Dep| has_key(s0, k) && !ready@.contains(k) ==> #[trigger] has_key(self.still_unresolved@, k),
            decreases self.still_unresolved@.len() - w,
        {
            if has_dep(&ready, self.still_unresolved[w].0) {
                let ghost before = self.still_unresolved@;
                self.still_unresolved.remove(w);
                proof {
                    let t = self.still_unresolved@;
                    assert forall|a: int, b: int| 0 <= a < b < t.len() implies (#[trigger] t[a]).0 != (#[trigger] t[b]).0 by {
                        let a0 = if a < w { a } else { a + 1 };
                        let b0 = if b < w { b } else { b + 1 };
                        assert(t[a] == before[a0] && t[b] == before[b0]);
                    }
                    assert forall|x: int| 0 <= x < t.len() implies has_key(s0, (#[trigger] t[x]).0)
                        && t[x].1@.no_duplicates() && t[x].1@.to_set() == w0[t[x].0] - rset by {
                        let x0 = if x < w { x } else { x + 1 };
                        assert(t[x] == before[x0]);
                    }
                    assert forall|x: int| 0 <= x < w implies !ready@.contains((#[trigger] t[x]).0) by {
                        assert(t[x] == before[x]);
                    }
                    assert forall|k: Dep| has_key(s0, k) && !ready@.contains(k) implies #[trigger] has_key(t, k) by {
                        assert(has_key(before, k));
                        let a = choose|a: int| 0 <= a < before.len() && (#[trigger] before[a]).0 == k;
                        assert(a != w);
                        if a < w {
                            assert(t[a] == before[a]);
                        } else {
                            assert(t[a - 1] == before[a]);
                        }
                    }
                }
            } else {
                w = w + 1;
            }
        }
        proof {
            let t = self.still_unresolved@;
            lemma_pairs_all(t, f);
            let m = self.waiting();
            let m0 = after_resolution(w0, ready@);
            assert forall|k: Dep| #[trigger] m.contains_key(k) <==> m0.contains_key(k) by {
                if has_key(t, k) {
                    let a = choose|a: int| 0 <= a < t.len() && (#[trigger] t[a]).0 == k;
                    assert(has_key(s0, k));
                    let b = choose|b: int| 0 <= b < s0.len() && (#[trigger] s0[b]).0 == k;
                    assert(w0.contains_key(s0[b].0));
                }
                if m0.contains_key(k) {
                    let b = choose|b: int| 0 <= b < s0.len() && (#[trigger] s0[b]).0 == k;
                    assert(has_key(s0, k));
                }
            }
            assert forall|k: Dep| #[trigger] m.contains_key(k) implies m[k] == m0[k] by {
                let a = choose|a: int| 0 <= a < t.len() && (#[trigger] t[a]).0 == k;
            }
            assert(m =~= m0);
            assert(self.already_resolved@.no_duplicates()) by {
                let all = r0 + ready@;
                assert forall|a: int, b: int| 0 <= a < all.len() && 0 <= b < all.len() && a != b implies all[a] != all[b] by {
                    if a < r0.len() && b >= r0.len() {
                        assert(!rs0.contains(ready@[b - r0.len()]));
                        assert(r0.contains(all[a]));
                    } else if b < r0.len() && a >= r0.len() {
                        assert(!rs0.contains(ready@[a - r0.len()]));
                        assert(r0.contains(all[b]));
                    }
                }
            }
        }
        Ok(ready)
    }

    /// Marks the functions of the library `libname` as resolved.
    pub fn resolve_lib(&mut self, libname: &str, tokens: &Tokens) -> (r: Result<(), String>)
        requires
            old(self).wf(),
            tokens.wf(),
            lib_fns_tokenized(libname@, tokens.names()),
        ensures
            final(self).wf(),
            final(self).waiting() == old(self).waiting(),
            final(self).held() == old(self).held(),
            final(self).resolved_seq().no_duplicates(),
            match lib_spec(libname@) {
                None => r matches Err(e) && e@ == unbound_lib_msg(libname@) && final(self).resolved_seq() == old(self).resolved_seq(),
                Some(li) => r is Ok && final(self).resolved() == old(self).resolved() + lib_deps(li, tokens.names())
                    && old(self).resolved_seq().is_prefix_of(final(self).resolved_seq()),
            },
    {
        let listing = libmapping(libname)?;
        let ghost li = listing_view(listing);
        let ghost names = tokens.names();
        let ghost r0 = self.already_resolved@;
        let fns = &listing.1;
        assert(lib_spec(libname@) == Some(li));
        assert(lib_fns_tokenized(libname@, names));
        assert forall|i: int| 0 <= i < li.1.len() implies names.contains(#[trigger] li.1[i].0) by {
            assert(lib_spec(libname@)->Some_0 == li);
        }
        for k in 0..fns.len()
            invariant
                tokens.wf(),
                names == tokens.names(),
                li == listing_view(listing),
                li.1 == fns@.map_values(|f: crate::implib::LibFn| (f.0@, f.1@, f.2@)),
                forall|i: int| 0 <= i < li.1.len() ==> names.contains(#[trigger] li.1[i].0),
                self.repr_ok(),
                self.still_unresolved == old(self).still_unresolved,
                self.defs == old(self).defs,
                self.already_resolved@.to_set() == r0.to_set() + Set::new(|d: Dep| exists|i: int| 0 <= i < k && d == Dep::Function(first_index(names, #[trigger] li.1[i].0) as Name)),
                r0.is_prefix_of(self.already_resolved@),
        {
            let name = fns[k].0;
            assert(li.1[k as int].0 == name@);
            let t = tokens.get(name);
            let ghost before = self.already_resolved@;
            insert_dep(&mut self.already_resolved, <Def as GetDeps<Dep>>::as_function(&t));
            proof {
                let prev = Set::new(|d: Dep| exists|i: int| 0 <= i < k && d == Dep::Function(first_index(names, #[trigger] li.1[i].0) as Name));
                let next = Set::new(|d: Dep| exists|i: int| 0 <= i < k + 1 && d == Dep::Function(first_index(names, #[trigger] li.1[i].0) as Name));
                assert(next =~= prev.insert(Dep::Function(t))) by {
                    assert forall|d: Dep| next.contains(d) <==> prev.contains(d) || d == Dep::Function(t) by {
                        if d == Dep::Function(t) {
                            assert(d == Dep::Function(first_index(names, li.1[k as int].0) as Name));
                        }
                        if next.contains(d) {
                            let i = choose|i: int| 0 <= i < k + 1 && d == Dep::Function(first_index(names, #[trigger] li.1[i].0) as Name);
                            if i < k {
                                assert(prev.contains(d));
                            }
                        }
                    }
                }
                assert(self.already_resolved@.to_set() =~= r0.to_set() + next);
                assert(r0.is_prefix_of(self.already_resolved@)) by {
                    if self.already_resolved@ != before {
                        assert(self.already_resolved@.take(r0.len() as int) =~= before.take(r0.len() as int));
                    }
                }
            }
        }
        proof {
            assert(Set::new(|d: Dep| exists|i: int| 0 <= i < fns@.len() && d == Dep::Function(first_index(names, #[trigger] li.1[i].0) as Name))
                =~= lib_deps(li, names));
            assert forall|k: Dep| #[trigger] self.waits_well(k) by {
                assert(old(self).waits_well(k));
            }
            assert forall|k: Dep| #[trigger] self.holds_well(k) by {
                assert(old(self).holds_well(k));
            }
        }
        Ok(())
    }

    /// Holds `def` as the definition of `k`, in place of any before it.
    fn hold(&mut self, k: Dep, def: Def)
        requires
            keys_unique(old(self).defs@),
        ensures
            keys_unique(final(self).defs@),
            final(self).held() == old(self).held().insert(k, def@),
            final(self).still_unresolved == old(self).still_unresolved,
            final(self).already_resolved == old(self).already_resolved,
    {
        let ghost f = |d: Def| def_model(d);
        match find_entry(&self.defs, &k) {
            Some(i) => {
                let ghost s0 = self.defs@;
                self.defs.remove(i);
                self.defs.insert(i, (k, def));
                proof {
                    assert(self.defs@ =~= s0.update(i as int, (s0[i as int].0, def)));
                    lemma_pairs_update(s0, f, i as int, def);
                }
            },
            None => {
                let ghost s0 = self.defs@;
                self.defs.push((k, def));
                proof {
                    lemma_pairs_push(s0, f, k, def);
                }
            },
        }
    }

    /// Takes the definition held for `k`, if there is one.
    fn release(&mut self, k: &Dep) -> (r: Option<Def>)
        requires
            keys_unique(old(self).defs@),
        ensures
            keys_unique(final(self).defs@),
            final(self).held() == old(self).held().remove(*k),
            match r {
                Some(d) => old(self).held().contains_key(*k) && d@ == old(self).held()[*k],
                None => !old(self).held().contains_key(*k),
            },
            final(self).still_unresolved == old(self).still_unresolved,
            final(self).already_resolved == old(self).already_resolved,
    {
        let ghost f = |d: Def| def_model(d);
        let ghost s0 = self.defs@;
        proof {
            lemma_pairs_all(s0, f);
        }
        match find_entry(&self.defs, k) {
            Some(i) => {
                let (_, d) = self.defs.remove(i);
                proof {
                    lemma_pairs_remove(s0, f, i as int);
                }
                Some(d)
            },
            None => {
                assert(self.held() =~= old(self).held().remove(*k));
                None
            },
        }
    }

    /// Takes in one definition, and hands back those that can now be compiled, in an order
    /// in which each comes after what it uses: an import (whose functions become resolved)
    /// and a definition that provides nothing come back at once; a top-level expression
    /// comes back if all it uses is resolved, and is refused with what it misses if not; any
    /// other definition is held until all it uses is resolved, and then comes back with the
    /// held definitions that waited for nothing else.
    pub fn bump(&mut self, def: Def, tokens: &Tokens) -> (r: Result<Vec<Def>, (Def, Vec<Dep>)>)
        requires
            old(self).wf(),
            tokens.wf(),
            def@ matches SDef::Import(l) ==> lib_spec(l) is Some && lib_fns_tokenized(l, tokens.names()),
        ensures
            final(self).wf(),
            final(self).resolved_seq().no_duplicates(),
            old(self).resolved_seq().is_prefix_of(final(self).resolved_seq()),
            r matches Ok(v) ==> in_dependency_order(sdefs(v@), old(self).resolved()),
            def@ is Import ==> {
                &&& r matches Ok(v) && sdefs(v@) == seq![def@]
                &&& final(self).waiting() == old(self).waiting()
                &&& final(self).held() == old(self).held()
                &&& final(self).resolved() == old(self).resolved() + lib_deps(lib_spec(def@->Import_0)->Some_0, tokens.names())
                &&& old(self).resolved_seq().is_prefix_of(final(self).resolved_seq())
            },
            !(def@ is Import) && def_deps(def@) is None ==> {
                &&& r matches Ok(v) && sdefs(v@) == seq![def@]
                &&& final(self).waiting() == old(self).waiting()
                &&& final(self).held() == old(self).held()
                &&& final(self).resolved_seq() == old(self).resolved_seq()
            },
            def_deps(def@) is Some && def_deps(def@)->Some_0.0 == Dep::Global(IT) ==> {
                &&& final(self).waiting() == old(self).waiting()
                &&& final(self).held() == old(self).held()
                &&& final(self).resolved_seq() == old(self).resolved_seq()
                &&& top_level_outcome(r, def@, def_deps(def@)->Some_0.1, old(self).resolved())
            },
            def_deps(def@) is Some && def_deps(def@)->Some_0.0 != Dep::Global(IT) ==> held_outcome(
                old(self).waiting(),
                old(self).resolved_seq(),
                old(self).held(),
                def_deps(def@)->Some_0.0,
                def_deps(def@)->Some_0.1,
                def@,
                r,
                final(self).waiting(),
                final(self).resolved_seq(),
                final(self).held(),
            ),
    {
        if let Some(libname) = def.is_import() {
            let res = self.resolve_lib(libname, tokens);
            assert(res is Ok);
            let mut v: Vec<Def> = Vec::new();
            v.push(def);
            assert(sdefs(v@) =~= seq![def@]);
            proof {
                lemma_single_in_order(def@, old(self).resolved());
            }
            return Ok(v);
        }
        let (depee, depcys) = match def.deps() {
            None => {
                let mut v: Vec<Def> = Vec::new();
                v.push(def);
                assert(sdefs(v@) =~= seq![def@]);
                proof {
                    lemma_single_in_order(def@, old(self).resolved());
                }
                return Ok(v);
            },
            Some(x) => x,
        };
        let ghost ds = depcys@.to_set();
        if depee.is_the_it() {
            let mut missing: Vec<Dep> = Vec::new();
            let ghost rset = self.resolved();
            for j in 0..depcys.len()
                invariant
                    self.wf(),
                    rset == self.resolved(),
                    depcys@.no_duplicates(),
                    missing@.no_duplicates(),
                    missing@.to_set() == depcys@.take(j as int).to_set() - rset,
            {
                let x = depcys[j];
                let ghost m0 = missing@;
                assert(depcys@.take(j + 1) =~= depcys@.take(j as int).push(x));
                proof {
                    depcys@.take(j as int).lemma_push_to_set_commute(x);
                }
                if !has_dep(&self.already_resolved, x) {
                    missing.push(x);
                    proof {
                        m0.lemma_push_to_set_commute(x);
                        assert(!depcys@.take(j as int).contains(x)) by {
                            if depcys@.take(j as int).contains(x) {
                                let a = choose|a: int| 0 <= a < j && depcys@.take(j as int)[a] == x;
                                assert(depcys@[a] == depcys@[j as int]);
                            }
                        }
                        assert(!m0.to_set().contains(x));
                        assert forall|a: int, b: int| 0 <= a < missing@.len() && 0 <= b < missing@.len() && a != b implies missing@[a] != missing@[b] by {
                            if a < m0.len() && b < m0.len() {
                                assert(missing@[a] == m0[a] && missing@[b] == m0[b]);
                            } else if a < m0.len() {
                                assert(m0.to_set().contains(m0[a]));
                            } else if b < m0.len() {
                                assert(m0.to_set().contains(m0[b]));
                            }
                        }
                    }
                }
                assert(missing@.to_set() =~= depcys@.take(j + 1).to_set() - rset);
            }
            assert(depcys@.take(depcys@.len() as int) =~= depcys@);
            if missing.len() > 0 {
                proof {
                    assert(missing@.to_set().contains(missing@[0]));
                }
                return Err((def, missing));
            } else {
                proof {
                    assert forall|x: Dep| ds.contains(x) implies self.resolved().contains(x) by {
                        if !self.resolved().contains(x) {
                            assert(missing@.to_set().contains(x));
                        }
                    }
                }
                let mut v: Vec<Def> = Vec::new();
                v.push(def);
                assert(sdefs(v@) =~= seq![def@]);
                proof {
                    lemma_single_in_order(def@, old(self).resolved());
                }
                return Ok(v);
            }
        }
        let ghost h1 = self.held().insert(depee, def@);
        let ghost w1 = added(self.waiting(), self.resolved(), depee, ds);
        let ghost rs = self.resolved();
        let ghost w0 = self.waiting();
        let ghost h0 = self.held();
        self.hold(depee, def);
        self.add(&depee, depcys);
        assert(self.held() == h1);
        assert(self.waiting() == w1);
        proof {
            assert forall|k: Dep| h1.contains_key(k) implies #[trigger] w1.contains_key(k) && def_deps(h1[k]) is Some
                && def_deps(h1[k])->Some_0.0 == k && def_deps(h1[k])->Some_0.1.subset_of(w1[k] + rs) by {
                if k != depee {
                    assert(old(self).holds_well(k));
                }
            }
            assert forall|k: Dep| k != depee && #[trigger] self.waiting().contains_key(k) && !self.resolved().contains(k) implies !self.waiting()[k].is_empty() by {
                assert(old(self).waits_well(k));
            }
        }
        match self.try_resolve(&depee) {
            Ok(ready) => {
                let ghost h = self.held();
                let mut out: Vec<Def> = Vec::new();
                let mut j: usize = 0;
                proof {
                    if !rs.contains(depee) && !w1[depee].is_empty() {
                        assert(false);
                    }
                    if !rs.contains(depee) {
                        assert forall|a: int| 0 <= a < ready@.len() implies h1.contains_key(#[trigger] ready@[a]) by {
                            if ready@[a] != depee {
                                assert(w1.contains_key(ready@[a]));
                                assert(w0.contains_key(ready@[a]));
                                assert(old(self).waits_well(ready@[a]));
                            }
                        }
                    } else {
                        assert(ready@.len() == 0);
                    }
                }
                let ghost w2 = self.waiting();
                let ghost rs2 = self.resolved_seq();
                let ghost su2 = self.still_unresolved;
                let ghost ar2 = self.already_resolved;
                while j < ready.len()
                    invariant
                        j <= ready@.len(),
                        keys_unique(self.defs@),
                        h == h1,
                        ready@.no_duplicates(),
                        forall|a: int| 0 <= a < ready@.len() ==> h1.contains_key(#[trigger] ready@[a]),
                        self.held() == h1.remove_keys(ready@.take(j as int).to_set()),
                        sdefs(out@) == ready@.take(j as int).map_values(|x: Dep| h1[x]),
                        self.still_unresolved == su2,
                        self.already_resolved == ar2,
                    decreases ready@.len() - j,
                {
                    let k = ready[j];
                    assert(!ready@.take(j as int).contains(k)) by {
                        if ready@.take(j as int).contains(k) {
                            let a = choose|a: int| 0 <= a < j && ready@.take(j as int)[a] == k;
                            assert(ready@[a] == ready@[j as int]);
                        }
                    }
                    let ghost old_out = out@;
                    let d = self.release(&k);
                    match d {
                        Some(d) => {
                            out.push(d);
                        },
                        None => {},
                    }
                    proof {
                        assert(ready@.take(j + 1) =~= ready@.take(j as int).push(k));
                        ready@.take(j as int).lemma_push_to_set_commute(k);
                        assert(h1.remove_keys(ready@.take(j as int).to_set()).contains_key(k));
                        assert(ready@.take(j + 1).map_values(|x: Dep| h1[x]) =~= ready@.take(j as int).map_values(|x: Dep| h1[x]).push(h1[k]));
                        assert(sdefs(out@) =~= sdefs(old_out).push(h1[k]));
                        assert(self.held() =~= h1.remove_keys(ready@.take(j + 1).to_set()));
                        assert(sdefs(out@) =~= ready@.take(j + 1).map_values(|x: Dep| h1[x]));
                    }
                    j = j + 1;
                }
                assert(ready@.take(ready@.len() as int) =~= ready@);
                proof {
                    if rs.contains(depee) {
                        assert(ready@.to_set() =~= Set::<Dep>::empty());
                        assert(self.held() =~= h1);
                        assert(sdefs(out@) =~= Seq::<SDef>::empty());
                    } else {
                        lemma_ready_in_order(w1, rs, h1, depee, ready@, sdefs(out@));
                    }
                    assert(self.waiting() == w2);
                    assert forall|k: Dep| #[trigger] self.holds_well(k) by {
                        if self.held().contains_key(k) {
                            assert(h1.contains_key(k));
                            if !rs.contains(depee) {
                                assert(!ready@.to_set().contains(k));
                                assert(!ready@.contains(k));
                                vstd::seq_lib::seq_to_set_distributes_over_add(old(self).resolved_seq(), ready@);
                                assert(self.resolved() =~= rs + ready@.to_set());
                            } else {
                                assert(self.waiting() == w1);
                            }
                        }
                    }
                    assert forall|k: Dep| #[trigger] self.waits_well(k) by {
                        if self.waiting().contains_key(k) && !self.resolved().contains(k) {
                            if !rs.contains(depee) {
                                assert(!ready@.contains(k));
                                assert(!rs.contains(k)) by {
                                    assert(rs2 == old(self).resolved_seq() + ready@);
                                    if rs.contains(k) {
                                        let a = choose|a: int| 0 <= a < old(self).resolved_seq().len() && old(self).resolved_seq()[a] == k;
                                        assert(rs2[a] == k);
                                    }
                                }
                                assert(!w1[k].subset_of(ready@.to_set()));
                                assert(!self.waiting()[k].is_empty()) by {
                                    if self.waiting()[k].is_empty() {
                                        assert forall|y: Dep| w1[k].contains(y) implies ready@.to_set().contains(y) by {
                                            assert(!self.waiting()[k].contains(y));
                                        }
                                    }
                                }
                                if k != depee {
                                    assert(old(self).waits_well(k));
                                }
                            } else {
                                assert(self.waiting() == w1);
                                if k != depee {
                                    assert(old(self).waits_well(k));
                                }
                            }
                        }
                    }
                }
                Ok(out)
            },
            Err(_) => {
                proof {
                    assert forall|k: Dep| #[trigger] self.waits_well(k) by {
                        if k != depee {
                            assert(old(self).waits_well(k));
                        }
                    }
                    assert forall|k: Dep| #[trigger] self.holds_well(k) by {
                        if self.held().contains_key(k) {
                            assert(h1.contains_key(k));
                        }
                    }
                    let e = Seq::<Def>::empty();
                    assert(sdefs(e) =~= Seq::<SDef>::empty());
                }
                Ok(Vec::new())
            },
        }
    }

    /// The resolved dependencies, as `val(x, token)` and `fun(f)`, joined by spaces.
    pub fn already_resolved(&self, tokens: &Tokens) -> (r: String)
        requires
            tokens.wf(),
            forall|i: int| 0 <= i < self.resolved_seq().len() ==> 0 <= #[trigger] dep_name(self.resolved_seq()[i]) < tokens.symbols().len(),
        ensures
            r@ == resolved_list_text(self.resolved_seq(), tokens.symbols()),
    {
        let ghost syms = tokens.symbols();
        let ghost ds = self.already_resolved@;
        assert(ds == self.resolved_seq());
        let mut out = String::new();
        let mut k: usize = 0;
        while k < self.already_resolved.len()
            invariant
                tokens.wf(),
                syms == tokens.symbols(),
                ds == self.already_resolved@,
                k <= ds.len(),
                forall|i: int| 0 <= i < ds.len() ==> 0 <= #[trigger] dep_name(ds[i]) < syms.len(),
                out@ == resolved_list_text(ds.take(k as int), syms),
            decreases ds.len() - k,
        {
            if k > 0 {
                out.append(" ");
            }
            let d = self.already_resolved[k];
            assert(dep_name(ds[k as int]) < syms.len());
            match d {
                Dep::Global(n) => {
                    out.append("val(");
                    out.append(tokens.translate(&n));
                    out.append(", ");
                    push_chars(&mut out, &i32_text(n));
                    out.append(")");
                },
                Dep::Function(n) => {
                    out.append("fun(");
                    out.append(tokens.translate(&n));
                    out.append(")");
                },
            }
            proof {
                let t = ds.take(k + 1);
                assert(t.drop_last() =~= ds.take(k as int));
                assert(t.last() == d);
                if k == 0 {
                    assert(ds.take(0) =~= Seq::<Dep>::empty());
                }
                assert(out@ =~= resolved_list_text(t, syms));
            }
            k = k + 1;
        }
        assert(ds.take(ds.len() as int) =~= ds);
        out
    }

    /// Why a refused definition cannot be compiled: what the search from what it misses,
    /// through the functions that wait, reaches and is missing, functions and globals apart.
    pub fn explain(&self, err: &(Def, Vec<Dep>), tokens: &Tokens) -> (r: String)
        requires
            self.repr_ok(),
            tokens.wf(),
            def_names_ok(err.0@, tokens.symbols().len()),
            forall|i: int| 0 <= i < err.1@.len() ==> 0 <= #[trigger] dep_name(err.1@[i]) < tokens.symbols().len(),
            forall|f: Dep, x: Dep| #[trigger] self.waiting().contains_key(f) && #[trigger] self.waiting()[f].contains(x)
                ==> 0 <= dep_name(x) < tokens.symbols().len(),
        ensures
            exists|v: Set<Dep>, fs: Seq<Dep>, gs: Seq<Dep>| {
                &&& search_from(self.waiting(), err.1@.to_set(), v)
                &&& fs.no_duplicates() && gs.no_duplicates()
                &&& fs.to_set() == v.filter(|d: Dep| d is Function && is_missing(self.waiting(), d))
                &&& gs.to_set() == v.filter(|d: Dep| d is Global)
                &&& r@ == explain_text(err.0@, tokens.symbols(), fs, gs)
            },
    {
        let (def, deps) = err;
        let ghost w = self.waiting();
        let ghost f = |v: Vec<Dep>| dep_set(v);
        let ghost start = deps@.to_set();
        let ghost univ = deps@ + all_waited(self.still_unresolved@);
        let ghost n = tokens.symbols().len();
        let mut seen: Vec<Dep> = Vec::new();
        for k in 0..deps.len()
            invariant
                seen@.no_duplicates(),
                seen@.to_set() == deps@.take(k as int).to_set(),
        {
            proof {
                assert(deps@.take(k + 1) =~= deps@.take(k as int).push(deps@[k as int]));
                deps@.take(k as int).lemma_push_to_set_commute(deps@[k as int]);
            }
            insert_dep(&mut seen, deps[k]);
        }
        assert(deps@.take(deps@.len() as int) =~= deps@);
        proof {
            lemma_pairs_all(self.still_unresolved@, f);
            assert forall|j: int| 0 <= j < seen@.len() implies univ.contains(#[trigger] seen@[j]) && 0 <= dep_name(seen@[j]) < n by {
                assert(seen@.to_set().contains(seen@[j]));
                let a = choose|a: int| 0 <= a < deps@.len() && deps@[a] == seen@[j];
                assert(univ[a] == seen@[j]);
            }
        }
        let mut i: usize = 0;
        while i < seen.len()
            invariant
                self.repr_ok(),
                w == self.waiting(),
                w == pairs_map(self.still_unresolved@, f),
                univ == deps@ + all_waited(self.still_unresolved@),
                n == tokens.symbols().len(),
                forall|a: int| 0 <= a < self.still_unresolved@.len() ==> w.contains_key(#[trigger] self.still_unresolved@[a].0)
                    && w[self.still_unresolved@[a].0] == self.still_unresolved@[a].1@.to_set(),
                forall|g: Dep, x: Dep| #[trigger] w.contains_key(g) && #[trigger] w[g].contains(x) ==> 0 <= dep_name(x) < n,
                i <= seen@.len(),
                seen@.no_duplicates(),
                start == deps@.to_set(),
                start.subset_of(seen@.to_set()),
                forall|j: int| 0 <= j < seen@.len() ==> univ.contains(#[trigger] seen@[j]) && 0 <= dep_name(seen@[j]) < n,
                forall|j: int| 0 <= j < i && (#[trigger] seen@[j]) is Function && w.contains_key(seen@[j]) ==> w[seen@[j]].subset_of(seen@.to_set()),
                forall|v2: Set<Dep>| #[trigger] search_closed(w, start, v2) ==> seen@.to_set().subset_of(v2),
            decreases univ.len() - seen@.len(), seen@.len() - i,
        {
            let d = seen[i];
            let ghost s0 = seen@;
            if let Dep::Function(_) = d {
                if let Some(e) = find_entry(&self.still_unresolved, &d) {
                    let m = self.still_unresolved[e].1.len();
                    let ghost kids = self.still_unresolved@[e as int].1@;
                    assert(w[d] == kids.to_set());
                    for q in 0..m
                        invariant
                            m == kids.len(),
                            e < self.still_unresolved@.len(),
                            kids == self.still_unresolved@[e as int].1@,
                            seen@.no_duplicates(),
                            s0.is_prefix_of(seen@),
                            seen@.to_set() == s0.to_set() + kids.take(q as int).to_set(),
                    {
                        let x = self.still_unresolved[e].1[q];
                        proof {
                            assert(kids.take(q + 1) =~= kids.take(q as int).push(x));
                            kids.take(q as int).lemma_push_to_set_commute(x);
                        }
                        let ghost before = seen@;
                        insert_dep(&mut seen, x);
                        proof {
                            assert(s0.is_prefix_of(seen@)) by {
                                if seen@ != before {
                                    assert(seen@.take(s0.len() as int) =~= before.take(s0.len() as int));
                                }
                            }
                        }
                    }
                    assert(kids.take(m as int) =~= kids);
                    proof {
                        assert forall|j: int| 0 <= j < seen@.len() implies univ.contains(#[trigger] seen@[j]) && 0 <= dep_name(seen@[j]) < n by {
                            if j < s0.len() {
                                assert(seen@[j] == s0[j]);
                            } else {
                                assert(seen@.to_set().contains(seen@[j]));
                                if !s0.to_set().contains(seen@[j]) {
                                    assert(kids.contains(seen@[j]));
                                    lemma_all_waited(self.still_unresolved@, e as int, seen@[j]);
                                    let a = choose|a: int| 0 <= a < all_waited(self.still_unresolved@).len() && all_waited(self.still_unresolved@)[a] == seen@[j];
                                    assert(univ[deps@.len() + a] == seen@[j]);
                                    assert(w[d].contains(seen@[j]));
                                } else {
                                    let a = choose|a: int| 0 <= a < s0.len() && s0[a] == seen@[j];
                                    assert(seen@[a] == s0[a]);
                                    assert(univ.contains(s0[a]));
                                }
                            }
                        }
                        assert forall|v2: Set<Dep>| #[trigger] search_closed(w, start, v2) implies seen@.to_set().subset_of(v2) by {
                            assert(s0.to_set().subset_of(v2));
                            assert(s0.to_set().contains(d));
                            assert(v2.contains(d));
                        }
                    }
                }
            }
            proof {
                assert forall|j: int| 0 <= j < i + 1 && (#[trigger] seen@[j]) is Function && w.contains_key(seen@[j]) implies w[seen@[j]].subset_of(seen@.to_set()) by {
                    assert(seen@[j] == s0[j]);
                }
                assert(start.subset_of(seen@.to_set()));
                lemma_keys_bound_seq(univ, seen@);
            }
            i = i + 1;
        }
        let ghost v = seen@.to_set();
        assert(search_from(w, start, v));
        // the missing functions and globals, in the order the search met them
        let mut fs: Vec<Dep> = Vec::new();
        let mut gs: Vec<Dep> = Vec::new();
        let mut k: usize = 0;
        while k < seen.len()
            invariant
                self.repr_ok(),
                w == self.waiting(),
                v == seen@.to_set(),
                seen@.no_duplicates(),
                k <= seen@.len(),
                fs@.no_duplicates(),
                gs@.no_duplicates(),
                fs@.to_set() == seen@.take(k as int).to_set().filter(|d: Dep| d is Function && is_missing(w, d)),
                gs@.to_set() == seen@.take(k as int).to_set().filter(|d: Dep| d is Global),
            decreases seen@.len() - k,
        {
            let d = seen[k];
            proof {
                assert(seen@.take(k + 1) =~= seen@.take(k as int).push(d));
                seen@.take(k as int).lemma_push_to_set_commute(d);
                assert(!seen@.take(k as int).contains(d)) by {
                    if seen@.take(k as int).contains(d) {
                        let a = choose|a: int| 0 <= a < k && seen@.take(k as int)[a] == d;
                        assert(seen@[a] == seen@[k as int]);
                    }
                }
            }
            let ghost f0 = fs@;
            let ghost g0 = gs@;
            match d {
                Dep::Function(_) => {
                    if find_entry(&self.still_unresolved, &d).is_none() {
                        fs.push(d);
                        proof {
                            f0.lemma_push_to_set_commute(d);
                            assert(!f0.contains(d)) by {
                                if f0.contains(d) {
                                    assert(f0.to_set().contains(d));
                                }
                            }
                            assert(fs@.no_duplicates()) by {
                                assert forall|a: int, b: int| 0 <= a < fs@.len() && 0 <= b < fs@.len() && a != b implies fs@[a] != fs@[b] by {
                                    if a < f0.len() && b < f0.len() {
                                        assert(fs@[a] == f0[a] && fs@[b] == f0[b]);
                                    } else if a < f0.len() {
                                        assert(f0.contains(fs@[a]));
                                    } else if b < f0.len() {
                                        assert(f0.contains(fs@[b]));
                                    }
                                }
                            }
                        }
                    }
                },
                Dep::Global(_) => {
                    gs.push(d);
                    proof {
                        g0.lemma_push_to_set_commute(d);
                        assert(!g0.contains(d)) by {
                            if g0.contains(d) {
                                assert(g0.to_set().contains(d));
                            }
                        }
                        assert(gs@.no_duplicates()) by {
                            assert forall|a: int, b: int| 0 <= a < gs@.len() && 0 <= b < gs@.len() && a != b implies gs@[a] != gs@[b] by {
                                if a < g0.len() && b < g0.len() {
                                    assert(gs@[a] == g0[a] && gs@[b] == g0[b]);
                                } else if a < g0.len() {
                                    assert(g0.contains(gs@[a]));
                                } else if b < g0.len() {
                                    assert(g0.contains(gs@[b]));
                                }
                            }
                        }
                    }
                },
            }
            proof {
                let t = seen@.take(k + 1).to_set();
                assert(fs@.to_set() =~= t.filter(|d: Dep| d is Function && is_missing(w, d)));
                assert(gs@.to_set() =~= t.filter(|d: Dep| d is Global));
            }
            k = k + 1;
        }
        assert(seen@.take(seen@.len() as int) =~= seen@);
        proof {
            assert forall|j: int| 0 <= j < fs@.len() implies 0 <= dep_name(#[trigger] fs@[j]) < n by {
                assert(fs@.to_set().contains(fs@[j]));
                let a = choose|a: int| 0 <= a < seen@.len() && seen@[a] == fs@[j];
            }
            assert forall|j: int| 0 <= j < gs@.len() implies 0 <= dep_name(#[trigger] gs@[j]) < n by {
                assert(gs@.to_set().contains(gs@[j]));
                let a = choose|a: int| 0 <= a < seen@.len() && seen@[a] == gs@[j];
            }
        }
        let mut out = "Cannot compile ".to_owned();
        match def {
            Def::Exp(_) => out.append("top level expression"),
            _ => out.append("definition"),
        }
        out.append(": ");
        let dtext = def.to_string(tokens);
        out.append(dtext.as_str());
        out.append("\n");
        let ghost o = out@;
        if fs.len() > 0 {
            out.append("Unbound functions: ");
            let ghost o1 = out@;
            for j in 0..fs.len()
                invariant
                    tokens.wf(),
                    n == tokens.symbols().len(),
                    forall|a: int| 0 <= a < fs@.len() ==> 0 <= dep_name(#[trigger] fs@[a]) < n,
                    out@ == o1 + missing_fns_text(fs@.take(j as int), tokens.symbols()),
            {
                if j > 0 {
                    out.append(", ");
                }
                assert(0 <= dep_name(fs@[j as int]) < n);
                out.append("'");
                out.append(tokens.translate(&dep_name_of(&fs[j])));
                out.append("'");
                proof {
                    let t = fs@.take(j + 1);
                    assert(t.drop_last() =~= fs@.take(j as int));
                    if j == 0 {
                        assert(fs@.take(0) =~= Seq::<Dep>::empty());
                    }
                    assert(out@ =~= o1 + missing_fns_text(t, tokens.symbols()));
                }
            }
            assert(fs@.take(fs@.len() as int) =~= fs@);
        } else {
            out.append("");
        }
        if fs.len() > 0 && gs.len() > 0 {
            out.append("\n");
        } else {
            out.append("");
        }
        if gs.len() > 0 {
            out.append("Unbound globals: ");
            let ghost o2 = out@;
            for j in 0..gs.len()
                invariant
                    tokens.wf(),
                    n == tokens.symbols().len(),
                    forall|a: int| 0 <= a < gs@.len() ==> 0 <= dep_name(#[trigger] gs@[a]) < n,
                    out@ == o2 + missing_globals_text(gs@.take(j as int), tokens.symbols()),
            {
                if j > 0 {
                    out.append(", ");
                }
                assert(0 <= dep_name(gs@[j as int]) < n);
                let name = tokens.translate(&dep_name_of(&gs[j]));
                out.append(name);
                if str_ends_bracket(name) {
                    out.append("]");
                }
                proof {
                    let t = gs@.take(j + 1);
                    assert(t.drop_last() =~= gs@.take(j as int));
                    if j == 0 {
                        assert(gs@.take(0) =~= Seq::<Dep>::empty());
                    }
                    assert(out@ =~= o2 + missing_globals_text(t, tokens.symbols()));
                }
            }
            assert(gs@.take(gs@.len() as int) =~= gs@);
        } else {
            out.append("");
        }
        assert(out@ =~= explain_text(def@, tokens.symbols(), fs@, gs@));
        out
    }
}

} // verus!
