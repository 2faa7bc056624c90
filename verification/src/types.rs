//! Static types: what a definition binds, and whether a top-level call is well typed.
use std::collections::HashMap;

use vstd::prelude::*;

use crate::ast::{Def, Exp, SDef, SExp, sexp, sexps};
use crate::display::{lemma_apply_names, names_ok, exp_text, ends_bracket_text, str_ends_bracket, write_exps, Syms};
use crate::env::{Env, Name, Type, Tokens, first_index, lemma_first_index, map_swap, swap_record, params_named};
use crate::implib::{libmapping, lib_spec, listing_view, unbound_lib_msg};
use crate::EXTERNAL_PARAM;

verus! {

broadcast use vstd::std_specs::hash::group_hash_axioms;

/// The type a name's spelling gives it: a name that ends in `[` is an array.
pub open spec fn name_type(s: Seq<char>) -> Type {
    if ends_bracket_text(s) {
        Type::Pointer
    } else {
        Type::Int
    }
}

/// The text of a type.
pub open spec fn type_text(t: Type) -> Seq<char> {
    match t {
        Type::Pointer => "ptr"@,
        Type::Int => "int"@,
    }
}

/// The function types of an environment, each as a sequence.
pub open spec fn fun_view(m: Map<Name, Vec<(Name, Type)>>) -> Map<Name, Seq<(Name, Type)>> {
    m.map_values(|v: Vec<(Name, Type)>| v@)
}

/// The types of a call's arguments: a plain variable has its bound type, anything else is an
/// integer; `Err(n)` names the first unbound variable.
pub open spec fn arg_types(args: Seq<SExp>, g: Map<Name, Type>) -> Result<Seq<Type>, Name>
    decreases args.len(),
{
    if args.len() == 0 {
        Ok(Seq::empty())
    } else {
        match arg_types(args.drop_last(), g) {
            Err(n) => Err(n),
            Ok(ts) => match args.last() {
                SExp::Var(n, None) => if g.contains_key(n) {
                    Ok(ts.push(g[n]))
                } else {
                    Err(n)
                },
                _ => Ok(ts.push(Type::Int)),
            },
        }
    }
}

pub open spec fn varty_msg(syms: Syms, n: Name) -> Seq<char> {
    "Could not find type of variable "@ + syms[n as int]
}

pub open spec fn funty_msg(syms: Syms, f: Name) -> Seq<char> {
    "Could not find type of function ("@ + syms[f as int] + " ...)"@
}

/// How a contract shows one parameter.
pub open spec fn contract_param_text(syms: Syms, p: (Name, Type)) -> Seq<char> {
    if p.1 != Type::Pointer && p.0 != EXTERNAL_PARAM {
        syms[p.0 as int]
    } else if p.0 == EXTERNAL_PARAM {
        type_text(p.1)
    } else {
        syms[p.0 as int] + "]"@
    }
}

/// The parameters of a contract, joined by spaces.
pub open spec fn contract_text(syms: Syms, ps: Seq<(Name, Type)>) -> Seq<char>
    decreases ps.len(),
{
    if ps.len() == 0 {
        Seq::empty()
    } else if ps.len() == 1 {
        contract_param_text(syms, ps[0])
    } else {
        contract_text(syms, ps.drop_last()) + " "@ + contract_param_text(syms, ps.last())
    }
}

/// Types, joined by spaces.
pub open spec fn types_text(ts: Seq<Type>) -> Seq<char>
    decreases ts.len(),
{
    if ts.len() == 0 {
        Seq::empty()
    } else if ts.len() == 1 {
        type_text(ts[0])
    } else {
        types_text(ts.drop_last()) + " "@ + type_text(ts.last())
    }
}

/// The message for a call whose argument types do not match the contract.
pub open spec fn bad_call_msg(syms: Syms, f: Name, args: Seq<SExp>, ps: Seq<(Name, Type)>, got: Seq<Type>) -> Seq<char> {
    "In call "@ + exp_text(SExp::Apply(f, args), syms) + "\nContract ("@ + syms[f as int] + " "@
        + contract_text(syms, ps) + ") called with bad types ("@ + syms[f as int] + " "@ + types_text(got) + ")"@
}

/// Whether a call of `f` with `args` is well typed, or the message saying why not.
pub open spec fn welltyped_spec(
    syms: Syms,
    g: Map<Name, Type>,
    fv: Map<Name, Seq<(Name, Type)>>,
    f: Name,
    args: Seq<SExp>,
) -> Result<bool, Seq<char>> {
    if !fv.contains_key(f) {
        Err(funty_msg(syms, f))
    } else {
        match arg_types(args, g) {
            Err(n) => Err(varty_msg(syms, n)),
            Ok(got) => {
                let ps = fv[f];
                if ps.len() == args.len() && forall|i: int| 0 <= i < ps.len() ==> #[trigger] ps[i].1 == got[i] {
                    Ok(true)
                } else {
                    Err(bad_call_msg(syms, f, args, ps, got))
                }
            },
        }
    }
}

/// The type an argument has: a bare variable the type bound to it, anything else an integer.
/// `None` for a bare variable with no type bound.
pub open spec fn type_of_arg(a: SExp, g: Map<Name, Type>) -> Option<Type> {
    match a {
        SExp::Var(n, None) => if g.contains_key(n) {
            Some(g[n])
        } else {
            None
        },
        _ => Some(Type::Int),
    }
}

/// The argument types of a call are found exactly when every argument has a type, and then
/// they are those types, one per argument.
proof fn lemma_arg_types(args: Seq<SExp>, g: Map<Name, Type>)
    ensures
        arg_types(args, g) is Ok <==> forall|i: int| 0 <= i < args.len() ==> #[trigger] type_of_arg(args[i], g) is Some,
        arg_types(args, g) matches Ok(ts) ==> ts.len() == args.len() && forall|i: int|
            0 <= i < args.len() ==> Some(#[trigger] ts[i]) == type_of_arg(args[i], g),
    decreases args.len(),
{
    if args.len() > 0 {
        let init = args.drop_last();
        lemma_arg_types(init, g);
        assert forall|i: int| 0 <= i < init.len() implies init[i] == args[i] by {}
        let last = args.len() - 1;
        assert(args[last] == args.last());
        if !(arg_types(init, g) is Ok) {
            let i = choose|i: int| 0 <= i < init.len() && !(#[trigger] type_of_arg(init[i], g) is Some);
            assert(!(type_of_arg(args[i], g) is Some));
        } else if !(type_of_arg(args[last], g) is Some) {
            assert(!(arg_types(args, g) is Ok));
        } else {
            assert(arg_types(args, g) is Ok);
            assert forall|i: int| 0 <= i < args.len() implies #[trigger] type_of_arg(args[i], g) is Some by {
                if i < last {
                    assert(type_of_arg(init[i], g) is Some);
                }
            }
            let ts = arg_types(args, g)->Ok_0;
            let ts0 = arg_types(init, g)->Ok_0;
            assert forall|i: int| 0 <= i < args.len() implies Some(#[trigger] ts[i]) == type_of_arg(args[i], g) by {
                if i < last {
                    assert(ts[i] == ts0[i]);
                    assert(Some(ts0[i]) == type_of_arg(init[i], g));
                }
            }
        }
    }
}

/// A call is well typed exactly when its function has a contract, it passes as many arguments
/// as the contract has parameters, and each argument has its parameter's type; a well-typed
/// call gives `true`.
pub proof fn lemma_welltyped_means(syms: Syms, g: Map<Name, Type>, fv: Map<Name, Seq<(Name, Type)>>, f: Name, args: Seq<SExp>)
    ensures
        welltyped_spec(syms, g, fv, f, args) is Ok <==> {
            &&& fv.contains_key(f)
            &&& fv[f].len() == args.len()
            &&& forall|i: int| 0 <= i < args.len() ==> #[trigger] type_of_arg(args[i], g) == Some(fv[f][i].1)
        },
        welltyped_spec(syms, g, fv, f, args) matches Ok(b) ==> b,
{
    lemma_arg_types(args, g);
    if fv.contains_key(f) && fv[f].len() == args.len() && forall|i: int|
        0 <= i < args.len() ==> #[trigger] type_of_arg(args[i], g) == Some(fv[f][i].1) {
        assert forall|i: int| 0 <= i < args.len() implies #[trigger] type_of_arg(args[i], g) is Some by {
            assert(type_of_arg(args[i], g) == Some(fv[f][i].1));
        }
        let got = arg_types(args, g)->Ok_0;
        assert forall|i: int| 0 <= i < fv[f].len() implies #[trigger] fv[f][i].1 == got[i] by {
            assert(type_of_arg(args[i], g) == Some(fv[f][i].1));
            assert(Some(got[i]) == type_of_arg(args[i], g));
        }
    }
    if welltyped_spec(syms, g, fv, f, args) is Ok {
        let got = arg_types(args, g)->Ok_0;
        assert forall|i: int| 0 <= i < args.len() implies #[trigger] type_of_arg(args[i], g) == Some(fv[f][i].1) by {
            assert(fv[f][i].1 == got[i]);
            assert(Some(got[i]) == type_of_arg(args[i], g));
        }
    }
}

/// The function types after an import of the library functions `fns`.
pub open spec fn import_funtys(
    fv: Map<Name, Seq<(Name, Type)>>,
    names: Seq<Seq<char>>,
    fns: Seq<(Seq<char>, Seq<char>, Seq<Type>)>,
) -> Map<Name, Seq<(Name, Type)>>
    decreases fns.len(),
{
    if fns.len() == 0 {
        fv
    } else {
        import_funtys(fv, names, fns.drop_last()).insert(
            first_index(names, fns.last().0) as Name,
            fns.last().2.map_values(|t: Type| (EXTERNAL_PARAM, t)),
        )
    }
}

/// Every function of the library `l`, if there is one, has a token.
pub open spec fn lib_fns_tokenized(l: Seq<char>, names: Seq<Seq<char>>) -> bool {
    match lib_spec(l) {
        Some(li) => forall|i: int| 0 <= i < li.1.len() ==> names.contains(#[trigger] li.1[i].0),
        None => true,
    }
}

/// Whether the names that binding a definition's types reads are tokens below `n`: a
/// global's own name, a function's parameters, the function and arguments of a top-level call.
pub open spec fn bind_names_ok(d: SDef, n: nat) -> bool {
    match d {
        SDef::Val(x, _) => 0 <= x < n,
        SDef::Define(_, xs, _) => crate::display::params_ok(xs, n),
        SDef::Exp(SExp::Apply(f, args)) => names_ok(SExp::Apply(f, args), n),
        _ => true,
    }
}

/// Whether an import names a known library whose functions were all tokenized, as the parser
/// leaves them; every other definition passes.
pub fn import_ready(def: &Def, tokens: &Tokens) -> (r: bool)
    ensures
        r == (def@ matches SDef::Import(l) ==> lib_spec(l) is Some && lib_fns_tokenized(l, tokens.names())),
{
    match def {
        Def::Import(libname) => {
            assert(def@ == SDef::Import(libname@));
            match libmapping(libname.as_str()) {
                Err(_) => false,
                Ok(listing) => {
                    let ghost li = listing_view(listing);
                    let fns = &listing.1;
                    let mut k: usize = 0;
                    while k < fns.len()
                        invariant
                            k <= fns@.len(),
                            def@ == SDef::Import(libname@),
                            li == listing_view(listing),
                            lib_spec(libname@) == Some(li),
                            li.1 == fns@.map_values(|f: crate::implib::LibFn| (f.0@, f.1@, f.2@)),
                            forall|i: int| 0 <= i < k ==> tokens.names().contains(#[trigger] li.1[i].0),
                        decreases fns@.len() - k,
                    {
                        assert(li.1[k as int].0 == fns[k as int].0@);
                        if !tokens.contains(fns[k].0) {
                            assert(li.1.len() == fns@.len());
                            assert(!tokens.names().contains(li.1[k as int].0));
                            assert(!lib_fns_tokenized(libname@, tokens.names())) by {
                                let lj = lib_spec(libname@)->Some_0;
                                assert(lj == li);
                                assert(0 <= k < lj.1.len() && !tokens.names().contains(lj.1[k as int].0));
                            }
                            return false;
                        }
                        k = k + 1;
                    }
                    true
                },
            }
        },
        _ => true,
    }
}

/// The types of a function's parameters, by their spelling.
pub open spec fn param_types(syms: Syms, xs: Seq<Name>) -> Seq<(Name, Type)> {
    xs.map_values(|x: Name| (x, name_type(syms[x as int])))
}

/// The bindings of a function's parameters as globals, by their spelling.
pub open spec fn param_binds(syms: Syms, xs: Seq<Name>) -> Map<Name, Type> {
    Map::new(|x: Name| xs.contains(x), |x: Name| name_type(syms[x as int]))
}

impl Type {
    /// The text of the type.
    pub fn to_string(&self) -> (r: &'static str)
        ensures
            r@ == type_text(*self),
    {
        match self {
            Type::Pointer => "ptr",
            Type::Int => "int",
        }
    }
}

impl Env {
    /// The type of a bound variable.
    pub fn varty(&self, name: &Name) -> (r: Result<&Type, String>)
        requires
            self.wf(),
            self.globaltys@.contains_key(*name) || 0 <= *name < self.tokens.symbols().len(),
        ensures
            match r {
                Ok(t) => self.globaltys@.contains_key(*name) && *t == self.globaltys@[*name],
                Err(msg) => !self.globaltys@.contains_key(*name) && msg@ == varty_msg(self.tokens.symbols(), *name),
            },
    {
        match self.globaltys.get(name) {
            Some(t) => Ok(t),
            None => {
                let mut msg = "Could not find type of variable ".to_owned();
                msg.append(self.tokens.translate(name));
                Err(msg)
            },
        }
    }

    /// The parameter names and types of a bound function.
    pub fn funty(&self, name: &Name) -> (r: Result<&Vec<(Name, Type)>, String>)
        requires
            self.wf(),
            self.funtys@.contains_key(*name) || 0 <= *name < self.tokens.symbols().len(),
        ensures
            match r {
                Ok(ps) => self.funtys@.contains_key(*name) && *ps == self.funtys@[*name],
                Err(msg) => !self.funtys@.contains_key(*name) && msg@ == funty_msg(self.tokens.symbols(), *name),
            },
    {
        match self.funtys.get(name) {
            Some(ps) => Ok(ps),
            None => {
                let mut msg = "Could not find type of function (".to_owned();
                msg.append(self.tokens.translate(name));
                msg.append(" ...)");
                Err(msg)
            },
        }
    }

    /// Whether a call of `fname` with `args` is well typed: the function is bound, every
    /// plain variable among the arguments is bound, and the argument types are the contract's.
    pub fn welltyped(&self, fname: &Name, args: &[Exp]) -> (r: Result<bool, String>)
        requires
            self.wf(),
            names_ok(SExp::Apply(*fname, sexps(args@)), self.tokens.symbols().len()),
        ensures
            match r {
                Ok(b) => welltyped_spec(self.tokens.symbols(), self.globaltys@, fun_view(self.funtys@), *fname, sexps(args@))
                    == Ok::<bool, Seq<char>>(b),
                Err(msg) => welltyped_spec(self.tokens.symbols(), self.globaltys@, fun_view(self.funtys@), *fname, sexps(args@))
                    == Err::<bool, Seq<char>>(msg@),
            },
    {
        let ghost syms = self.tokens.symbols();
        let ghost av = sexps(args@);
        proof {
            lemma_apply_names(*fname, av, syms.len());
        }
        let funty = self.funty(fname)?;
        let ghost ps = funty@;
        assert(fun_view(self.funtys@).contains_key(*fname));
        assert(fun_view(self.funtys@)[*fname] == ps);
        let mut got: Vec<Type> = Vec::new();
        let mut k: usize = 0;
        while k < args.len()
            invariant
                self.wf(),
                syms == self.tokens.symbols(),
                av == sexps(args@),
                k <= args@.len(),
                forall|i: int| 0 <= i < av.len() ==> names_ok(#[trigger] av[i], syms.len()),
                arg_types(av.take(k as int), self.globaltys@) == Ok::<Seq<Type>, Name>(got@),
                fun_view(self.funtys@).contains_key(*fname),
            decreases args@.len() - k,
        {
            proof {
                assert(av.take(k + 1).drop_last() =~= av.take(k as int));
                assert(av.take(k + 1).last() == av[k as int]);
                assert(names_ok(av[k as int], syms.len()));
            }
            let t = match &args[k] {
                Exp::Var(n, None) => {
                    match self.varty(n) {
                        Ok(t) => *t,
                        Err(msg) => {
                            proof {
                                lemma_arg_types_fail(av, k as int, self.globaltys@, *n);
                            }
                            return Err(msg);
                        },
                    }
                },
                _ => Type::Int,
            };
            got.push(t);
            k = k + 1;
        }
        assert(av.take(args@.len() as int) =~= av);
        proof {
            lemma_arg_types_len(av, self.globaltys@);
        }
        let mut ok = funty.len() == args.len();
        let mut i: usize = 0;
        while ok && i < funty.len()
            invariant
                ps == funty@,
                got@.len() == args@.len(),
                ok ==> ps.len() == args@.len(),
                i <= ps.len(),
                ok ==> forall|j: int| 0 <= j < i ==> #[trigger] ps[j].1 == got@[j],
                !ok ==> !(ps.len() == args@.len() && forall|j: int| 0 <= j < ps.len() ==> #[trigger] ps[j].1 == got@[j]),
            decreases ps.len() - i,
        {
            if funty[i].1 != got[i] {
                ok = false;
            }
            i = i + 1;
        }
        if ok {
            Ok(true)
        } else {
            Err(self.bad_call(fname, args, funty, &got))
        }
    }

    /// The message for a call whose argument types break its contract.
    fn bad_call(&self, fname: &Name, args: &[Exp], funty: &Vec<(Name, Type)>, got: &Vec<Type>) -> (r: String)
        requires
            self.wf(),
            names_ok(SExp::Apply(*fname, sexps(args@)), self.tokens.symbols().len()),
            params_named(funty@, self.tokens.symbols().len()),
        ensures
            r@ == bad_call_msg(self.tokens.symbols(), *fname, sexps(args@), funty@, got@),
    {
        let tokens = &self.tokens;
        let ghost syms = tokens.symbols();
        proof {
            lemma_apply_names(*fname, sexps(args@), syms.len());
        }
        let fstr = tokens.translate(fname);
        let mut out = "In call ".to_owned();
        out.append("(");
        out.append(fstr);
        if args.len() != 0 {
            out.append(" ");
        } else {
            out.append("");
        }
        write_exps(args, tokens, &mut out);
        out.append(")");
        proof {
            crate::display::lemma_apply_text(*fname, sexps(args@), syms);
        }
        assert(out@ =~= "In call "@ + exp_text(SExp::Apply(*fname, sexps(args@)), syms));
        out.append("\nContract (");
        out.append(fstr);
        out.append(" ");
        let ghost o = out@;
        let mut k: usize = 0;
        while k < funty.len()
            invariant
                tokens.wf(),
                syms == tokens.symbols(),
                params_named(funty@, syms.len()),
                k <= funty@.len(),
                out@ == o + contract_text(syms, funty@.take(k as int)),
            decreases funty@.len() - k,
        {
            if k > 0 {
                out.append(" ");
            }
            let (n, ty) = funty[k];
            assert(funty@[k as int] == (n, ty));
            if ty != Type::Pointer && n != EXTERNAL_PARAM {
                out.append(tokens.translate(&n));
            } else if n == EXTERNAL_PARAM {
                out.append(ty.to_string());
            } else {
                out.append(tokens.translate(&n));
                out.append("]");
            }
            proof {
                let t = funty@.take(k + 1);
                assert(t.drop_last() =~= funty@.take(k as int));
                assert(t.last() == (n, ty));
                if k == 0 {
                    assert(funty@.take(0) =~= Seq::<(Name, Type)>::empty());
                }
                assert(out@ =~= o + contract_text(syms, t));
            }
            k = k + 1;
        }
        assert(funty@.take(funty@.len() as int) =~= funty@);
        out.append(") called with bad types (");
        out.append(fstr);
        out.append(" ");
        let ghost o2 = out@;
        let mut k: usize = 0;
        while k < got.len()
            invariant
                k <= got@.len(),
                out@ == o2 + types_text(got@.take(k as int)),
            decreases got@.len() - k,
        {
            if k > 0 {
                out.append(" ");
            }
            out.append(got[k].to_string());
            proof {
                let t = got@.take(k + 1);
                assert(t.drop_last() =~= got@.take(k as int));
                if k == 0 {
                    assert(got@.take(0) =~= Seq::<Type>::empty());
                }
                assert(out@ =~= o2 + types_text(t));
            }
            k = k + 1;
        }
        assert(got@.take(got@.len() as int) =~= got@);
        out.append(")");
        out
    }

    /// Binds the types that a definition declares: a global's type by its spelling; a
    /// function's parameter types, with its parameters bound as globals while its body is
    /// compiled (the bindings they replace are handed back, for `map_restore`); the types of
    /// an imported library's functions. A top-level call must be well typed.
    pub fn bind_defty(&mut self, def: &Def) -> (r: Result<Vec<(Name, Option<Type>)>, String>)
        requires
            old(self).wf(),
            bind_names_ok(def@, old(self).tokens.symbols().len()),
            def@ matches SDef::Import(l) ==> lib_fns_tokenized(l, old(self).tokens.names()),
        ensures
            final(self).wf(),
            final(self).tokens == old(self).tokens,
            match def@ {
                SDef::Val(n, _) => {
                    &&& r matches Ok(v) && v@.len() == 0
                    &&& final(self).globaltys@ == old(self).globaltys@.insert(n, name_type(old(self).tokens.symbols()[n as int]))
                    &&& final(self).funtys@ == old(self).funtys@
                },
                SDef::Define(n, xs, _) => {
                    &&& r matches Ok(v) && swap_record(old(self).globaltys@, param_binds(old(self).tokens.symbols(), xs), v@)
                    &&& final(self).globaltys@ == old(self).globaltys@.union_prefer_right(param_binds(old(self).tokens.symbols(), xs))
                    &&& fun_view(final(self).funtys@) == fun_view(old(self).funtys@).insert(n, param_types(old(self).tokens.symbols(), xs))
                },
                SDef::Exp(SExp::Apply(f, args)) => {
                    &&& final(self).globaltys@ == old(self).globaltys@
                    &&& final(self).funtys@ == old(self).funtys@
                    &&& match welltyped_spec(old(self).tokens.symbols(), old(self).globaltys@, fun_view(old(self).funtys@), f, args) {
                        Ok(_) => r matches Ok(v) && v@.len() == 0,
                        Err(m) => r matches Err(e) && e@ == m,
                    }
                },
                SDef::Import(l) => {
                    &&& final(self).globaltys@ == old(self).globaltys@
                    &&& match lib_spec(l) {
                        None => r matches Err(e) && e@ == unbound_lib_msg(l) && final(self).funtys@ == old(self).funtys@,
                        Some(li) => r matches Ok(v) && v@.len() == 0
                            && fun_view(final(self).funtys@) == import_funtys(fun_view(old(self).funtys@), old(self).tokens.names(), li.1),
                    }
                },
                _ => {
                    &&& r matches Ok(v) && v@.len() == 0
                    &&& final(self).globaltys@ == old(self).globaltys@
                    &&& final(self).funtys@ == old(self).funtys@
                },
            },
    {
        let ghost syms = self.tokens.symbols();
        let ghost fv0 = fun_view(self.funtys@);
        match def {
            Def::Val(n, _) => {
                let t = self.type_from_name_syntax(n);
                self.globaltys.insert(*n, t);
                Ok(Vec::new())
            },
            Def::Define(n, xs, _) => {
                let mut argtys: Vec<(Name, Type)> = Vec::new();
                let mut newtys: HashMap<Name, Type> = HashMap::new();
                for k in 0..xs.len()
                    invariant
                        self.wf(),
                        syms == self.tokens.symbols(),
                        crate::display::params_ok(xs@, syms.len()),
                        argtys@ == param_types(syms, xs@.take(k as int)),
                        newtys@ == param_binds(syms, xs@.take(k as int)),
                {
                    let x = xs[k];
                    let t = self.type_from_name_syntax(&x);
                    argtys.push((x, t));
                    newtys.insert(x, t);
                    proof {
                        let a = xs@.take(k as int);
                        let b = xs@.take(k + 1);
                        assert(b =~= a.push(x));
                        assert(argtys@ =~= param_types(syms, b));
                        assert forall|y: Name| b.contains(y) <==> (a.contains(y) || y == x) by {
                            if b.contains(y) {
                                let i = choose|i: int| 0 <= i < b.len() && b[i] == y;
                                if i < a.len() {
                                    assert(a[i] == y);
                                }
                            }
                            if a.contains(y) {
                                let i = choose|i: int| 0 <= i < a.len() && a[i] == y;
                                assert(b[i] == y);
                            }
                            if y == x {
                                assert(b[k as int] == y);
                            }
                        }
                        assert(newtys@ =~= param_binds(syms, b));
                    }
                }
                assert(xs@.take(xs@.len() as int) =~= xs@);
                proof {
                    assert forall|i: int| 0 <= i < argtys@.len() implies (#[trigger] argtys@[i]).0 == EXTERNAL_PARAM || 0 <= argtys@[i].0 < syms.len() by {
                        assert(argtys@[i].0 == xs@[i]);
                    }
                }
                self.funtys.insert(*n, argtys);
                proof {
                    assert(fun_view(self.funtys@) =~= fv0.insert(*n, param_types(syms, xs@)));
                }
                let old = map_swap(&mut self.globaltys, newtys);
                Ok(old)
            },
            Def::Exp(Exp::Apply(f, args)) => {
                proof {
                    crate::ast::lemma_sexp_apply(*f, *args);
                }
                match self.welltyped(f, args.as_slice()) {
                    Ok(_) => Ok(Vec::new()),
                    Err(m) => Err(m),
                }
            },
            Def::Import(libname) => {
                let listing = libmapping(libname.as_str())?;
                let ghost li = listing_view(listing);
                let fns = &listing.1;
                let ghost names = self.tokens.names();
                let ghost g0 = self.globaltys@;
                let ghost tk0 = self.tokens;
                assert(def@ == SDef::Import(libname@));
                assert(lib_spec(libname@) == Some(li));
                assert(lib_fns_tokenized(libname@, names));
                for k in 0..fns.len()
                    invariant
                        self.wf(),
                        syms == self.tokens.symbols(),
                        names == self.tokens.names(),
                        tk0 == self.tokens,
                        g0 == self.globaltys@,
                        li.1 == fns@.map_values(|f: crate::implib::LibFn| (f.0@, f.1@, f.2@)),
                        forall|i: int| 0 <= i < li.1.len() ==> names.contains(#[trigger] li.1[i].0),
                        fun_view(self.funtys@) == import_funtys(fv0, names, li.1.take(k as int)),
                {
                    let (callname, _, types) = &fns[k];
                    assert(li.1[k as int].0 == callname@);
                    let fname = self.tokens.get(callname);
                    let mut ps: Vec<(Name, Type)> = Vec::new();
                    for j in 0..types.len()
                        invariant
                            ps@ == types@.take(j as int).map_values(|t: Type| (EXTERNAL_PARAM, t)),
                    {
                        ps.push((EXTERNAL_PARAM, types[j]));
                        assert(types@.take(j + 1) =~= types@.take(j as int).push(types@[j as int]));
                        assert(ps@ =~= types@.take(j + 1).map_values(|t: Type| (EXTERNAL_PARAM, t)));
                    }
                    assert(types@.take(types@.len() as int) =~= types@);
                    let ghost before = fun_view(self.funtys@);
                    self.funtys.insert(fname, ps);
                    proof {
                        let t = li.1.take(k + 1);
                        assert(t.drop_last() =~= li.1.take(k as int));
                        assert(t.last() == li.1[k as int]);
                        assert(li.1[k as int].2 == types@);
                        assert(fun_view(self.funtys@) =~= before.insert(fname, types@.map_values(|t: Type| (EXTERNAL_PARAM, t))));
                    }
                }
                assert(li.1.take(li.1.len() as int) =~= li.1);
                Ok(Vec::new())
            },
            _ => Ok(Vec::new()),
        }
    }

    /// The type a name's spelling gives it.
    fn type_from_name_syntax(&self, name: &Name) -> (r: Type)
        requires
            self.tokens.wf(),
            0 <= *name < self.tokens.symbols().len(),
        ensures
            r == name_type(self.tokens.symbols()[*name as int]),
    {
        if str_ends_bracket(self.tokens.translate(name)) {
            Type::Pointer
        } else {
            Type::Int
        }
    }
}

proof fn lemma_arg_types_fail(av: Seq<SExp>, k: int, g: Map<Name, Type>, n: Name)
    requires
        0 <= k < av.len(),
        arg_types(av.take(k), g) is Ok,
        av[k] == SExp::Var(n, None),
        !g.contains_key(n),
    ensures
        arg_types(av, g) == Err::<Seq<Type>, Name>(n),
    decreases av.len() - k,
{
    if k == av.len() - 1 {
        assert(av.drop_last() =~= av.take(k));
    } else {
        assert(av.drop_last().take(k) =~= av.take(k));
        assert(av.drop_last()[k] == av[k]);
        lemma_arg_types_fail(av.drop_last(), k, g, n);
    }
}

proof fn lemma_arg_types_len(av: Seq<SExp>, g: Map<Name, Type>)
    ensures
        arg_types(av, g) matches Ok(ts) ==> ts.len() == av.len(),
    decreases av.len(),
{
    if av.len() > 0 {
        lemma_arg_types_len(av.drop_last(), g);
    }
}

} // verus!
