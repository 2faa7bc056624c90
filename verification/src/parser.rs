//! The grammar of Impcore, stated over tokens, and the errors a parse can end in.
//!
//! Each `sp_*` function says what the parser of the same name (in the submodules)
//! returns at a token position: the tree, the position after it, and the names that
//! tokenizing has seen so far; or the error.
pub mod def_parse;
pub mod expr_parse;
pub mod macro_parse;

use vstd::prelude::*;

use crate::ast::{Def, Exp, SExp, SDef, Primitive, sexp, sdef, prim_of_word, prim_of_chars, child_refs};
use crate::text::{text_is, string_of};
use crate::display::{names_ok, def_names_ok, exp_text};
use crate::env::{Name, IT, Tokens, Tokenizer, tokenize_spec, syms_of};
use crate::implib::{lib_spec, lib_fn_names};
use crate::lexer::{Token, TokKind, SToken, stoks, stok};

verus! {

/// Why a parse failed: an unexpected token (by its index), a literal out of range
/// (by its token index), non-static match cases (the text of the match and the
/// character spans of the offending cases), or an unknown library.
pub enum ParseError {
    Syntax(usize),
    Literal(usize),
    NonStatic(Vec<char>, Vec<(usize, usize)>),
    UnboundLib(Vec<char>),
}

pub enum PErr {
    Syntax(int),
    Literal(int),
    NonStatic(Seq<char>, Seq<(int, int)>),
    UnboundLib(Seq<char>),
}

pub open spec fn spans_view(s: Seq<(usize, usize)>) -> Seq<(int, int)> {
    s.map_values(|x: (usize, usize)| (x.0 as int, x.1 as int))
}

pub open spec fn perr(e: &ParseError) -> PErr {
    match e {
        ParseError::Syntax(i) => PErr::Syntax(*i as int),
        ParseError::Literal(i) => PErr::Literal(*i as int),
        ParseError::NonStatic(m, s) => PErr::NonStatic(m@, spans_view(s@)),
        ParseError::UnboundLib(n) => PErr::UnboundLib(n@),
    }
}

pub type Names = Seq<Seq<char>>;

pub type PRes<T> = Result<(T, int, Names), PErr>;

/// The exec result of a parser, read as a spec result.
pub open spec fn res_exp(r: Result<(Exp, usize), ParseError>, ns: Names) -> PRes<SExp> {
    match r {
        Ok((e, q)) => Ok((sexp(&e), q as int, ns)),
        Err(x) => Err(perr(&x)),
    }
}

pub open spec fn res_def(r: Result<(Option<Def>, usize), ParseError>, ns: Names) -> PRes<Option<SDef>> {
    match r {
        Ok((d, q)) => Ok((
            match d {
                Some(d) => Some(sdef(&d)),
                None => None,
            },
            q as int,
            ns,
        )),
        Err(x) => Err(perr(&x)),
    }
}

/// Whether there is room for the names that the tokens from `left` on can add.
pub open spec fn room(tokens: &Tokens, ts: Seq<SToken>, p: int) -> bool {
    &&& tokens.wf()
    &&& 0 <= p <= ts.len()
    &&& ts.len() < IT
    &&& tokens.symbols().len() + (ts.len() - p) < IT
}

/// The tree a parse hands back only uses tokens below `n`.
pub open spec fn exp_names_ok(r: &Result<(Exp, usize), ParseError>, n: nat) -> bool {
    match r {
        Ok((e, _)) => names_ok(sexp(e), n),
        Err(_) => true,
    }
}

pub open spec fn def_res_names_ok(r: &Result<(Option<Def>, usize), ParseError>, n: nat) -> bool {
    match r {
        Ok((Some(d), _)) => def_names_ok(sdef(d), n),
        Ok((None, _)) => true,
        Err(_) => true,
    }
}

// Words

pub open spec fn digit_val(c: char) -> int {
    let x = c as int;
    if 48 <= x <= 57 {
        x - 48
    } else if 97 <= x <= 102 {
        x - 87
    } else if 65 <= x <= 70 {
        x - 55
    } else {
        99
    }
}

pub open spec fn is_digit_in(c: char, base: int) -> bool {
    digit_val(c) < base
}

pub open spec fn all_digits(s: Seq<char>, base: int) -> bool {
    forall|i: int| 0 <= i < s.len() ==> is_digit_in(#[trigger] s[i], base)
}

pub open spec fn digits_value(s: Seq<char>, base: int) -> int
    decreases s.len(),
{
    if s.len() == 0 {
        0
    } else {
        digits_value(s.drop_last(), base) * base + digit_val(s.last())
    }
}

/// The text of a literal without its sign.
pub open spec fn unsigned_part(t: Seq<char>) -> Seq<char> {
    if t.len() > 0 && t[0] == '-' {
        t.drop_first()
    } else {
        t
    }
}

/// The base of a literal and its digits: `0x` hexadecimal, `0b` binary, else decimal.
pub open spec fn lit_base(u: Seq<char>) -> (int, Seq<char>) {
    if u.len() >= 2 && u[0] == '0' && u[1] == 'x' {
        (16, u.subrange(2, u.len() as int))
    } else if u.len() >= 2 && u[0] == '0' && u[1] == 'b' {
        (2, u.subrange(2, u.len() as int))
    } else {
        (10, u)
    }
}

/// Whether a word is an integer literal.
pub open spec fn is_lit_text(t: Seq<char>) -> bool {
    let (b, d) = lit_base(unsigned_part(t));
    d.len() > 0 && all_digits(d, b)
}

/// The 32 bits of `v` read as a signed number.
pub open spec fn as_i32(v: int) -> int {
    if v >= 0x8000_0000 {
        v - 0x1_0000_0000
    } else {
        v
    }
}

/// The value of a literal, with its bits read as an `i32` and the sign applied
/// with wrapping; `None` when the digits exceed 32 bits.
pub open spec fn lit_value(t: Seq<char>) -> Option<i32> {
    let (b, d) = lit_base(unsigned_part(t));
    let v = digits_value(d, b);
    if v > 0xffff_ffff {
        None
    } else {
        let iv = as_i32(v);
        let neg = t.len() > 0 && t[0] == '-';
        Some(
            (if neg {
                if iv == -0x8000_0000 {
                    iv
                } else {
                    -iv
                }
            } else {
                iv
            }) as i32,
        )
    }
}

pub open spec fn ends_bracket(w: Seq<char>) -> bool {
    w.len() > 0 && w.last() == '['
}

/// Words that cannot name a variable or a function.
pub open spec fn is_reserved(w: Seq<char>) -> bool {
    w == "if"@ || w == "while"@ || w == "begin"@ || w == "set"@ || w == "match"@ || w == "val"@
        || w == "define"@ || w == "check-expect"@ || w == "check-assert"@ || w == "=>"@ || w == "_"@
        || w == "#undef"@ || prim_of_word(w) is Some
}

/// A word that can name a variable (an array's name ends in `[`).
pub open spec fn is_var_name(w: Seq<char>) -> bool {
    &&& w.len() > 0
    &&& !(w.len() == 1 && w[0] == '[')
    &&& !is_lit_text(w)
    &&& !is_reserved(w)
}

/// A word that can name a function.
pub open spec fn is_fun_name(w: Seq<char>) -> bool {
    is_var_name(w) && !ends_bracket(w)
}

/// A word that can name a macro: it starts with a quote.
pub open spec fn is_macro_name(w: Seq<char>) -> bool {
    is_fun_name(w) && w[0] == '\''
}

pub open spec fn is_unary(p: Primitive) -> bool {
    p == Primitive::Not || p == Primitive::Print || p == Primitive::Println || p == Primitive::Printc
        || p == Primitive::Incr || p == Primitive::Decr || p == Primitive::Neg
}

// Tokens

pub open spec fn is_kind(ts: Seq<SToken>, p: int, k: TokKind) -> bool {
    0 <= p < ts.len() && ts[p].kind == k
}

pub open spec fn is_word(ts: Seq<SToken>, p: int, w: Seq<char>) -> bool {
    is_kind(ts, p, TokKind::Word) && ts[p].text == w
}

pub open spec fn word(ts: Seq<SToken>, p: int) -> Seq<char> {
    ts[p].text
}

/// Token-level steps stay inside the token sequence and move forward.
pub open spec fn step(p: int, q: int, n: int) -> bool {
    p < q <= n
}

pub open spec fn tok_name(ns: Names, w: Seq<char>) -> (Names, Name) {
    let (ns1, i) = tokenize_spec(ns, w);
    (ns1, i as Name)
}

/// Whether a match case mentions a variable, an assignment or a call, itself or in an immediate part.
pub open spec fn is_dynamic(e: SExp) -> bool {
    e is Apply || e is Assign || e is Var
}

pub open spec fn children_spec(e: SExp) -> Seq<SExp> {
    match e {
        SExp::Literal(_) => seq![],
        SExp::Var(_, None) => seq![],
        SExp::Assign(_, None, v) => seq![*v],
        SExp::Unary(_, b) => seq![*b],
        SExp::Var(_, Some(i)) => seq![*i],
        SExp::Binary(_, l, r) => seq![*l, *r],
        SExp::Assign(_, Some(i), v) => seq![*i, *v],
        SExp::While(g, b) => seq![*g, *b],
        SExp::If(c, t, f) => seq![*c, *t, *f],
        SExp::Apply(_, es) => es,
        SExp::Begin(es) => es,
        SExp::Match(p, cs, d) => Seq::new(2 * cs.len(), |i: int| if i % 2 == 0 { cs[i / 2].0 } else { cs[i / 2].1 }) + seq![*p, *d],
    }
}

pub open spec fn has_dynamic(e: SExp) -> bool {
    is_dynamic(e) || exists|i: int| 0 <= i < children_spec(e).len() && is_dynamic(#[trigger] children_spec(e)[i])
}

pub proof fn lemma_child_views(e: &Exp)
    ensures
        child_refs(e).len() == children_spec(sexp(e)).len(),
        forall|i: int| 0 <= i < child_refs(e).len() ==> sexp(#[trigger] child_refs(e)[i]) == children_spec(sexp(e))[i],
{
    match e {
        Exp::Match(p, cs, d) => {
            let n = cs@.len();
            assert forall|i: int| 0 <= i < child_refs(e).len() implies sexp(#[trigger] child_refs(e)[i]) == children_spec(sexp(e))[i] by {
                if i < 2 * n {
                    assert(0 <= i / 2 < n);
                }
            }
        },
        _ => {},
    }
}

/// Whether an expression is a variable, an assignment or a call.
pub fn is_dynamic_exp(x: &Exp) -> (b: bool)
    ensures
        b == is_dynamic(sexp(x)),
{
    matches!(x, Exp::Apply(..) | Exp::Assign(..) | Exp::Var(..))
}

/// Whether a match case is not static (see `has_dynamic`).
pub fn case_is_dynamic(e: &Exp) -> (r: bool)
    ensures
        r == has_dynamic(sexp(e)),
{
    let r = e.contains(is_dynamic_exp);
    proof {
        lemma_child_views(e);
        let cs = children_spec(sexp(e));
        if r {
            if !is_dynamic(sexp(e)) {
                let i = choose|i: int| 0 <= i < child_refs(e).len() && call_ensures(is_dynamic_exp, (#[trigger] child_refs(e)[i],), true);
                assert(is_dynamic(cs[i]));
            }
        } else {
            assert forall|i: int| 0 <= i < cs.len() implies !is_dynamic(#[trigger] cs[i]) by {
                assert(sexp(child_refs(e)[i]) == cs[i]);
                assert(call_ensures(is_dynamic_exp, (child_refs(e)[i],), false));
            }
        }
    }
    r
}

// Words, by their characters

fn digit_of(c: char) -> (r: u32)
    ensures
        r == digit_val(c),
{
    let x = c as u32;
    if 48 <= x && x <= 57 {
        x - 48
    } else if 97 <= x && x <= 102 {
        x - 87
    } else if 65 <= x && x <= 70 {
        x - 55
    } else {
        99
    }
}

/// Where the digits of a literal start, and their base.
fn lit_layout(t: &Vec<char>) -> (r: (usize, u32))
    ensures
        r.0 <= t@.len(),
        lit_base(unsigned_part(t@)) == (r.1 as int, t@.subrange(r.0 as int, t@.len() as int)),
{
    let s: usize = if t.len() > 0 && t[0] == '-' { 1 } else { 0 };
    let ghost u = unsigned_part(t@);
    assert(u =~= t@.subrange(s as int, t@.len() as int));
    if t.len() >= s + 2 && t[s] == '0' && t[s + 1] == 'x' {
        assert(u.subrange(2, u.len() as int) =~= t@.subrange(s + 2, t@.len() as int));
        (s + 2, 16)
    } else if t.len() >= s + 2 && t[s] == '0' && t[s + 1] == 'b' {
        assert(u.subrange(2, u.len() as int) =~= t@.subrange(s + 2, t@.len() as int));
        (s + 2, 2)
    } else {
        (s, 10)
    }
}

/// Whether a word is an integer literal.
pub fn is_lit(t: &Vec<char>) -> (r: bool)
    ensures
        r == is_lit_text(t@),
{
    let (d, b) = lit_layout(t);
    if d >= t.len() {
        return false;
    }
    let ghost ds = t@.subrange(d as int, t@.len() as int);
    let mut k = d;
    while k < t.len()
        invariant
            d <= k <= t@.len(),
            ds == t@.subrange(d as int, t@.len() as int),
            lit_base(unsigned_part(t@)) == (b as int, ds),
            forall|i: int| 0 <= i < k - d ==> is_digit_in(#[trigger] ds[i], b as int),
        decreases t@.len() - k,
    {
        if digit_of(t[k]) >= b {
            assert(ds[k - d] == t@[k as int]);
            assert(!is_digit_in(ds[k - d], b as int));
            assert(!all_digits(ds, b as int));
            assert(lit_base(unsigned_part(t@)) == (b as int, ds));
            return false;
        }
        assert(ds[k - d] == t@[k as int]);
        k = k + 1;
    }
    true
}

proof fn lemma_digits_value_grows(s: Seq<char>, base: int, k: int)
    requires
        0 <= k <= s.len(),
        2 <= base,
        all_digits(s, base),
    ensures
        digits_value(s.take(k), base) <= digits_value(s, base),
        0 <= digits_value(s.take(k), base),
    decreases s.len(),
{
    if s.len() > 0 {
        assert(all_digits(s.drop_last(), base)) by {
            assert forall|i: int| 0 <= i < s.drop_last().len() implies is_digit_in(#[trigger] s.drop_last()[i], base) by {
                assert(s.drop_last()[i] == s[i]);
            }
        }
        if k == s.len() {
            assert(s.take(k) =~= s);
            lemma_digits_value_grows(s.drop_last(), base, k - 1);
        } else {
            assert(s.take(k) =~= s.drop_last().take(k));
            lemma_digits_value_grows(s.drop_last(), base, k);
        }
        let v = digits_value(s.drop_last(), base);
        lemma_digits_value_grows(s.drop_last(), base, s.drop_last().len() as int);
        assert(s.drop_last().take(s.drop_last().len() as int) =~= s.drop_last());
        assert(v * base >= v) by (nonlinear_arith)
            requires
                v >= 0,
                base >= 2,
        ;
        assert(digit_val(s.last()) >= 0);
    } else {
        assert(s.take(k) =~= s);
    }
}

/// The value of a literal word (see `lit_value`).
pub fn lit_of_chars(t: &Vec<char>) -> (r: Option<i32>)
    requires
        is_lit_text(t@),
    ensures
        r == lit_value(t@),
{
    let (d, b) = lit_layout(t);
    let ghost ds = t@.subrange(d as int, t@.len() as int);
    let mut v: u64 = 0;
    let mut k = d;
    while k < t.len()
        invariant
            d <= k <= t@.len(),
            2 <= b <= 16,
            ds == t@.subrange(d as int, t@.len() as int),
            lit_base(unsigned_part(t@)) == (b as int, ds),
            all_digits(ds, b as int),
            v == digits_value(ds.take(k - d), b as int),
            v <= 0xffff_ffff,
        decreases t@.len() - k,
    {
        let dv = digit_of(t[k]);
        assert(ds[k - d] == t@[k as int]);
        assert(ds.take(k - d + 1).drop_last() =~= ds.take(k - d));
        assert(dv < b);
        assert(v * (b as u64) <= 0xffff_ffff * 16) by (nonlinear_arith)
            requires
                v <= 0xffff_ffff,
                b <= 16,
        ;
        v = v * (b as u64) + (dv as u64);
        assert(ds.take(k - d + 1).last() == ds[k - d]);
        assert(v == digits_value(ds.take(k - d + 1), b as int));
        if v > 0xffff_ffff {
            proof {
                lemma_digits_value_grows(ds, b as int, k - d + 1);
                assert(digits_value(ds, b as int) > 0xffff_ffff);
                assert(lit_base(unsigned_part(t@)) == (b as int, ds));
            }
            return None;
        }
        k = k + 1;
    }
    assert(ds.take(k - d) =~= ds);
    let iv: i32 = if v >= 0x8000_0000 { (v as i64 - 0x1_0000_0000) as i32 } else { v as i32 };
    let neg = t.len() > 0 && t[0] == '-';
    if neg {
        if iv == i32::MIN {
            Some(iv)
        } else {
            Some(-iv)
        }
    } else {
        Some(iv)
    }
}

/// Whether a word is reserved (see `is_reserved`).
pub fn reserved(t: &Vec<char>) -> (r: bool)
    ensures
        r == is_reserved(t@),
{
    text_is(t, "if") || text_is(t, "while") || text_is(t, "begin") || text_is(t, "set") || text_is(t, "match")
        || text_is(t, "val") || text_is(t, "define") || text_is(t, "check-expect") || text_is(t, "check-assert")
        || text_is(t, "=>") || text_is(t, "_") || text_is(t, "#undef") || prim_of_chars(t).is_some()
}

pub fn var_name(t: &Vec<char>) -> (r: bool)
    ensures
        r == is_var_name(t@),
{
    t.len() > 0 && !(t.len() == 1 && t[0] == '[') && !is_lit(t) && !reserved(t)
}

pub fn bracketed(t: &Vec<char>) -> (r: bool)
    ensures
        r == ends_bracket(t@),
{
    t.len() > 0 && t[t.len() - 1] == '['
}

pub fn fun_name(t: &Vec<char>) -> (r: bool)
    ensures
        r == is_fun_name(t@),
{
    var_name(t) && !bracketed(t)
}

pub fn macro_name(t: &Vec<char>) -> (r: bool)
    ensures
        r == is_macro_name(t@),
{
    fun_name(t) && t[0] == '\''
}

pub fn unary_prim(p: Primitive) -> (r: bool)
    ensures
        r == is_unary(p),
{
    match p {
        Primitive::Not | Primitive::Print | Primitive::Println | Primitive::Printc | Primitive::Incr
        | Primitive::Decr | Primitive::Neg => true,
        _ => false,
    }
}

pub fn kind_at(ts: &Vec<Token>, p: usize, k: TokKind) -> (r: bool)
    ensures
        r == is_kind(stoks(ts@), p as int, k),
{
    p < ts.len() && ts[p].kind == k
}

pub fn word_at(ts: &Vec<Token>, p: usize, w: &str) -> (r: bool)
    ensures
        r == is_word(stoks(ts@), p as int, w@),
{
    p < ts.len() && ts[p].kind == TokKind::Word && text_is(&ts[p].text, w)
}

/// Tokenizes the word at `p`.
pub fn name_at(ts: &Vec<Token>, p: usize, tokens: &mut Tokens) -> (n: Name)
    requires
        p < ts@.len(),
        room(old(tokens), stoks(ts@), p as int),
    ensures
        final(tokens).wf(),
        (final(tokens).names(), n) == tok_name(old(tokens).names(), word(stoks(ts@), p as int)),
        room(final(tokens), stoks(ts@), p + 1),
        0 <= n < final(tokens).symbols().len(),
        old(tokens).symbols().len() <= final(tokens).symbols().len(),
{
    let s = string_of(&ts[p].text);
    proof {
        tokens.lemma_wf();
        crate::env::lemma_first_index(tokens.names(), s@);
    }
    let n = tokens.tokenize(s.as_str());
    proof {
        tokens.lemma_wf();
    }
    n
}

// The grammar

pub open spec fn sp_literal(ts: Seq<SToken>, p: int, ns: Names) -> PRes<SExp> {
    match lit_value(word(ts, p)) {
        Some(v) => Ok((SExp::Literal(v), p + 1, ns)),
        None => Err(PErr::Literal(p)),
    }
}

pub open spec fn sp_variable(ts: Seq<SToken>, p: int, ns: Names) -> PRes<SExp> {
    let (ns1, n) = tok_name(ns, word(ts, p));
    Ok((SExp::Var(n, None), p + 1, ns1))
}

pub open spec fn sp_pointer(ts: Seq<SToken>, p: int, ns: Names) -> PRes<SExp> {
    let (ns1, n) = tok_name(ns, word(ts, p));
    Ok((SExp::Var(n, None), p + 2, ns1))
}

pub open spec fn sp_exp(ts: Seq<SToken>, p: int, ns: Names) -> PRes<SExp>
    decreases ts.len() - p, 1int,
{
    if !(0 <= p < ts.len()) {
        Err(PErr::Syntax(p))
    } else if ts[p].kind == TokKind::Word {
        let w = word(ts, p);
        if is_lit_text(w) {
            sp_literal(ts, p, ns)
        } else if is_var_name(w) {
            if ends_bracket(w) {
                if is_kind(ts, p + 1, TokKind::CloseBracket) {
                    sp_pointer(ts, p, ns)
                } else {
                    sp_indexer(ts, p, ns)
                }
            } else {
                sp_variable(ts, p, ns)
            }
        } else {
            Err(PErr::Syntax(p))
        }
    } else if ts[p].kind == TokKind::Open && is_kind(ts, p + 1, TokKind::Word) {
        let w = word(ts, p + 1);
        if w == "if"@ {
            sp_if(ts, p + 2, ns)
        } else if w == "while"@ {
            sp_while(ts, p + 2, ns)
        } else if w == "begin"@ {
            sp_begin(ts, p + 2, ns)
        } else if w == "set"@ {
            sp_set(ts, p + 2, ns)
        } else if w == "match"@ {
            sp_match(ts, p + 2, ns)
        } else if prim_of_word(w) is Some {
            if is_unary(prim_of_word(w)->0) {
                sp_unary(ts, p + 1, ns)
            } else {
                sp_binary(ts, p + 1, ns)
            }
        } else if is_fun_name(w) {
            sp_call(ts, p + 1, ns)
        } else {
            Err(PErr::Syntax(p + 1))
        }
    } else if ts[p].kind == TokKind::Open {
        Err(PErr::Syntax(p + 1))
    } else {
        Err(PErr::Syntax(p))
    }
}

pub open spec fn sp_indexer(ts: Seq<SToken>, p: int, ns: Names) -> PRes<SExp>
    decreases ts.len() - p, 0int,
{
    let (ns1, n) = tok_name(ns, word(ts, p));
    if !(0 <= p < ts.len()) {
        Err(PErr::Syntax(p))
    } else {
        match sp_exp(ts, p + 1, ns1) {
            Err(e) => Err(e),
            Ok((i, q, ns2)) => if is_kind(ts, q, TokKind::CloseBracket) {
                Ok((SExp::Var(n, Some(Box::new(i))), q + 1, ns2))
            } else {
                Err(PErr::Syntax(q))
            },
        }
    }
}

pub open spec fn sp_if(ts: Seq<SToken>, q: int, ns: Names) -> PRes<SExp>
    decreases ts.len() - q, 3int,
{
    if !(0 <= q <= ts.len()) {
        Err(PErr::Syntax(q))
    } else {
        match sp_exp(ts, q, ns) {
            Err(e) => Err(e),
            Ok((c, q1, ns1)) => if !step(q, q1, ts.len() as int) {
                Err(PErr::Syntax(q1))
            } else {
                match sp_exp(ts, q1, ns1) {
                    Err(e) => Err(e),
                    Ok((t, q2, ns2)) => if !step(q1, q2, ts.len() as int) {
                        Err(PErr::Syntax(q2))
                    } else {
                        match sp_exp(ts, q2, ns2) {
                            Err(e) => Err(e),
                            Ok((f, q3, ns3)) => if is_kind(ts, q3, TokKind::Close) {
                                Ok((SExp::If(Box::new(c), Box::new(t), Box::new(f)), q3 + 1, ns3))
                            } else {
                                Err(PErr::Syntax(q3))
                            },
                        }
                    },
                }
            },
        }
    }
}

pub open spec fn sp_while(ts: Seq<SToken>, q: int, ns: Names) -> PRes<SExp>
    decreases ts.len() - q, 3int,
{
    if !(0 <= q <= ts.len()) {
        Err(PErr::Syntax(q))
    } else {
        match sp_exp(ts, q, ns) {
            Err(e) => Err(e),
            Ok((g, q1, ns1)) => if !step(q, q1, ts.len() as int) {
                Err(PErr::Syntax(q1))
            } else {
                match sp_exp(ts, q1, ns1) {
                    Err(e) => Err(e),
                    Ok((b, q2, ns2)) => if is_kind(ts, q2, TokKind::Close) {
                        Ok((SExp::While(Box::new(g), Box::new(b)), q2 + 1, ns2))
                    } else {
                        Err(PErr::Syntax(q2))
                    },
                }
            },
        }
    }
}

/// Expressions up to and including a closing parenthesis.
pub open spec fn sp_exps(ts: Seq<SToken>, q: int, ns: Names) -> PRes<Seq<SExp>>
    decreases ts.len() - q, 2int,
{
    if !(0 <= q < ts.len()) {
        Err(PErr::Syntax(q))
    } else if ts[q].kind == TokKind::Close {
        Ok((Seq::empty(), q + 1, ns))
    } else {
        match sp_exp(ts, q, ns) {
            Err(e) => Err(e),
            Ok((e, q1, ns1)) => if !step(q, q1, ts.len() as int) {
                Err(PErr::Syntax(q1))
            } else {
                match sp_exps(ts, q1, ns1) {
                    Err(x) => Err(x),
                    Ok((es, q2, ns2)) => Ok((seq![e] + es, q2, ns2)),
                }
            },
        }
    }
}

pub open spec fn sp_begin(ts: Seq<SToken>, q: int, ns: Names) -> PRes<SExp>
    decreases ts.len() - q, 3int,
{
    if !(0 <= q <= ts.len()) {
        Err(PErr::Syntax(q))
    } else {
        match sp_exps(ts, q, ns) {
            Err(e) => Err(e),
            Ok((es, q1, ns1)) => Ok((SExp::Begin(es), q1, ns1)),
        }
    }
}

pub open spec fn sp_call(ts: Seq<SToken>, p: int, ns: Names) -> PRes<SExp>
    decreases ts.len() - p, 3int,
{
    if !(0 <= p < ts.len()) {
        Err(PErr::Syntax(p))
    } else {
        let (ns1, f) = tok_name(ns, word(ts, p));
        match sp_exps(ts, p + 1, ns1) {
            Err(e) => Err(e),
            Ok((es, q, ns2)) => Ok((SExp::Apply(f, es), q, ns2)),
        }
    }
}

pub open spec fn sp_binary(ts: Seq<SToken>, p: int, ns: Names) -> PRes<SExp>
    decreases ts.len() - p, 3int,
{
    if !(0 <= p < ts.len()) {
        Err(PErr::Syntax(p))
    } else {
        let op = prim_of_word(word(ts, p))->0;
        match sp_exp(ts, p + 1, ns) {
            Err(e) => Err(e),
            Ok((l, q1, ns1)) => if !step(p + 1, q1, ts.len() as int) {
                Err(PErr::Syntax(q1))
            } else {
                match sp_exp(ts, q1, ns1) {
                    Err(e) => Err(e),
                    Ok((r, q2, ns2)) => if is_kind(ts, q2, TokKind::Close) {
                        Ok((SExp::Binary(op, Box::new(l), Box::new(r)), q2 + 1, ns2))
                    } else {
                        Err(PErr::Syntax(q2))
                    },
                }
            },
        }
    }
}

pub open spec fn sp_unary(ts: Seq<SToken>, p: int, ns: Names) -> PRes<SExp>
    decreases ts.len() - p, 3int,
{
    if !(0 <= p < ts.len()) {
        Err(PErr::Syntax(p))
    } else {
        let op = prim_of_word(word(ts, p))->0;
        match sp_exp(ts, p + 1, ns) {
            Err(e) => Err(e),
            Ok((b, q1, ns1)) => if is_kind(ts, q1, TokKind::Close) {
                Ok((SExp::Unary(op, Box::new(b)), q1 + 1, ns1))
            } else {
                Err(PErr::Syntax(q1))
            },
        }
    }
}

/// The value part of an assignment to `n`, starting at `q`.
pub open spec fn sp_set_value(ts: Seq<SToken>, q: int, ns: Names, n: Name, idx: Option<SExp>) -> PRes<SExp>
    decreases ts.len() - q, 2int,
{
    if !(0 <= q <= ts.len()) {
        Err(PErr::Syntax(q))
    } else {
        match sp_exp(ts, q, ns) {
            Err(e) => Err(e),
            Ok((v, q1, ns1)) => if is_kind(ts, q1, TokKind::Close) {
                Ok((
                    SExp::Assign(
                        n,
                        match idx {
                            Some(i) => Some(Box::new(i)),
                            None => None,
                        },
                        Box::new(v),
                    ),
                    q1 + 1,
                    ns1,
                ))
            } else {
                Err(PErr::Syntax(q1))
            },
        }
    }
}

pub open spec fn sp_set(ts: Seq<SToken>, q: int, ns: Names) -> PRes<SExp>
    decreases ts.len() - q, 3int,
{
    if !(is_kind(ts, q, TokKind::Word) && is_var_name(word(ts, q))) {
        Err(PErr::Syntax(q))
    } else {
        let w = word(ts, q);
        let (ns1, n) = tok_name(ns, w);
        if ends_bracket(w) {
            if is_kind(ts, q + 1, TokKind::CloseBracket) {
                sp_set_value(ts, q + 2, ns1, n, None)
            } else {
                match sp_exp(ts, q + 1, ns1) {
                    Err(e) => Err(e),
                    Ok((i, q1, ns2)) => if !(step(q + 1, q1, ts.len() as int) && is_kind(ts, q1, TokKind::CloseBracket)) {
                        Err(PErr::Syntax(q1))
                    } else {
                        sp_set_value(ts, q1 + 1, ns2, n, Some(i))
                    },
                }
            }
        } else {
            sp_set_value(ts, q + 1, ns1, n, None)
        }
    }
}

/// The arms of a match, through the default arm and the match's closing parenthesis:
/// the case arms, the spans of cases that are not static, the default, the position after.
pub open spec fn sp_arms(ts: Seq<SToken>, q: int, ns: Names) -> Result<(Seq<(SExp, SExp)>, Seq<(int, int)>, SExp, int, Names), PErr>
    decreases ts.len() - q, 2int,
{
    if !is_kind(ts, q, TokKind::Open) {
        Err(PErr::Syntax(q))
    } else if is_word(ts, q + 1, "_"@) {
        if !is_word(ts, q + 2, "=>"@) {
            Err(PErr::Syntax(q + 2))
        } else {
            match sp_exp(ts, q + 3, ns) {
                Err(e) => Err(e),
                Ok((d, q1, ns1)) => if !is_kind(ts, q1, TokKind::Close) {
                    Err(PErr::Syntax(q1))
                } else if !is_kind(ts, q1 + 1, TokKind::Close) {
                    Err(PErr::Syntax(q1 + 1))
                } else {
                    Ok((Seq::empty(), Seq::empty(), d, q1 + 2, ns1))
                },
            }
        }
    } else {
        match sp_exp(ts, q + 1, ns) {
            Err(e) => Err(e),
            Ok((c, q1, ns1)) => if !step(q + 1, q1, ts.len() as int) {
                Err(PErr::Syntax(q1))
            } else if !is_word(ts, q1, "=>"@) {
                Err(PErr::Syntax(q1))
            } else {
                match sp_exp(ts, q1 + 1, ns1) {
                    Err(e) => Err(e),
                    Ok((t, q2, ns2)) => if !(step(q1 + 1, q2, ts.len() as int) && is_kind(ts, q2, TokKind::Close)) {
                        Err(PErr::Syntax(q2))
                    } else {
                        match sp_arms(ts, q2 + 1, ns2) {
                            Err(e) => Err(e),
                            Ok((arms, spans, d, q3, ns3)) => Ok((
                                seq![(c, t)] + arms,
                                (if has_dynamic(c) {
                                    seq![(ts[q + 1].start, ts[q1 - 1].end)]
                                } else {
                                    Seq::empty()
                                }) + spans,
                                d,
                                q3,
                                ns3,
                            )),
                        }
                    },
                }
            },
        }
    }
}

pub open spec fn sp_match(ts: Seq<SToken>, q: int, ns: Names) -> PRes<SExp>
    decreases ts.len() - q, 3int,
{
    if !(0 <= q <= ts.len()) {
        Err(PErr::Syntax(q))
    } else {
        match sp_exp(ts, q, ns) {
            Err(e) => Err(e),
            Ok((p, q1, ns1)) => if !step(q, q1, ts.len() as int) {
                Err(PErr::Syntax(q1))
            } else {
                match sp_arms(ts, q1, ns1) {
                    Err(e) => Err(e),
                    Ok((arms, spans, d, q2, ns2)) => {
                        let m = SExp::Match(Box::new(p), arms, Box::new(d));
                        if spans.len() > 0 {
                            Err(PErr::NonStatic(exp_text(m, syms_of(ns2)), spans))
                        } else {
                            Ok((m, q2, ns2))
                        }
                    },
                }
            },
        }
    }
}

// Definitions

/// Parameter names up to and including a closing parenthesis.
pub open spec fn sp_params(ts: Seq<SToken>, q: int, ns: Names) -> PRes<Seq<Name>>
    decreases ts.len() - q,
{
    if !(0 <= q < ts.len()) {
        Err(PErr::Syntax(q))
    } else if ts[q].kind == TokKind::Close {
        Ok((Seq::empty(), q + 1, ns))
    } else if !(ts[q].kind == TokKind::Word && is_var_name(word(ts, q))) {
        Err(PErr::Syntax(q))
    } else {
        let w = word(ts, q);
        let (ns1, n) = tok_name(ns, w);
        let q1 = if ends_bracket(w) { q + 2 } else { q + 1 };
        if ends_bracket(w) && !is_kind(ts, q + 1, TokKind::CloseBracket) {
            Err(PErr::Syntax(q + 1))
        } else {
            match sp_params(ts, q1, ns1) {
                Err(e) => Err(e),
                Ok((xs, q2, ns2)) => Ok((seq![n] + xs, q2, ns2)),
            }
        }
    }
}

pub open spec fn sp_val_body(ts: Seq<SToken>, q: int, ns: Names, n: Name) -> PRes<Option<SDef>>
    decreases ts.len() - q, 2int,
{
    if !(0 <= q <= ts.len()) {
        Err(PErr::Syntax(q))
    } else {
        match sp_exp(ts, q, ns) {
            Err(e) => Err(e),
            Ok((e, q1, ns1)) => if is_kind(ts, q1, TokKind::Close) {
                Ok((Some(SDef::Val(n, e)), q1 + 1, ns1))
            } else {
                Err(PErr::Syntax(q1))
            },
        }
    }
}

/// `(val x e)`: the name at `q` is a plain variable.
pub open spec fn sp_val(ts: Seq<SToken>, q: int, ns: Names) -> PRes<Option<SDef>>
    decreases ts.len() - q, 3int,
{
    if !(0 <= q < ts.len()) {
        Err(PErr::Syntax(q))
    } else {
        let (ns1, n) = tok_name(ns, word(ts, q));
        sp_val_body(ts, q + 1, ns1, n)
    }
}

/// `(val a[] e)`: the array name at `q` is followed by `]`.
pub open spec fn sp_alloc(ts: Seq<SToken>, q: int, ns: Names) -> PRes<Option<SDef>>
    decreases ts.len() - q, 3int,
{
    if !(0 <= q < ts.len()) {
        Err(PErr::Syntax(q))
    } else {
        let (ns1, n) = tok_name(ns, word(ts, q));
        sp_val_body(ts, q + 2, ns1, n)
    }
}

pub open spec fn sp_define(ts: Seq<SToken>, q: int, ns: Names) -> PRes<Option<SDef>>
    decreases ts.len() - q, 3int,
{
    if !(is_kind(ts, q, TokKind::Word) && is_fun_name(word(ts, q))) {
        Err(PErr::Syntax(q))
    } else if !is_kind(ts, q + 1, TokKind::Open) {
        Err(PErr::Syntax(q + 1))
    } else {
        let (ns1, f) = tok_name(ns, word(ts, q));
        match sp_params(ts, q + 2, ns1) {
            Err(e) => Err(e),
            Ok((xs, q1, ns2)) => if !step(q + 2, q1, ts.len() as int) {
                Err(PErr::Syntax(q1))
            } else {
                match sp_exp(ts, q1, ns2) {
                    Err(e) => Err(e),
                    Ok((b, q2, ns3)) => if is_kind(ts, q2, TokKind::Close) {
                        Ok((Some(SDef::Define(f, xs, b)), q2 + 1, ns3))
                    } else {
                        Err(PErr::Syntax(q2))
                    },
                }
            },
        }
    }
}

pub open spec fn sp_check_expect(ts: Seq<SToken>, q: int, ns: Names) -> PRes<Option<SDef>>
    decreases ts.len() - q, 3int,
{
    if !(0 <= q <= ts.len()) {
        Err(PErr::Syntax(q))
    } else {
        match sp_exp(ts, q, ns) {
            Err(e) => Err(e),
            Ok((l, q1, ns1)) => if !step(q, q1, ts.len() as int) {
                Err(PErr::Syntax(q1))
            } else {
                match sp_exp(ts, q1, ns1) {
                    Err(e) => Err(e),
                    Ok((r, q2, ns2)) => if is_kind(ts, q2, TokKind::Close) {
                        Ok((Some(SDef::CheckExpect(l, r)), q2 + 1, ns2))
                    } else {
                        Err(PErr::Syntax(q2))
                    },
                }
            },
        }
    }
}

pub open spec fn sp_check_assert(ts: Seq<SToken>, q: int, ns: Names) -> PRes<Option<SDef>>
    decreases ts.len() - q, 3int,
{
    if !(0 <= q <= ts.len()) {
        Err(PErr::Syntax(q))
    } else {
        match sp_exp(ts, q, ns) {
            Err(e) => Err(e),
            Ok((e, q1, ns1)) => if is_kind(ts, q1, TokKind::Close) {
                Ok((Some(SDef::CheckAssert(e)), q1 + 1, ns1))
            } else {
                Err(PErr::Syntax(q1))
            },
        }
    }
}

/// `#(replace 'M e)`: the macro name is at `q`.
pub open spec fn sp_replacer(ts: Seq<SToken>, q: int, ns: Names) -> PRes<Option<SDef>>
    decreases ts.len() - q, 3int,
{
    if !(is_kind(ts, q, TokKind::Word) && is_macro_name(word(ts, q))) {
        Err(PErr::Syntax(q))
    } else {
        let (ns1, n) = tok_name(ns, word(ts, q));
        match sp_exp(ts, q + 1, ns1) {
            Err(e) => Err(e),
            Ok((e, q1, ns2)) => if is_kind(ts, q1, TokKind::Close) {
                Ok((Some(SDef::Alias(n, e)), q1 + 1, ns2))
            } else {
                Err(PErr::Syntax(q1))
            },
        }
    }
}

/// `#(replace ('M x ...) e)`: the macro name is at `q`, just after the inner `(`.
pub open spec fn sp_inliner(ts: Seq<SToken>, q: int, ns: Names) -> PRes<Option<SDef>>
    decreases ts.len() - q, 3int,
{
    if !(is_kind(ts, q, TokKind::Word) && is_macro_name(word(ts, q))) {
        Err(PErr::Syntax(q))
    } else {
        let (ns1, n) = tok_name(ns, word(ts, q));
        match sp_params(ts, q + 1, ns1) {
            Err(e) => Err(e),
            Ok((xs, q1, ns2)) => if !step(q + 1, q1, ts.len() as int) {
                Err(PErr::Syntax(q1))
            } else {
                match sp_exp(ts, q1, ns2) {
                    Err(e) => Err(e),
                    Ok((b, q2, ns3)) => if is_kind(ts, q2, TokKind::Close) {
                        Ok((Some(SDef::Inline(n, xs, b)), q2 + 1, ns3))
                    } else {
                        Err(PErr::Syntax(q2))
                    },
                }
            },
        }
    }
}

/// `#(undef 'M)` or `(#undef 'M)`: the macro name is at `q`.
pub open spec fn sp_undef(ts: Seq<SToken>, q: int, ns: Names) -> PRes<Option<SDef>> {
    if !(is_kind(ts, q, TokKind::Word) && is_macro_name(word(ts, q))) {
        Err(PErr::Syntax(q))
    } else if !is_kind(ts, q + 1, TokKind::Close) {
        Err(PErr::Syntax(q + 1))
    } else {
        let (ns1, n) = tok_name(ns, word(ts, q));
        Ok((Some(SDef::Undef(n)), q + 2, ns1))
    }
}

/// The names after tokenizing each text of `ws` in turn.
pub open spec fn tokenize_all(ns: Names, ws: Seq<Seq<char>>) -> Names
    decreases ws.len(),
{
    if ws.len() == 0 {
        ns
    } else {
        tokenize_spec(tokenize_all(ns, ws.drop_last()), ws.last()).0
    }
}

/// `#(import lib)`: the library name is at `q`; its functions' names are tokenized.
pub open spec fn sp_importlib(ts: Seq<SToken>, q: int, ns: Names) -> PRes<Option<SDef>> {
    if !is_kind(ts, q, TokKind::Word) {
        Err(PErr::Syntax(q))
    } else if !is_kind(ts, q + 1, TokKind::Close) {
        Err(PErr::Syntax(q + 1))
    } else {
        let w = word(ts, q);
        match lib_spec(w) {
            None => Err(PErr::UnboundLib(w)),
            Some(l) => Ok((Some(SDef::Import(w)), q + 2, tokenize_all(ns, lib_fn_names(l)))),
        }
    }
}

/// `#(import "file")`: files are joined before parsing, so this stands for no definition.
pub open spec fn sp_importfile(ts: Seq<SToken>, q: int, ns: Names) -> PRes<Option<SDef>> {
    if !is_kind(ts, q + 1, TokKind::Close) {
        Err(PErr::Syntax(q + 1))
    } else {
        Ok((None, q + 2, ns))
    }
}

/// One top-level form: a definition, a macro form, an import, or an expression.
pub open spec fn sp_def(ts: Seq<SToken>, p: int, ns: Names) -> PRes<Option<SDef>>
    decreases ts.len() - p, 4int,
{
    if !(0 <= p < ts.len()) {
        Err(PErr::Syntax(p))
    } else if ts[p].kind == TokKind::Open && is_word(ts, p + 1, "val"@) {
        if !(is_kind(ts, p + 2, TokKind::Word) && is_var_name(word(ts, p + 2))) {
            Err(PErr::Syntax(p + 2))
        } else if ends_bracket(word(ts, p + 2)) {
            if is_kind(ts, p + 3, TokKind::CloseBracket) {
                sp_alloc(ts, p + 2, ns)
            } else {
                Err(PErr::Syntax(p + 3))
            }
        } else {
            sp_val(ts, p + 2, ns)
        }
    } else if ts[p].kind == TokKind::Open && is_word(ts, p + 1, "define"@) {
        sp_define(ts, p + 2, ns)
    } else if ts[p].kind == TokKind::Open && is_word(ts, p + 1, "check-expect"@) {
        sp_check_expect(ts, p + 2, ns)
    } else if ts[p].kind == TokKind::Open && is_word(ts, p + 1, "check-assert"@) {
        sp_check_assert(ts, p + 2, ns)
    } else if ts[p].kind == TokKind::Open && is_word(ts, p + 1, "#undef"@) {
        sp_undef(ts, p + 2, ns)
    } else if ts[p].kind == TokKind::HashOpen {
        if is_word(ts, p + 1, "replace"@) {
            if is_kind(ts, p + 2, TokKind::Open) {
                sp_inliner(ts, p + 3, ns)
            } else {
                sp_replacer(ts, p + 2, ns)
            }
        } else if is_word(ts, p + 1, "undef"@) {
            sp_undef(ts, p + 2, ns)
        } else if is_word(ts, p + 1, "import"@) {
            if is_kind(ts, p + 2, TokKind::Str) {
                sp_importfile(ts, p + 2, ns)
            } else {
                sp_importlib(ts, p + 2, ns)
            }
        } else {
            Err(PErr::Syntax(p + 1))
        }
    } else {
        match sp_exp(ts, p, ns) {
            Err(e) => Err(e),
            Ok((e, q, ns1)) => Ok((Some(SDef::Exp(e)), q, ns1)),
        }
    }
}

/// All top-level forms from `p` to the end: the definitions and the final names.
pub open spec fn sp_defs(ts: Seq<SToken>, p: int, ns: Names) -> Result<(Seq<SDef>, Names), PErr>
    decreases ts.len() - p, 5int,
{
    if !(0 <= p < ts.len()) {
        Ok((Seq::empty(), ns))
    } else {
        match sp_def(ts, p, ns) {
            Err(e) => Err(e),
            Ok((d, q, ns1)) => if !step(p, q, ts.len() as int) {
                Err(PErr::Syntax(q))
            } else {
                match sp_defs(ts, q, ns1) {
                    Err(e) => Err(e),
                    Ok((ds, ns2)) => Ok((
                        (match d {
                            Some(d) => seq![d],
                            None => Seq::empty(),
                        }) + ds,
                        ns2,
                    )),
                }
            },
        }
    }
}

} // verus!
