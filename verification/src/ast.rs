//! The abstract syntax of Impcore programs and its mathematical model.
use vstd::prelude::*;

use crate::env::Name;
use crate::text::{chars_of, text_is, trim, trim_chars, lemma_trim_no_ws};

verus! {

/// An Impcore expression.
#[derive(Debug)]
pub enum Exp {
    Literal(i32),
    Var(Name, Option<Box<Exp>>),
    Binary(Primitive, Box<Exp>, Box<Exp>),
    Unary(Primitive, Box<Exp>),
    Apply(Name, Vec<Exp>),
    If(Box<Exp>, Box<Exp>, Box<Exp>),
    While(Box<Exp>, Box<Exp>),
    Begin(Vec<Exp>),
    Assign(Name, Option<Box<Exp>>, Box<Exp>),
    Match(Box<Exp>, Vec<(Exp, Exp)>, Box<Exp>),
}

/// A top-level definition.
#[derive(Debug)]
pub enum Def {
    Define(Name, Vec<Name>, Exp),
    Val(Name, Exp),
    Exp(Exp),
    CheckExpect(Exp, Exp),
    CheckAssert(Exp),
    Import(String),
    Alias(Name, Exp),
    Inline(Name, Vec<Name>, Exp),
    Undef(Name),
}

/// A program: its definitions in order.
pub type Ast = Vec<Def>;

/// The built-in operators.
#[derive(Clone, Copy, Debug, PartialEq, Eq, Structural)]
pub enum Primitive {
    Add,
    Sub,
    Mul,
    Div,
    UDiv,
    Mod,
    LShift,
    RShift,
    URShift,
    And,
    Or,
    Eq,
    Neq,
    Lte,
    Lt,
    Gte,
    Gt,
    Not,
    BitXor,
    BitAnd,
    BitOr,
    Print,
    Println,
    Printc,
    Incr,
    Decr,
    Neg,
}

/// The model of an expression: the same tree, with sequences in place of vectors.
pub enum SExp {
    Literal(i32),
    Var(Name, Option<Box<SExp>>),
    Binary(Primitive, Box<SExp>, Box<SExp>),
    Unary(Primitive, Box<SExp>),
    Apply(Name, Seq<SExp>),
    If(Box<SExp>, Box<SExp>, Box<SExp>),
    While(Box<SExp>, Box<SExp>),
    Begin(Seq<SExp>),
    Assign(Name, Option<Box<SExp>>, Box<SExp>),
    Match(Box<SExp>, Seq<(SExp, SExp)>, Box<SExp>),
}

/// The model of a definition.
pub enum SDef {
    Define(Name, Seq<Name>, SExp),
    Val(Name, SExp),
    Exp(SExp),
    CheckExpect(SExp, SExp),
    CheckAssert(SExp),
    Import(Seq<char>),
    Alias(Name, SExp),
    Inline(Name, Seq<Name>, SExp),
    Undef(Name),
}

pub open spec fn sexp(e: &Exp) -> SExp
    decreases e,
{
    match e {
        Exp::Literal(l) => SExp::Literal(*l),
        Exp::Var(n, None) => SExp::Var(*n, None),
        Exp::Var(n, Some(i)) => SExp::Var(*n, Some(Box::new(sexp(i)))),
        Exp::Binary(p, l, r) => SExp::Binary(*p, Box::new(sexp(l)), Box::new(sexp(r))),
        Exp::Unary(p, b) => SExp::Unary(*p, Box::new(sexp(b))),
        Exp::Apply(n, es) => SExp::Apply(
            *n,
            Seq::new(
                es@.len(),
                |i: int|
                    if 0 <= i < es@.len() {
                        sexp(&es@[i])
                    } else {
                        SExp::Literal(0)
                    },
            ),
        ),
        Exp::If(c, t, f) => SExp::If(Box::new(sexp(c)), Box::new(sexp(t)), Box::new(sexp(f))),
        Exp::While(g, b) => SExp::While(Box::new(sexp(g)), Box::new(sexp(b))),
        Exp::Begin(es) => SExp::Begin(
            Seq::new(
                es@.len(),
                |i: int|
                    if 0 <= i < es@.len() {
                        sexp(&es@[i])
                    } else {
                        SExp::Literal(0)
                    },
            ),
        ),
        Exp::Assign(n, None, v) => SExp::Assign(*n, None, Box::new(sexp(v))),
        Exp::Assign(n, Some(i), v) => SExp::Assign(*n, Some(Box::new(sexp(i))), Box::new(sexp(v))),
        Exp::Match(p, cs, d) => SExp::Match(
            Box::new(sexp(p)),
            Seq::new(
                cs@.len(),
                |i: int|
                    if 0 <= i < cs@.len() {
                        (sexp(&cs@[i].0), sexp(&cs@[i].1))
                    } else {
                        (SExp::Literal(0), SExp::Literal(0))
                    },
            ),
            Box::new(sexp(d)),
        ),
    }
}

/// The models of a sequence of expressions.
pub open spec fn sexps(es: Seq<Exp>) -> Seq<SExp> {
    es.map_values(|e: Exp| sexp(&e))
}

/// The models of a sequence of match arms.
pub open spec fn sarms(cs: Seq<(Exp, Exp)>) -> Seq<(SExp, SExp)> {
    cs.map_values(|c: (Exp, Exp)| (sexp(&c.0), sexp(&c.1)))
}

impl View for Exp {
    type V = SExp;

    open spec fn view(&self) -> SExp {
        sexp(self)
    }
}

pub open spec fn sdef(d: &Def) -> SDef {
    match d {
        Def::Define(n, xs, b) => SDef::Define(*n, xs@, sexp(b)),
        Def::Val(n, e) => SDef::Val(*n, sexp(e)),
        Def::Exp(e) => SDef::Exp(sexp(e)),
        Def::CheckExpect(l, r) => SDef::CheckExpect(sexp(l), sexp(r)),
        Def::CheckAssert(e) => SDef::CheckAssert(sexp(e)),
        Def::Import(s) => SDef::Import(s@),
        Def::Alias(n, e) => SDef::Alias(*n, sexp(e)),
        Def::Inline(n, xs, b) => SDef::Inline(*n, xs@, sexp(b)),
        Def::Undef(n) => SDef::Undef(*n),
    }
}

impl View for Def {
    type V = SDef;

    open spec fn view(&self) -> SDef {
        sdef(self)
    }
}

/// The models of a sequence of definitions.
pub open spec fn sdefs(ds: Seq<Def>) -> Seq<SDef> {
    ds.map_values(|d: Def| sdef(&d))
}

/// The models of the lists inside an expression are the lists of their models.
pub proof fn lemma_sexp_lists(e: &Exp)
    ensures
        match e {
            Exp::Apply(n, es) => sexp(e) == SExp::Apply(*n, sexps(es@)),
            Exp::Begin(es) => sexp(e) == SExp::Begin(sexps(es@)),
            Exp::Match(p, cs, d) => sexp(e) == SExp::Match(Box::new(sexp(p)), sarms(cs@), Box::new(sexp(d))),
            _ => true,
        },
{
    match e {
        Exp::Apply(n, es) => {
            assert(sexp(e)->Apply_1 =~= sexps(es@));
        },
        Exp::Begin(es) => {
            assert(sexp(e)->Begin_0 =~= sexps(es@));
        },
        Exp::Match(p, cs, d) => {
            assert(sexp(e)->Match_1 =~= sarms(cs@));
        },
        _ => {},
    }
}

pub proof fn lemma_sexp_apply(n: Name, es: Vec<Exp>)
    ensures
        sexp(&Exp::Apply(n, es)) == SExp::Apply(n, sexps(es@)),
{
    assert(sexp(&Exp::Apply(n, es))->Apply_1 =~= sexps(es@));
}

pub proof fn lemma_sexp_begin(es: Vec<Exp>)
    ensures
        sexp(&Exp::Begin(es)) == SExp::Begin(sexps(es@)),
{
    assert(sexp(&Exp::Begin(es))->Begin_0 =~= sexps(es@));
}

pub proof fn lemma_sexp_match(p: Box<Exp>, cs: Vec<(Exp, Exp)>, d: Box<Exp>)
    ensures
        sexp(&Exp::Match(p, cs, d)) == SExp::Match(Box::new(sexp(&p)), sarms(cs@), Box::new(sexp(&d))),
{
    assert(sexp(&Exp::Match(p, cs, d))->Match_1 =~= sarms(cs@));
}

// Parts of an expression

/// The immediate parts of an expression, as references into it: for a match,
/// each case and its result in turn, then the scrutinee and the default.
pub open spec fn child_refs(e: &Exp) -> Seq<&Exp> {
    match e {
        Exp::Literal(_) => seq![],
        Exp::Var(_, None) => seq![],
        Exp::Assign(_, None, v) => seq![&**v],
        Exp::Unary(_, b) => seq![&**b],
        Exp::Var(_, Some(i)) => seq![&**i],
        Exp::Binary(_, l, r) => seq![&**l, &**r],
        Exp::Assign(_, Some(i), v) => seq![&**i, &**v],
        Exp::While(g, b) => seq![&**g, &**b],
        Exp::If(c, t, f) => seq![&**c, &**t, &**f],
        Exp::Apply(_, es) => Seq::new(es@.len(), |i: int| &es@[i]),
        Exp::Begin(es) => Seq::new(es@.len(), |i: int| &es@[i]),
        Exp::Match(p, cs, d) => Seq::new(
            2 * cs@.len(),
            |i: int|
                if i % 2 == 0 {
                    &cs@[i / 2].0
                } else {
                    &cs@[i / 2].1
                },
        ) + seq![&**p, &**d],
    }
}

impl Exp {
    /// The immediate parts of this expression, in the order of `child_refs`.
    pub fn children(&self) -> (r: Vec<&Exp>)
        ensures
            r@ == child_refs(self),
    {
        let mut r: Vec<&Exp> = Vec::new();
        match self {
            Exp::Literal(_) => {},
            Exp::Var(_, None) => {},
            Exp::Assign(_, None, v) => {
                r.push(&**v);
            },
            Exp::Unary(_, b) => {
                r.push(&**b);
            },
            Exp::Var(_, Some(i)) => {
                r.push(&**i);
            },
            Exp::Binary(_, a, b) => {
                r.push(&**a);
                r.push(&**b);
            },
            Exp::Assign(_, Some(a), b) => {
                r.push(&**a);
                r.push(&**b);
            },
            Exp::While(a, b) => {
                r.push(&**a);
                r.push(&**b);
            },
            Exp::If(a, b, c) => {
                r.push(&**a);
                r.push(&**b);
                r.push(&**c);
            },
            Exp::Apply(_, es) | Exp::Begin(es) => {
                for k in 0..es.len()
                    invariant
                        r@ =~= Seq::new(k as nat, |i: int| &es@[i]),
                {
                    r.push(&es[k]);
                }
            },
            Exp::Match(p, cs, d) => {
                for k in 0..cs.len()
                    invariant
                        r@ =~= Seq::new(2 * k as nat, |i: int| if i % 2 == 0 { &cs@[i / 2].0 } else { &cs@[i / 2].1 }),
                {
                    r.push(&cs[k].0);
                    r.push(&cs[k].1);
                }
                r.push(&**p);
                r.push(&**d);
            },
        }
        r
    }

    /// Whether `f` holds of this expression or of one of its immediate parts.
    pub fn contains<F: Fn(&Exp) -> bool>(&self, f: F) -> (r: bool)
        requires
            forall|x: &Exp| #[trigger] f.requires((x,)),
        ensures
            r ==> f.ensures((self,), true) || exists|i: int| 0 <= i < child_refs(self).len() && f.ensures((#[trigger] child_refs(self)[i],), true),
            !r ==> f.ensures((self,), false) && forall|i: int| 0 <= i < child_refs(self).len() ==> f.ensures((#[trigger] child_refs(self)[i],), false),
    {
        if f(self) {
            return true;
        }
        let cs = self.children();
        let mut k: usize = 0;
        while k < cs.len()
            invariant
                cs@ == child_refs(self),
                k <= cs@.len(),
                forall|x: &Exp| #[trigger] f.requires((x,)),
                f.ensures((self,), false),
                forall|i: int| 0 <= i < k ==> f.ensures((#[trigger] child_refs(self)[i],), false),
            decreases cs@.len() - k,
        {
            if f(cs[k]) {
                return true;
            }
            k = k + 1;
        }
        false
    }
}

// Text of the primitives

/// The primitive that a word names, if any.
pub fn prim_of_chars(t0: &Vec<char>) -> (r: Option<Primitive>)
    ensures
        r == prim_of_word(t0@),
{
    let t = t0;
    if text_is(&t, "+") {
        Some(Primitive::Add)
    } else if text_is(&t, "-") {
        Some(Primitive::Sub)
    } else if text_is(&t, "*") {
        Some(Primitive::Mul)
    } else if text_is(&t, "/") {
        Some(Primitive::Div)
    } else if text_is(&t, "udiv") {
        Some(Primitive::UDiv)
    } else if text_is(&t, "%") || text_is(&t, "mod") {
        Some(Primitive::Mod)
    } else if text_is(&t, ">>") {
        Some(Primitive::RShift)
    } else if text_is(&t, ">>>") {
        Some(Primitive::URShift)
    } else if text_is(&t, "<<") {
        Some(Primitive::LShift)
    } else if text_is(&t, "&&") || text_is(&t, "and") {
        Some(Primitive::And)
    } else if text_is(&t, "||") || text_is(&t, "or") {
        Some(Primitive::Or)
    } else if text_is(&t, "=") {
        Some(Primitive::Eq)
    } else if text_is(&t, "!=") {
        Some(Primitive::Neq)
    } else if text_is(&t, "<=") {
        Some(Primitive::Lte)
    } else if text_is(&t, "<") {
        Some(Primitive::Lt)
    } else if text_is(&t, ">=") {
        Some(Primitive::Gte)
    } else if text_is(&t, ">") {
        Some(Primitive::Gt)
    } else if text_is(&t, "!") || text_is(&t, "not") {
        Some(Primitive::Not)
    } else if text_is(&t, "^") {
        Some(Primitive::BitXor)
    } else if text_is(&t, "&") {
        Some(Primitive::BitAnd)
    } else if text_is(&t, "|") {
        Some(Primitive::BitOr)
    } else if text_is(&t, "print") {
        Some(Primitive::Print)
    } else if text_is(&t, "println") {
        Some(Primitive::Println)
    } else if text_is(&t, "printc") {
        Some(Primitive::Printc)
    } else if text_is(&t, "++") {
        Some(Primitive::Incr)
    } else if text_is(&t, "--") {
        Some(Primitive::Decr)
    } else if text_is(&t, "~") {
        Some(Primitive::Neg)
    } else {
        None
    }
}



/// The text that names each primitive.
pub open spec fn prim_text(p: Primitive) -> Seq<char> {
    match p {
        Primitive::Add => "+"@,
        Primitive::Sub => "-"@,
        Primitive::Mul => "*"@,
        Primitive::Div => "/"@,
        Primitive::UDiv => "udiv"@,
        Primitive::Mod => "%"@,
        Primitive::RShift => ">>"@,
        Primitive::URShift => ">>>"@,
        Primitive::LShift => "<<"@,
        Primitive::And => "&&"@,
        Primitive::Or => "||"@,
        Primitive::Eq => "="@,
        Primitive::Neq => "!="@,
        Primitive::Lte => "<="@,
        Primitive::Lt => "<"@,
        Primitive::Gte => ">="@,
        Primitive::Gt => ">"@,
        Primitive::Not => "!"@,
        Primitive::BitXor => "^"@,
        Primitive::BitAnd => "&"@,
        Primitive::BitOr => "|"@,
        Primitive::Print => "print"@,
        Primitive::Println => "println"@,
        Primitive::Printc => "printc"@,
        Primitive::Incr => "++"@,
        Primitive::Decr => "--"@,
        Primitive::Neg => "~"@,
    }
}

/// The primitive that an (untrimmed) operator text names, if any.
pub open spec fn prim_of_text(s: Seq<char>) -> Option<Primitive> {
    prim_of_word(trim(s))
}

/// The primitive that a word names, if any.
pub open spec fn prim_of_word(t: Seq<char>) -> Option<Primitive> {
    if t == "+"@ {
        Some(Primitive::Add)
    } else if t == "-"@ {
        Some(Primitive::Sub)
    } else if t == "*"@ {
        Some(Primitive::Mul)
    } else if t == "/"@ {
        Some(Primitive::Div)
    } else if t == "udiv"@ {
        Some(Primitive::UDiv)
    } else if t == "%"@ || t == "mod"@ {
        Some(Primitive::Mod)
    } else if t == ">>"@ {
        Some(Primitive::RShift)
    } else if t == ">>>"@ {
        Some(Primitive::URShift)
    } else if t == "<<"@ {
        Some(Primitive::LShift)
    } else if t == "&&"@ || t == "and"@ {
        Some(Primitive::And)
    } else if t == "||"@ || t == "or"@ {
        Some(Primitive::Or)
    } else if t == "="@ {
        Some(Primitive::Eq)
    } else if t == "!="@ {
        Some(Primitive::Neq)
    } else if t == "<="@ {
        Some(Primitive::Lte)
    } else if t == "<"@ {
        Some(Primitive::Lt)
    } else if t == ">="@ {
        Some(Primitive::Gte)
    } else if t == ">"@ {
        Some(Primitive::Gt)
    } else if t == "!"@ || t == "not"@ {
        Some(Primitive::Not)
    } else if t == "^"@ {
        Some(Primitive::BitXor)
    } else if t == "&"@ {
        Some(Primitive::BitAnd)
    } else if t == "|"@ {
        Some(Primitive::BitOr)
    } else if t == "print"@ {
        Some(Primitive::Print)
    } else if t == "println"@ {
        Some(Primitive::Println)
    } else if t == "printc"@ {
        Some(Primitive::Printc)
    } else if t == "++"@ {
        Some(Primitive::Incr)
    } else if t == "--"@ {
        Some(Primitive::Decr)
    } else if t == "~"@ {
        Some(Primitive::Neg)
    } else {
        None
    }
}

impl Primitive {
    /// The primitive named by `op`, ignoring surrounding whitespace.
    pub fn from(op: &str) -> (r: Option<Primitive>)
        ensures
            r == prim_of_text(op@),
    {
        prim_of_chars(&trim_chars(&chars_of(op)))
    }

    /// The text that names this primitive.
    pub fn to_str(&self) -> (r: &'static str)
        ensures
            r@ == prim_text(*self),
    {
        match self {
            Primitive::Add => "+",
            Primitive::Sub => "-",
            Primitive::Mul => "*",
            Primitive::Div => "/",
            Primitive::UDiv => "udiv",
            Primitive::Mod => "%",
            Primitive::RShift => ">>",
            Primitive::URShift => ">>>",
            Primitive::LShift => "<<",
            Primitive::And => "&&",
            Primitive::Or => "||",
            Primitive::Eq => "=",
            Primitive::Neq => "!=",
            Primitive::Lte => "<=",
            Primitive::Lt => "<",
            Primitive::Gte => ">=",
            Primitive::Gt => ">",
            Primitive::Not => "!",
            Primitive::BitXor => "^",
            Primitive::BitAnd => "&",
            Primitive::BitOr => "|",
            Primitive::Print => "print",
            Primitive::Println => "println",
            Primitive::Printc => "printc",
            Primitive::Incr => "++",
            Primitive::Decr => "--",
            Primitive::Neg => "~",
        }
    }
}


/// Every primitive is named again by its own text: `from(to_str(p)) == Some(p)`.
pub proof fn lemma_prim_text_roundtrip(p: Primitive)
    ensures
        prim_of_text(prim_text(p)) == Some(p),
{
    reveal_strlit("+");
    reveal_strlit("-");
    reveal_strlit("*");
    reveal_strlit("/");
    reveal_strlit("udiv");
    reveal_strlit("%");
    reveal_strlit("mod");
    reveal_strlit(">>");
    reveal_strlit(">>>");
    reveal_strlit("<<");
    reveal_strlit("&&");
    reveal_strlit("and");
    reveal_strlit("||");
    reveal_strlit("or");
    reveal_strlit("=");
    reveal_strlit("!=");
    reveal_strlit("<=");
    reveal_strlit("<");
    reveal_strlit(">=");
    reveal_strlit(">");
    reveal_strlit("!");
    reveal_strlit("not");
    reveal_strlit("^");
    reveal_strlit("&");
    reveal_strlit("|");
    reveal_strlit("print");
    reveal_strlit("println");
    reveal_strlit("printc");
    reveal_strlit("++");
    reveal_strlit("--");
    reveal_strlit("~");
    let s = prim_text(p);
    assert forall|i: int| 0 <= i < s.len() implies !crate::text::is_ws(#[trigger] s[i]) by {}
    lemma_trim_no_ws(s);
}

/// The word aliases name the same primitives as their symbols (`and` as `&&`, `or` as `||`,
/// `not` as `!`, `mod` as `%`), also when read from text; and a word names a primitive only
/// if it is that primitive's own text or that primitive's word alias.
pub proof fn lemma_prim_aliases(w: Seq<char>)
    ensures
        prim_of_word("and"@) == prim_of_word("&&"@) && prim_of_word("&&"@) == Some(Primitive::And),
        prim_of_word("or"@) == prim_of_word("||"@) && prim_of_word("||"@) == Some(Primitive::Or),
        prim_of_word("not"@) == prim_of_word("!"@) && prim_of_word("!"@) == Some(Primitive::Not),
        prim_of_word("mod"@) == prim_of_word("%"@) && prim_of_word("%"@) == Some(Primitive::Mod),
        prim_of_text("and"@) == Some(Primitive::And),
        prim_of_text("or"@) == Some(Primitive::Or),
        prim_of_text("not"@) == Some(Primitive::Not),
        prim_of_text("mod"@) == Some(Primitive::Mod),
        prim_of_word(w) matches Some(p) ==> w == prim_text(p)
            || (w == "and"@ && p == Primitive::And)
            || (w == "or"@ && p == Primitive::Or)
            || (w == "not"@ && p == Primitive::Not)
            || (w == "mod"@ && p == Primitive::Mod),
{
    reveal_strlit("+");
    reveal_strlit("-");
    reveal_strlit("*");
    reveal_strlit("/");
    reveal_strlit("udiv");
    reveal_strlit("%");
    reveal_strlit("mod");
    reveal_strlit(">>");
    reveal_strlit(">>>");
    reveal_strlit("<<");
    reveal_strlit("&&");
    reveal_strlit("and");
    reveal_strlit("||");
    reveal_strlit("or");
    reveal_strlit("=");
    reveal_strlit("!=");
    reveal_strlit("<=");
    reveal_strlit("<");
    reveal_strlit(">=");
    reveal_strlit(">");
    reveal_strlit("!");
    reveal_strlit("not");
    reveal_strlit("^");
    reveal_strlit("&");
    reveal_strlit("|");
    reveal_strlit("print");
    reveal_strlit("println");
    reveal_strlit("printc");
    reveal_strlit("++");
    reveal_strlit("--");
    reveal_strlit("~");
    assert("%"@[0] != "+"@[0]);
    assert("%"@ != "+"@);
    assert("%"@[0] != "-"@[0]);
    assert("%"@ != "-"@);
    assert("%"@[0] != "*"@[0]);
    assert("%"@ != "*"@);
    assert("%"@[0] != "/"@[0]);
    assert("%"@ != "/"@);
    assert("%"@.len() != "udiv"@.len());
    assert("%"@ != "udiv"@);
    assert(prim_of_word("%"@) is Some);
    assert("mod"@.len() != "+"@.len());
    assert("mod"@ != "+"@);
    assert("mod"@.len() != "-"@.len());
    assert("mod"@ != "-"@);
    assert("mod"@.len() != "*"@.len());
    assert("mod"@ != "*"@);
    assert("mod"@.len() != "/"@.len());
    assert("mod"@ != "/"@);
    assert("mod"@.len() != "udiv"@.len());
    assert("mod"@ != "udiv"@);
    assert("mod"@.len() != "%"@.len());
    assert("mod"@ != "%"@);
    assert(prim_of_word("mod"@) is Some);
    assert("&&"@.len() != "+"@.len());
    assert("&&"@ != "+"@);
    assert("&&"@.len() != "-"@.len());
    assert("&&"@ != "-"@);
    assert("&&"@.len() != "*"@.len());
    assert("&&"@ != "*"@);
    assert("&&"@.len() != "/"@.len());
    assert("&&"@ != "/"@);
    assert("&&"@.len() != "udiv"@.len());
    assert("&&"@ != "udiv"@);
    assert("&&"@.len() != "%"@.len());
    assert("&&"@ != "%"@);
    assert("&&"@.len() != "mod"@.len());
    assert("&&"@ != "mod"@);
    assert("&&"@[0] != ">>"@[0]);
    assert("&&"@ != ">>"@);
    assert("&&"@.len() != ">>>"@.len());
    assert("&&"@ != ">>>"@);
    assert("&&"@[0] != "<<"@[0]);
    assert("&&"@ != "<<"@);
    assert(prim_of_word("&&"@) is Some);
    assert("and"@.len() != "+"@.len());
    assert("and"@ != "+"@);
    assert("and"@.len() != "-"@.len());
    assert("and"@ != "-"@);
    assert("and"@.len() != "*"@.len());
    assert("and"@ != "*"@);
    assert("and"@.len() != "/"@.len());
    assert("and"@ != "/"@);
    assert("and"@.len() != "udiv"@.len());
    assert("and"@ != "udiv"@);
    assert("and"@.len() != "%"@.len());
    assert("and"@ != "%"@);
    assert("and"@[0] != "mod"@[0]);
    assert("and"@ != "mod"@);
    assert("and"@.len() != ">>"@.len());
    assert("and"@ != ">>"@);
    assert("and"@[0] != ">>>"@[0]);
    assert("and"@ != ">>>"@);
    assert("and"@.len() != "<<"@.len());
    assert("and"@ != "<<"@);
    assert("and"@.len() != "&&"@.len());
    assert("and"@ != "&&"@);
    assert(prim_of_word("and"@) is Some);
    assert("||"@.len() != "+"@.len());
    assert("||"@ != "+"@);
    assert("||"@.len() != "-"@.len());
    assert("||"@ != "-"@);
    assert("||"@.len() != "*"@.len());
    assert("||"@ != "*"@);
    assert("||"@.len() != "/"@.len());
    assert("||"@ != "/"@);
    assert("||"@.len() != "udiv"@.len());
    assert("||"@ != "udiv"@);
    assert("||"@.len() != "%"@.len());
    assert("||"@ != "%"@);
    assert("||"@.len() != "mod"@.len());
    assert("||"@ != "mod"@);
    assert("||"@[0] != ">>"@[0]);
    assert("||"@ != ">>"@);
    assert("||"@.len() != ">>>"@.len());
    assert("||"@ != ">>>"@);
    assert("||"@[0] != "<<"@[0]);
    assert("||"@ != "<<"@);
    assert("||"@[0] != "&&"@[0]);
    assert("||"@ != "&&"@);
    assert("||"@.len() != "and"@.len());
    assert("||"@ != "and"@);
    assert(prim_of_word("||"@) is Some);
    assert("or"@.len() != "+"@.len());
    assert("or"@ != "+"@);
    assert("or"@.len() != "-"@.len());
    assert("or"@ != "-"@);
    assert("or"@.len() != "*"@.len());
    assert("or"@ != "*"@);
    assert("or"@.len() != "/"@.len());
    assert("or"@ != "/"@);
    assert("or"@.len() != "udiv"@.len());
    assert("or"@ != "udiv"@);
    assert("or"@.len() != "%"@.len());
    assert("or"@ != "%"@);
    assert("or"@.len() != "mod"@.len());
    assert("or"@ != "mod"@);
    assert("or"@[0] != ">>"@[0]);
    assert("or"@ != ">>"@);
    assert("or"@.len() != ">>>"@.len());
    assert("or"@ != ">>>"@);
    assert("or"@[0] != "<<"@[0]);
    assert("or"@ != "<<"@);
    assert("or"@[0] != "&&"@[0]);
    assert("or"@ != "&&"@);
    assert("or"@.len() != "and"@.len());
    assert("or"@ != "and"@);
    assert("or"@[0] != "||"@[0]);
    assert("or"@ != "||"@);
    assert(prim_of_word("or"@) is Some);
    assert("!"@[0] != "+"@[0]);
    assert("!"@ != "+"@);
    assert("!"@[0] != "-"@[0]);
    assert("!"@ != "-"@);
    assert("!"@[0] != "*"@[0]);
    assert("!"@ != "*"@);
    assert("!"@[0] != "/"@[0]);
    assert("!"@ != "/"@);
    assert("!"@.len() != "udiv"@.len());
    assert("!"@ != "udiv"@);
    assert("!"@[0] != "%"@[0]);
    assert("!"@ != "%"@);
    assert("!"@.len() != "mod"@.len());
    assert("!"@ != "mod"@);
    assert("!"@.len() != ">>"@.len());
    assert("!"@ != ">>"@);
    assert("!"@.len() != ">>>"@.len());
    assert("!"@ != ">>>"@);
    assert("!"@.len() != "<<"@.len());
    assert("!"@ != "<<"@);
    assert("!"@.len() != "&&"@.len());
    assert("!"@ != "&&"@);
    assert("!"@.len() != "and"@.len());
    assert("!"@ != "and"@);
    assert("!"@.len() != "||"@.len());
    assert("!"@ != "||"@);
    assert("!"@.len() != "or"@.len());
    assert("!"@ != "or"@);
    assert("!"@[0] != "="@[0]);
    assert("!"@ != "="@);
    assert("!"@.len() != "!="@.len());
    assert("!"@ != "!="@);
    assert("!"@.len() != "<="@.len());
    assert("!"@ != "<="@);
    assert("!"@[0] != "<"@[0]);
    assert("!"@ != "<"@);
    assert("!"@.len() != ">="@.len());
    assert("!"@ != ">="@);
    assert("!"@[0] != ">"@[0]);
    assert("!"@ != ">"@);
    assert(prim_of_word("!"@) is Some);
    assert("not"@.len() != "+"@.len());
    assert("not"@ != "+"@);
    assert("not"@.len() != "-"@.len());
    assert("not"@ != "-"@);
    assert("not"@.len() != "*"@.len());
    assert("not"@ != "*"@);
    assert("not"@.len() != "/"@.len());
    assert("not"@ != "/"@);
    assert("not"@.len() != "udiv"@.len());
    assert("not"@ != "udiv"@);
    assert("not"@.len() != "%"@.len());
    assert("not"@ != "%"@);
    assert("not"@[0] != "mod"@[0]);
    assert("not"@ != "mod"@);
    assert("not"@.len() != ">>"@.len());
    assert("not"@ != ">>"@);
    assert("not"@[0] != ">>>"@[0]);
    assert("not"@ != ">>>"@);
    assert("not"@.len() != "<<"@.len());
    assert("not"@ != "<<"@);
    assert("not"@.len() != "&&"@.len());
    assert("not"@ != "&&"@);
    assert("not"@[0] != "and"@[0]);
    assert("not"@ != "and"@);
    assert("not"@.len() != "||"@.len());
    assert("not"@ != "||"@);
    assert("not"@.len() != "or"@.len());
    assert("not"@ != "or"@);
    assert("not"@.len() != "="@.len());
    assert("not"@ != "="@);
    assert("not"@.len() != "!="@.len());
    assert("not"@ != "!="@);
    assert("not"@.len() != "<="@.len());
    assert("not"@ != "<="@);
    assert("not"@.len() != "<"@.len());
    assert("not"@ != "<"@);
    assert("not"@.len() != ">="@.len());
    assert("not"@ != ">="@);
    assert("not"@.len() != ">"@.len());
    assert("not"@ != ">"@);
    assert("not"@.len() != "!"@.len());
    assert("not"@ != "!"@);
    assert(prim_of_word("not"@) is Some);
    let a = "and"@;
    let o = "or"@;
    let n = "not"@;
    let m = "mod"@;
    assert forall|i: int| 0 <= i < a.len() implies !crate::text::is_ws(#[trigger] a[i]) by {}
    assert forall|i: int| 0 <= i < o.len() implies !crate::text::is_ws(#[trigger] o[i]) by {}
    assert forall|i: int| 0 <= i < n.len() implies !crate::text::is_ws(#[trigger] n[i]) by {}
    assert forall|i: int| 0 <= i < m.len() implies !crate::text::is_ws(#[trigger] m[i]) by {}
    lemma_trim_no_ws(a);
    lemma_trim_no_ws(o);
    lemma_trim_no_ws(n);
    lemma_trim_no_ws(m);
}

} // verus!

