//! Whole programs: source text to definitions, and the messages a failed parse gives.
use vstd::prelude::*;

use crate::ast::{Ast, Def, SDef, sdef, sdefs};
use crate::display::def_names_ok;
use crate::env::{Tokens, IT};
use crate::implib::unbound_lib_msg;
use crate::lexer::{Token, SToken, lex, lex_spec, stoks};
use crate::parser::{ParseError, PErr, Names, perr, room, sp_defs, is_lit_text, lit_value, lit_of_chars};
use crate::text::{chars_of, nat_text, nat_digits, push_chars};

verus! {

/// The parser of Impcore programs.
pub struct Parser;

/// The spec result of `parse_defs`.
pub open spec fn res_defs(r: Result<Ast, ParseError>, ns: Names) -> Result<(Seq<SDef>, Names), PErr> {
    match r {
        Ok(ds) => Ok((sdefs(ds@), ns)),
        Err(x) => Err(perr(&x)),
    }
}

pub open spec fn prepend_defs(acc: Seq<SDef>, r: Result<(Seq<SDef>, Names), PErr>) -> Result<(Seq<SDef>, Names), PErr> {
    match r {
        Ok((ds, ns)) => Ok((acc + ds, ns)),
        Err(e) => Err(e),
    }
}

/// Every definition of `ds` only uses tokens below `n`.
pub open spec fn defs_names_ok(ds: Seq<Def>, n: nat) -> bool {
    forall|i: int| 0 <= i < ds.len() ==> def_names_ok(#[trigger] sdef(&ds[i]), n)
}

/// Parses every top-level form of the tokens, in order.
pub fn parse_defs(ts: &Vec<Token>, tokens: &mut Tokens) -> (r: Result<Ast, ParseError>)
    requires
        room(old(tokens), stoks(ts@), 0),
    ensures
        final(tokens).wf(),
        res_defs(r, final(tokens).names()) == sp_defs(stoks(ts@), 0, old(tokens).names()),
        r matches Ok(ds) ==> defs_names_ok(ds@, final(tokens).symbols().len()),
{
    let ghost ns0 = tokens.names();
    let mut ds: Ast = Vec::new();
    let mut p: usize = 0;
    while p < ts.len()
        invariant
            p <= ts@.len(),
            room(tokens, stoks(ts@), p as int),
            ns0 == old(tokens).names(),
            defs_names_ok(ds@, tokens.symbols().len()),
            sp_defs(stoks(ts@), 0, ns0) == prepend_defs(sdefs(ds@), sp_defs(stoks(ts@), p as int, tokens.names())),
        decreases ts@.len() - p,
    {
        let ghost acc = sdefs(ds@);
        let ghost ns = tokens.names();
        let ghost n0 = tokens.symbols().len();
        let (d, q) = match Def::parse(ts, p, tokens) {
            Ok(x) => x,
            Err(x) => {
                return Err(x);
            },
        };
        proof {
            let n1 = tokens.symbols().len();
            assert forall|i: int| 0 <= i < ds@.len() implies def_names_ok(#[trigger] sdef(&ds@[i]), n1) by {
                crate::display::lemma_def_names_ok_mono(sdef(&ds@[i]), n0, n1);
            }
        }
        match d {
            Some(d) => {
                let ghost dv = sdef(&d);
                ds.push(d);
                proof {
                    assert(sdefs(ds@) =~= acc + seq![dv]);
                    let rest = sp_defs(stoks(ts@), q as int, tokens.names());
                    if rest is Ok {
                        assert(acc + (seq![dv] + rest->Ok_0.0) =~= sdefs(ds@) + rest->Ok_0.0);
                    }
                    assert forall|i: int| 0 <= i < ds@.len() implies def_names_ok(#[trigger] sdef(&ds@[i]), tokens.symbols().len()) by {
                        if i == ds@.len() - 1 {
                            assert(sdef(&ds@[i]) == dv);
                        }
                    }
                }
            },
            None => {
                proof {
                    let rest = sp_defs(stoks(ts@), q as int, tokens.names());
                    if rest is Ok {
                        assert(Seq::<SDef>::empty() + rest->Ok_0.0 =~= rest->Ok_0.0);
                    }
                }
            },
        }
        p = q;
    }
    assert(sdefs(ds@) + Seq::<SDef>::empty() =~= sdefs(ds@));
    Ok(ds)
}

// Messages

/// The line and column (both from 1) of the character at offset `off`.
pub open spec fn position(cs: Seq<char>, off: int) -> (nat, nat)
    decreases off,
{
    if off <= 0 {
        (1, 1)
    } else {
        let (l, c) = position(cs, off - 1);
        if cs[off - 1] == '\n' {
            (l + 1, 1)
        } else {
            (l, c + 1)
        }
    }
}

/// `line:column` of the character at offset `off`.
pub open spec fn at_text(cs: Seq<char>, off: int) -> Seq<char> {
    let (l, c) = position(cs, off);
    nat_text(l) + ":"@ + nat_text(c)
}

/// Where token `i` starts; the end of the text for a token past the last.
pub open spec fn tok_offset(cs: Seq<char>, ts: Seq<SToken>, i: int) -> int {
    if 0 <= i < ts.len() {
        ts[i].start
    } else {
        cs.len() as int
    }
}

/// The source text of a span of characters.
pub open spec fn span_text(cs: Seq<char>, s: (int, int)) -> Seq<char> {
    if 0 <= s.0 <= s.1 <= cs.len() {
        cs.subrange(s.0, s.1)
    } else {
        Seq::empty()
    }
}

/// The texts of the spans, joined with `", "`.
pub open spec fn spans_text(cs: Seq<char>, spans: Seq<(int, int)>) -> Seq<char>
    decreases spans.len(),
{
    if spans.len() == 0 {
        Seq::empty()
    } else if spans.len() == 1 {
        span_text(cs, spans[0])
    } else {
        spans_text(cs, spans.drop_last()) + ", "@ + span_text(cs, spans.last())
    }
}

/// The message of a failed parse of `cs`, whose tokens are `ts`.
pub open spec fn failure_text(cs: Seq<char>, ts: Seq<SToken>, e: PErr) -> Seq<char> {
    match e {
        PErr::Syntax(i) => "Parsing Failed: unexpected input at "@ + at_text(cs, tok_offset(cs, ts, i)),
        PErr::Literal(i) => "Parsing Failed: integer literal out of range at "@ + at_text(cs, tok_offset(cs, ts, i)),
        PErr::NonStatic(m, spans) => "Syntax error in "@ + m + "\nNon-static members ["@ + spans_text(cs, spans)
            + "] included in left side of match cases"@,
        PErr::UnboundLib(n) => unbound_lib_msg(n),
    }
}

/// The message for a string that opens at offset `i` and is never closed.
pub open spec fn unclosed_text(cs: Seq<char>, i: int) -> Seq<char> {
    "Parsing Failed: unterminated string at "@ + at_text(cs, i)
}

/// What parsing the source text `cs` gives, starting from the token texts `ns`:
/// the definitions and the token texts after them, or the message.
pub open spec fn program_spec(cs: Seq<char>, ns: Names) -> Result<(Seq<SDef>, Names), Seq<char>> {
    match lex_spec(cs) {
        Err(i) => Err(unclosed_text(cs, i)),
        Ok(ts) => match sp_defs(ts, 0, ns) {
            Ok(r) => Ok(r),
            Err(e) => Err(failure_text(cs, ts, e)),
        },
    }
}

fn position_of(cs: &Vec<char>, off: usize) -> (r: (u64, u64))
    requires
        off <= cs@.len(),
        cs@.len() < IT,
    ensures
        (r.0 as nat, r.1 as nat) == position(cs@, off as int),
{
    let mut l: u64 = 1;
    let mut c: u64 = 1;
    let mut k: usize = 0;
    while k < off
        invariant
            k <= off <= cs@.len() < IT,
            (l as nat, c as nat) == position(cs@, k as int),
            l <= k + 1,
            c <= k + 1,
        decreases off - k,
    {
        if cs[k] == '\n' {
            l = l + 1;
            c = 1;
        } else {
            c = c + 1;
        }
        k = k + 1;
    }
    (l, c)
}

fn push_at(out: &mut String, cs: &Vec<char>, off: usize)
    requires
        off <= cs@.len(),
        cs@.len() < IT,
    ensures
        final(out)@ == old(out)@ + at_text(cs@, off as int),
{
    let (l, c) = position_of(cs, off);
    push_chars(out, &nat_digits(l));
    out.append(":");
    push_chars(out, &nat_digits(c));
}

fn push_span(out: &mut String, cs: &Vec<char>, s: (usize, usize))
    ensures
        final(out)@ == old(out)@ + span_text(cs@, (s.0 as int, s.1 as int)),
{
    if s.0 <= s.1 && s.1 <= cs.len() {
        let mut k = s.0;
        while k < s.1
            invariant
                s.0 <= k <= s.1 <= cs@.len(),
                out@ == old(out)@ + cs@.subrange(s.0 as int, k as int),
            decreases s.1 - k,
        {
            crate::text::push_char(out, cs[k]);
            assert(cs@.subrange(s.0 as int, k + 1) =~= cs@.subrange(s.0 as int, k as int).push(cs@[k as int]));
            k = k + 1;
        }
    } else {
        assert(old(out)@ + Seq::<char>::empty() =~= old(out)@);
    }
}

fn failure_message(cs: &Vec<char>, ts: &Vec<Token>, e: &ParseError) -> (r: String)
    requires
        cs@.len() < IT,
        forall|i: int| 0 <= i < ts@.len() ==> 0 <= #[trigger] ts@[i].start <= cs@.len(),
    ensures
        r@ == failure_text(cs@, stoks(ts@), perr(e)),
{
    match e {
        ParseError::Syntax(i) => {
            let mut out = "Parsing Failed: unexpected input at ".to_owned();
            let off = if *i < ts.len() { ts[*i].start } else { cs.len() };
            push_at(&mut out, cs, off);
            out
        },
        ParseError::Literal(i) => {
            let mut out = "Parsing Failed: integer literal out of range at ".to_owned();
            let off = if *i < ts.len() { ts[*i].start } else { cs.len() };
            push_at(&mut out, cs, off);
            out
        },
        ParseError::NonStatic(m, spans) => {
            let mut out = "Syntax error in ".to_owned();
            push_chars(&mut out, m);
            out.append("\nNon-static members [");
            let ghost sv = crate::parser::spans_view(spans@);
            let ghost o = out@;
            let mut k: usize = 0;
            while k < spans.len()
                invariant
                    k <= spans@.len(),
                    sv == crate::parser::spans_view(spans@),
                    out@ == o + spans_text(cs@, sv.take(k as int)),
                decreases spans@.len() - k,
            {
                let ghost before = out@;
                if k > 0 {
                    out.append(", ");
                }
                push_span(&mut out, cs, spans[k]);
                proof {
                    let t = sv.take(k + 1);
                    assert(t.drop_last() =~= sv.take(k as int));
                    if k == 0 {
                        assert(sv.take(0) =~= Seq::<(int, int)>::empty());
                    }
                }
                k = k + 1;
            }
            assert(sv.take(spans@.len() as int) =~= sv);
            out.append("] included in left side of match cases");
            out
        },
        ParseError::UnboundLib(n) => {
            let mut out = "Unbound libname ".to_owned();
            push_chars(&mut out, n);
            out
        },
    }
}

impl Parser {
    /// Parses a whole program with a fresh token table.
    pub fn build_ast(code: &str) -> (r: Result<(Ast, Tokens), String>)
        requires
            code@.len() < IT,
        ensures
            match r {
                Ok((ast, tokens)) => {
                    &&& tokens.wf()
                    &&& program_spec(code@, Seq::empty()) == Ok::<(Seq<SDef>, Names), Seq<char>>((sdefs(ast@), tokens.names()))
                    &&& defs_names_ok(ast@, tokens.symbols().len())
                },
                Err(msg) => program_spec(code@, Seq::empty()) == Err::<(Seq<SDef>, Names), Seq<char>>(msg@),
            },
    {
        let tokens = Tokens::new();
        Parser::generate_ast(code, tokens)
    }

    /// Parses a whole program, adding its names to `tokens`.
    pub fn generate_ast(code: &str, tokens: Tokens) -> (r: Result<(Ast, Tokens), String>)
        requires
            tokens.wf(),
            tokens.symbols().len() + code@.len() < IT,
        ensures
            match r {
                Ok((ast, t)) => {
                    &&& t.wf()
                    &&& program_spec(code@, tokens.names()) == Ok::<(Seq<SDef>, Names), Seq<char>>((sdefs(ast@), t.names()))
                    &&& defs_names_ok(ast@, t.symbols().len())
                },
                Err(msg) => program_spec(code@, tokens.names()) == Err::<(Seq<SDef>, Names), Seq<char>>(msg@),
            },
    {
        let cs = chars_of(code);
        let ts = match lex(&cs) {
            Ok(ts) => ts,
            Err(i) => {
                let mut out = "Parsing Failed: unterminated string at ".to_owned();
                push_at(&mut out, &cs, i);
                return Err(out);
            },
        };
        let mut tokens = tokens;
        match parse_defs(&ts, &mut tokens) {
            Ok(ast) => Ok((ast, tokens)),
            Err(e) => Err(failure_message(&cs, &ts, &e)),
        }
    }
}

/// The value of an integer literal: decimal, `0x` hexadecimal or `0b` binary, with an
/// optional leading `-`; the digits are read as 32 bits and the sign applied with wrapping.
pub fn str2lit(numstr: &str) -> (r: i32)
    requires
        is_lit_text(numstr@),
        lit_value(numstr@) is Some,
    ensures
        lit_value(numstr@) == Some(r),
{
    lit_of_chars(&chars_of(numstr)).unwrap()
}

} // verus!
