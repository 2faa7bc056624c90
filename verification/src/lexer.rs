//! Splits Impcore source text into tokens.
use vstd::prelude::*;

use crate::text::{is_ws, is_whitespace};

verus! {

/// The kinds of token: `(`, `#(`, `)`, `]`, a word, a string in double quotes.
#[derive(Clone, Copy, PartialEq, Eq, Debug, Structural)]
pub enum TokKind {
    Open,
    HashOpen,
    Close,
    CloseBracket,
    Word,
    Str,
}

/// A token: its kind, its text (for a string, what stands between the quotes),
/// and the characters `start..end` of the source that it spans.
pub struct Token {
    pub kind: TokKind,
    pub text: Vec<char>,
    pub start: usize,
    pub end: usize,
}

/// Characters that end a word.
pub open spec fn is_delim(c: char) -> bool {
    is_ws(c) || c == '(' || c == ')' || c == ']' || c == ';' || c == '"'
}

/// Where the word that starts at `i` ends: before a delimiter, or just after a `[`.
pub open spec fn word_end(cs: Seq<char>, i: int) -> int
    decreases cs.len() - i,
{
    if i < 0 || i >= cs.len() || is_delim(cs[i]) {
        i
    } else if cs[i] == '[' {
        i + 1
    } else {
        word_end(cs, i + 1)
    }
}

/// The first index at or after `i` that holds `c`, or the length when there is none.
pub open spec fn find_char(cs: Seq<char>, i: int, c: char) -> int
    decreases cs.len() - i,
{
    if i < 0 || i >= cs.len() || cs[i] == c {
        i
    } else {
        find_char(cs, i + 1, c)
    }
}

pub proof fn lemma_word_end(cs: Seq<char>, i: int)
    requires
        0 <= i <= cs.len(),
    ensures
        i <= word_end(cs, i) <= cs.len(),
        forall|k: int| i <= k < word_end(cs, i) ==> !is_delim(#[trigger] cs[k]),
    decreases cs.len() - i,
{
    if i < cs.len() && !is_delim(cs[i]) && cs[i] != '[' {
        lemma_word_end(cs, i + 1);
    }
}

pub proof fn lemma_find_char(cs: Seq<char>, i: int, c: char)
    requires
        0 <= i <= cs.len(),
    ensures
        i <= find_char(cs, i, c) <= cs.len(),
        find_char(cs, i, c) < cs.len() ==> cs[find_char(cs, i, c)] == c,
    decreases cs.len() - i,
{
    if i < cs.len() && cs[i] != c {
        lemma_find_char(cs, i + 1, c);
    }
}

/// A token as the lexer makes it.
pub struct SToken {
    pub kind: TokKind,
    pub text: Seq<char>,
    pub start: int,
    pub end: int,
}

pub open spec fn stok(t: Token) -> SToken {
    SToken { kind: t.kind, text: t.text@, start: t.start as int, end: t.end as int }
}

pub open spec fn stoks(ts: Seq<Token>) -> Seq<SToken> {
    ts.map_values(|t: Token| stok(t))
}

pub open spec fn punct(kind: TokKind, i: int, n: int) -> SToken {
    SToken { kind, text: Seq::empty(), start: i, end: i + n }
}

/// The tokens of `cs` from index `i` on, or the index of a string that is never closed.
pub open spec fn lex_from(cs: Seq<char>, i: int) -> Result<Seq<SToken>, int>
    decreases cs.len() - i,
{
    if i < 0 || i >= cs.len() {
        Ok(Seq::empty())
    } else {
        let c = cs[i];
        if is_ws(c) {
            lex_from(cs, i + 1)
        } else if c == ';' {
            let j = find_char(cs, i + 1, '\n');
            if i < j <= cs.len() {
                lex_from(cs, j)
            } else {
                Err(i)
            }
        } else if c == '(' || c == ')' || c == ']' || (c == '#' && i + 1 < cs.len() && cs[i + 1] == '(') {
            let (kind, n) = if c == '(' {
                (TokKind::Open, 1int)
            } else if c == ')' {
                (TokKind::Close, 1int)
            } else if c == ']' {
                (TokKind::CloseBracket, 1int)
            } else {
                (TokKind::HashOpen, 2int)
            };
            match lex_from(cs, i + n) {
                Ok(rest) => Ok(seq![punct(kind, i, n)] + rest),
                Err(e) => Err(e),
            }
        } else if c == '"' {
            let j = find_char(cs, i + 1, '"');
            if i < j < cs.len() {
                match lex_from(cs, j + 1) {
                    Ok(rest) => Ok(
                        seq![SToken { kind: TokKind::Str, text: cs.subrange(i + 1, j), start: i, end: j + 1 }]
                            + rest,
                    ),
                    Err(e) => Err(e),
                }
            } else {
                Err(i)
            }
        } else {
            let j = word_end(cs, i);
            if i < j <= cs.len() {
                match lex_from(cs, j) {
                    Ok(rest) => Ok(
                        seq![SToken { kind: TokKind::Word, text: cs.subrange(i, j), start: i, end: j }]
                            + rest,
                    ),
                    Err(e) => Err(e),
                }
            } else {
                Err(i)
            }
        }
    }
}

/// The whole source text's tokens.
pub open spec fn lex_spec(cs: Seq<char>) -> Result<Seq<SToken>, int> {
    lex_from(cs, 0)
}

pub open spec fn glue(acc: Seq<SToken>, r: Result<Seq<SToken>, int>) -> Result<Seq<SToken>, int> {
    match r {
        Ok(rest) => Ok(acc + rest),
        Err(e) => Err(e),
    }
}

/// Every token of `ts` lies within the first `i` characters.
pub open spec fn within(ts: Seq<Token>, i: int) -> bool {
    forall|k: int| 0 <= k < ts.len() ==> 0 <= #[trigger] ts[k].start <= ts[k].end <= i
}

proof fn lemma_push_within(tv: Seq<Token>, t: Token, i: int)
    requires
        within(tv, i),
        i <= t.start <= t.end,
    ensures
        within(tv.push(t), t.end as int),
{
    assert forall|k: int| 0 <= k < tv.push(t).len() implies 0 <= #[trigger] tv.push(t)[k].start <= tv.push(t)[k].end <= t.end by {
        if k < tv.len() {
            assert(tv.push(t)[k] == tv[k]);
        }
    }
}

fn find_char_from(cs: &Vec<char>, i: usize, c: char) -> (j: usize)
    requires
        i <= cs@.len(),
    ensures
        j == find_char(cs@, i as int, c),
{
    let mut j = i;
    while j < cs.len() && cs[j] != c
        invariant
            i <= j <= cs@.len(),
            find_char(cs@, i as int, c) == find_char(cs@, j as int, c),
        decreases cs@.len() - j,
    {
        j = j + 1;
    }
    j
}

fn delim(c: char) -> (r: bool)
    ensures
        r == is_delim(c),
{
    is_whitespace(c) || c == '(' || c == ')' || c == ']' || c == ';' || c == '"'
}

fn word_end_from(cs: &Vec<char>, i: usize) -> (j: usize)
    requires
        i <= cs@.len(),
    ensures
        j == word_end(cs@, i as int),
{
    let mut j = i;
    while j < cs.len() && !delim(cs[j]) && cs[j] != '['
        invariant
            i <= j <= cs@.len(),
            word_end(cs@, i as int) == word_end(cs@, j as int),
        decreases cs@.len() - j,
    {
        j = j + 1;
    }
    if j < cs.len() && !delim(cs[j]) {
        j + 1
    } else {
        j
    }
}

fn copy_range(cs: &Vec<char>, i: usize, j: usize) -> (r: Vec<char>)
    requires
        i <= j <= cs@.len(),
    ensures
        r@ == cs@.subrange(i as int, j as int),
{
    let mut r: Vec<char> = Vec::new();
    let mut k = i;
    while k < j
        invariant
            i <= k <= j <= cs@.len(),
            r@ == cs@.subrange(i as int, k as int),
        decreases j - k,
    {
        r.push(cs[k]);
        assert(r@ =~= cs@.subrange(i as int, k as int + 1));
        k = k + 1;
    }
    r
}

#[verifier::spinoff_prover]
#[verifier::rlimit(40)]
/// Splits source characters into tokens; `Err(i)` when the string that opens at `i` is never closed.
pub fn lex(cs: &Vec<char>) -> (r: Result<Vec<Token>, usize>)
    ensures
        match r {
            Ok(ts) => lex_spec(cs@) == Ok::<Seq<SToken>, int>(stoks(ts@)),
            Err(i) => lex_spec(cs@) == Err::<Seq<SToken>, int>(i as int),
        },
        r is Ok ==> r->Ok_0@.len() <= cs@.len(),
        r is Ok ==> forall|k: int| 0 <= k < r->Ok_0@.len() ==> 0 <= #[trigger] r->Ok_0@[k].start <= r->Ok_0@[k].end <= cs@.len(),
        r matches Err(i) ==> i < cs@.len(),
{
    let mut ts: Vec<Token> = Vec::new();
    let mut i: usize = 0;
    while i < cs.len()
        invariant
            i <= cs@.len(),
            ts@.len() <= i,
            within(ts@, i as int),
            lex_spec(cs@) == glue(stoks(ts@), lex_from(cs@, i as int)),
        decreases cs@.len() - i,
    {
        let c = cs[i];
        let ghost old_ts = stoks(ts@);
        let ghost tv = ts@;
        if is_whitespace(c) {
            i = i + 1;
        } else if c == ';' {
            let j = find_char_from(cs, i + 1, '\n');
            proof {
                lemma_find_char(cs@, i as int + 1, '\n');
            }
            i = j;
        } else if c == '(' || c == ')' || c == ']' || (c == '#' && i + 1 < cs.len() && cs[i + 1] == '(') {
            let (kind, n): (TokKind, usize) = if c == '(' {
                (TokKind::Open, 1)
            } else if c == ')' {
                (TokKind::Close, 1)
            } else if c == ']' {
                (TokKind::CloseBracket, 1)
            } else {
                (TokKind::HashOpen, 2)
            };
            ts.push(Token { kind, text: Vec::new(), start: i, end: i + n });
            proof {
                lemma_push_within(tv, ts@.last(), i as int);
                assert(ts@ =~= tv.push(ts@.last()));
            }
            proof {
                assert(stoks(ts@) =~= old_ts + seq![punct(kind, i as int, n as int)]);
                let rest = lex_from(cs@, i + n);
                if rest is Ok {
                    assert(old_ts + (seq![punct(kind, i as int, n as int)] + rest->Ok_0) =~= stoks(ts@) + rest->Ok_0);
                }
            }
            i = i + n;
        } else if c == '"' {
            let j = find_char_from(cs, i + 1, '"');
            proof {
                lemma_find_char(cs@, i as int + 1, '"');
            }
            if j >= cs.len() {
                return Err(i);
            }
            let text = copy_range(cs, i + 1, j);
            let ghost tok = SToken { kind: TokKind::Str, text: cs@.subrange(i + 1, j as int), start: i as int, end: j + 1 };
            ts.push(Token { kind: TokKind::Str, text, start: i, end: j + 1 });
            proof {
                lemma_push_within(tv, ts@.last(), i as int);
                assert(ts@ =~= tv.push(ts@.last()));
            }
            proof {
                assert(stoks(ts@) =~= old_ts + seq![tok]);
                let rest = lex_from(cs@, j + 1);
                if rest is Ok {
                    assert(old_ts + (seq![tok] + rest->Ok_0) =~= stoks(ts@) + rest->Ok_0);
                }
            }
            i = j + 1;
        } else {
            let j = word_end_from(cs, i);
            proof {
                lemma_word_end(cs@, i as int);
                lemma_word_end(cs@, i as int + 1);
                assert(!is_delim(cs@[i as int]));
                assert(j > i);
            }
            let text = copy_range(cs, i, j);
            let ghost tok = SToken { kind: TokKind::Word, text: cs@.subrange(i as int, j as int), start: i as int, end: j as int };
            ts.push(Token { kind: TokKind::Word, text, start: i, end: j });
            proof {
                lemma_push_within(tv, ts@.last(), i as int);
                assert(ts@ =~= tv.push(ts@.last()));
            }
            proof {
                assert(stoks(ts@) =~= old_ts + seq![tok]);
                let rest = lex_from(cs@, j as int);
                if rest is Ok {
                    assert(old_ts + (seq![tok] + rest->Ok_0) =~= stoks(ts@) + rest->Ok_0);
                }
            }
            i = j;
        }
    }
    proof {
        assert(stoks(ts@) + Seq::<SToken>::empty() =~= stoks(ts@));
    }
    Ok(ts)
}

} // verus!
