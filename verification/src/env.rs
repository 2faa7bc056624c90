//! Names, the token table, the static environment, and map utilities.
use std::collections::HashMap;
use std::hash::Hash;

use vstd::prelude::*;

use crate::parser::tokenize_all;
use vstd::std_specs::iter::IteratorSpec;

use crate::text::{trim, trim_chars, chars_of, string_of};

verus! {

broadcast use vstd::std_specs::hash::group_hash_axioms;

/// A name is the token number that the tokenizer gave its text.
pub type Name = i32;

/// The name that stands for a top-level expression's result.
pub const IT: Name = 0x7fff_ffff;

/// The type of a variable: an integer or a pointer to an array.
#[derive(Clone, Copy, PartialEq, Eq, Debug, Structural)]
pub enum Type {
    Int,
    Pointer,
}

/// The static environment: the tokens, and the types of globals and functions.
pub struct Env {
    pub tokens: Tokens,
    pub globaltys: HashMap<Name, Type>,
    pub funtys: HashMap<Name, Vec<(Name, Type)>>,
}

/// Every parameter name in a function type is a token below `n`, or the name of a library parameter.
pub open spec fn params_named(ps: Seq<(Name, Type)>, n: nat) -> bool {
    forall|i: int| 0 <= i < ps.len() ==> (#[trigger] ps[i]).0 == crate::EXTERNAL_PARAM || 0 <= ps[i].0 < n
}

impl Env {
    /// The token table is well formed, and every function type names its parameters by tokens of it.
    pub open spec fn wf(&self) -> bool {
        &&& self.tokens.wf()
        &&& forall|f: Name| #[trigger] self.funtys@.contains_key(f) ==> params_named(self.funtys@[f]@, self.tokens.symbols().len())
    }

    pub fn new(tokens: Tokens) -> (r: Self)
        ensures
            r.tokens == tokens,
            tokens.wf() ==> r.wf(),
            r.globaltys@ == Map::<Name, Type>::empty(),
            r.funtys@ == Map::<Name, Vec<(Name, Type)>>::empty(),
    {
        Env { tokens, funtys: HashMap::new(), globaltys: HashMap::new() }
    }

    /// Whether `name` is bound as a global of pointer type.
    pub fn is_pointer(&self, name: Name) -> (r: bool)
        ensures
            r == (self.globaltys@.contains_key(name) && self.globaltys@[name] == Type::Pointer),
    {
        match self.globaltys.get(&name) {
            Some(t) => *t == Type::Pointer,
            None => false,
        }
    }
}

/// Where in the source text something stands.
pub struct ErrorInfo {
    pub line: u32,
    pub col: u32,
}

/// The token table: token `t` names the text `symbols[t]`.
pub struct Tokens {
    generator: Name,
    symbols: Vec<String>,
    names: Vec<String>,
}

/// Something that hands out fresh tokens.
pub trait TokenGen: Sized {
    spec fn has_next(&self) -> bool;

    fn tokengen(&mut self) -> Name
        requires
            old(self).has_next(),
    ;
}

impl TokenGen for Name {
    open spec fn has_next(&self) -> bool {
        *self < IT
    }

    fn tokengen(&mut self) -> (t: Name)
        ensures
            t == *old(self),
            *final(self) == *old(self) + 1,
    {
        let t = *self;
        *self = *self + 1;
        t
    }
}

/// Something that turns texts into tokens.
pub trait Tokenizer<T: TokenGen> {
    spec fn can_tokenize(&self) -> bool;

    fn tokenize(&mut self, name: &str) -> T
        requires
            old(self).can_tokenize(),
    ;
}

/// The first index at which `s` holds `x`, or `s.len()` when it holds none.
pub open spec fn first_index(s: Seq<Seq<char>>, x: Seq<char>) -> int
    decreases s.len(),
{
    if s.len() == 0 {
        0
    } else if s[0] == x {
        0
    } else {
        1 + first_index(s.drop_first(), x)
    }
}

/// The token table after tokenizing the text `x`, and the token it gives.
pub open spec fn tokenize_spec(names: Seq<Seq<char>>, x: Seq<char>) -> (Seq<Seq<char>>, int) {
    let i = first_index(names, x);
    if i < names.len() {
        (names, i)
    } else {
        (names.push(x), names.len() as int)
    }
}

pub proof fn lemma_first_index(s: Seq<Seq<char>>, x: Seq<char>)
    ensures
        0 <= first_index(s, x) <= s.len(),
        first_index(s, x) < s.len() ==> s[first_index(s, x)] == x,
        first_index(s, x) == s.len() ==> !s.contains(x),
        forall|j: int| 0 <= j < first_index(s, x) ==> s[j] != x,
    decreases s.len(),
{
    if s.len() > 0 && s[0] != x {
        lemma_first_index(s.drop_first(), x);
        assert forall|j: int| 0 <= j < first_index(s, x) implies s[j] != x by {
            if j > 0 {
                assert(s[j] == s.drop_first()[j - 1]);
            }
        }
        if first_index(s, x) == s.len() {
            if s.contains(x) {
                let k = choose|k: int| 0 <= k < s.len() && s[k] == x;
                assert(false);
            }
        } else {
            assert(s[first_index(s, x)] == s.drop_first()[first_index(s, x) - 1]);
        }
    }
}

/// Tokenizing a text that was tokenized before gives the same token and leaves the table as it was.
pub proof fn lemma_tokenize_twice(ns: Seq<Seq<char>>, x: Seq<char>)
    ensures
        tokenize_spec(tokenize_spec(ns, x).0, x) == tokenize_spec(ns, x),
{
    let (ns1, t) = tokenize_spec(ns, x);
    lemma_first_index(ns, x);
    lemma_first_index(ns1, x);
    if first_index(ns, x) == ns.len() {
        assert(ns1[ns.len() as int] == x);
        if first_index(ns1, x) < ns.len() {
            assert(ns1[first_index(ns1, x)] == ns[first_index(ns1, x)]);
        }
    }
}

/// The token that `get` finds for a text is the one that tokenizing it gave, and stands for it.
pub proof fn lemma_get_after_tokenize(ns: Seq<Seq<char>>, x: Seq<char>)
    ensures
        first_index(tokenize_spec(ns, x).0, x) == tokenize_spec(ns, x).1,
        tokenize_spec(ns, x).0[tokenize_spec(ns, x).1] == x,
        tokenize_spec(ns, x).0.contains(x),
{
    lemma_tokenize_twice(ns, x);
    lemma_first_index(ns, x);
    lemma_first_index(tokenize_spec(ns, x).0, x);
    let (ns1, t) = tokenize_spec(ns, x);
    assert(ns1[t] == x);
}

/// Two different texts get different tokens.
pub proof fn lemma_tokens_differ(ns: Seq<Seq<char>>, x: Seq<char>, y: Seq<char>)
    requires
        x != y,
    ensures
        tokenize_spec(tokenize_spec(ns, x).0, y).1 != tokenize_spec(ns, x).1,
{
    let (ns1, tx) = tokenize_spec(ns, x);
    let (ns2, ty) = tokenize_spec(ns1, y);
    lemma_get_after_tokenize(ns, x);
    lemma_get_after_tokenize(ns1, y);
    lemma_first_index(ns1, y);
    if ty < ns1.len() {
        assert(ns2 == ns1);
    }
}

/// The token that the `i`-th of the texts `xs` gets when they are tokenized one after another
/// into the table `ns`.
pub open spec fn token_of(ns: Seq<Seq<char>>, xs: Seq<Seq<char>>, i: int) -> int {
    tokenize_spec(tokenize_all(ns, xs.take(i)), xs[i]).1
}

/// Whether token `t` is the one that some text of `xs` gets.
pub open spec fn handed_out(ns: Seq<Seq<char>>, xs: Seq<Seq<char>>, t: int) -> bool {
    exists|i: int| 0 <= i < xs.len() && #[trigger] token_of(ns, xs, i) == t
}

/// Tokenizing texts one after another into a table without repeats: the table keeps its old
/// texts in front and gains each new text once, in the order they first come; each text gets
/// the token of its place in the table; equal texts get equal tokens and different texts
/// different ones; and every token added was handed out for one of the texts.
pub proof fn lemma_tokenize_sequence(ns: Seq<Seq<char>>, xs: Seq<Seq<char>>)
    requires
        ns.no_duplicates(),
    ensures
        tokenize_all(ns, xs).no_duplicates(),
        ns.is_prefix_of(tokenize_all(ns, xs)),
        tokenize_all(ns, xs).to_set() == ns.to_set() + xs.to_set(),
        forall|i: int|
            0 <= i < xs.len() ==> 0 <= #[trigger] token_of(ns, xs, i) < tokenize_all(ns, xs).len()
                && tokenize_all(ns, xs)[token_of(ns, xs, i)] == xs[i],
        forall|i: int, j: int|
            0 <= i < xs.len() && 0 <= j < xs.len() ==> (#[trigger] token_of(ns, xs, i) == #[trigger] token_of(
                ns,
                xs,
                j,
            ) <==> xs[i] == xs[j]),
        forall|t: int|
            ns.len() <= t < tokenize_all(ns, xs).len() ==> #[trigger] handed_out(ns, xs, t),
    decreases xs.len(),
{
    let tt = tokenize_all(ns, xs);
    if xs.len() == 0 {
        assert(tt == ns);
        assert(ns.to_set() + xs.to_set() =~= ns.to_set());
        assert(tt.len() == ns.len());

    } else {
        let ys = xs.drop_last();
        let x = xs.last();
        lemma_tokenize_sequence(ns, ys);
        let t0 = tokenize_all(ns, ys);
        assert(tt == tokenize_spec(t0, x).0);
        lemma_first_index(t0, x);
        lemma_get_after_tokenize(t0, x);
        assert(t0.is_prefix_of(tt));
        if first_index(t0, x) == t0.len() {
            assert(tt == t0.push(x));
            assert(tt.no_duplicates()) by {
                assert forall|a: int, b: int| 0 <= a < b < tt.len() implies tt[a] != tt[b] by {
                    if b == t0.len() {
                        assert(t0.contains(t0[a]));
                    }
                }
            }
        } else {
            assert(tt == t0);
        }
        assert(tt.to_set() =~= ns.to_set() + xs.to_set()) by {
            assert forall|y: Seq<char>| tt.to_set().contains(y) <==> (ns.to_set() + xs.to_set()).contains(y) by {
                if tt.contains(y) {
                    let k = choose|k: int| 0 <= k < tt.len() && tt[k] == y;
                    if k < t0.len() {
                        assert(t0[k] == y);
                        assert(t0.to_set().contains(y));
                        if ys.contains(y) {
                            let m = choose|m: int| 0 <= m < ys.len() && ys[m] == y;
                            assert(xs[m] == y);
                        }
                    } else {
                        assert(xs[xs.len() - 1] == y);
                    }
                }
                if ns.contains(y) {
                    let k = choose|k: int| 0 <= k < ns.len() && ns[k] == y;
                    assert(t0[k] == y);
                    assert(tt[k] == y);
                }
                if xs.contains(y) {
                    let m = choose|m: int| 0 <= m < xs.len() && xs[m] == y;
                    if m < ys.len() {
                        assert(ys[m] == y);
                        assert(ys.to_set().contains(y));
                        assert(t0.to_set().contains(y));
                        let k = choose|k: int| 0 <= k < t0.len() && t0[k] == y;
                        assert(tt[k] == y);
                    } else {
                        assert(tt.contains(x));
                    }
                }
            }
        }
        assert forall|i: int| 0 <= i < xs.len() implies 0 <= #[trigger] token_of(ns, xs, i) < tt.len()
            && tt[token_of(ns, xs, i)] == xs[i] by {
            if i < ys.len() {
                assert(xs.take(i) =~= ys.take(i));
                assert(xs[i] == ys[i]);
                assert(token_of(ns, xs, i) == token_of(ns, ys, i));
            } else {
                assert(xs.take(i) =~= ys);
            }
        }
        assert forall|i: int, j: int|
            0 <= i < xs.len() && 0 <= j < xs.len() implies (#[trigger] token_of(ns, xs, i) == #[trigger] token_of(
            ns,
            xs,
            j,
        ) <==> xs[i] == xs[j]) by {
            assert(0 <= token_of(ns, xs, i) < tt.len() && tt[token_of(ns, xs, i)] == xs[i]);
            assert(0 <= token_of(ns, xs, j) < tt.len() && tt[token_of(ns, xs, j)] == xs[j]);
        }
        assert forall|t: int| ns.len() <= t < tt.len() implies #[trigger] handed_out(ns, xs, t) by {
            let y = tt[t];
            assert(tt.to_set().contains(y));
            if ns.contains(y) {
                let k = choose|k: int| 0 <= k < ns.len() && ns[k] == y;
                assert(tt[k] == y);
                assert(false);
            }
            assert(xs.to_set().contains(y));
            let m = choose|m: int| 0 <= m < xs.len() && xs[m] == y;
            assert(0 <= token_of(ns, xs, m) < tt.len() && tt[token_of(ns, xs, m)] == xs[m]);
            assert(token_of(ns, xs, m) == t);
        }
    }
}

/// The text each token stands for, from the texts the tokens were made from.
pub open spec fn syms_of(ns: Seq<Seq<char>>) -> Seq<Seq<char>> {
    ns.map_values(|s: Seq<char>| trim(s))
}

impl Tokens {
    /// The texts the tokens were made from (token `t` is `names()[t]`).
    pub closed spec fn names(&self) -> Seq<Seq<char>> {
        self.names@.map_values(|s: String| s@)
    }

    /// The text each token stands for (token `t` is `symbols()[t]`).
    pub closed spec fn symbols(&self) -> Seq<Seq<char>> {
        self.symbols@.map_values(|s: String| s@)
    }

    pub closed spec fn wf(&self) -> bool {
        &&& self.names@.len() == self.symbols@.len()
        &&& self.generator == self.symbols@.len()
        &&& self.symbols@.len() <= IT
        &&& forall|t: int| 0 <= t < self.symbols@.len() ==> #[trigger] self.symbols@[t]@ == trim(self.names@[t]@)
        &&& forall|i: int, j: int| 0 <= i < j < self.names@.len() ==> self.names@[i]@ != self.names@[j]@
    }

    pub proof fn lemma_wf(&self)
        requires
            self.wf(),
        ensures
            self.names().len() == self.symbols().len() <= IT,
            forall|t: int| 0 <= t < self.symbols().len() ==> #[trigger] self.symbols()[t] == trim(self.names()[t]),
            self.names().no_duplicates(),
            self.symbols() == syms_of(self.names()),
    {
        assert(self.symbols() =~= syms_of(self.names()));
    }

    /// The number of tokens handed out so far.
    pub fn len(&self) -> (n: usize)
        requires
            self.wf(),
        ensures
            n == self.symbols().len(),
    {
        self.symbols.len()
    }

    pub fn new() -> (r: Self)
        ensures
            r.wf(),
            r.names() == Seq::<Seq<char>>::empty(),
            r.symbols() == Seq::<Seq<char>>::empty(),
    {
        let r = Self { generator: 0, symbols: Vec::new(), names: Vec::new() };
        assert(r.names() =~= Seq::<Seq<char>>::empty());
        assert(r.symbols() =~= Seq::<Seq<char>>::empty());
        r
    }

    /// Whether a text was tokenized before.
    pub fn contains(&self, name: &str) -> (r: bool)
        ensures
            r == self.names().contains(name@),
    {
        let key = name.to_owned();
        let mut i: usize = 0;
        while i < self.names.len()
            invariant
                key@ == name@,
                i <= self.names@.len(),
                forall|j: int| 0 <= j < i ==> self.names@[j]@ != name@,
            decreases self.names@.len() - i,
        {
            if self.names[i] == key {
                assert(self.names()[i as int] == name@);
                return true;
            }
            i = i + 1;
        }
        proof {
            if self.names().contains(name@) {
                let k = choose|k: int| 0 <= k < self.names().len() && self.names()[k] == name@;
                assert(self.names@[k]@ == name@);
            }
        }
        false
    }

    /// The token of a text that was tokenized before.
    pub fn get(&self, name: &str) -> (t: Name)
        requires
            self.wf(),
            self.names().contains(name@),
        ensures
            0 <= t < self.names().len(),
            self.names()[t as int] == name@,
            t == first_index(self.names(), name@),
    {
        proof {
            lemma_first_index(self.names(), name@);
        }
        let key = name.to_owned();
        let mut i: usize = 0;
        while i < self.names.len()
            invariant
                self.wf(),
                key@ == name@,
                i <= self.names@.len(),
                forall|j: int| 0 <= j < i ==> self.names@[j]@ != name@,
                self.names().contains(name@),
            decreases self.names@.len() - i,
        {
            if self.names[i] == key {
                proof {
                    lemma_first_index(self.names(), name@);
                    let f = first_index(self.names(), name@);
                    assert(self.names()[i as int] == name@);
                    if f < i {
                        assert(self.names@[f]@ == name@);
                    }
                    if f > i {
                        assert(self.names()[i as int] != name@);
                    }
                }
                return i as Name;
            }
            i = i + 1;
        }
        proof {
            let k = choose|k: int| 0 <= k < self.names().len() && self.names()[k] == name@;
            assert(self.names@[k]@ == name@);
        }
        0
    }

    /// The text that a token stands for.
    pub fn translate(&self, token: &Name) -> (s: &str)
        requires
            self.wf(),
            0 <= *token < self.symbols().len(),
        ensures
            s@ == self.symbols()[*token as int],
    {
        self.symbols[*token as usize].as_str()
    }
}

impl Tokenizer<Name> for Tokens {
    open spec fn can_tokenize(&self) -> bool {
        self.wf() && self.symbols().len() < IT
    }

    /// The token of `name`: the one it had, or a fresh one that stands for its trimmed text.
    fn tokenize(&mut self, name: &str) -> (t: Name)
        ensures
            final(self).wf(),
            (final(self).names(), t as int) == tokenize_spec(old(self).names(), name@),
            final(self).symbols() == (if t < old(self).names().len() {
                old(self).symbols()
            } else {
                old(self).symbols().push(trim(name@))
            }),
    {
        proof {
            lemma_first_index(self.names(), name@);
        }
        let key = name.to_owned();
        let mut i: usize = 0;
        while i < self.names.len()
            invariant
                self.wf(),
                self.symbols().len() < IT,
                key@ == name@,
                i <= self.names@.len(),
                forall|j: int| 0 <= j < i ==> self.names@[j]@ != name@,
                0 <= first_index(self.names(), name@) <= self.names().len(),
                first_index(self.names(), name@) < self.names().len() ==> self.names()[first_index(self.names(), name@)] == name@,
                forall|j: int| 0 <= j < first_index(self.names(), name@) ==> self.names()[j] != name@,
            decreases self.names@.len() - i,
        {
            if self.names[i] == key {
                proof {
                    assert(self.names()[i as int] == name@);
                    if first_index(self.names(), name@) < i {
                        assert(self.names()[first_index(self.names(), name@)] == name@);
                    }
                    if first_index(self.names(), name@) > i {
                        assert(self.names()[i as int] != name@);
                    }
                }
                return i as Name;
            }
            i = i + 1;
        }
        proof {
            if first_index(self.names(), name@) < self.names().len() {
                assert(self.names@[first_index(self.names(), name@)]@ == name@);
            }
        }
        let ghost old_names = self.names();
        let ghost old_symbols = self.symbols();
        let t = self.generator.tokengen();
        let sym = string_of(&trim_chars(&chars_of(name)));
        self.symbols.push(sym);
        self.names.push(key);
        proof {
            assert(self.names() =~= old_names.push(name@));
            assert(self.symbols() =~= old_symbols.push(trim(name@)));
            assert forall|k: int| 0 <= k < self.symbols@.len() implies #[trigger] self.symbols@[k]@ == trim(self.names@[k]@) by {
                if k < old_symbols.len() {
                    assert(self.symbols@[k]@ == old_symbols[k]);
                    assert(self.names@[k]@ == old_names[k]);
                }
            }
            assert forall|a: int, b: int| 0 <= a < b < self.names@.len() implies self.names@[a]@ != self.names@[b]@ by {
                if b < old_names.len() {
                    assert(self.names@[a]@ == old_names[a]);
                    assert(self.names@[b]@ == old_names[b]);
                } else {
                    assert(self.names@[a]@ == old_names[a]);
                }
            }
        }
        t
    }
}

// environment utils

/// What `map_swap` hands back: for each new key exactly once, in some order,
/// the value that key had before (if it had one).
pub open spec fn swap_record<K, V>(m: Map<K, V>, newpairs: Map<K, V>, r: Seq<(K, Option<V>)>) -> bool {
    &&& r.len() == newpairs.dom().len()
    &&& r.map_values(|p: (K, Option<V>)| p.0).no_duplicates()
    &&& forall|i: int| 0 <= i < r.len() ==> newpairs.contains_key(#[trigger] r[i].0)
    &&& forall|k: K| newpairs.contains_key(k) ==> exists|i: int| 0 <= i < r.len() && #[trigger] r[i].0 == k
    &&& forall|i: int| 0 <= i < r.len() ==> #[trigger] r[i].1 == (if m.contains_key(r[i].0) {
        Some(m[r[i].0])
    } else {
        None
    })
}

/// One step of `map_restore`: put back the recorded value, or remove the key.
pub open spec fn restore_one<K, V>(m: Map<K, V>, p: (K, Option<V>)) -> Map<K, V> {
    match p.1 {
        Some(v) => m.insert(p.0, v),
        None => m.remove(p.0),
    }
}

/// The map after `map_restore` has applied the records in order.
pub open spec fn restore_all<K, V>(m: Map<K, V>, ps: Seq<(K, Option<V>)>) -> Map<K, V>
    decreases ps.len(),
{
    if ps.len() == 0 {
        m
    } else {
        restore_one(restore_all(m, ps.drop_last()), ps.last())
    }
}

/// Binds every pair of `newpairs` in `hashmap`, and returns what each of its keys was bound to before.
pub fn map_swap<K: Eq + Hash + Copy, V: Copy>(hashmap: &mut HashMap<K, V>, newpairs: HashMap<K, V>) -> (r: Vec<(K, Option<V>)>)
    requires
        vstd::std_specs::hash::obeys_key_model::<K>(),
    ensures
        final(hashmap)@ == old(hashmap)@.union_prefer_right(newpairs@),
        swap_record(old(hashmap)@, newpairs@, r@),
{
    let ghost m0 = hashmap@;
    let mut old: Vec<(K, Option<V>)> = Vec::with_capacity(newpairs.len());
    let ghost np = newpairs@;
    let ghost seq0 = vstd::std_specs::hash::spec_hash_map_iter(&newpairs).remaining();
    let pairs = newpairs.iter();
    proof {
        assert(seq0.no_duplicates());
        assert forall|a: int, b: int| 0 <= a < b < seq0.len() implies *seq0[a].0 != *seq0[b].0 by {
            if *seq0[a].0 == *seq0[b].0 {
                assert(np.contains_key(*seq0[a].0));
                assert(np[*seq0[a].0] == *seq0[a].1);
                assert(np[*seq0[b].0] == *seq0[b].1);
                assert(seq0[a] == seq0[b]);
            }
        }
    }
    for (k, v) in it: pairs
        invariant
            vstd::std_specs::hash::obeys_key_model::<K>(),
            np == newpairs@,
            it.seq() == seq0,
            seq0.len() == np.dom().len(),
            forall|i: int| #![trigger seq0[i]] 0 <= i < seq0.len() ==> np.contains_key(*seq0[i].0) && np[*seq0[i].0] == *seq0[i].1,
            forall|x: K| #[trigger] np.contains_key(x) ==> seq0.contains((&x, &np[x])),
            forall|a: int, b: int| 0 <= a < b < seq0.len() ==> *seq0[a].0 != *seq0[b].0,
            old@.len() == it.index(),
            forall|i: int| 0 <= i < it.index() ==> #[trigger] old@[i].0 == *seq0[i].0,
            forall|i: int| 0 <= i < it.index() ==> #[trigger] old@[i].1 == (if m0.contains_key(old@[i].0) {
                Some(m0[old@[i].0])
            } else {
                None
            }),
            hashmap@ == m0.union_prefer_right(Map::new(
                |x: K| exists|i: int| 0 <= i < it.index() && *seq0[i].0 == x,
                |x: K| np[x],
            )),
    {
        let ghost idx = it.index();
        let ghost before = hashmap@;
        proof {
            assert(*k == *seq0[idx].0);
            assert(before.contains_key(*k) == m0.contains_key(*k)) by {
                if !m0.contains_key(*k) && before.contains_key(*k) {
                    let i = choose|i: int| 0 <= i < idx && *seq0[i].0 == *k;
                    assert(false);
                }
            }
            if m0.contains_key(*k) {
                assert(before[*k] == m0[*k]) by {
                    if exists|i: int| 0 <= i < idx && *seq0[i].0 == *k {
                        let i = choose|i: int| 0 <= i < idx && *seq0[i].0 == *k;
                        assert(false);
                    }
                }
            }
        }
        let prev = hashmap.insert(*k, *v);
        old.push((*k, prev));
        proof {
            assert(hashmap@ =~= m0.union_prefer_right(Map::new(
                |x: K| exists|i: int| 0 <= i < idx + 1 && *seq0[i].0 == x,
                |x: K| np[x],
            ))) by {
                assert(*seq0[idx].0 == *k);
            }
        }
    }
    proof {
        let r = old@;
        assert(r.len() == np.dom().len());
        let ks = r.map_values(|p: (K, Option<V>)| p.0);
        assert forall|a: int, b: int| 0 <= a < ks.len() && 0 <= b < ks.len() && a != b implies ks[a] != ks[b] by {
            if a < b {
                assert(ks[a] == *seq0[a].0);
                assert(ks[b] == *seq0[b].0);
            } else {
                assert(ks[a] == *seq0[a].0);
                assert(ks[b] == *seq0[b].0);
            }
        }
        assert forall|x: K| np.contains_key(x) implies exists|i: int| 0 <= i < r.len() && #[trigger] r[i].0 == x by {
            assert(seq0.contains((&x, &np[x])));
            let i = choose|i: int| 0 <= i < seq0.len() && seq0[i] == (&x, &np[x]);
            assert(r[i].0 == x);
        }
        assert forall|i: int| 0 <= i < r.len() implies np.contains_key(#[trigger] r[i].0) by {
            assert(r[i].0 == *seq0[i].0);
        }
        assert(hashmap@ =~= m0.union_prefer_right(np)) by {
            assert forall|x: K| np.contains_key(x) implies (exists|i: int| 0 <= i < seq0.len() && *seq0[i].0 == x) by {
                assert(seq0.contains((&x, &np[x])));
                let i = choose|i: int| 0 <= i < seq0.len() && seq0[i] == (&x, &np[x]);
                assert(*seq0[i].0 == x);
            }
        }
    }
    old
}

/// Puts back, in order, what `map_swap` recorded: a recorded value is bound again, a missing one unbound.
pub fn map_restore<K: Eq + Hash, V>(hashmap: &mut HashMap<K, V>, oldpairs: Vec<(K, Option<V>)>)
    requires
        vstd::std_specs::hash::obeys_key_model::<K>(),
    ensures
        final(hashmap)@ == restore_all(old(hashmap)@, oldpairs@),
{
    let ghost m0 = hashmap@;
    let ghost ps = oldpairs@;
    for (k, v) in it: oldpairs
        invariant
            vstd::std_specs::hash::obeys_key_model::<K>(),
            it.seq() == ps,
            hashmap@ == restore_all(m0, ps.take(it.index() as int)),
    {
        let ghost i = it.index();
        if let Some(oldv) = v {
            hashmap.insert(k, oldv);
        } else {
            hashmap.remove(&k);
        }
        proof {
            assert(ps.take(i + 1).drop_last() =~= ps.take(i));
        }
    }
    proof {
        assert(ps.take(ps.len() as int) =~= ps);
    }
}


spec fn restored_value<K, V>(m: Map<K, V>, ps: Seq<(K, Option<V>)>, x: K) -> Option<V>
    decreases ps.len(),
{
    if ps.len() == 0 {
        if m.contains_key(x) {
            Some(m[x])
        } else {
            None
        }
    } else if ps.last().0 == x {
        ps.last().1
    } else {
        restored_value(m, ps.drop_last(), x)
    }
}

proof fn lemma_restore_point<K, V>(m: Map<K, V>, ps: Seq<(K, Option<V>)>, x: K)
    ensures
        restore_all(m, ps).contains_key(x) <==> restored_value(m, ps, x) is Some,
        restore_all(m, ps).contains_key(x) ==> restore_all(m, ps)[x] == restored_value(m, ps, x)->0,
    decreases ps.len(),
{
    if ps.len() > 0 {
        lemma_restore_point(m, ps.drop_last(), x);
    }
}

proof fn lemma_restored_value<K, V>(m: Map<K, V>, ps: Seq<(K, Option<V>)>, x: K)
    requires
        ps.map_values(|p: (K, Option<V>)| p.0).no_duplicates(),
    ensures
        forall|i: int| 0 <= i < ps.len() && #[trigger] ps[i].0 == x ==> restored_value(m, ps, x) == ps[i].1,
        (forall|i: int| 0 <= i < ps.len() ==> #[trigger] ps[i].0 != x) ==> restored_value(m, ps, x) == (if m.contains_key(x) {
            Some(m[x])
        } else {
            None
        }),
    decreases ps.len(),
{
    if ps.len() > 0 {
        let init = ps.drop_last();
        assert(init.map_values(|p: (K, Option<V>)| p.0) =~= ps.map_values(|p: (K, Option<V>)| p.0).drop_last());
        lemma_restored_value(m, init, x);
        assert forall|i: int| 0 <= i < ps.len() && #[trigger] ps[i].0 == x implies restored_value(m, ps, x) == ps[i].1 by {
            if i < ps.len() - 1 {
                assert(ps.map_values(|p: (K, Option<V>)| p.0)[i] == x);
                assert(ps.map_values(|p: (K, Option<V>)| p.0)[ps.len() - 1] == ps.last().0);
                assert(init[i] == ps[i]);
            }
        }
        if forall|i: int| 0 <= i < ps.len() ==> #[trigger] ps[i].0 != x {
            assert(ps[ps.len() - 1].0 != x);
            assert forall|i: int| 0 <= i < init.len() implies #[trigger] init[i].0 != x by {
                assert(init[i] == ps[i]);
            }
        }
    }
}

/// Restoring what `map_swap` recorded gives back the map as it was before the swap.
pub proof fn lemma_swap_then_restore<K, V>(m: Map<K, V>, newpairs: Map<K, V>, r: Seq<(K, Option<V>)>)
    requires
        swap_record(m, newpairs, r),
    ensures
        restore_all(m.union_prefer_right(newpairs), r) == m,
{
    let big = m.union_prefer_right(newpairs);
    let res = restore_all(big, r);
    assert forall|x: K| #![trigger res.contains_key(x)] #![trigger m.contains_key(x)] (res.contains_key(x) <==> m.contains_key(x)) && (m.contains_key(x) ==> res[x] == m[x]) by {
        lemma_restore_point(big, r, x);
        lemma_restored_value(big, r, x);
        if newpairs.contains_key(x) {
            let i = choose|i: int| 0 <= i < r.len() && #[trigger] r[i].0 == x;
            assert(r[i].1 == (if m.contains_key(r[i].0) { Some(m[r[i].0]) } else { None }));
        } else {
            assert forall|i: int| 0 <= i < r.len() implies #[trigger] r[i].0 != x by {
                assert(newpairs.contains_key(r[i].0));
            }
        }
    }
    assert(res =~= m);
}

} // verus!
