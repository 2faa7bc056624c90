//! Pasting imported files into the program text. A directive `#(import "file")` is replaced
//! by the code of that file (with its own imports pasted in turn) where the file is named for
//! the first time, and by nothing where it was already pasted. Reading and finding files is
//! left to the caller: the `Importer` says what it needs next and is handed the answer.
use vstd::prelude::*;

use crate::text::push_char;

verus! {

/// What finds an import directive, `#(import "file")`; the group `filename` catches the file.
pub const IMPORT_PATTERN: &'static str = "#\\(import\\s+\"(?P<filename>\\S*)\"\\s*\\)";

/// The group of `IMPORT_PATTERN` that holds the imported file's name.
pub const FILENAME_GROUP: &'static str = "filename";

/// The pieces of `text` around the matches of `pattern`, in order, as `regex::Regex::split`
/// gives them, or `None` where `regex::Regex::new` refuses the pattern.
pub uninterp spec fn regex_split(pattern: Seq<char>, text: Seq<char>) -> Option<Seq<Seq<char>>>;

/// For each match of `pattern` in `text`, in order (`regex::Regex::captures_iter`), what the
/// group named `group` caught, if it took part; `None` where `regex::Regex::new` refuses the
/// pattern.
pub uninterp spec fn regex_group(pattern: Seq<char>, group: Seq<char>, text: Seq<char>) -> Option<
    Seq<Option<Seq<char>>>,
>;

/// The texts of a sequence of `String`s.
pub open spec fn texts(v: Seq<String>) -> Seq<Seq<char>> {
    v.map_values(|s: String| s@)
}

/// The texts of a sequence of optional `String`s.
pub open spec fn opt_texts(v: Seq<Option<String>>) -> Seq<Option<Seq<char>>> {
    v.map_values(
        |o: Option<String>|
            match o {
                Some(s) => Some(s@),
                None => None,
            },
    )
}

/// Compiles `pattern` (`regex::Regex::new`) and splits `text` at its matches
/// (`regex::Regex::split`). The contract only names the result, `regex_split`: what the regex
/// engine matches is not restated here.
#[verifier::external_body]
fn split_at_matches(pattern: &str, text: &str) -> (r: Option<Vec<String>>)
    ensures
        regex_split(pattern@, text@) == (match r {
            Some(v) => Some(texts(v@)),
            None => None::<Seq<Seq<char>>>,
        }),
{
    match regex::Regex::new(pattern) {
        Ok(re) => Some(re.split(text).map(|s| s.to_string()).collect()),
        Err(_) => None,
    }
}

/// Compiles `pattern` (`regex::Regex::new`) and gives, for each match in `text`
/// (`regex::Regex::captures_iter`), what its group `group` caught. The contract only names the
/// result, `regex_group`: what the regex engine matches is not restated here.
#[verifier::external_body]
fn group_of_matches(pattern: &str, group: &str, text: &str) -> (r: Option<Vec<Option<String>>>)
    ensures
        regex_group(pattern@, group@, text@) == (match r {
            Some(v) => Some(opt_texts(v@)),
            None => None::<Seq<Option<Seq<char>>>>,
        }),
{
    match regex::Regex::new(pattern) {
        Ok(re) => Some(
            re.captures_iter(text).map(|c| c.name(group).map(|m| m.as_str().to_string())).collect(),
        ),
        Err(_) => None,
    }
}

/// The pieces around a file's directives and the file each directive names, when they line
/// up: one piece more than there are directives, and a name caught for every directive.
pub open spec fn lined_up(
    parts: Option<Seq<Seq<char>>>,
    names: Option<Seq<Option<Seq<char>>>>,
) -> Option<(Seq<Seq<char>>, Seq<Seq<char>>)> {
    match (parts, names) {
        (Some(p), Some(n)) => if p.len() == n.len() + 1 && forall|i: int|
            0 <= i < n.len() ==> #[trigger] n[i] is Some {
            Some((p, n.map_values(|o: Option<Seq<char>>| o->Some_0)))
        } else {
            None
        },
        _ => None,
    }
}

/// The directives of a file's text: the pieces around them and the files they name.
pub open spec fn directives(text: Seq<char>) -> Option<(Seq<Seq<char>>, Seq<Seq<char>>)> {
    lined_up(
        regex_split(IMPORT_PATTERN@, text),
        regex_group(IMPORT_PATTERN@, FILENAME_GROUP@, text),
    )
}

/// Pairs the pieces around the directives with the names they caught, if they line up.
#[verifier::loop_isolation(false)]
pub fn line_up(parts: Option<Vec<String>>, names: Option<Vec<Option<String>>>) -> (r: Option<
    (Vec<String>, Vec<String>),
>)
    ensures
        (match r {
            Some((p, n)) => Some((texts(p@), texts(n@))),
            None => None,
        }) == lined_up(
            match parts {
                Some(v) => Some(texts(v@)),
                None => None,
            },
            match names {
                Some(v) => Some(opt_texts(v@)),
                None => None,
            },
        ),
{
    match (parts, names) {
        (Some(p), Some(n)) => {
            if p.len() == 0 || p.len() - 1 != n.len() {
                return None;
            }
            let mut out: Vec<String> = Vec::new();
            let mut k: usize = 0;
            while k < n.len()
                invariant
                    k <= n@.len(),
                    out@.len() == k,
                    forall|i: int| 0 <= i < k ==> (#[trigger] n@[i]) is Some && out@[i] == n@[i]->Some_0,
                decreases n@.len() - k,
            {
                match &n[k] {
                    Some(s) => {
                        out.push(s.clone());
                    },
                    None => {
                        proof {
                            assert(n@[k as int] is None);
                            assert(opt_texts(n@)[k as int] is None);
                            assert(!(forall|i: int|
                                0 <= i < opt_texts(n@).len() ==> #[trigger] opt_texts(n@)[i] is Some));
                            assert(lined_up(Some(texts(p@)), Some(opt_texts(n@))) is None);
                        }
                        return None;
                    },
                }
                k = k + 1;
            }
            proof {
                assert forall|i: int| 0 <= i < opt_texts(n@).len() implies #[trigger] opt_texts(
                    n@,
                )[i] is Some by {
                    assert(n@[i] is Some);
                }
                assert(texts(out@) =~= opt_texts(n@).map_values(|o: Option<Seq<char>>| o->Some_0));
            }
            Some((p, out))
        },
        _ => None,
    }
}

/// The directives of a file's text, found with the regex engine.
pub fn read_directives(text: &str) -> (r: Option<(Vec<String>, Vec<String>)>)
    ensures
        (match r {
            Some((p, n)) => Some((texts(p@), texts(n@))),
            None => None,
        }) == directives(text@),
{
    let parts = split_at_matches(IMPORT_PATTERN, text);
    let names = group_of_matches(IMPORT_PATTERN, FILENAME_GROUP, text);
    line_up(parts, names)
}

/// Appends the characters of `t` to `s`.
pub fn push_str(s: &mut String, t: &str)
    ensures
        final(s)@ == old(s)@ + t@,
{
    let ghost s0 = s@;
    for c in it: t.chars()
        invariant
            s@ == s0 + it.seq().take(it.index() as int),
            it.seq() == t@,
    {
        proof {
            assert(it.seq().take(it.index() as int + 1) =~= it.seq().take(it.index() as int).push(c));
        }
        push_char(s, c);
    }
    assert(t@.take(t@.len() as int) =~= t@);
}

// The importer

/// What the importer needs next.
#[derive(Debug, PartialEq, Eq)]
pub enum ImportAction {
    /// The contents of the file at this path.
    Read(String),
    /// The path of the file that a directive names so.
    Locate(String),
    /// Nothing more: here is the program text with every import pasted in.
    Done(String),
}

/// The model of an `ImportAction`.
pub enum SAction {
    Read(Seq<char>),
    Locate(Seq<char>),
    Done(Seq<char>),
}

impl View for ImportAction {
    type V = SAction;

    open spec fn view(&self) -> SAction {
        match self {
            ImportAction::Read(p) => SAction::Read(p@),
            ImportAction::Locate(n) => SAction::Locate(n@),
            ImportAction::Done(t) => SAction::Done(t@),
        }
    }
}

impl ImportAction {
    fn duplicate(&self) -> (r: ImportAction)
        ensures
            r@ == self@,
    {
        match self {
            ImportAction::Read(p) => ImportAction::Read(p.clone()),
            ImportAction::Locate(n) => ImportAction::Locate(n.clone()),
            ImportAction::Done(t) => ImportAction::Done(t.clone()),
        }
    }
}

/// Why the program text could not be put together.
#[derive(Debug, PartialEq, Eq)]
pub enum ImportError {
    /// The directives of the file at this path could not be read.
    Directives(String),
    /// The file at this path is imported while it is itself being pasted together: it imports
    /// itself, directly or through other files.
    Recursive(String),
}

/// The model of an `ImportError`.
pub enum SImportError {
    Directives(Seq<char>),
    Recursive(Seq<char>),
}

impl View for ImportError {
    type V = SImportError;

    open spec fn view(&self) -> SImportError {
        match self {
            ImportError::Directives(p) => SImportError::Directives(p@),
            ImportError::Recursive(p) => SImportError::Recursive(p@),
        }
    }
}

/// A file being pasted together: its path, the pieces around its directives, the files they
/// name, and what was pasted so far for its first directives.
pub struct SFrame {
    pub path: Seq<char>,
    pub parts: Seq<Seq<char>>,
    pub names: Seq<Seq<char>>,
    pub inserted: Seq<Seq<char>>,
}

/// The model of an importer: the paths of the files taken in so far, the files being pasted
/// together (the innermost last), and what it asked for last.
pub struct SImporter {
    pub included: Seq<Seq<char>>,
    pub frames: Seq<SFrame>,
    pub asked: SAction,
}

/// A file's text with its first directives replaced, in order, by `inserted`.
pub open spec fn spliced(parts: Seq<Seq<char>>, inserted: Seq<Seq<char>>) -> Seq<char>
    decreases inserted.len(),
{
    if inserted.len() == 0 {
        parts[0]
    } else {
        spliced(parts, inserted.drop_last()) + inserted.last() + parts[inserted.len() as int]
    }
}

/// Whether a file still has a directive to answer.
pub open spec fn pending(f: SFrame) -> bool {
    f.inserted.len() < f.names.len()
}

/// Closes every finished file at the top of the stack, pasting its text and a line break in
/// place of the directive that imported it, and says what is needed next.
pub open spec fn settle(frames: Seq<SFrame>) -> (Seq<SFrame>, SAction)
    decreases frames.len(),
{
    if frames.len() == 0 {
        (frames, SAction::Done(seq![]))
    } else {
        let top = frames.last();
        if pending(top) {
            (frames, SAction::Locate(top.names[top.inserted.len() as int]))
        } else if frames.len() == 1 {
            (seq![], SAction::Done(spliced(top.parts, top.inserted)))
        } else {
            let rest = frames.drop_last();
            let parent = rest.last();
            settle(
                rest.update(
                    rest.len() - 1,
                    SFrame {
                        path: parent.path,
                        parts: parent.parts,
                        names: parent.names,
                        inserted: parent.inserted.push(spliced(top.parts, top.inserted).push('\n')),
                    },
                ),
            )
        }
    }
}

/// Whether `p` is the path of a file that is still being pasted together.
pub open spec fn is_open(frames: Seq<SFrame>, p: Seq<char>) -> bool {
    exists|i: int| 0 <= i < frames.len() && #[trigger] frames[i].path == p
}

/// The importer after a reply to what it asked, and what it answers: the contents of a file
/// start that file; a path already open is a recursive import; a path already taken in is
/// pasted as nothing; any other path is taken in and its contents asked for.
pub open spec fn step(st: SImporter, reply: Seq<char>) -> (SImporter, Result<SAction, SImportError>) {
    match st.asked {
        SAction::Done(_) => (st, Ok(st.asked)),
        SAction::Read(path) => match directives(reply) {
            None => (st, Err(SImportError::Directives(path))),
            Some((parts, names)) => {
                let (frames, next) = settle(
                    st.frames.push(SFrame { path, parts, names, inserted: seq![] }),
                );
                (SImporter { included: st.included, frames, asked: next }, Ok(next))
            },
        },
        SAction::Locate(_) => if is_open(st.frames, reply) {
            (st, Err(SImportError::Recursive(reply)))
        } else if st.included.contains(reply) {
            let top = st.frames.last();
            let (frames, next) = settle(
                st.frames.update(
                    st.frames.len() - 1,
                    SFrame {
                        path: top.path,
                        parts: top.parts,
                        names: top.names,
                        inserted: top.inserted.push(seq![]),
                    },
                ),
            );
            (SImporter { included: st.included, frames, asked: next }, Ok(next))
        } else {
            (
                SImporter {
                    included: st.included.push(reply),
                    frames: st.frames,
                    asked: SAction::Read(reply),
                },
                Ok(SAction::Read(reply)),
            )
        },
    }
}

struct Frame {
    path: String,
    parts: Vec<String>,
    names: Vec<String>,
    next: usize,
    text: String,
    inserted: Ghost<Seq<Seq<char>>>,
}

impl Frame {
    spec fn sview(&self) -> SFrame {
        SFrame {
            path: self.path@,
            parts: texts(self.parts@),
            names: texts(self.names@),
            inserted: self.inserted@,
        }
    }

    spec fn ok(&self) -> bool {
        &&& self.parts@.len() == self.names@.len() + 1
        &&& self.next == self.inserted@.len()
        &&& self.next <= self.names@.len()
        &&& self.text@ == spliced(texts(self.parts@), self.inserted@)
    }
}

spec fn frame_views(fs: Seq<Frame>) -> Seq<SFrame> {
    fs.map_values(|f: Frame| f.sview())
}

/// Pastes imported files into a program text, one reply at a time.
pub struct Importer {
    included: Vec<String>,
    frames: Vec<Frame>,
    asked: ImportAction,
}

impl View for Importer {
    type V = SImporter;

    closed spec fn view(&self) -> SImporter {
        SImporter {
            included: texts(self.included@),
            frames: frame_views(self.frames@),
            asked: self.asked@,
        }
    }
}

/// Frames that may stand below the top of the stack, and the top one.
spec fn frames_ok(fs: Seq<Frame>) -> bool {
    &&& forall|i: int| 0 <= i < fs.len() ==> (#[trigger] fs[i]).ok()
    &&& forall|i: int| 0 <= i < fs.len() - 1 ==> pending((#[trigger] fs[i]).sview())
}

impl Importer {
    /// The importer's invariant.
    pub closed spec fn wf(&self) -> bool {
        &&& frames_ok(self.frames@)
        &&& forall|i: int|
            0 <= i < self.frames@.len() ==> texts(self.included@).contains(
                (#[trigger] self.frames@[i]).path@,
            )
        &&& match self.asked@ {
            SAction::Read(p) => texts(self.included@).contains(p) && (self.frames@.len() == 0
                || pending(self.frames@.last().sview())),
            SAction::Locate(n) => self.frames@.len() > 0 && pending(self.frames@.last().sview())
                && n == self.frames@.last().sview().names[self.frames@.last().next as int],
            SAction::Done(_) => self.frames@.len() == 0,
        }
    }
}

/// Pasting one more text in place of a directive.
proof fn lemma_spliced_push(parts: Seq<Seq<char>>, ins: Seq<Seq<char>>, x: Seq<char>)
    ensures
        spliced(parts, ins.push(x)) == spliced(parts, ins) + x + parts[ins.len() + 1int],
{
    assert(ins.push(x).drop_last() =~= ins);
}

/// Whether `p` is one of the texts in `v`.
fn in_texts(v: &Vec<String>, p: &String) -> (r: bool)
    ensures
        r == texts(v@).contains(p@),
{
    let mut i: usize = 0;
    while i < v.len()
        invariant
            i <= v@.len(),
            forall|j: int| 0 <= j < i ==> v@[j]@ != p@,
        decreases v@.len() - i,
    {
        if v[i] == *p {
            assert(texts(v@)[i as int] == p@);
            return true;
        }
        i = i + 1;
    }
    assert(!texts(v@).contains(p@)) by {
        if texts(v@).contains(p@) {
            let j = choose|j: int| 0 <= j < texts(v@).len() && texts(v@)[j] == p@;
            assert(v@[j]@ == p@);
        }
    }
    false
}

/// Closing finished files never asks for a file's contents.
proof fn lemma_settle_reads_nothing(frames: Seq<SFrame>)
    ensures
        !(settle(frames).1 is Read),
    decreases frames.len(),
{
    if frames.len() > 1 && !pending(frames.last()) {
        let rest = frames.drop_last();
        let parent = rest.last();
        let top = frames.last();
        lemma_settle_reads_nothing(
            rest.update(
                rest.len() - 1,
                SFrame {
                    path: parent.path,
                    parts: parent.parts,
                    names: parent.names,
                    inserted: parent.inserted.push(spliced(top.parts, top.inserted).push('\n')),
                },
            ),
        );
    }
}

/// A file is taken in at most once: the files taken in are never dropped, and the importer
/// asks for the contents of a file only when a directive names a path that is not among them,
/// which it then adds.
pub proof fn lemma_each_file_read_once(st: SImporter, reply: Seq<char>)
    ensures
        st.included.is_prefix_of(step(st, reply).0.included),
        step(st, reply).1 matches Ok(SAction::Read(p)) ==> {
            &&& st.asked is Locate
            &&& p == reply
            &&& !st.included.contains(p)
            &&& step(st, reply).0.included == st.included.push(p)
        },
{
    match st.asked {
        SAction::Read(path) => {
            if let Some((parts, names)) = directives(reply) {
                lemma_settle_reads_nothing(
                    st.frames.push(SFrame { path, parts, names, inserted: seq![] }),
                );
            }
        },
        SAction::Locate(_) => {
            if !is_open(st.frames, reply) && st.included.contains(reply) {
                let top = st.frames.last();
                lemma_settle_reads_nothing(
                    st.frames.update(
                        st.frames.len() - 1,
                        SFrame {
                            path: top.path,
                            parts: top.parts,
                            names: top.names,
                            inserted: top.inserted.push(seq![]),
                        },
                    ),
                );
            }
        },
        SAction::Done(_) => {},
    }
    assert(st.included.is_prefix_of(st.included.push(reply)));
}

/// A file imported while it is itself being pasted together (it imports itself, directly or
/// through other files) is refused, and only such a file is refused so.
pub proof fn lemma_recursive_import_refused(st: SImporter, reply: Seq<char>)
    ensures
        st.asked is Locate && is_open(st.frames, reply) ==> step(st, reply).1 == Err::<
            SAction,
            SImportError,
        >(SImportError::Recursive(reply)),
        step(st, reply).1 matches Err(SImportError::Recursive(p)) ==> st.asked is Locate
            && is_open(st.frames, reply) && p == reply,
{
}

impl Importer {
    /// Starts on the program's entry file, whose contents it asks for first.
    pub fn new(entry: String) -> (r: (Importer, ImportAction))
        ensures
            r.0.wf(),
            r.0@ == (SImporter {
                included: seq![entry@],
                frames: seq![],
                asked: SAction::Read(entry@),
            }),
            r.1@ == SAction::Read(entry@),
    {
        let mut included: Vec<String> = Vec::new();
        included.push(entry.clone());
        let imp = Importer { included, frames: Vec::new(), asked: ImportAction::Read(entry.clone()) };
        proof {
            assert(texts(imp.included@) =~= seq![entry@]);
            assert(frame_views(imp.frames@) =~= seq![]);
            assert(texts(imp.included@)[0] == entry@);
        }
        (imp, ImportAction::Read(entry))
    }

    /// Whether a file with path `p` is being pasted together.
    fn has_open(&self, p: &String) -> (r: bool)
        ensures
            r == is_open(frame_views(self.frames@), p@),
    {
        let mut i: usize = 0;
        while i < self.frames.len()
            invariant
                i <= self.frames@.len(),
                forall|j: int| 0 <= j < i ==> self.frames@[j].path@ != p@,
            decreases self.frames@.len() - i,
        {
            if self.frames[i].path == *p {
                assert(frame_views(self.frames@)[i as int].path == p@);
                return true;
            }
            i = i + 1;
        }
        assert(!is_open(frame_views(self.frames@), p@)) by {
            if is_open(frame_views(self.frames@), p@) {
                let j = choose|j: int|
                    0 <= j < frame_views(self.frames@).len() && #[trigger] frame_views(
                        self.frames@,
                    )[j].path == p@;
                assert(self.frames@[j].path@ == p@);
            }
        }
        false
    }

    /// Closes the finished files at the top of the stack and says what is needed next.
    fn settle(&mut self) -> (a: ImportAction)
        requires
            old(self).frames@.len() > 0,
            frames_ok(old(self).frames@),
        ensures
            frames_ok(final(self).frames@),
            final(self).included == old(self).included,
            (frame_views(final(self).frames@), a@) == settle(frame_views(old(self).frames@)),
            final(self).frames@.len() <= old(self).frames@.len(),
            forall|i: int|
                0 <= i < final(self).frames@.len() ==> (#[trigger] final(self).frames@[i]).path
                    == old(self).frames@[i].path,
            a@ is Locate ==> {
                let top = final(self).frames@.last();
                &&& final(self).frames@.len() > 0
                &&& pending(top.sview())
                &&& a@->Locate_0 == top.sview().names[top.next as int]
            },
            a@ is Done ==> final(self).frames@.len() == 0,
            !(a@ is Read),
    {
        loop
            invariant
                self.frames@.len() > 0,
                frames_ok(self.frames@),
                self.included == old(self).included,
                settle(frame_views(self.frames@)) == settle(frame_views(old(self).frames@)),
                self.frames@.len() <= old(self).frames@.len(),
                forall|i: int|
                    0 <= i < self.frames@.len() ==> (#[trigger] self.frames@[i]).path == old(
                        self,
                    ).frames@[i].path,
            decreases self.frames@.len(),
        {
            let n = self.frames.len();
            let ghost fv = frame_views(self.frames@);
            assert(fv.last() == self.frames@[n - 1].sview());
            if self.frames[n - 1].next < self.frames[n - 1].names.len() {
                let k = self.frames[n - 1].next;
                let name = self.frames[n - 1].names[k].clone();
                return ImportAction::Locate(name);
            }
            let top = self.frames.pop().unwrap();
            if self.frames.len() == 0 {
                assert(frame_views(self.frames@) =~= seq![]);
                return ImportAction::Done(top.text);
            }
            let ghost fs1 = self.frames@;
            let mut parent = self.frames.pop().unwrap();
            let k = parent.next;
            proof {
                assert(pending(fs1[fs1.len() - 1].sview()));
                assert(fs1[fs1.len() - 1].ok());
                assert(texts(parent.names@).len() == parent.names@.len());
                assert(k < parent.names@.len());
                lemma_spliced_push(texts(parent.parts@), parent.inserted@, top.text@.push('\n'));
            }
            let np = parent.parts.len();
            assert(k + 1 < np);
            let piece = parent.parts[k + 1].clone();
            push_str(&mut parent.text, top.text.as_str());
            push_char(&mut parent.text, '\n');
            push_str(&mut parent.text, piece.as_str());
            parent.next = k + 1;
            let ghost more = parent.inserted@.push(top.text@.push('\n'));
            parent.inserted = Ghost(more);
            self.frames.push(parent);
            proof {
                let rest = fv.drop_last();
                assert(frame_views(self.frames@) =~= rest.update(
                    rest.len() - 1,
                    SFrame {
                        path: rest.last().path,
                        parts: rest.last().parts,
                        names: rest.last().names,
                        inserted: rest.last().inserted.push(
                            spliced(fv.last().parts, fv.last().inserted).push('\n'),
                        ),
                    },
                ));
                assert(parent.text@ =~= spliced(texts(parent.parts@), parent.inserted@));
            }
        }
    }

    /// Takes the reply to what the importer asked last (the contents of the file it asked for,
    /// or the path of the file a directive names) and says what it needs next.
    pub fn answer(&mut self, reply: String) -> (r: Result<ImportAction, ImportError>)
        requires
            old(self).wf(),
        ensures
            final(self).wf(),
            (final(self)@, match r {
                Ok(a) => Ok(a@),
                Err(e) => Err(e@),
            }) == step(old(self)@, reply@),
    {
        let asked_read: Option<String> = match &self.asked {
            ImportAction::Done(t) => {
                return Ok(ImportAction::Done(t.clone()));
            },
            ImportAction::Read(p) => Some(p.clone()),
            ImportAction::Locate(_) => None,
        };
        match asked_read {
            Some(path) => {
                match read_directives(reply.as_str()) {
                    None => Err(ImportError::Directives(path)),
                    Some((parts, names)) => {
                        let text = parts[0].clone();
                        let ghost fs0 = self.frames@;
                        let ghost none: Seq<Seq<char>> = seq![];
                        self.frames.push(
                            Frame { path, parts, names, next: 0, text, inserted: Ghost(none) },
                        );
                        proof {
                            assert(frame_views(self.frames@) =~= frame_views(fs0).push(
                                self.frames@.last().sview(),
                            ));
                        }
                        let ghost pre = self.frames@;
                        proof {
                            assert forall|i: int| 0 <= i < pre.len() implies texts(
                                self.included@,
                            ).contains((#[trigger] pre[i]).path@) by {
                                if i < fs0.len() {
                                    assert(pre[i] == fs0[i]);
                                }
                            }
                        }
                        let next = self.settle();
                        proof {
                            assert forall|i: int| 0 <= i < self.frames@.len() implies texts(
                                self.included@,
                            ).contains((#[trigger] self.frames@[i]).path@) by {
                                assert(self.frames@[i].path == pre[i].path);
                            }
                        }
                        self.asked = next.duplicate();
                        Ok(next)
                    },
                }
            },
            None => {
                if self.has_open(&reply) {
                    return Err(ImportError::Recursive(reply));
                }
                if in_texts(&self.included, &reply) {
                    let ghost fs0 = self.frames@;
                    proof {
                        assert(fs0[fs0.len() - 1].ok());
                    }
                    let mut top = self.frames.pop().unwrap();
                    let k = top.next;
                    proof {
                        assert(texts(top.names@).len() == top.names@.len());
                        assert(k < top.names@.len());
                        lemma_spliced_push(texts(top.parts@), top.inserted@, seq![]);
                    }
                    let np = top.parts.len();
                    assert(k + 1 < np);
                    let piece = top.parts[k + 1].clone();
                    push_str(&mut top.text, piece.as_str());
                    top.next = k + 1;
                    let ghost more = top.inserted@.push(seq![]);
                    top.inserted = Ghost(more);
                    self.frames.push(top);
                    proof {
                        let fv = frame_views(fs0);
                        assert(frame_views(self.frames@) =~= fv.update(
                            fv.len() - 1,
                            SFrame {
                                path: fv.last().path,
                                parts: fv.last().parts,
                                names: fv.last().names,
                                inserted: fv.last().inserted.push(seq![]),
                            },
                        ));
                        assert(top.text@ =~= spliced(texts(top.parts@), top.inserted@));
                    }
                    let ghost pre = self.frames@;
                    proof {
                        assert forall|i: int| 0 <= i < pre.len() implies texts(
                            self.included@,
                        ).contains((#[trigger] pre[i]).path@) by {
                            assert(pre[i].path == fs0[i].path);
                        }
                    }
                    let next = self.settle();
                    proof {
                        assert forall|i: int| 0 <= i < self.frames@.len() implies texts(
                            self.included@,
                        ).contains((#[trigger] self.frames@[i]).path@) by {
                            assert(self.frames@[i].path == pre[i].path);
                        }
                    }
                    self.asked = next.duplicate();
                    Ok(next)
                } else {
                    let ghost inc0 = texts(self.included@);
                    self.included.push(reply.clone());
                    self.asked = ImportAction::Read(reply.clone());
                    proof {
                        assert(texts(self.included@) =~= inc0.push(reply@));
                        assert(texts(self.included@)[inc0.len() as int] == reply@);
                        assert forall|i: int| 0 <= i < self.frames@.len() implies texts(
                            self.included@,
                        ).contains((#[trigger] self.frames@[i]).path@) by {
                            let j = choose|j: int| 0 <= j < inc0.len() && inc0[j] == self.frames@[i].path@;
                            assert(texts(self.included@)[j] == inc0[j]);
                        }
                    }
                    Ok(ImportAction::Read(reply))
                }
            },
        }
    }
}

} // verus!
