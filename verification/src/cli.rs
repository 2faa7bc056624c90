//! The command line of the compiler.
use vstd::prelude::*;

use crate::text::{chars_of, text_is};

verus! {

/// What the command line asks for.
pub struct Flags {
    pub print_raw_ast: bool,
    pub print_preprocessed_ast: bool,
    pub debug: bool,
    pub quiet: bool,
    pub llvm: bool,
    pub dirs: Vec<String>,
    pub entryfile: String,
}

/// The model of `Flags`.
pub struct SFlags {
    pub print_raw_ast: bool,
    pub print_preprocessed_ast: bool,
    pub debug: bool,
    pub quiet: bool,
    pub llvm: bool,
    pub dirs: Seq<Seq<char>>,
    pub entryfile: Seq<char>,
}

impl View for Flags {
    type V = SFlags;

    open spec fn view(&self) -> SFlags {
        SFlags {
            print_raw_ast: self.print_raw_ast,
            print_preprocessed_ast: self.print_preprocessed_ast,
            debug: self.debug,
            quiet: self.quiet,
            llvm: self.llvm,
            dirs: self.dirs@.map_values(|s: String| s@),
            entryfile: self.entryfile@,
        }
    }
}

/// No flag set, no directory, no file.
pub open spec fn no_flags() -> SFlags {
    SFlags {
        print_raw_ast: false,
        print_preprocessed_ast: false,
        debug: false,
        quiet: false,
        llvm: false,
        dirs: Seq::empty(),
        entryfile: Seq::empty(),
    }
}

/// The flags after reading the arguments from `i` on: `-e`/`--early`, `-a`/`--ast`,
/// `-d`/`--debug`, `-l`/`--llvm`, `-q`/`--quiet` set a flag, `-I` takes the next argument as
/// an include directory, `-f`/`--filename` takes the next argument as the file, the first
/// other argument names the file if none is named yet, and the rest are ignored. `None` when
/// `-I`, `-f` or `--filename` is the last argument.
pub open spec fn read_args(args: Seq<Seq<char>>, i: int, f: SFlags) -> Option<SFlags>
    decreases args.len() - i,
{
    if i < 0 || i >= args.len() {
        Some(f)
    } else {
        let a = args[i];
        if a == "-e"@ || a == "--early"@ {
            read_args(args, i + 1, SFlags { print_raw_ast: true, ..f })
        } else if a == "-a"@ || a == "--ast"@ {
            read_args(args, i + 1, SFlags { print_preprocessed_ast: true, ..f })
        } else if a == "-d"@ || a == "--debug"@ {
            read_args(args, i + 1, SFlags { debug: true, ..f })
        } else if a == "-l"@ || a == "--llvm"@ {
            read_args(args, i + 1, SFlags { llvm: true, ..f })
        } else if a == "-q"@ || a == "--quiet"@ {
            read_args(args, i + 1, SFlags { quiet: true, ..f })
        } else if a == "-I"@ {
            if i + 1 < args.len() {
                read_args(args, i + 2, SFlags { dirs: f.dirs.push(args[i + 1]), ..f })
            } else {
                None
            }
        } else if a == "-f"@ || a == "--filename"@ {
            if i + 1 < args.len() {
                read_args(args, i + 2, SFlags { entryfile: args[i + 1], ..f })
            } else {
                None
            }
        } else if f.entryfile.len() == 0 {
            read_args(args, i + 1, SFlags { entryfile: a, ..f })
        } else {
            read_args(args, i + 1, f)
        }
    }
}

/// The arguments as texts.
pub open spec fn arg_texts(args: Seq<String>) -> Seq<Seq<char>> {
    args.map_values(|s: String| s@)
}

fn is_one_of(a: &Vec<char>, x: &str, y: &str) -> (r: bool)
    ensures
        r == (a@ == x@ || a@ == y@),
{
    text_is(a, x) || text_is(a, y)
}

/// Reads the arguments after the program's name (see `read_args`).
fn read_from(args: &Vec<String>, start: usize) -> (r: Option<Flags>)
    ensures
        match read_args(arg_texts(args@), start as int, no_flags()) {
            Some(f) => r matches Some(x) && x@ == f,
            None => r is None,
        },
{
    let ghost texts = arg_texts(args@);
    let mut f = Flags {
        print_raw_ast: false,
        print_preprocessed_ast: false,
        debug: false,
        quiet: false,
        llvm: false,
        dirs: Vec::new(),
        entryfile: String::new(),
    };
    assert(f@ == no_flags()) by {
        assert(f@.dirs =~= Seq::<Seq<char>>::empty());
    }
    let mut i = start;
    while i < args.len()
        invariant
            texts == arg_texts(args@),
            read_args(texts, start as int, no_flags()) == read_args(texts, i as int, f@),
        decreases args@.len() - i,
    {
        let a = chars_of(args[i].as_str());
        assert(a@ == texts[i as int]);
        if is_one_of(&a, "-e", "--early") {
            f.print_raw_ast = true;
        } else if is_one_of(&a, "-a", "--ast") {
            f.print_preprocessed_ast = true;
        } else if is_one_of(&a, "-d", "--debug") {
            f.debug = true;
        } else if is_one_of(&a, "-l", "--llvm") {
            f.llvm = true;
        } else if is_one_of(&a, "-q", "--quiet") {
            f.quiet = true;
        } else if text_is(&a, "-I") {
            if i + 1 < args.len() {
                let ghost d0 = f@.dirs;
                f.dirs.push(args[i + 1].clone());
                assert(f@.dirs =~= d0.push(texts[i + 1]));
                i = i + 1;
            } else {
                return None;
            }
        } else if is_one_of(&a, "-f", "--filename") {
            if i + 1 < args.len() {
                f.entryfile = args[i + 1].clone();
                i = i + 1;
            } else {
                return None;
            }
        } else if f.entryfile.unicode_len() == 0 {
            f.entryfile = args[i].clone();
        }
        i = i + 1;
    }
    Some(f)
}

/// Whether the command line is complete: no `-I` lacks its directory and no `-f` its file.
pub fn args_complete(args: &Vec<String>) -> (r: bool)
    ensures
        r == (read_args(arg_texts(args@), 1, no_flags()) is Some),
{
    read_from(args, 1).is_some()
}

/// The flags of a command line whose first argument is the program's name; `None` when it
/// names no file to compile.
pub fn parse_args(args: &Vec<String>) -> (r: Option<Flags>)
    requires
        read_args(arg_texts(args@), 1, no_flags()) is Some,
    ensures
        match read_args(arg_texts(args@), 1, no_flags()) {
            Some(f) => if f.entryfile.len() == 0 {
                r is None
            } else {
                r matches Some(x) && x@ == f
            },
            None => false,
        },
{
    match read_from(args, 1) {
        Some(f) => {
            if f.entryfile.unicode_len() == 0 {
                None
            } else {
                Some(f)
            }
        },
        None => None,
    }
}

/// Only the arguments from `i` on are read: command lines that agree from `i` on read alike.
proof fn lemma_read_args_ahead(a: Seq<Seq<char>>, b: Seq<Seq<char>>, i: int, f: SFlags)
    requires
        a.len() == b.len(),
        forall|k: int| i <= k < a.len() ==> a[k] == b[k],
    ensures
        read_args(a, i, f) == read_args(b, i, f),
    decreases a.len() - i,
{
    if 0 <= i < a.len() {
        let x = a[i];
        assert(b[i] == x);
        lemma_read_args_ahead(a, b, i + 1, SFlags { print_raw_ast: true, ..f });
        lemma_read_args_ahead(a, b, i + 1, SFlags { print_preprocessed_ast: true, ..f });
        lemma_read_args_ahead(a, b, i + 1, SFlags { debug: true, ..f });
        lemma_read_args_ahead(a, b, i + 1, SFlags { llvm: true, ..f });
        lemma_read_args_ahead(a, b, i + 1, SFlags { quiet: true, ..f });
        lemma_read_args_ahead(a, b, i + 1, SFlags { entryfile: x, ..f });
        lemma_read_args_ahead(a, b, i + 1, f);
        if i + 1 < a.len() {
            assert(a[i + 1] == b[i + 1]);
            lemma_read_args_ahead(a, b, i + 2, SFlags { dirs: f.dirs.push(a[i + 1]), ..f });
            lemma_read_args_ahead(a, b, i + 2, SFlags { entryfile: a[i + 1], ..f });
        }
    }
}

/// Each flag's long form reads as its short form wherever it stands among the arguments that
/// are read as flags: `--early` as `-e`, `--ast` as `-a`, `--debug` as `-d`, `--llvm` as `-l`,
/// `--quiet` as `-q`, `--filename` as `-f`; so a long flag is never taken as the file.
pub proof fn lemma_long_flags(args: Seq<Seq<char>>, i: int, f: SFlags)
    requires
        0 <= i < args.len(),
    ensures
        read_args(args.update(i, "--early"@), i, f) == read_args(args.update(i, "-e"@), i, f),
        read_args(args.update(i, "--ast"@), i, f) == read_args(args.update(i, "-a"@), i, f),
        read_args(args.update(i, "--debug"@), i, f) == read_args(args.update(i, "-d"@), i, f),
        read_args(args.update(i, "--llvm"@), i, f) == read_args(args.update(i, "-l"@), i, f),
        read_args(args.update(i, "--quiet"@), i, f) == read_args(args.update(i, "-q"@), i, f),
        read_args(args.update(i, "--filename"@), i, f) == read_args(args.update(i, "-f"@), i, f),
{
    reveal_strlit("-e");
    reveal_strlit("--early");
    reveal_strlit("-a");
    reveal_strlit("--ast");
    reveal_strlit("-d");
    reveal_strlit("--debug");
    reveal_strlit("-l");
    reveal_strlit("--llvm");
    reveal_strlit("-q");
    reveal_strlit("--quiet");
    reveal_strlit("-I");
    reveal_strlit("-f");
    reveal_strlit("--filename");
    {
        assert("--early"@.len() != "-e"@.len());
        assert("--early"@ != "-e"@);
        let la = args.update(i, "--early"@);
        let sa = args.update(i, "-e"@);
        assert(la[i] == "--early"@ && sa[i] == "-e"@);
        lemma_read_args_ahead(la, sa, i + 1, f);
        lemma_read_args_ahead(la, sa, i + 2, f);
        lemma_read_args_ahead(la, sa, i + 1, SFlags { print_raw_ast: true, ..f });
    }
    {
        assert("--ast"@.len() != "-e"@.len());
        assert("--ast"@ != "-e"@);
        assert("--ast"@.len() != "--early"@.len());
        assert("--ast"@ != "--early"@);
        assert("--ast"@.len() != "-a"@.len());
        assert("--ast"@ != "-a"@);
        assert("-a"@[1] != "-e"@[1]);
        assert("-a"@ != "-e"@);
        assert("-a"@.len() != "--early"@.len());
        assert("-a"@ != "--early"@);
        let la = args.update(i, "--ast"@);
        let sa = args.update(i, "-a"@);
        assert(la[i] == "--ast"@ && sa[i] == "-a"@);
        lemma_read_args_ahead(la, sa, i + 1, f);
        lemma_read_args_ahead(la, sa, i + 2, f);
        lemma_read_args_ahead(la, sa, i + 1, SFlags { print_preprocessed_ast: true, ..f });
    }
    {
        assert("--debug"@.len() != "-e"@.len());
        assert("--debug"@ != "-e"@);
        assert("--debug"@[2] != "--early"@[2]);
        assert("--debug"@ != "--early"@);
        assert("--debug"@.len() != "-a"@.len());
        assert("--debug"@ != "-a"@);
        assert("--debug"@.len() != "--ast"@.len());
        assert("--debug"@ != "--ast"@);
        assert("--debug"@.len() != "-d"@.len());
        assert("--debug"@ != "-d"@);
        assert("-d"@[1] != "-e"@[1]);
        assert("-d"@ != "-e"@);
        assert("-d"@.len() != "--early"@.len());
        assert("-d"@ != "--early"@);
        assert("-d"@[1] != "-a"@[1]);
        assert("-d"@ != "-a"@);
        assert("-d"@.len() != "--ast"@.len());
        assert("-d"@ != "--ast"@);
        let la = args.update(i, "--debug"@);
        let sa = args.update(i, "-d"@);
        assert(la[i] == "--debug"@ && sa[i] == "-d"@);
        lemma_read_args_ahead(la, sa, i + 1, f);
        lemma_read_args_ahead(la, sa, i + 2, f);
        lemma_read_args_ahead(la, sa, i + 1, SFlags { debug: true, ..f });
    }
    {
        assert("--llvm"@.len() != "-e"@.len());
        assert("--llvm"@ != "-e"@);
        assert("--llvm"@.len() != "--early"@.len());
        assert("--llvm"@ != "--early"@);
        assert("--llvm"@.len() != "-a"@.len());
        assert("--llvm"@ != "-a"@);
        assert("--llvm"@.len() != "--ast"@.len());
        assert("--llvm"@ != "--ast"@);
        assert("--llvm"@.len() != "-d"@.len());
        assert("--llvm"@ != "-d"@);
        assert("--llvm"@.len() != "--debug"@.len());
        assert("--llvm"@ != "--debug"@);
        assert("--llvm"@.len() != "-l"@.len());
        assert("--llvm"@ != "-l"@);
        assert("-l"@[1] != "-e"@[1]);
        assert("-l"@ != "-e"@);
        assert("-l"@.len() != "--early"@.len());
        assert("-l"@ != "--early"@);
        assert("-l"@[1] != "-a"@[1]);
        assert("-l"@ != "-a"@);
        assert("-l"@.len() != "--ast"@.len());
        assert("-l"@ != "--ast"@);
        assert("-l"@[1] != "-d"@[1]);
        assert("-l"@ != "-d"@);
        assert("-l"@.len() != "--debug"@.len());
        assert("-l"@ != "--debug"@);
        let la = args.update(i, "--llvm"@);
        let sa = args.update(i, "-l"@);
        assert(la[i] == "--llvm"@ && sa[i] == "-l"@);
        lemma_read_args_ahead(la, sa, i + 1, f);
        lemma_read_args_ahead(la, sa, i + 2, f);
        lemma_read_args_ahead(la, sa, i + 1, SFlags { llvm: true, ..f });
    }
    {
        assert("--quiet"@.len() != "-e"@.len());
        assert("--quiet"@ != "-e"@);
        assert("--quiet"@[2] != "--early"@[2]);
        assert("--quiet"@ != "--early"@);
        assert("--quiet"@.len() != "-a"@.len());
        assert("--quiet"@ != "-a"@);
        assert("--quiet"@.len() != "--ast"@.len());
        assert("--quiet"@ != "--ast"@);
        assert("--quiet"@.len() != "-d"@.len());
        assert("--quiet"@ != "-d"@);
        assert("--quiet"@[2] != "--debug"@[2]);
        assert("--quiet"@ != "--debug"@);
        assert("--quiet"@.len() != "-l"@.len());
        assert("--quiet"@ != "-l"@);
        assert("--quiet"@.len() != "--llvm"@.len());
        assert("--quiet"@ != "--llvm"@);
        assert("--quiet"@.len() != "-q"@.len());
        assert("--quiet"@ != "-q"@);
        assert("-q"@[1] != "-e"@[1]);
        assert("-q"@ != "-e"@);
        assert("-q"@.len() != "--early"@.len());
        assert("-q"@ != "--early"@);
        assert("-q"@[1] != "-a"@[1]);
        assert("-q"@ != "-a"@);
        assert("-q"@.len() != "--ast"@.len());
        assert("-q"@ != "--ast"@);
        assert("-q"@[1] != "-d"@[1]);
        assert("-q"@ != "-d"@);
        assert("-q"@.len() != "--debug"@.len());
        assert("-q"@ != "--debug"@);
        assert("-q"@[1] != "-l"@[1]);
        assert("-q"@ != "-l"@);
        assert("-q"@.len() != "--llvm"@.len());
        assert("-q"@ != "--llvm"@);
        let la = args.update(i, "--quiet"@);
        let sa = args.update(i, "-q"@);
        assert(la[i] == "--quiet"@ && sa[i] == "-q"@);
        lemma_read_args_ahead(la, sa, i + 1, f);
        lemma_read_args_ahead(la, sa, i + 2, f);
        lemma_read_args_ahead(la, sa, i + 1, SFlags { quiet: true, ..f });
    }
    {
        assert("--filename"@.len() != "-e"@.len());
        assert("--filename"@ != "-e"@);
        assert("--filename"@.len() != "--early"@.len());
        assert("--filename"@ != "--early"@);
        assert("--filename"@.len() != "-a"@.len());
        assert("--filename"@ != "-a"@);
        assert("--filename"@.len() != "--ast"@.len());
        assert("--filename"@ != "--ast"@);
        assert("--filename"@.len() != "-d"@.len());
        assert("--filename"@ != "-d"@);
        assert("--filename"@.len() != "--debug"@.len());
        assert("--filename"@ != "--debug"@);
        assert("--filename"@.len() != "-l"@.len());
        assert("--filename"@ != "-l"@);
        assert("--filename"@.len() != "--llvm"@.len());
        assert("--filename"@ != "--llvm"@);
        assert("--filename"@.len() != "-q"@.len());
        assert("--filename"@ != "-q"@);
        assert("--filename"@.len() != "--quiet"@.len());
        assert("--filename"@ != "--quiet"@);
        assert("--filename"@.len() != "-I"@.len());
        assert("--filename"@ != "-I"@);
        assert("--filename"@.len() != "-f"@.len());
        assert("--filename"@ != "-f"@);
        assert("-f"@[1] != "-e"@[1]);
        assert("-f"@ != "-e"@);
        assert("-f"@.len() != "--early"@.len());
        assert("-f"@ != "--early"@);
        assert("-f"@[1] != "-a"@[1]);
        assert("-f"@ != "-a"@);
        assert("-f"@.len() != "--ast"@.len());
        assert("-f"@ != "--ast"@);
        assert("-f"@[1] != "-d"@[1]);
        assert("-f"@ != "-d"@);
        assert("-f"@.len() != "--debug"@.len());
        assert("-f"@ != "--debug"@);
        assert("-f"@[1] != "-l"@[1]);
        assert("-f"@ != "-l"@);
        assert("-f"@.len() != "--llvm"@.len());
        assert("-f"@ != "--llvm"@);
        assert("-f"@[1] != "-q"@[1]);
        assert("-f"@ != "-q"@);
        assert("-f"@.len() != "--quiet"@.len());
        assert("-f"@ != "--quiet"@);
        assert("-f"@[1] != "-I"@[1]);
        assert("-f"@ != "-I"@);
        let la = args.update(i, "--filename"@);
        let sa = args.update(i, "-f"@);
        assert(la[i] == "--filename"@ && sa[i] == "-f"@);
        lemma_read_args_ahead(la, sa, i + 1, f);
        lemma_read_args_ahead(la, sa, i + 2, f);
        if i + 1 < args.len() {
            assert(la[i + 1] == sa[i + 1]);
            lemma_read_args_ahead(la, sa, i + 2, SFlags { entryfile: la[i + 1], ..f });
        }
    }
}

} // verus!

