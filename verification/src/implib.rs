//! The native libraries a program can import, and the functions each provides.
use vstd::prelude::*;

use crate::env::Type;
use crate::text::chars_of;

verus! {

/// An imported function: its Impcore name, the name of the native function behind it, its argument types.
pub type LibFn = (&'static str, &'static str, Vec<Type>);

/// A library: the file that holds its code, and its functions.
pub type LibListing = (&'static str, Vec<LibFn>);

/// The model of a library listing.
pub type SListing = (Seq<char>, Seq<(Seq<char>, Seq<char>, Seq<Type>)>);

pub open spec fn listing_view(l: LibListing) -> SListing {
    (l.0@, l.1@.map_values(|f: LibFn| (f.0@, f.1@, f.2@)))
}

/// The libraries there are, by name; `stdin` and `stdio` name the same library.
pub open spec fn lib_spec(name: Seq<char>) -> Option<SListing> {
    if name == "stdio"@ || name == "stdin"@ {
        Some(("stdin.bc"@, seq![("getc"@, "__implib_getc"@, Seq::<Type>::empty()), ("printstr"@, "__implib_printstr"@, seq![Type::Pointer])]))
    } else if name == "termio"@ {
        Some(("termio.bc"@, seq![("hmm"@, "__implib_getc"@, Seq::<Type>::empty())]))
    } else {
        None
    }
}

/// The Impcore names of a library's functions, in order.
pub open spec fn lib_fn_names(l: SListing) -> Seq<Seq<char>> {
    l.1.map_values(|f: (Seq<char>, Seq<char>, Seq<Type>)| f.0)
}

/// The message for an unknown library.
pub open spec fn unbound_lib_msg(name: Seq<char>) -> Seq<char> {
    "Unbound libname "@ + name
}

pub trait LibFunctions {
    fn functions(&self) -> Vec<&'static str>;
}

impl LibFunctions for LibListing {
    /// The Impcore names of the library's functions, in order.
    fn functions(&self) -> (r: Vec<&'static str>)
        ensures
            r@.map_values(|s: &'static str| s@) == lib_fn_names(listing_view(*self)),
    {
        let mut r: Vec<&'static str> = Vec::new();
        let n = self.1.len();
        for k in 0..n
            invariant
                n == self.1@.len(),
                r@.len() == k,
                forall|i: int| 0 <= i < k ==> #[trigger] r@[i] == self.1@[i].0,
        {
            r.push(self.1[k].0);
        }
        assert(r@.map_values(|s: &'static str| s@) =~= lib_fn_names(listing_view(*self)));
        r
    }
}

/// The library with the given name.
pub fn lib_listing(name: &Vec<char>) -> (r: Option<LibListing>)
    ensures
        match r {
            Some(l) => lib_spec(name@) == Some(listing_view(l)),
            None => lib_spec(name@) is None,
        },
{
    if crate::text::text_is(name, "stdio") || crate::text::text_is(name, "stdin") {
        let mut fns: Vec<LibFn> = Vec::new();
        fns.push(("getc", "__implib_getc", Vec::new()));
        let mut ptr: Vec<Type> = Vec::new();
        ptr.push(Type::Pointer);
        fns.push(("printstr", "__implib_printstr", ptr));
        let l: LibListing = ("stdin.bc", fns);
        proof {
            let v = listing_view(l);
            assert(v.1[0].2 =~= Seq::<Type>::empty());
            assert(v.1[1].2 =~= seq![Type::Pointer]);
            assert(v.1 =~= seq![("getc"@, "__implib_getc"@, Seq::<Type>::empty()), ("printstr"@, "__implib_printstr"@, seq![Type::Pointer])]);
        }
        Some(l)
    } else if crate::text::text_is(name, "termio") {
        let mut fns: Vec<LibFn> = Vec::new();
        fns.push(("hmm", "__implib_getc", Vec::new()));
        let l: LibListing = ("termio.bc", fns);
        proof {
            let v = listing_view(l);
            assert(v.1[0].2 =~= Seq::<Type>::empty());
            assert(v.1 =~= seq![("hmm"@, "__implib_getc"@, Seq::<Type>::empty())]);
        }
        Some(l)
    } else {
        None
    }
}

/// The library with the given name, or the message that names it unbound.
pub fn libmapping(libname: &str) -> (r: Result<LibListing, String>)
    ensures
        match r {
            Ok(l) => lib_spec(libname@) == Some(listing_view(l)),
            Err(msg) => lib_spec(libname@) is None && msg@ == unbound_lib_msg(libname@),
        },
{
    match lib_listing(&chars_of(libname)) {
        Some(l) => Ok(l),
        None => {
            let mut msg = "Unbound libname ".to_owned();
            msg.append(libname);
            Err(msg)
        },
    }
}

} // verus!
