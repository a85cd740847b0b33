//! A piece of source code, either a file or a REPL logical line, held as
//! plain characters before it is interned into an arena.

use vstd::prelude::*;

use vstd::std_specs::iter::IteratorSpec;

verus! {

broadcast use vstd::string::axiom_spec_iter, vstd::string::next_postcondition;

/// One logical unit of input: an optional origin name and its text.
pub struct Source {
    name: Option<String>,
    src: Vec<char>,
}

impl Source {
    /// The characters of this input.
    pub closed spec fn text(&self) -> Seq<char> {
        self.src@
    }

    pub closed spec fn name_view(&self) -> Option<String> {
        self.name
    }

    /// An unnamed piece of source (a REPL line).
    pub fn from_string(s: String) -> (r: Source)
        ensures
            r.text() == s@,
            r.name_view() is None,
    {
        let mut src: Vec<char> = Vec::new();
        let mut it = s.as_str().chars();
        let mut done = false;
        while !done
            invariant
                src@.len() <= s@.len(),
                done ==> src@ == s@,
                !done ==> src@ + it.remaining() == s@,
            decreases s@.len() - src@.len() + (if done {
                0int
            } else {
                1int
            }),
        {
            let c = it.next();
            match c {
                Some(ch) => {
                    src.push(ch);
                    proof {
                        assert(src@ + it.remaining() =~= s@);
                    }
                },
                None => {
                    done = true;
                    proof {
                        assert(src@ + it.remaining() =~= src@);
                    }
                },
            }
        }
        Source { name: None, src }
    }

    /// The text, for interning.
    pub fn chars(&self) -> (r: &Vec<char>)
        ensures
            r@ == self.text(),
    {
        &self.src
    }

    pub fn name(&self) -> (r: &Option<String>)
        ensures
            *r == self.name_view(),
    {
        &self.name
    }
}

} // verus!
