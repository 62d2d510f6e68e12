//! The separator written between a number and its prefix and unit.

use vstd::prelude::*;

verus! {

/// Whether a single space stands between the number and the prefix/unit.
#[derive(Debug, Copy, Clone, PartialEq, Eq, Structural)]
pub enum Sep {
    WithSep,
    NoSep,
}

impl Sep {
    /// The characters this separator renders as.
    pub open spec fn chars(self) -> Seq<char> {
        match self {
            Sep::WithSep => seq![' '],
            Sep::NoSep => Seq::<char>::empty(),
        }
    }

    /// The characters of this separator's name.
    pub open spec fn name_chars(self) -> Seq<char> {
        match self {
            Sep::WithSep => seq!['W', 'i', 't', 'h', 'S', 'e', 'p'],
            Sep::NoSep => seq!['N', 'o', 'S', 'e', 'p'],
        }
    }

    /// This separator's name.
    pub fn name(&self) -> (r: &'static str)
        ensures
            r@ == self.name_chars(),
    {
        let r: &'static str = match self {
            Sep::WithSep => "WithSep",
            Sep::NoSep => "NoSep",
        };
        proof {
            reveal_strlit("WithSep");
            reveal_strlit("NoSep");
            assert(r@ =~= self.name_chars());
        }
        r
    }

    /// The text this separator renders as.
    pub fn resolve(&self) -> (r: &'static str)
        ensures
            r@ == self.chars(),
    {
        proof {
            reveal_strlit(" ");
            reveal_strlit("");
        }
        match self {
            Sep::WithSep => {
                let r = " ";
                proof {
                    assert(r@ =~= self.chars());
                }
                r
            },
            Sep::NoSep => {
                let r = "";
                proof {
                    assert(r@ =~= self.chars());
                }
                r
            },
        }
    }
}

} // verus!
