//! Directory-navigation logic: resolving the argument of `cd` against the
//! home directory. The working-directory change itself is an operating
//! system call made by the surrounding program; this module only computes
//! which path it should receive.

use vstd::prelude::*;

use crate::parser::home_view;

verus! {

/// The path `cd` should change to: `~` alone means the home directory, a
/// leading `~/` is replaced by the home directory, anything else is taken
/// as given. With no home directory set, a tilde form resolves to nothing
/// and `cd` reports its error instead.
pub open spec fn spec_cd_target(arg: Seq<char>, home: Option<Seq<char>>) -> Option<Seq<char>> {
    if arg =~= seq!['~'] {
        home
    } else if arg.len() >= 2 && arg[0] == '~' && arg[1] == '/' {
        match home {
            Some(h) => Some(h + arg.skip(1)),
            None => None,
        }
    } else {
        Some(arg)
    }
}

/// Resolve the argument of `cd`, as [`spec_cd_target`] describes.
pub fn resolve_cd_target(arg: &String, home: &Option<String>) -> (r: Option<String>)
    ensures
        match r {
            Some(p) => spec_cd_target(arg@, home_view(*home)) == Some(p@),
            None => spec_cd_target(arg@, home_view(*home)) is None,
        },
{
    let n = arg.as_str().unicode_len();
    if n == 1 && arg.as_str().get_char(0) == '~' {
        proof {
            assert(arg@ =~= seq!['~']);
        }
        match home {
            Some(h) => Some(h.clone()),
            None => None,
        }
    } else if n >= 2 && arg.as_str().get_char(0) == '~' && arg.as_str().get_char(1) == '/' {
        proof {
            assert(!(arg@ =~= seq!['~']));
        }
        match home {
            Some(h) => {
                let mut out = h.clone();
                out.append(arg.as_str().substring_char(1, n));
                proof {
                    assert(arg@.subrange(1, n as int) =~= arg@.skip(1));
                }
                Some(out)
            },
            None => None,
        }
    } else {
        proof {
            assert(!(arg@ =~= seq!['~']));
        }
        Some(arg.clone())
    }
}

} // verus!
