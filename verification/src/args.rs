//! Command-line argument parsing.
//!
//! The arguments are scanned front to back: `-h` and `-v` end parsing at
//! once, `-n` takes the following argument as the adjustment, and the
//! first other argument is the PID.  The adjustment defaults to 10.

use crate::num::parse_i32;
use crate::num::parse_usize;
use crate::num::spec_parse_i32;
use crate::num::spec_parse_usize;
use std::collections::VecDeque;
use vstd::prelude::*;

verus! {

/// Why argument parsing stopped without a PID and adjustment.
#[derive(Clone, Copy, Debug, PartialEq, Eq, Structural)]
pub enum ArgError {
    /// `-h` was given: the caller should print the usage text.
    PrintHelp,
    /// `-v` was given: the caller should print the version text.
    PrintVersion,
    /// The arguments ran out before a PID was given, or `-n` had no
    /// value after it.
    InsufficientArgs,
    /// A PID or an adjustment was not a decimal integer of its type's
    /// range.
    ParseError,
}

/// The meaning of an argument list, scanned front to back with `adj` the
/// adjustment gathered so far: `-h` and `-v` end parsing at once, `-n`
/// takes the following argument as the adjustment, and the first other
/// argument is the PID.  An absent adjustment defaults to 10.
pub open spec fn spec_parse_args(args: Seq<Seq<char>>, adj: Option<int>) -> Result<
    (int, int),
    ArgError,
>
    decreases args.len(),
{
    if args.len() == 0 {
        Err(ArgError::InsufficientArgs)
    } else if args[0] == "-h"@ {
        Err(ArgError::PrintHelp)
    } else if args[0] == "-v"@ {
        Err(ArgError::PrintVersion)
    } else if args[0] == "-n"@ {
        if args.len() == 1 {
            Err(ArgError::InsufficientArgs)
        } else {
            match spec_parse_i32(args[1]) {
                None => Err(ArgError::ParseError),
                Some(a) => spec_parse_args(args.skip(2), Some(a)),
            }
        }
    } else {
        match spec_parse_usize(args[0]) {
            None => Err(ArgError::ParseError),
            Some(p) => Ok(
                (
                    p,
                    match adj {
                        Some(a) => a,
                        None => 10,
                    },
                ),
            ),
        }
    }
}

/// Compare two strings character by character.
pub fn str_eq(a: &str, b: &str) -> (r: bool)
    ensures
        r <==> a@ == b@,
{
    let na = a.unicode_len();
    let nb = b.unicode_len();
    if na != nb {
        return false;
    }
    let mut i: usize = 0;
    while i < na
        invariant
            i <= na,
            na == a@.len(),
            nb == b@.len(),
            na == nb,
            forall|k: int| 0 <= k < i ==> a@[k] == b@[k],
        decreases na - i,
    {
        if a.get_char(i) != b.get_char(i) {
            return false;
        }
        i = i + 1;
    }
    proof {
        assert(a@ =~= b@);
    }
    true
}

/// Take arguments from the front of the queue until a PID is found,
/// yielding the PID and the adjustment, or the reason parsing stopped.
#[verifier::loop_isolation(false)]
pub fn parse_args(args: &mut VecDeque<String>) -> (r: Result<(usize, i32), ArgError>)
    ensures
        match spec_parse_args(old(args).deep_view(), None::<int>) {
            Ok((p, a)) => r matches Ok(v) && v.0 == p && v.1 == a,
            Err(e) => r == Err::<(usize, i32), ArgError>(e),
        },
{
    let mut adjustment: Option<i32> = None;
    loop
        invariant
            spec_parse_args(
                args.deep_view(),
                match adjustment {
                    Some(a) => Some(a as int),
                    None => None::<int>,
                },
            ) == spec_parse_args(old(args).deep_view(), None::<int>),
        decreases args@.len(),
    {
        let ghost pre_dv = args.deep_view();
        match args.pop_front() {
            None => {
                return Err(ArgError::InsufficientArgs);
            },
            Some(arg) => {
                proof {
                    assert(args.deep_view() =~~= pre_dv.skip(1));
                    assert(pre_dv[0] == arg@);
                }
                if str_eq(arg.as_str(), "-h") {
                    return Err(ArgError::PrintHelp);
                } else if str_eq(arg.as_str(), "-v") {
                    return Err(ArgError::PrintVersion);
                } else if str_eq(arg.as_str(), "-n") {
                    let ghost mid_dv = args.deep_view();
                    match args.pop_front() {
                        None => {
                            return Err(ArgError::InsufficientArgs);
                        },
                        Some(value) => {
                            proof {
                                assert(args.deep_view() =~~= pre_dv.skip(2));
                                assert(mid_dv[0] == value@);
                                assert(pre_dv[1] == value@);
                            }
                            match parse_i32(value.as_str()) {
                                None => {
                                    return Err(ArgError::ParseError);
                                },
                                Some(a) => {
                                    adjustment = Some(a);
                                },
                            }
                        },
                    }
                } else {
                    match parse_usize(arg.as_str()) {
                        None => {
                            return Err(ArgError::ParseError);
                        },
                        Some(p) => {
                            let adj = match adjustment {
                                Some(a) => a,
                                None => 10,
                            };
                            return Ok((p, adj));
                        },
                    }
                }
            },
        }
    }
}

} // verus!
