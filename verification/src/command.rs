//! Splitting a command string into a program name and its arguments,
//! honoring shell-style quoting.

use vstd::prelude::*;
use crate::exitcode::RunError;

verus! {

/// The token list that shell-style splitting yields for a string, or no
/// value when the string cannot be tokenized (for example, an unterminated
/// quote).
pub uninterp spec fn shlex_tokens(s: Seq<char>) -> Option<Seq<Seq<char>>>;

/// Relies on shlex::split: tokenizes a string by whitespace, honoring
/// single and double quotes and escapes, returning None on erroneous input.
/// The result is a function of the input string alone.
#[verifier::external_body]
fn split_words(s: &str) -> (r: Option<Vec<String>>)
    ensures
        r is Some <==> shlex_tokens(s@) is Some,
        r is Some ==> r.unwrap()@.map_values(|t: String| t@) == shlex_tokens(s@).unwrap(),
{
    shlex::split(s)
}

/// Parses one command string into the program to run and its argument
/// list: the first token names the program, the rest are its arguments.
/// A string that cannot be tokenized, or tokenizes to nothing, is a parse
/// error.
pub fn parse_command(cmd: &str) -> (r: Result<(String, Vec<String>), RunError>)
    ensures
        match r {
            Ok((program, args)) => {
                &&& shlex_tokens(cmd@) is Some
                &&& shlex_tokens(cmd@).unwrap().len() > 0
                &&& program@ == shlex_tokens(cmd@).unwrap()[0]
                &&& args@.map_values(|t: String| t@) == shlex_tokens(cmd@).unwrap().skip(1)
            },
            Err(e) => {
                &&& e == RunError::Parse
                &&& (shlex_tokens(cmd@) is None || shlex_tokens(cmd@).unwrap().len() == 0)
            },
        },
{
    match split_words(cmd) {
        Some(mut parts) => {
            if parts.len() == 0 {
                proof {
                    assert(parts@.map_values(|t: String| t@).len() == 0);
                }
                return Err(RunError::Parse);
            }
            let ghost orig = parts@;
            let program = parts.remove(0);
            proof {
                let tokens = shlex_tokens(cmd@).unwrap();
                let view_fn = |t: String| t@;
                assert(orig.map_values(view_fn) == tokens);
                assert(program@ == tokens[0]);
                assert(parts@ =~= orig.skip(1));
                assert(parts@.map_values(view_fn) =~= tokens.skip(1));
            }
            Ok((program, parts))
        },
        None => Err(RunError::Parse),
    }
}

} // verus!

