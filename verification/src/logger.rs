//! Whether the application writes its logs.

use crate::text::text_eq;
use vstd::prelude::*;

verus! {

/// Whether one of the first `k` arguments is `flag`.
pub open spec fn has_flag(args: Seq<String>, flag: Seq<char>, k: nat) -> bool
    decreases k,
{
    k > 0 && (has_flag(args, flag, (k - 1) as nat) || args[k - 1]@ == flag)
}

/// Logging is on when the program was started with `-d` and without `-b`.
pub open spec fn logging_enabled(args: Seq<String>) -> bool {
    has_flag(args, "-d"@, args.len()) && !has_flag(args, "-b"@, args.len())
}

fn find_flag(args: &Vec<String>, flag: &str) -> (r: bool)
    ensures
        r == has_flag(args@, flag@, args@.len()),
{
    let mut r = false;
    let mut k: usize = 0;
    while k < args.len()
        invariant
            k <= args.len(),
            r == has_flag(args@, flag@, k as nat),
        decreases args.len() - k,
    {
        if text_eq(args[k].as_str(), flag) {
            r = true;
        }
        k += 1;
    }
    r
}

/// Whether logging is on, given the arguments of the program.
pub fn is_enabled(args: &Vec<String>) -> (r: bool)
    ensures
        r == logging_enabled(args@),
{
    find_flag(args, "-d") && !find_flag(args, "-b")
}

} // verus!
