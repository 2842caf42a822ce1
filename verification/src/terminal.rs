//! Terminals.

use vstd::prelude::*;

verus! {

/// Whether a descriptor is a terminal, given the answer of libc's `isatty`. POSIX only guarantees
/// a nonzero value (not specifically 1) for a terminal.
pub fn isatty(answer: i32) -> (r: bool)
    ensures
        r == (answer != 0),
{
    answer != 0
}

} // verus!
