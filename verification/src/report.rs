//! The text that a run prints.
use vstd::prelude::*;

verus! {

/// The line that stands before the contents of the file.
pub const CONTENTS_HEADER: &'static str = "The file contains: ";

/// The line that stands before the lines found.
pub const RESULTS_HEADER: &'static str = "Results:";

/// The given lines, each followed by a line feed.
pub open spec fn each_on_its_line(found: Seq<Seq<char>>) -> Seq<char>
    decreases found.len(),
{
    if found.len() == 0 {
        Seq::empty()
    } else {
        each_on_its_line(found.drop_last()) + found.last() + seq!['\n']
    }
}

/// What a run prints for a file of the given contents in which the given
/// lines were found: a header line, the contents and a line feed, a second
/// header line, and the lines found, each on a line of its own.
pub open spec fn report(contents: Seq<char>, found: Seq<Seq<char>>) -> Seq<char> {
    CONTENTS_HEADER@ + seq!['\n'] + contents + seq!['\n'] + RESULTS_HEADER@ + seq!['\n']
        + each_on_its_line(found)
}

} // verus!
