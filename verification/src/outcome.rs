//! Results seen as mathematical values.

use crate::text;
use vstd::prelude::*;

verus! {

/// The problem that a check found.
pub open spec fn problem(out: Result<(), String>) -> Option<Seq<char>> {
    match out {
        Ok(_) => None,
        Err(e) => Some(e@),
    }
}

/// A result that holds a string.
pub open spec fn text_outcome(out: Result<String, String>) -> Result<Seq<char>, Seq<char>> {
    match out {
        Ok(s) => Ok(s@),
        Err(e) => Err(e@),
    }
}

/// A result that holds strings.
pub open spec fn texts_outcome(out: Result<Vec<String>, String>) -> Result<
    Seq<Seq<char>>,
    Seq<char>,
> {
    match out {
        Ok(v) => Ok(text::texts(v@)),
        Err(e) => Err(e@),
    }
}

} // verus!
