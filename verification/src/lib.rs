use vstd::prelude::*;

pub mod sudoku;
pub mod laws;
pub mod lotto;
pub mod feed;

verus! {

/// The greeting served by the index page.
pub fn greeting() -> (r: &'static str)
    ensures
        r@ == "Hello world"@,
{
    "Hello world"
}

} // verus!
