//! Presentation layer.

pub mod browser;
pub mod laws;
pub mod reports;
pub mod review;
pub mod terminal;

use vstd::prelude::*;

verus! {

/// `"s"` unless `n == 1`, for "3 files" / "1 file".
pub open spec fn plural_text(n: int) -> Seq<char> {
    if n == 1 {
        ""@
    } else {
        "s"@
    }
}

/// `"s"` unless `n == 1`, for "3 files" / "1 file".
pub fn plural(n: usize) -> (r: &'static str)
    ensures
        r@ == plural_text(n as int),
{
    if n == 1 {
        ""
    } else {
        "s"
    }
}

} // verus!
