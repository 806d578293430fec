//! Small helpers.
use vstd::prelude::*;

verus! {

/// Renders text by calling `fmt_fn`; lets a value offer several renderings, each a
/// closure over what it shows.
pub fn fmt_helper<F: Fn() -> String>(fmt_fn: F) -> (r: String)
    requires
        fmt_fn.requires(()),
    ensures
        fmt_fn.ensures((), r),
{
    fmt_fn()
}

} // verus!
