//! Contact records: a tolerant line parser, a keyed in-memory store and
//! the flat comma-separated file format that holds them.

pub mod text;
pub mod record;
pub mod store;
pub mod codec;

use vstd::prelude::*;

verus! {

/// A fixed sample point on the plane, as `(x, y)`.
pub fn coordinate() -> (r: (i32, i32))
    ensures
        r == (1i32, 7i32),
{
    (1, 7)
}

} // verus!
