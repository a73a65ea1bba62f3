pub mod grid;
pub mod hooks;
pub mod raster;
pub mod score;
pub mod sequencer;

use vstd::prelude::*;

verus! {

/// Circular index distance between hook indices `i` and `j` on a ring of
/// `n` hooks: the smaller of the two arc lengths.
pub open spec fn circ_dist(n: int, i: int, j: int) -> int {
    let d = if i >= j { i - j } else { j - i };
    if d <= n - d { d } else { n - d }
}

} // verus!
