//! The discriminator term operation.

use vstd::prelude::*;

use crate::stone::spec::Elem;

verus! {

/// Discriminator `n(x, y, z)`: `z` when `x = y`, otherwise `x`.
pub fn discriminator(x: Elem, y: Elem, z: Elem) -> (r: Elem)
    ensures
        r == if x == y { z } else { x },
{
    if x == y {
        z
    } else {
        x
    }
}

} // verus!
