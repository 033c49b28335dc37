//! The catch-up walker's decisions: stepping backward through a remote
//! node's chain, one append request and one batch fetch per level, until
//! either the walked-to hash closes the gap or the floor is reached.
//! The HTTP calls and the pacing between them live outside the library.

use vstd::prelude::*;

use crate::digest::Digest;

verus! {

/// The lowest level the walker descends to.
pub const CATCH_FLOOR: u32 = 9307;

/// Whether the walker should fetch at this level at all.
pub fn should_fetch(level: u32) -> (r: bool)
    ensures
        r == (level > CATCH_FLOOR),
{
    level > CATCH_FLOOR
}

/// One step of the backward walk: given the hash being appended, the
/// level, and the previous-state hash of the first block fetched at
/// that level, either the chain is closed (the fetched block descends
/// from the appended hash) or the walk moves to the parent one level
/// down.
pub fn step(hash: Digest, level: u32, first_prev: Digest) -> (r: Option<(Digest, u32)>)
    requires
        level > 0,
    ensures
        (if first_prev == hash {
            r is None
        } else {
            r == Some((first_prev, (level - 1) as u32))
        }),
{
    if first_prev == hash {
        None
    } else {
        Some((first_prev, level - 1))
    }
}

} // verus!
