//! Verified core of a savestate manager for game-world directories: it
//! creates, lists, restores, and safety-gates the deletion of snapshot
//! directories, and keeps one persisted metadata record per tracked
//! project consistent under a proved encode/decode round trip.

pub mod codec;
pub mod digits;
pub mod names;
pub mod tas;
pub mod text;
pub mod worlds;

use vstd::prelude::*;

verus! {

/// Something that can stand as one labelled line in a choice menu.
pub trait Displayable {
    fn display_string(&self) -> String;
}

impl Displayable for String {
    fn display_string(&self) -> (r: String)
        ensures
            r@ == self@,
    {
        self.clone()
    }
}

} // verus!
