//! The three marker components that the start-up logic reads and writes.

use vstd::prelude::*;

verus! {

/// A marker component: it carries no data and only classifies its entity.
#[derive(Clone, Copy, Debug, PartialEq, Eq, Structural)]
pub enum Marker {
    /// The domain marker of the one physics cube.
    Cube,
    /// The sentinel marker: scene setup is complete, the tagging is still due.
    AllReady,
    /// The exclusion marker that the tagging gives to all that is not the cube.
    NotInScene,
}

/// Which of the markers an entity carries.
#[derive(Clone, Copy, Debug, PartialEq, Eq, Structural)]
pub struct Marks {
    pub cube: bool,
    pub all_ready: bool,
    pub not_in_scene: bool,
}

impl Marks {
    pub open spec fn carries(self, marker: Marker) -> bool {
        match marker {
            Marker::Cube => self.cube,
            Marker::AllReady => self.all_ready,
            Marker::NotInScene => self.not_in_scene,
        }
    }

    /// Whether the entity carries `marker`.
    pub fn has(self, marker: Marker) -> (found: bool)
        ensures
            found == self.carries(marker),
    {
        match marker {
            Marker::Cube => self.cube,
            Marker::AllReady => self.all_ready,
            Marker::NotInScene => self.not_in_scene,
        }
    }
}

} // verus!
