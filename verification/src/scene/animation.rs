//! Animations, as far as the scene keeps them: each one drives a list of nodes.

use vstd::prelude::*;
use crate::utils::pool::Handle;

verus! {

/// One animated node of an animation.
#[derive(Clone, Copy, Debug)]
pub struct Track {
    pub node: Handle,
}

/// An animation: the tracks that drive nodes of the scene.
pub struct Animation {
    pub tracks: Vec<Track>,
}

impl Animation {
    pub fn new() -> (a: Self)
        ensures
            a.tracks@ == Seq::<Track>::empty(),
    {
        Animation { tracks: Vec::new() }
    }

    pub fn add_track(&mut self, track: Track)
        ensures
            final(self).tracks@ == old(self).tracks@.push(track),
    {
        self.tracks.push(track);
    }
}

}
