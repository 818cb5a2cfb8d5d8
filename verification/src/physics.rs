//! The registry of rigid bodies that scene nodes can be attached to.

use vstd::prelude::*;
use crate::math::Vec3;
use crate::utils::pool::{Handle, Pool};

verus! {

/// A rigid body, known to the scene by its position.
#[derive(Clone, Copy, Debug)]
pub struct RigidBody {
    pub position: Vec3,
}

impl RigidBody {
    /// A body with the same position.
    pub fn make_copy(&self) -> (b: RigidBody)
        ensures
            b == *self,
    {
        RigidBody { position: self.position }
    }
}

/// All rigid bodies of a scene.
pub struct Physics {
    bodies: Pool<RigidBody>,
}

impl Physics {
    pub closed spec fn spec_bodies(&self) -> Pool<RigidBody> {
        self.bodies
    }

    pub closed spec fn wf(&self) -> bool {
        self.bodies.wf()
    }

    pub fn new() -> (p: Self)
        ensures
            p.wf(),
            p.spec_bodies()@ == Seq::<crate::utils::pool::PoolRecord<RigidBody>>::empty(),
    {
        Physics { bodies: Pool::new() }
    }

    /// Registers a body and returns its handle.
    pub fn add_body(&mut self, body: RigidBody) -> (h: Handle)
        requires
            old(self).wf(),
            old(self).spec_bodies()@.len() < u32::MAX,
        ensures
            final(self).wf(),
            !old(self).spec_bodies().live(h),
            final(self).spec_bodies().live(h),
            final(self).spec_bodies()@.len() <= old(self).spec_bodies()@.len() + 1,
            final(self).spec_bodies().get(h) == body,
            forall|g: Handle|
                g != h ==> (#[trigger] final(self).spec_bodies().live(g) == old(self).spec_bodies().live(g)
                    && (old(self).spec_bodies().live(g) ==> final(self).spec_bodies().get(g)
                    == old(self).spec_bodies().get(g))),
    {
        proof {
            self.bodies.lemma_generations_positive();
        }
        self.bodies.spawn(body)
    }

    /// Removes the body that `h` names, if it is registered.
    pub fn remove_body(&mut self, h: Handle)
        requires
            old(self).wf(),
        ensures
            final(self).wf(),
            !final(self).spec_bodies().live(h),
            forall|g: Handle|
                g != h ==> (#[trigger] final(self).spec_bodies().live(g) == old(self).spec_bodies().live(g)
                    && (old(self).spec_bodies().live(g) ==> final(self).spec_bodies().get(g)
                    == old(self).spec_bodies().get(g))),
    {
        self.bodies.free(h);
    }

    /// The body that `h` names, if it is registered.
    pub fn borrow_body(&self, h: Handle) -> (r: Option<&RigidBody>)
        ensures
            r is Some <==> self.spec_bodies().live(h),
            r matches Some(b) ==> *b == self.spec_bodies().get(h),
    {
        self.bodies.borrow(h)
    }
}

}
