//! Resources loaded from files, such as textures, shared between their users.

use vstd::prelude::*;

verus! {

/// A loaded resource, known by the path it was loaded from.
pub struct Resource {
    pub path: String,
}

impl Resource {
    pub fn new(path: String) -> (r: Self)
        ensures
            r.path@ == path@,
    {
        Resource { path }
    }
}

}
