//! Read-only location info for one stored object.

use vstd::prelude::*;

verus! {

/// Where one stored object physically resides: whether a loose copy exists,
/// and which packs it appears in (by each pack's own checksum, rendered as
/// hex). Purely informational; carries no ownership.
pub struct ObjectDetails {
    loose: bool,
    object_appearances: Vec<String>,
}

impl ObjectDetails {
    /// Whether a loose copy of the object exists.
    pub closed spec fn spec_loose(&self) -> bool {
        self.loose
    }

    /// The pack checksums the object appears in, as hex strings.
    pub closed spec fn spec_appearances(&self) -> Seq<String> {
        self.object_appearances@
    }

    /// Bundle location info for one object.
    pub fn new(loose: bool, object_appearances: Vec<String>) -> (r: ObjectDetails)
        ensures
            r.spec_loose() == loose,
            r.spec_appearances() == object_appearances@,
    {
        ObjectDetails { loose, object_appearances }
    }

    /// Whether the object is available loose.
    pub fn is_loose(&self) -> (r: bool)
        ensures
            r == self.spec_loose(),
    {
        self.loose
    }

    /// The pack checksums in which the object appears.
    pub fn appearances(&self) -> (r: &Vec<String>)
        ensures
            r@ == self.spec_appearances(),
    {
        &self.object_appearances
    }
}

} // verus!
