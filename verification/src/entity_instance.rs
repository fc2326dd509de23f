use vstd::prelude::*;

verus! {

/// The index value that stands for "no instance".
pub const INSTANCE_NONE: usize = usize::MAX;

/// An index into a component system's dense arrays.
///
/// An instance is a transient position, not a stable identity: removing any
/// component of the same kind may move other components, so an instance must
/// never be kept across a mutating call on its system.
#[derive(Clone, Copy, PartialEq, Eq, Structural, Debug)]
pub struct EntityInstance {
    pub index: usize,
}

/// The sentinel instance as a value.
pub open spec fn spec_instance_none() -> EntityInstance {
    EntityInstance { index: INSTANCE_NONE }
}

impl EntityInstance {
    /// Wraps a dense array index.
    pub fn new(index: usize) -> (r: EntityInstance)
        ensures
            r.index == index,
    {
        EntityInstance { index }
    }

    /// The sentinel instance that refers to nothing.
    pub fn none() -> (r: EntityInstance)
        ensures
            r.index == INSTANCE_NONE,
    {
        EntityInstance { index: INSTANCE_NONE }
    }

    /// Whether this instance refers to a slot at all.
    pub fn is_valid(&self) -> (r: bool)
        ensures
            r == (self.index != INSTANCE_NONE),
    {
        self.index != INSTANCE_NONE
    }
}

} // verus!
