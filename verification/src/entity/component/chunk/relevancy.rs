use vstd::prelude::*;

verus! {

/// Component added on the server to indicate what chunks are relevant to a given entity.
/// Chunks which exist inside the radius are replicated, if the entity is also owned by a connection.
#[derive(Clone, Copy, Debug, PartialEq, Eq)]
pub struct Relevancy {
    /// The radius of chunks around the current chunk coordinate.
    radius: u64,
    entity_radius: u64,
}

impl Default for Relevancy {
    fn default() -> (r: Self)
        ensures
            r.spec_radius() == 0,
            r.spec_entity_radius() == 0,
    {
        Relevancy { radius: 0, entity_radius: 0 }
    }
}

impl Relevancy {
    pub closed spec fn spec_radius(&self) -> u64 {
        self.radius
    }

    pub closed spec fn spec_entity_radius(&self) -> u64 {
        self.entity_radius
    }

    pub fn with_radius(self, radius: u64) -> (r: Self)
        ensures
            r.spec_radius() == radius,
            r.spec_entity_radius() == self.spec_entity_radius(),
    {
        let mut s = self;
        s.radius = radius;
        s
    }

    pub fn radius(&self) -> (r: u64)
        ensures
            r == self.spec_radius(),
    {
        self.radius
    }

    pub fn with_entity_radius(self, radius: u64) -> (r: Self)
        ensures
            r.spec_entity_radius() == radius,
            r.spec_radius() == self.spec_radius(),
    {
        let mut s = self;
        s.entity_radius = radius;
        s
    }

    pub fn entity_radius(&self) -> (r: u64)
        ensures
            r == self.spec_entity_radius(),
    {
        self.entity_radius
    }
}

} // verus!
