use vstd::prelude::*;

verus! {

/// Indicates that an entity is controlled by a given account/user, identified by `Id`.
/// Used with the network owner to determine if the entity is
/// controlled by the local player and what account it is that controls it.
#[derive(Clone, Copy, Debug, PartialEq, Eq)]
pub struct OwnedByAccount<Id> {
    account_id: Id,
}

impl<Id> OwnedByAccount<Id> {
    pub closed spec fn spec_id(&self) -> Id {
        self.account_id
    }

    pub fn new(id: Id) -> (r: Self)
        ensures
            r.spec_id() == id,
    {
        OwnedByAccount { account_id: id }
    }

    pub fn id(&self) -> (r: &Id)
        ensures
            *r == self.spec_id(),
    {
        &self.account_id
    }
}

} // verus!
