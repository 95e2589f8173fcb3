use vstd::prelude::*;

verus! {

/// Indicates that an entity is controlled by a given account/user, identified by `Id`.
#[derive(Clone, Copy, Debug, PartialEq, Eq)]
pub struct User<Id> {
    account_id: Id,
}

impl<Id> User<Id> {
    pub closed spec fn spec_id(&self) -> Id {
        self.account_id
    }

    pub fn new(id: Id) -> (r: Self)
        ensures
            r.spec_id() == id,
    {
        User { account_id: id }
    }

    pub fn id(&self) -> (r: &Id)
        ensures
            *r == self.spec_id(),
    {
        &self.account_id
    }
}

} // verus!
