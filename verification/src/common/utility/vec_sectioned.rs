use vstd::prelude::*;

pub mod direction;
pub mod ordered_hash_map;
pub mod range_set;
pub mod section;
pub mod vec;

verus! {

/// The amount by which an [`Operation`] changes a section bound.
#[derive(Clone, Copy, Debug, PartialEq, Eq)]
pub enum OperationSize {
    Increment,
    Decrement,
}

impl OperationSize {
    /// The signed amount of the change.
    pub open spec fn spec_delta(self) -> int {
        match self {
            OperationSize::Increment => 1,
            OperationSize::Decrement => -1,
        }
    }

    pub fn delta(&self) -> (d: i32)
        ensures
            d == self.spec_delta(),
    {
        match self {
            OperationSize::Increment => 1,
            OperationSize::Decrement => -1,
        }
    }
}

/// A change to the bounds of a section.
#[derive(Clone, Copy, Debug, PartialEq, Eq)]
pub enum Operation {
    /// Adjusts the start index of the section by some amount.
    /// Does not change the size of the section.
    Shift(OperationSize),
    /// Changes the amount of indices in the section by moving its end bound.
    ChangeSize(OperationSize),
}

/// Which slot of a section an operation refers to.
#[derive(Clone, Copy, Debug, PartialEq, Eq)]
pub enum TargetPosition {
    First,
    Last,
}

} // verus!
