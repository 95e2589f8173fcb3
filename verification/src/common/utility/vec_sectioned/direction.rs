use super::{Operation, OperationSize, TargetPosition};
use std::cmp::Ordering;
use vstd::prelude::*;
use vstd::std_specs::cmp::OrdSpec;

verus! {

/// The direction, in buffer memory, in which a value travels between sections.
#[derive(Clone, Copy, Debug, PartialEq, Eq)]
pub enum Direction {
    /// The destination section is to the left in the buffer memory of the start.
    Left,
    /// The destination section is to the right in the buffer memory of the start.
    Right,
}

impl Direction {
    /// The direction from `start` to `destination`, which must differ.
    pub fn from<K: Ord>(start: &K, destination: &K) -> (d: Self)
        requires
            K::obeys_cmp_spec(),
            destination.cmp_spec(start) != Ordering::Equal,
        ensures
            d == (if destination.cmp_spec(start) == Ordering::Less {
                Direction::Left
            } else {
                Direction::Right
            }),
    {
        match destination.cmp(start) {
            Ordering::Less => Direction::Left,
            Ordering::Greater => Direction::Right,
            Ordering::Equal => Direction::Right,
        }
    }

    /// The direction from index `start` to index `destination`, which must differ.
    pub open spec fn between(start: int, destination: int) -> Self {
        if destination < start {
            Direction::Left
        } else {
            Direction::Right
        }
    }

    /// The bound changes that move the boundary slot of `prev` into `next`,
    /// in the order they are applied, and the slot of `next` that then holds the moved value.
    pub open spec fn spec_operations<K>(self, prev: K, next: K) -> (Seq<(K, Operation)>, TargetPosition) {
        match self {
            Direction::Left => (
                seq![
                    (prev, Operation::ChangeSize(OperationSize::Decrement)),
                    (prev, Operation::Shift(OperationSize::Increment)),
                    (next, Operation::ChangeSize(OperationSize::Increment)),
                ],
                TargetPosition::Last,
            ),
            Direction::Right => (
                seq![
                    (prev, Operation::ChangeSize(OperationSize::Decrement)),
                    (next, Operation::ChangeSize(OperationSize::Increment)),
                    (next, Operation::Shift(OperationSize::Decrement)),
                ],
                TargetPosition::First,
            ),
        }
    }

    pub fn operations<K: Copy>(&self, prev: K, next: K) -> (r: (Vec<(K, Operation)>, TargetPosition))
        ensures
            r.0@ == self.spec_operations(prev, next).0,
            r.1 == self.spec_operations(prev, next).1,
    {
        match self {
            Direction::Left => {
                let ops = vec![
                    // Shrink to the right
                    (prev, Operation::ChangeSize(OperationSize::Decrement)),
                    (prev, Operation::Shift(OperationSize::Increment)),
                    // Expand to the right
                    (next, Operation::ChangeSize(OperationSize::Increment)),
                ];
                proof {
                    assert(ops@ =~= self.spec_operations(prev, next).0);
                }
                // The last item in `next` will be in the `next` section once operations are complete.
                (ops, TargetPosition::Last)
            },
            Direction::Right => {
                let ops = vec![
                    // Shrink to the left
                    (prev, Operation::ChangeSize(OperationSize::Decrement)),
                    // Expand to the left
                    (next, Operation::ChangeSize(OperationSize::Increment)),
                    (next, Operation::Shift(OperationSize::Decrement)),
                ];
                proof {
                    assert(ops@ =~= self.spec_operations(prev, next).0);
                }
                // The first item in `next` will be in the `next` section once operations are complete.
                (ops, TargetPosition::First)
            },
        }
    }

    /// The slot of a section that a travelling value is moved to before crossing into the next section.
    pub open spec fn spec_target_position(self) -> TargetPosition {
        match self {
            Direction::Left => TargetPosition::First,
            Direction::Right => TargetPosition::Last,
        }
    }

    pub fn target_position(&self) -> (r: TargetPosition)
        ensures
            r == self.spec_target_position(),
    {
        match self {
            Direction::Left => TargetPosition::First,
            Direction::Right => TargetPosition::Last,
        }
    }

    /// The index one step from `idx` in this direction.
    pub open spec fn spec_advance(self, idx: int) -> int {
        match self {
            Direction::Left => idx - 1,
            Direction::Right => idx + 1,
        }
    }

    pub fn advance(&self, idx: usize) -> (r: usize)
        requires
            self.spec_advance(idx as int) >= 0,
            self.spec_advance(idx as int) <= usize::MAX,
        ensures
            r == self.spec_advance(idx as int),
    {
        match self {
            Direction::Left => idx - 1,
            Direction::Right => idx + 1,
        }
    }
}

} // verus!
