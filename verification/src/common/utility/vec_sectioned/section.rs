use super::{Operation, TargetPosition};
use std::ops::Range;
use vstd::prelude::*;

verus! {

/// A contiguous run `[start, end)` of indices into a value buffer.
#[derive(Clone, Copy, Debug, PartialEq, Eq)]
pub struct Section {
    start: usize,
    end: usize,
}

impl Default for Section {
    fn default() -> (s: Self)
        ensures
            s.spec_start() == 0,
            s.spec_end() == 0,
    {
        Section { start: 0, end: 0 }
    }
}

impl Section {
    pub closed spec fn spec_start(&self) -> usize {
        self.start
    }

    pub closed spec fn spec_end(&self) -> usize {
        self.end
    }

    /// Whether the section holds index `p`.
    pub open spec fn holds(&self, p: int) -> bool {
        self.spec_start() <= p < self.spec_end()
    }

    /// Number of indices in the section.
    pub open spec fn spec_count(&self) -> int {
        self.spec_end() - self.spec_start()
    }

    /// Whether `op` can be applied without leaving the bounds that an `i32` can express
    /// and without the end falling below the start.
    pub open spec fn can_apply(&self, op: Operation) -> bool {
        match op {
            Operation::Shift(size) => {
                &&& self.spec_start() <= self.spec_end()
                &&& self.spec_start() <= i32::MAX
                &&& 0 <= self.spec_start() + size.spec_delta() <= i32::MAX
                &&& self.spec_start() + size.spec_delta() + self.spec_count() <= usize::MAX
            },
            Operation::ChangeSize(size) => {
                &&& self.spec_end() <= i32::MAX
                &&& 0 <= self.spec_end() + size.spec_delta() <= i32::MAX
                &&& self.spec_start() <= self.spec_end() + size.spec_delta()
            },
        }
    }

    /// The bounds `(start, end)` after applying `op`.
    pub open spec fn applied(&self, op: Operation) -> (int, int) {
        match op {
            Operation::Shift(size) => (
                self.spec_start() + size.spec_delta(),
                self.spec_end() + size.spec_delta(),
            ),
            Operation::ChangeSize(size) => (self.spec_start() as int, self.spec_end() + size.spec_delta()),
        }
    }

    pub fn from_range(range: Range<usize>) -> (s: Self)
        ensures
            s.spec_start() == range.start,
            s.spec_end() == range.end,
    {
        Section { start: range.start, end: range.end }
    }

    /// The empty section at index 0.
    pub fn empty() -> (s: Self)
        ensures
            s.spec_start() == 0,
            s.spec_end() == 0,
    {
        Section { start: 0, end: 0 }
    }

    pub fn new(start: usize, count: usize) -> (s: Self)
        requires
            start + count <= usize::MAX,
        ensures
            s.spec_start() == start,
            s.spec_end() == start + count,
    {
        Section { start, end: start + count }
    }

    pub fn start(&self) -> (r: usize)
        ensures
            r == self.spec_start(),
    {
        self.start
    }

    pub fn end(&self) -> (r: usize)
        ensures
            r == self.spec_end(),
    {
        self.end
    }

    pub fn count(&self) -> (r: usize)
        requires
            self.spec_start() <= self.spec_end(),
        ensures
            r == self.spec_count(),
    {
        self.end - self.start
    }

    pub fn last(&self) -> (r: usize)
        requires
            self.spec_end() >= 1,
        ensures
            r == self.spec_end() - 1,
    {
        self.end - 1
    }

    pub fn is_empty(&self) -> (r: bool)
        ensures
            r == (self.spec_start() == self.spec_end()),
            r == (self.spec_count() == 0),
    {
        self.end == self.start
    }

    pub fn inner(&self) -> (r: Range<usize>)
        ensures
            r.start == self.spec_start(),
            r.end == self.spec_end(),
    {
        Range { start: self.start, end: self.end }
    }

    pub fn apply(&mut self, operation: Operation)
        requires
            old(self).can_apply(operation),
        ensures
            final(self).spec_start() == old(self).applied(operation).0,
            final(self).spec_end() == old(self).applied(operation).1,
    {
        match operation {
            Operation::Shift(size) => {
                let count = self.count();
                let start = self.start as i32;
                let moved = start + size.delta();
                self.start = moved as usize;
                self.end = self.start + count;
            },
            Operation::ChangeSize(size) => {
                let end = self.end as i32;
                self.end = (end + size.delta()) as usize;
            },
        }
    }

    pub fn index_at_position(&self, pos: TargetPosition) -> (r: usize)
        requires
            pos == TargetPosition::Last ==> self.spec_end() >= 1,
        ensures
            r == (match pos {
                TargetPosition::First => self.spec_start() as int,
                TargetPosition::Last => self.spec_end() - 1,
            }),
    {
        match pos {
            TargetPosition::First => self.start(),
            TargetPosition::Last => self.last(),
        }
    }
}

} // verus!
