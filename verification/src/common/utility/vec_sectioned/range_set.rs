use std::ops::Range;
use vstd::prelude::*;
use vstd::set_lib::*;

verus! {

/// Whether some range in `rs` holds index `i`.
pub open spec fn covers(rs: Seq<Range<usize>>, i: int) -> bool {
    exists|k: int| 0 <= k < rs.len() && #[trigger] rs[k].start <= i < rs[k].end
}

/// The set of indices that the ranges hold.
pub open spec fn covered(rs: Seq<Range<usize>>) -> Set<int> {
    Set::new(|i: int| covers(rs, i))
}

/// Every range is non-empty, and the ranges are sorted and do not overlap.
pub open spec fn ordered(rs: Seq<Range<usize>>) -> bool {
    &&& forall|k: int| 0 <= k < rs.len() ==> #[trigger] rs[k].start < rs[k].end
    &&& forall|j: int, k: int| 0 <= j < k < rs.len() ==> #[trigger] rs[j].end <= #[trigger] rs[k].start
}

/// `ordered`, and no two ranges touch, so no two ranges could be merged:
/// the one representation of a set of indices.
pub open spec fn canonical(rs: Seq<Range<usize>>) -> bool {
    &&& forall|k: int| 0 <= k < rs.len() ==> #[trigger] rs[k].start < rs[k].end
    &&& forall|j: int, k: int| 0 <= j < k < rs.len() ==> #[trigger] rs[j].end < #[trigger] rs[k].start
}

/// The range `a` extended to the end of `b`.
pub open spec fn joined(a: Range<usize>, b: Range<usize>) -> Range<usize> {
    Range { start: a.start, end: b.end }
}

/// `rs` with the range at `i` merged with the one at `i + 1`.
pub open spec fn merge_at(rs: Seq<Range<usize>>, i: int) -> Seq<Range<usize>> {
    rs.update(i, joined(rs[i], rs[i + 1])).remove(i + 1)
}

/// `rs` with the range at `i` merged with the one at `i + 1` where the first starts before the second.
pub open spec fn merge_if_ordered(rs: Seq<Range<usize>>, i: int) -> Seq<Range<usize>> {
    if rs[i].start < rs[i + 1].start {
        merge_at(rs, i)
    } else {
        rs
    }
}

/// The ranges after trying to merge the range at `i` with its neighbours,
/// first with the one before it, then with the one after it.
pub open spec fn merged_around(rs: Seq<Range<usize>>, i: int) -> Seq<Range<usize>> {
    let t1 = 0 < i < rs.len() && touching(rs, i - 1);
    let (rs1, j) = if t1 {
        (merge_if_ordered(rs, i - 1), i - 1)
    } else {
        (rs, i)
    };
    if 0 <= j && j + 1 < rs1.len() && touching(rs1, j) {
        merge_if_ordered(rs1, j)
    } else {
        rs1
    }
}

/// Whether the range at `j` ends where the one at `j + 1` starts.
pub open spec fn touching(rs: Seq<Range<usize>>, j: int) -> bool {
    rs[j].end == rs[j + 1].start
}

/// The indices held by ranges over `usize` are finite.
pub proof fn lemma_covered_finite(rs: Seq<Range<usize>>)
    ensures
        covered(rs).finite(),
{
    lemma_int_range(0, usize::MAX + 1);
    assert(covered(rs).subset_of(set_int_range(0, usize::MAX + 1))) by {
        assert forall|i: int| covered(rs).contains(i) implies set_int_range(0, usize::MAX + 1).contains(i) by {
            let k = choose|k: int| 0 <= k < rs.len() && #[trigger] rs[k].start <= i < rs[k].end;
        }
    }
    lemma_set_subset_finite(set_int_range(0, usize::MAX + 1), covered(rs));
}

/// Ordered ranges of which no neighbours touch are canonical.
pub proof fn lemma_canonical_from_neighbours(rs: Seq<Range<usize>>)
    requires
        ordered(rs),
        forall|j: int| 0 <= j < rs.len() - 1 ==> !#[trigger] touching(rs, j),
    ensures
        canonical(rs),
{
    assert forall|j: int, k: int| 0 <= j < k < rs.len() implies #[trigger] rs[j].end
        < #[trigger] rs[k].start by {
        assert(!touching(rs, j));
        assert(rs[j].end <= rs[j + 1].start);
        if k > j + 1 {
            assert(rs[j + 1].start < rs[j + 1].end);
            assert(rs[j + 1].end <= rs[k].start);
        }
    }
}

/// Merging two touching neighbours keeps the ranges ordered and the indices they hold,
/// and leaves every other pair of neighbours as it was.
pub proof fn lemma_merge_at(rs: Seq<Range<usize>>, i: int)
    requires
        ordered(rs),
        0 <= i < rs.len() - 1,
        touching(rs, i),
    ensures
        merge_if_ordered(rs, i) == merge_at(rs, i),
        ordered(merge_at(rs, i)),
        covered(merge_at(rs, i)) == covered(rs),
        merge_at(rs, i).len() == rs.len() - 1,
        forall|j: int|
            0 <= j < rs.len() - 2 ==> #[trigger] touching(merge_at(rs, i), j) == if j < i {
                touching(rs, j)
            } else {
                touching(rs, j + 1)
            },
{
    let r = merge_at(rs, i);
    assert(rs[i].start < rs[i].end);
    assert forall|j: int| 0 <= j < r.len() implies #[trigger] r[j] == if j < i {
        rs[j]
    } else if j == i {
        joined(rs[i], rs[i + 1])
    } else {
        rs[j + 1]
    } by {}
    assert forall|k: int| 0 <= k < r.len() implies #[trigger] r[k].start < r[k].end by {
        if k == i {
            assert(rs[i + 1].start < rs[i + 1].end);
        } else if k > i {
            assert(rs[k + 1].start < rs[k + 1].end);
        } else {
            assert(rs[k].start < rs[k].end);
        }
    }
    assert forall|j: int, k: int| 0 <= j < k < r.len() implies #[trigger] r[j].end
        <= #[trigger] r[k].start by {
        let oj = if j <= i { j } else { j + 1 };
        let ok = if k < i { k } else { k + 1 };
        if j == i {
            assert(rs[i + 1].end <= rs[ok].start);
        } else if k == i {
            assert(rs[oj].end <= rs[i].start);
        } else {
            assert(rs[oj].end <= rs[ok].start);
        }
    }
    assert forall|x: int| covered(r).contains(x) implies covered(rs).contains(x) by {
        let k = choose|k: int| 0 <= k < r.len() && #[trigger] r[k].start <= x < r[k].end;
        if k == i {
            if x < rs[i].end {
                assert(rs[i].start <= x < rs[i].end);
            } else {
                assert(rs[i + 1].start <= x < rs[i + 1].end);
            }
        } else if k > i {
            assert(rs[k + 1].start <= x < rs[k + 1].end);
        } else {
            assert(rs[k].start <= x < rs[k].end);
        }
    }
    assert forall|x: int| covered(rs).contains(x) implies covered(r).contains(x) by {
        let k = choose|k: int| 0 <= k < rs.len() && #[trigger] rs[k].start <= x < rs[k].end;
        if k == i || k == i + 1 {
            assert(r[i].start <= x < r[i].end);
        } else if k > i + 1 {
            assert(r[k - 1].start <= x < r[k - 1].end);
        } else {
            assert(r[k].start <= x < r[k].end);
        }
    }
    assert(covered(r) =~= covered(rs));
    assert forall|j: int| 0 <= j < rs.len() - 2 implies #[trigger] touching(r, j) == if j < i {
        touching(rs, j)
    } else {
        touching(rs, j + 1)
    } by {}
}

/// Inserting a range that holds only `idx` at its sorted place, then merging it with the
/// neighbours it touches, yields ordered ranges that hold `idx` as well, and keeps them canonical.
pub proof fn lemma_insert_between(rs: Seq<Range<usize>>, idx: usize, k: int)
    requires
        ordered(rs),
        idx < usize::MAX,
        0 <= k <= rs.len(),
        forall|j: int| 0 <= j < k ==> #[trigger] rs[j].end <= idx,
        forall|j: int| k <= j < rs.len() ==> idx < #[trigger] rs[j].start,
    ensures
        ({
            let ins = rs.insert(k, Range { start: idx, end: (idx + 1) as usize });
            let res = merged_around(ins, k);
            &&& ordered(res)
            &&& covered(res) == covered(rs).insert(idx as int)
            &&& canonical(rs) ==> canonical(res)
        }),
{
    let single = Range { start: idx, end: (idx + 1) as usize };
    let ins = rs.insert(k, single);
    assert forall|j: int| 0 <= j < ins.len() implies #[trigger] ins[j] == if j < k {
        rs[j]
    } else if j == k {
        single
    } else {
        rs[j - 1]
    } by {}
    assert(ordered(ins)) by {
        assert forall|q: int| 0 <= q < ins.len() implies #[trigger] ins[q].start < ins[q].end by {
            if q < k {
                assert(rs[q].start < rs[q].end);
            } else if q > k {
                assert(rs[q - 1].start < rs[q - 1].end);
            }
        }
        assert forall|j: int, q: int| 0 <= j < q < ins.len() implies #[trigger] ins[j].end
            <= #[trigger] ins[q].start by {
            if q < k {
                assert(rs[j].end <= rs[q].start);
            } else if q == k {
                assert(rs[j].end <= idx);
            } else if j == k {
                assert(idx < rs[q - 1].start);
            } else if j < k {
                assert(rs[j].end <= rs[q - 1].start);
            } else {
                assert(rs[j - 1].end <= rs[q - 1].start);
            }
        }
    }
    assert(covered(ins) =~= covered(rs).insert(idx as int)) by {
        assert forall|x: int| covered(ins).contains(x) implies covered(rs).insert(idx as int).contains(x) by {
            let q = choose|q: int| 0 <= q < ins.len() && #[trigger] ins[q].start <= x < ins[q].end;
            if q < k {
                assert(rs[q].start <= x < rs[q].end);
            } else if q > k {
                assert(rs[q - 1].start <= x < rs[q - 1].end);
            }
        }
        assert forall|x: int| covered(rs).insert(idx as int).contains(x) implies covered(ins).contains(x) by {
            if x == idx {
                assert(ins[k].start <= x < ins[k].end);
            } else {
                let q = choose|q: int| 0 <= q < rs.len() && #[trigger] rs[q].start <= x < rs[q].end;
                if q < k {
                    assert(ins[q].start <= x < ins[q].end);
                } else {
                    assert(ins[q + 1].start <= x < ins[q + 1].end);
                }
            }
        }
    }
    // Neighbours in `ins` that touch: at most the new range and its two neighbours.
    assert forall|j: int| 0 <= j < ins.len() - 1 && j != k - 1 && j != k implies !#[trigger] touching(ins, j)
        || !canonical(rs) by {
        if canonical(rs) {
            if j < k - 1 {
                assert(rs[j].end < rs[j + 1].start);
            } else {
                assert(rs[j - 1].end < rs[j].start);
            }
        }
    }
    let a = 0 < k < ins.len() && touching(ins, k - 1);
    if a {
        lemma_merge_at(ins, k - 1);
    }
    let (r1, j) = if a {
        (merge_at(ins, k - 1), k - 1)
    } else {
        (ins, k)
    };
    assert(ordered(r1));
    assert(covered(r1) == covered(ins));
    if 0 <= j < r1.len() - 1 && touching(r1, j) {
        lemma_merge_at(r1, j);
        let r2 = merge_at(r1, j);
        if canonical(rs) {
            assert forall|q: int| 0 <= q < r2.len() - 1 implies !#[trigger] touching(r2, q) by {
                if q < j {
                    assert(!touching(r1, q));
                } else {
                    assert(!touching(r1, q + 1));
                }
            }
            lemma_canonical_from_neighbours(r2);
        }
    } else {
        if canonical(rs) {
            assert forall|q: int| 0 <= q < r1.len() - 1 implies !#[trigger] touching(r1, q) by {
                if a {
                    if q >= k - 1 {
                        assert(!touching(ins, q + 1));
                    } else {
                        assert(!touching(ins, q));
                    }
                }
            }
            lemma_canonical_from_neighbours(r1);
        }
    }
}

/// A set of indices has one canonical representation: canonical ranges that hold the same
/// indices are the same ranges.
pub proof fn lemma_canonical_unique(a: Seq<Range<usize>>, b: Seq<Range<usize>>)
    requires
        canonical(a),
        canonical(b),
        covered(a) == covered(b),
    ensures
        a == b,
    decreases a.len(),
{
    if a.len() == 0 || b.len() == 0 {
        if a.len() > 0 {
            assert(covered(a).contains(a[0].start as int));
        }
        if b.len() > 0 {
            assert(covered(b).contains(b[0].start as int));
        }
        assert(a =~= b);
    } else {
        let (a0, b0) = (a[0], b[0]);
        // Both first ranges start at the least index of the set.
        assert(covered(a).contains(a0.start as int));
        assert(covered(b).contains(b0.start as int));
        assert(a0.start == b0.start) by {
            if a0.start < b0.start {
                assert(covered(b).contains(a0.start as int));
                let k = choose|k: int| 0 <= k < b.len() && #[trigger] b[k].start <= a0.start < b[k].end;
                if k > 0 {
                    assert(b[0].end < b[k].start);
                }
            } else if b0.start < a0.start {
                assert(covered(a).contains(b0.start as int));
                let k = choose|k: int| 0 <= k < a.len() && #[trigger] a[k].start <= b0.start < a[k].end;
                if k > 0 {
                    assert(a[0].end < a[k].start);
                }
            }
        }
        // Both first ranges end at the first index past the start that the set lacks.
        assert(a0.end == b0.end) by {
            if a0.end < b0.end {
                assert(covered(b).contains(a0.end as int));
                assert(covered(a).contains(a0.end as int));
                let k = choose|k: int| 0 <= k < a.len() && #[trigger] a[k].start <= a0.end < a[k].end;
                if k > 0 {
                    assert(a[0].end < a[k].start);
                }
            } else if b0.end < a0.end {
                assert(covered(a).contains(b0.end as int));
                assert(covered(b).contains(b0.end as int));
                let k = choose|k: int| 0 <= k < b.len() && #[trigger] b[k].start <= b0.end < b[k].end;
                if k > 0 {
                    assert(b[0].end < b[k].start);
                }
            }
        }
        let (ra, rb) = (a.drop_first(), b.drop_first());
        assert(canonical(ra)) by {
            assert forall|k: int| 0 <= k < ra.len() implies #[trigger] ra[k].start < ra[k].end by {
                assert(ra[k] == a[k + 1]);
            }
            assert forall|j: int, k: int| 0 <= j < k < ra.len() implies #[trigger] ra[j].end < #[trigger] ra[k].start by {
                assert(ra[j] == a[j + 1] && ra[k] == a[k + 1]);
            }
        }
        assert(canonical(rb)) by {
            assert forall|k: int| 0 <= k < rb.len() implies #[trigger] rb[k].start < rb[k].end by {
                assert(rb[k] == b[k + 1]);
            }
            assert forall|j: int, k: int| 0 <= j < k < rb.len() implies #[trigger] rb[j].end < #[trigger] rb[k].start by {
                assert(rb[j] == b[j + 1] && rb[k] == b[k + 1]);
            }
        }
        // The rest holds the indices of the set past the first range.
        assert forall|i: int| #[trigger] covered(ra).contains(i) <==> (covered(a).contains(i) && i >= a0.end) by {
            if covered(ra).contains(i) {
                let k = choose|k: int| 0 <= k < ra.len() && #[trigger] ra[k].start <= i < ra[k].end;
                assert(ra[k] == a[k + 1]);
                assert(a[0].end < a[k + 1].start);
            }
            if covered(a).contains(i) && i >= a0.end {
                let k = choose|k: int| 0 <= k < a.len() && #[trigger] a[k].start <= i < a[k].end;
                assert(k > 0);
                assert(ra[k - 1] == a[k]);
            }
        }
        assert forall|i: int| #[trigger] covered(rb).contains(i) <==> (covered(b).contains(i) && i >= b0.end) by {
            if covered(rb).contains(i) {
                let k = choose|k: int| 0 <= k < rb.len() && #[trigger] rb[k].start <= i < rb[k].end;
                assert(rb[k] == b[k + 1]);
                assert(b[0].end < b[k + 1].start);
            }
            if covered(b).contains(i) && i >= b0.end {
                let k = choose|k: int| 0 <= k < b.len() && #[trigger] b[k].start <= i < b[k].end;
                assert(k > 0);
                assert(rb[k - 1] == b[k]);
            }
        }
        assert(covered(ra) =~= covered(rb)) by {
            assert forall|i: int| covered(ra).contains(i) <==> covered(rb).contains(i) by {
                assert(covered(ra).contains(i) <==> (covered(a).contains(i) && i >= a0.end));
                assert(covered(rb).contains(i) <==> (covered(b).contains(i) && i >= b0.end));
            }
        }
        lemma_canonical_unique(ra, rb);
        assert(a0 == b0);
        assert(a =~= b) by {
            assert forall|k: int| 0 <= k < a.len() implies a[k] == b[k] by {
                if k > 0 {
                    assert(a[k] == ra[k - 1] && b[k] == rb[k - 1]);
                }
            }
        }
    }
}

/// An ordered set of ranges.
/// Used to keep track of what indices have changed in a vec, without keeping every index on its own.
#[derive(Debug, PartialEq, Eq)]
pub struct RangeSet {
    ranges: Vec<Range<usize>>,
    total_size: usize,
}

impl Default for RangeSet {
    fn default() -> (r: Self)
        ensures
            r.spec_ranges() == Seq::<Range<usize>>::empty(),
            r.spec_total_size() == 0,
            r.wf(),
    {
        RangeSet::new()
    }
}

impl Clone for RangeSet {
    fn clone(&self) -> (r: Self)
        ensures
            r.spec_ranges() == self.spec_ranges(),
            r.spec_total_size() == self.spec_total_size(),
    {
        let mut ranges: Vec<Range<usize>> = Vec::with_capacity(self.ranges.len());
        let mut i: usize = 0;
        while i < self.ranges.len()
            invariant
                i <= self.ranges.len(),
                ranges@ == self.ranges@.take(i as int),
            decreases self.ranges.len() - i,
        {
            let range = &self.ranges[i];
            ranges.push(Range { start: range.start, end: range.end });
            i = i + 1;
            assert(ranges@ =~= self.ranges@.take(i as int));
        }
        assert(ranges@ =~= self.ranges@);
        RangeSet { ranges, total_size: self.total_size }
    }
}

impl View for RangeSet {
    type V = Set<int>;

    /// The indices in the set.
    open spec fn view(&self) -> Set<int> {
        covered(self.spec_ranges())
    }
}

impl RangeSet {
    pub closed spec fn spec_ranges(&self) -> Seq<Range<usize>> {
        self.ranges@
    }

    pub closed spec fn spec_total_size(&self) -> usize {
        self.total_size
    }

    /// The ranges are ordered and `total_size` counts the indices they hold.
    pub open spec fn wf(&self) -> bool {
        &&& ordered(self.spec_ranges())
        &&& self.spec_total_size() == self@.len()
    }

    /// A set made of the given ranges and size, as they are.
    pub fn from_parts(ranges: Vec<Range<usize>>, total_size: usize) -> (r: Self)
        ensures
            r.spec_ranges() == ranges@,
            r.spec_total_size() == total_size,
    {
        RangeSet { ranges, total_size }
    }

    /// The empty set.
    pub fn new() -> (r: Self)
        ensures
            r.spec_ranges() == Seq::<Range<usize>>::empty(),
            r.spec_total_size() == 0,
            r.wf(),
            r@ == Set::<int>::empty(),
    {
        let r = RangeSet { ranges: Vec::new(), total_size: 0 };
        assert(r@ =~= Set::<int>::empty());
        r
    }

    /// Adds `idx` to the set.
    pub fn insert(&mut self, idx: usize)
        requires
            old(self).wf(),
            idx < usize::MAX,
        ensures
            final(self).wf(),
            final(self)@ == old(self)@.insert(idx as int),
            canonical(old(self).spec_ranges()) ==> canonical(final(self).spec_ranges()),
            old(self)@.contains(idx as int) ==> final(self).spec_ranges() == old(self).spec_ranges(),
    {
        let possible_range_idx = match self.get_uninserted_range_idx(idx) {
            Some(i) => i,
            None => {
                assert(self@ =~= old(self)@.insert(idx as int));
                return ;
            },
        };
        proof {
            lemma_insert_between(self.spec_ranges(), idx, possible_range_idx as int);
            lemma_covered_finite(self.spec_ranges());
            // Every index held lies below `usize::MAX`, and `idx` is one more such index.
            let all = set_int_range(0, usize::MAX as int);
            assert(self@.insert(idx as int).subset_of(all)) by {
                assert forall|i: int| #[trigger] self@.insert(idx as int).contains(i) implies all.contains(i) by {
                    if i != idx {
                        let k = choose|k: int| 0 <= k < self.spec_ranges().len() && #[trigger] self.spec_ranges()[k].start <= i
                            < self.spec_ranges()[k].end;
                    }
                }
            }
            lemma_int_range(0, usize::MAX as int);
            lemma_len_subset(self@.insert(idx as int), all);
        }
        self.append_at(idx, possible_range_idx);
        self.merge_ranges_around(possible_range_idx);
    }

    /// `None` where the set holds `idx_to_insert`; otherwise the position at which a range
    /// holding only that index keeps the ranges sorted.
    pub fn get_uninserted_range_idx(&self, idx_to_insert: usize) -> (r: Option<usize>)
        requires
            ordered(self.spec_ranges()),
        ensures
            r is None <==> self@.contains(idx_to_insert as int),
            r matches Some(k) ==> {
                &&& k <= self.spec_ranges().len()
                &&& forall|j: int| 0 <= j < k ==> #[trigger] self.spec_ranges()[j].end <= idx_to_insert
                &&& forall|j: int|
                    k <= j < self.spec_ranges().len() ==> idx_to_insert
                        < #[trigger] self.spec_ranges()[j].start
            },
    {
        let mut lo: usize = 0;
        let mut hi: usize = self.ranges.len();
        while lo < hi
            invariant
                ordered(self.ranges@),
                0 <= lo <= hi <= self.ranges.len(),
                forall|j: int| 0 <= j < lo ==> #[trigger] self.ranges@[j].end <= idx_to_insert,
                forall|j: int| hi <= j < self.ranges@.len() ==> idx_to_insert < #[trigger] self.ranges@[j].start,
            decreases hi - lo,
        {
            let mid = lo + (hi - lo) / 2;
            let range = &self.ranges[mid];
            if range.end <= idx_to_insert {
                proof {
                    assert forall|j: int| 0 <= j < mid + 1 implies #[trigger] self.ranges@[j].end
                        <= idx_to_insert by {
                        if j < mid {
                            assert(self.ranges@[j].end <= self.ranges@[mid as int].start);
                        }
                    }
                }
                lo = mid + 1;
            } else if idx_to_insert < range.start {
                proof {
                    assert forall|j: int| mid <= j < self.ranges@.len() implies idx_to_insert
                        < #[trigger] self.ranges@[j].start by {
                        if j > mid {
                            assert(self.ranges@[mid as int].end <= self.ranges@[j].start);
                        }
                    }
                }
                hi = mid;
            } else {
                assert(self.ranges@[mid as int].start <= idx_to_insert < self.ranges@[mid as int].end);
                return None;
            }
        }
        assert(!self@.contains(idx_to_insert as int)) by {
            if covers(self.ranges@, idx_to_insert as int) {
                let k = choose|k: int|
                    0 <= k < self.ranges@.len() && #[trigger] self.ranges@[k].start <= idx_to_insert
                        < self.ranges@[k].end;
                if k < lo {
                } else {
                }
            }
        }
        Some(lo)
    }

    /// Puts a range holding only `idx_to_insert` at position `range_idx` and counts it.
    pub fn append_at(&mut self, idx_to_insert: usize, range_idx: usize)
        requires
            range_idx <= old(self).spec_ranges().len(),
            idx_to_insert < usize::MAX,
            old(self).spec_total_size() < usize::MAX,
        ensures
            final(self).spec_ranges() == old(self).spec_ranges().insert(
                range_idx as int,
                Range { start: idx_to_insert, end: (idx_to_insert + 1) as usize },
            ),
            final(self).spec_total_size() == old(self).spec_total_size() + 1,
    {
        // The index is new, so the total count increments
        self.total_size = self.total_size + 1;
        // Insert the new range, maintaining sort order
        self.ranges.insert(range_idx, Range { start: idx_to_insert, end: idx_to_insert + 1 });
    }

    pub fn is_empty(&self) -> (r: bool)
        ensures
            r == (self.spec_ranges().len() == 0),
            ordered(self.spec_ranges()) ==> (r <==> self@ == Set::<int>::empty()),
    {
        proof {
            if self.ranges@.len() == 0 {
                assert(self@ =~= Set::<int>::empty());
            } else if ordered(self.ranges@) {
                assert(self@.contains(self.ranges@[0].start as int));
            }
        }
        self.ranges.len() == 0
    }

    /// Hands out the ranges and their total size, and leaves the set empty.
    pub fn take(&mut self) -> (r: (Vec<Range<usize>>, usize))
        ensures
            r.0@ == old(self).spec_ranges(),
            r.1 == old(self).spec_total_size(),
            final(self).spec_ranges() == Seq::<Range<usize>>::empty(),
            final(self).spec_total_size() == 0,
    {
        let mut ranges = Vec::new();
        std::mem::swap(&mut ranges, &mut self.ranges);
        let total_size = self.total_size;
        self.total_size = 0;
        (ranges, total_size)
    }

    /// Attempts to merge the range at `range_idx` with the one immediately preceding and succeeding it.
    pub fn merge_ranges_around(&mut self, range_idx: usize)
        requires
            range_idx < old(self).spec_ranges().len(),
        ensures
            final(self).spec_ranges() == merged_around(old(self).spec_ranges(), range_idx as int),
            final(self).spec_total_size() == old(self).spec_total_size(),
    {
        let mut range_idx = range_idx;
        // Try merge `range_idx - 1` into `range_idx`.
        if range_idx > 0 && self.can_merge(range_idx - 1, range_idx) {
            self.merge(range_idx - 1, range_idx);
            // If we merged, then the item at `range_idx` is now a part of `range_idx - 1`.
            range_idx = range_idx - 1;
        }
        assert(range_idx < self.ranges.len());
        // Try merge `range_idx` into `range_idx + 1`.
        if range_idx + 1 < self.ranges.len() && self.can_merge(range_idx, range_idx + 1) {
            self.merge(range_idx, range_idx + 1);
        }
    }

    /// Whether both ranges exist and the first ends where the second starts.
    pub fn can_merge(&self, r1_idx: usize, r2_idx: usize) -> (r: bool)
        ensures
            r == (r1_idx < self.spec_ranges().len() && r2_idx < self.spec_ranges().len()
                && self.spec_ranges()[r1_idx as int].end == self.spec_ranges()[r2_idx as int].start),
    {
        if r1_idx < self.ranges.len() && r2_idx < self.ranges.len() {
            // The ranges are consecutive if the end of the first (exclusive)
            // is equal to the start of the second (inclusive).
            self.ranges[r1_idx].end == self.ranges[r2_idx].start
        } else {
            false
        }
    }

    /// Whether the range at `r1_idx` starts before the one at `r2_idx` and ends where it starts.
    pub open spec fn mergeable(&self, r1_idx: int, r2_idx: int) -> bool {
        let rs = self.spec_ranges();
        rs[r1_idx].start < rs[r2_idx].start && rs[r1_idx].end == rs[r2_idx].start
    }

    /// Where the range at `r1_idx` starts before the one at `r2_idx` and ends where it starts:
    /// removes the range at `r2_idx`, then extends the range now at `r1_idx` to its end.
    /// Otherwise does nothing.
    pub fn merge(&mut self, r1_idx: usize, r2_idx: usize)
        requires
            r1_idx < old(self).spec_ranges().len(),
            r2_idx < old(self).spec_ranges().len(),
            old(self).mergeable(r1_idx as int, r2_idx as int) && r2_idx < r1_idx ==> r1_idx + 1 < old(
                self,
            ).spec_ranges().len(),
        ensures
            final(self).spec_total_size() == old(self).spec_total_size(),
            ({
                let rs = old(self).spec_ranges();
                let rest = rs.remove(r2_idx as int);
                final(self).spec_ranges() == if old(self).mergeable(r1_idx as int, r2_idx as int) {
                    rest.update(r1_idx as int, Range { start: rest[r1_idx as int].start, end: rs[r2_idx as int].end })
                } else {
                    rs
                }
            }),
            r1_idx < r2_idx && old(self).mergeable(r1_idx as int, r2_idx as int) ==> final(self).spec_ranges()
                == old(self).spec_ranges().update(
                r1_idx as int,
                joined(old(self).spec_ranges()[r1_idx as int], old(self).spec_ranges()[r2_idx as int]),
            ).remove(r2_idx as int),
    {
        let is_correct_order = self.ranges[r1_idx].start < self.ranges[r2_idx].start;
        let is_contiguous = self.ranges[r1_idx].end == self.ranges[r2_idx].start;
        if !is_correct_order || !is_contiguous {
            return ;
        }
        let r2 = self.ranges.remove(r2_idx);
        let start = self.ranges[r1_idx].start;
        self.ranges.set(r1_idx, Range { start, end: r2.end });
        proof {
            if r1_idx < r2_idx {
                assert(self.ranges@ =~= old(self).ranges@.update(
                    r1_idx as int,
                    joined(old(self).ranges@[r1_idx as int], old(self).ranges@[r2_idx as int]),
                ).remove(r2_idx as int));
            }
        }
    }
}

} // verus!
