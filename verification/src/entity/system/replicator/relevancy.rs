use crate::common::world::point::Point3;
use vstd::prelude::*;

verus! {

/// A cell of the world grid, as a triple of coordinates.
pub type Cell = (int, int, int);

/// A cuboid of cells, from an inclusive minimum corner to an exclusive maximum corner.
#[derive(Clone, Copy, Debug, PartialEq, Eq, Hash, Structural)]
pub struct AxisAlignedBoundingBox {
    /// Inclusive minima of each axis
    pub min: Point3<i64>,
    /// Exclusive maxima of each axis
    pub max: Point3<i64>,
}

impl AxisAlignedBoundingBox {
    /// Whether the cuboid holds cell `p`.
    pub open spec fn holds(&self, p: Cell) -> bool {
        &&& self.min.x <= p.0 < self.max.x
        &&& self.min.y <= p.1 < self.max.y
        &&& self.min.z <= p.2 < self.max.z
    }

    /// The cells of the cuboid.
    pub open spec fn cells(&self) -> Set<Cell> {
        Set::new(|p: Cell| self.holds(p))
    }

    /// Whether the bounds of the cuboid lie within those of `outer`.
    pub open spec fn within(&self, outer: &Self) -> bool {
        &&& outer.min.x <= self.min.x && self.max.x <= outer.max.x
        &&& outer.min.y <= self.min.y && self.max.y <= outer.max.y
        &&& outer.min.z <= self.min.z && self.max.z <= outer.max.z
    }

    /// Whether the cuboid is a single corner point, with its minimum equal to its maximum.
    pub open spec fn is_point(&self) -> bool {
        self.min == self.max
    }

    /// Whether `q` lies strictly between the minimum and the maximum on each axis.
    pub open spec fn strictly_holds(&self, q: Point3<i64>) -> bool {
        &&& self.min.x < q.x < self.max.x
        &&& self.min.y < q.y < self.max.y
        &&& self.min.z < q.z < self.max.z
    }

    /// What each cuboid met while taking cuboids away from `boxes` is: one of `boxes` that is a
    /// single point, or a solid cuboid within a solid one of `boxes`.
    pub open spec fn shaped(c: Self, boxes: Set<Self>) -> bool {
        ||| c.is_point() && boxes.contains(c)
        ||| c.is_solid() && exists|s: Self| #[trigger] boxes.contains(s) && s.is_solid() && c.within(&s)
    }

    /// Whether taking `o` away from the cuboids of `boxes` is safe: `o` is solid, or a point that
    /// lies strictly inside none of `boxes`.
    pub open spec fn point_free(boxes: Set<Self>, o: Self) -> bool {
        &&& o.is_solid() || o.is_point()
        &&& o.is_point() ==> forall|s: Self| #[trigger] boxes.contains(s) ==> !s.strictly_holds(o.min)
    }

    /// The cells held by any of the cuboids of `cs`.
    pub open spec fn seq_cells(cs: Seq<Self>) -> Set<Cell> {
        Set::new(|p: Cell| exists|m: int| 0 <= m < cs.len() && #[trigger] cs[m].holds(p))
    }

    /// Whether the cuboid holds a cell on every axis, i.e. holds any cell at all.
    pub open spec fn is_solid(&self) -> bool {
        &&& self.min.x < self.max.x
        &&& self.min.y < self.max.y
        &&& self.min.z < self.max.z
    }

    pub open spec fn spec_intersects(&self, other: &Self) -> bool {
        &&& self.min.x < other.max.x && other.min.x < self.max.x
        &&& self.min.y < other.max.y && other.min.y < self.max.y
        &&& self.min.z < other.max.z && other.min.z < self.max.z
    }

    /// The cuboid between the larger minima and the smaller maxima of two cuboids.
    pub open spec fn spec_overlap(&self, other: &Self) -> Self {
        AxisAlignedBoundingBox { min: self.min.spec_sup(other.min), max: self.max.spec_inf(other.max) }
    }

    pub fn new(min: Point3<i64>, max: Point3<i64>) -> (r: Self)
        ensures
            r.min == min,
            r.max == max,
    {
        AxisAlignedBoundingBox { min, max }
    }

    /// AABBxAABB intersection test.
    pub fn intersects(&self, other: &Self) -> (r: bool)
        ensures
            r == self.spec_intersects(other),
    {
        let x = self.min.x < other.max.x && other.min.x < self.max.x;
        let y = self.min.y < other.max.y && other.min.y < self.max.y;
        let z = self.min.z < other.max.z && other.min.z < self.max.z;
        x && y && z
    }

    /// The cuboid both cuboids share, where they intersect.
    pub fn overlap(&self, other: &Self) -> (r: Option<Self>)
        ensures
            r == if self.spec_intersects(other) {
                Some(self.spec_overlap(other))
            } else {
                None
            },
    {
        if !self.intersects(other) {
            return None;
        }
        // the component-wise maximum of the two minima
        let min = self.min.sup(&other.min);
        // the component-wise minimum of the two maxima
        let max = self.max.inf(&other.max);
        Some(AxisAlignedBoundingBox { min, max })
    }

    /// Two solid cuboids intersect exactly where they share a cell, and their overlap holds
    /// exactly the cells they share.
    pub proof fn lemma_overlap_cells(&self, other: &Self)
        requires
            self.is_solid(),
            other.is_solid(),
        ensures
            self.spec_intersects(other) <==> !self.cells().intersect(other.cells()).is_empty(),
            self.spec_overlap(other).cells() == self.cells().intersect(other.cells()),
    {
        let o = self.spec_overlap(other);
        assert(o.cells() =~= self.cells().intersect(other.cells()));
        if self.spec_intersects(other) {
            assert(self.cells().intersect(other.cells()).contains(o.min.triple()));
        } else {
            assert(self.cells().intersect(other.cells()) =~= Set::<Cell>::empty());
        }
    }
    /// The cuboid of the grid that `bounds` spans at indices `(ix, iy, iz)`: on each axis,
    /// from the bound at the index to the next one.
    pub open spec fn grid_cell(bounds: Seq<Point3<i64>>, ix: int, iy: int, iz: int) -> Self {
        AxisAlignedBoundingBox {
            min: Point3 { x: bounds[ix].x, y: bounds[iy].y, z: bounds[iz].z },
            max: Point3 { x: bounds[ix + 1].x, y: bounds[iy + 1].y, z: bounds[iz + 1].z },
        }
    }

    /// Whether `(ix, iy, iz)` indexes a cuboid of the grid whose bounds differ on each axis.
    pub open spec fn grid_index(bounds: Seq<Point3<i64>>, ix: int, iy: int, iz: int) -> bool {
        &&& 0 <= ix < bounds.len() - 1 && bounds[ix].x != bounds[ix + 1].x
        &&& 0 <= iy < bounds.len() - 1 && bounds[iy].y != bounds[iy + 1].y
        &&& 0 <= iz < bounds.len() - 1 && bounds[iz].z != bounds[iz + 1].z
    }

    /// The cuboids of the grid that `bounds` spans, leaving out those with equal bounds on an axis.
    pub open spec fn grid(bounds: Seq<Point3<i64>>) -> Set<Self> {
        Set::new(
            |b: Self|
                exists|ix: int, iy: int, iz: int| #[trigger]
                    Self::grid_index(bounds, ix, iy, iz) && b == Self::grid_cell(bounds, ix, iy, iz),
        )
    }

    /// The cuboids of the grid visited before `(nx, ny, nz)`, going through `y`, then `z`, then `x`.
    pub open spec fn grid_before(bounds: Seq<Point3<i64>>, nx: int, ny: int, nz: int) -> Set<Self> {
        Set::new(
            |b: Self|
                exists|ix: int, iy: int, iz: int| #[trigger]
                    Self::grid_index(bounds, ix, iy, iz) && b == Self::grid_cell(bounds, ix, iy, iz) && (iy < ny
                        || (iy == ny && (iz < nz || (iz == nz && ix < nx)))),
        )
    }

    /// The bounds, as points.
    pub open spec fn bound_points(bounds: Seq<&Point3<i64>>) -> Seq<Point3<i64>> {
        bounds.map_values(|p: &Point3<i64>| *p)
    }

    /// Appends `b` to `v` unless `v` holds it already.
    fn push_new(v: &mut Vec<Self>, b: Self)
        ensures
            final(v)@.to_set() == old(v)@.to_set().insert(b),
            old(v)@.no_duplicates() ==> final(v)@.no_duplicates(),
    {
        let mut i: usize = 0;
        while i < v.len()
            invariant
                i <= v@.len(),
                forall|j: int| 0 <= j < i ==> v@[j] != b,
            decreases v@.len() - i,
        {
            if v[i] == b {
                proof {
                    assert(v@.to_set() =~= v@.to_set().insert(b));
                }
                return;
            }
            i = i + 1;
        }
        let ghost before = v@;
        v.push(b);
        proof {
            assert(v@.to_set() =~= before.to_set().insert(b)) by {
                assert forall|x: Self| v@.to_set().contains(x) implies before.to_set().insert(b).contains(x) by {
                    let j = choose|j: int| 0 <= j < v@.len() && v@[j] == x;
                    if j < before.len() {
                        assert(before[j] == x);
                    }
                }
                assert forall|x: Self| before.to_set().insert(b).contains(x) implies v@.to_set().contains(x) by {
                    if x == b {
                        assert(v@[before.len() as int] == b);
                    } else {
                        let j = choose|j: int| 0 <= j < before.len() && before[j] == x;
                        assert(v@[j] == x);
                    }
                }
            }
        }
    }

    /// Splits the space spanned by `bounds` along each of them into a grid of cuboids, leaving
    /// out those with equal bounds on an axis.
    #[verifier::spinoff_prover]
    pub fn subdivide(bounds: Vec<&Point3<i64>>) -> (r: Vec<Self>)
        requires
            bounds@.len() >= 1,
        ensures
            r@.to_set() == Self::grid(Self::bound_points(bounds@)),
            r@.no_duplicates(),
    {
        let ghost bs = Self::bound_points(bounds@);
        let row_len = bounds.len() - 1;
        let mut cuboids: Vec<Self> = Vec::new();
        for i_y in 0..row_len
            invariant
                bs == Self::bound_points(bounds@),
                row_len == bounds@.len() - 1,
                cuboids@.no_duplicates(),
                cuboids@.to_set() == Self::grid_before(bs, 0, i_y as int, 0),
        {
            if bounds[i_y].y == bounds[i_y + 1].y {
                proof {
                    assert(Self::grid_before(bs, 0, i_y + 1, 0) =~= Self::grid_before(bs, 0, i_y as int, 0)) by {
                        assert forall|b: Self| Self::grid_before(bs, 0, i_y + 1, 0).contains(b) implies Self::grid_before(bs, 0, i_y as int, 0).contains(b) by {
                            let (ix, iy, iz) = choose|ix: int, iy: int, iz: int| #[trigger]
                                Self::grid_index(bs, ix, iy, iz) && b == Self::grid_cell(bs, ix, iy, iz) && (iy < i_y + 1
                                    || (iy == i_y + 1 && (iz < 0 || (iz == 0 && ix < 0))));
                            assert(iy != i_y);
                        }
                    }
                }
            } else {
                for i_z in 0..row_len
                    invariant
                        bs == Self::bound_points(bounds@),
                        row_len == bounds@.len() - 1,
                        i_y < row_len,
                        bs[i_y as int].y != bs[i_y + 1].y,
                        cuboids@.no_duplicates(),
                        cuboids@.to_set() == Self::grid_before(bs, 0, i_y as int, i_z as int),
                {
                    if bounds[i_z].z == bounds[i_z + 1].z {
                        proof {
                            assert(Self::grid_before(bs, 0, i_y as int, i_z + 1) =~= Self::grid_before(bs, 0, i_y as int, i_z as int)) by {
                                assert forall|b: Self| Self::grid_before(bs, 0, i_y as int, i_z + 1).contains(b) implies Self::grid_before(bs, 0, i_y as int, i_z as int).contains(b) by {
                                    let (ix, iy, iz) = choose|ix: int, iy: int, iz: int| #[trigger]
                                        Self::grid_index(bs, ix, iy, iz) && b == Self::grid_cell(bs, ix, iy, iz) && (iy < i_y
                                            || (iy == i_y && (iz < i_z + 1 || (iz == i_z + 1 && ix < 0))));
                                    assert(iy != i_y || iz != i_z);
                                }
                            }
                        }
                    } else {
                        for i_x in 0..row_len
                            invariant
                                bs == Self::bound_points(bounds@),
                                row_len == bounds@.len() - 1,
                                i_y < row_len,
                                i_z < row_len,
                                bs[i_y as int].y != bs[i_y + 1].y,
                                bs[i_z as int].z != bs[i_z + 1].z,
                                cuboids@.no_duplicates(),
                                cuboids@.to_set() == Self::grid_before(bs, i_x as int, i_y as int, i_z as int),
                        {
                            if bounds[i_x].x == bounds[i_x + 1].x {
                                proof {
                                    assert(Self::grid_before(bs, i_x + 1, i_y as int, i_z as int) =~= Self::grid_before(bs, i_x as int, i_y as int, i_z as int)) by {
                                        assert forall|b: Self| Self::grid_before(bs, i_x + 1, i_y as int, i_z as int).contains(b) implies Self::grid_before(bs, i_x as int, i_y as int, i_z as int).contains(b) by {
                                            let (ix, iy, iz) = choose|ix: int, iy: int, iz: int| #[trigger]
                                                Self::grid_index(bs, ix, iy, iz) && b == Self::grid_cell(bs, ix, iy, iz) && (iy < i_y
                                                    || (iy == i_y && (iz < i_z || (iz == i_z && ix < i_x + 1))));
                                            assert(iy != i_y || iz != i_z || ix != i_x);
                                        }
                                    }
                                }
                            } else {
                                let cell = AxisAlignedBoundingBox {
                                    min: Point3::new(bounds[i_x].x, bounds[i_y].y, bounds[i_z].z),
                                    max: Point3::new(bounds[i_x + 1].x, bounds[i_y + 1].y, bounds[i_z + 1].z),
                                };
                                proof {
                                    assert(cell == Self::grid_cell(bs, i_x as int, i_y as int, i_z as int));
                                    assert(Self::grid_index(bs, i_x as int, i_y as int, i_z as int));
                            }
                            Self::push_new(&mut cuboids, cell);
                            proof {
                                assert(Self::grid_before(bs, i_x + 1, i_y as int, i_z as int) =~= Self::grid_before(bs, i_x as int, i_y as int, i_z as int).insert(cell)) by {
                                    assert forall|b: Self| Self::grid_before(bs, i_x + 1, i_y as int, i_z as int).contains(b) implies Self::grid_before(bs, i_x as int, i_y as int, i_z as int).insert(cell).contains(b) by {
                                        let (ix, iy, iz) = choose|ix: int, iy: int, iz: int| #[trigger]
                                            Self::grid_index(bs, ix, iy, iz) && b == Self::grid_cell(bs, ix, iy, iz) && (iy < i_y
                                                || (iy == i_y && (iz < i_z || (iz == i_z && ix < i_x + 1))));
                                        if !(iy == i_y && iz == i_z && ix == i_x) {
                                            assert(Self::grid_before(bs, i_x as int, i_y as int, i_z as int).contains(b));
                                        }
                                    }
                                    assert forall|b: Self| Self::grid_before(bs, i_x as int, i_y as int, i_z as int).insert(cell).contains(b) implies Self::grid_before(bs, i_x + 1, i_y as int, i_z as int).contains(b) by {
                                        if b == cell {
                                            assert(Self::grid_index(bs, i_x as int, i_y as int, i_z as int) && b == Self::grid_cell(bs, i_x as int, i_y as int, i_z as int));
                                        } else {
                                            let (ix, iy, iz) = choose|ix: int, iy: int, iz: int| #[trigger]
                                                Self::grid_index(bs, ix, iy, iz) && b == Self::grid_cell(bs, ix, iy, iz) && (iy < i_y
                                                    || (iy == i_y && (iz < i_z || (iz == i_z && ix < i_x))));
                                            assert(Self::grid_index(bs, ix, iy, iz) && b == Self::grid_cell(bs, ix, iy, iz));
                                        }
                                    }
                                }
                            }
                            }
                    }
                    proof {
                        assert(Self::grid_before(bs, row_len as int, i_y as int, i_z as int) =~= Self::grid_before(bs, 0, i_y as int, i_z + 1)) by {
                            assert forall|b: Self| Self::grid_before(bs, 0, i_y as int, i_z + 1).contains(b) implies Self::grid_before(bs, row_len as int, i_y as int, i_z as int).contains(b) by {
                                let (ix, iy, iz) = choose|ix: int, iy: int, iz: int| #[trigger]
                                    Self::grid_index(bs, ix, iy, iz) && b == Self::grid_cell(bs, ix, iy, iz) && (iy < i_y
                                        || (iy == i_y && (iz < i_z + 1 || (iz == i_z + 1 && ix < 0))));
                                assert(Self::grid_index(bs, ix, iy, iz) && b == Self::grid_cell(bs, ix, iy, iz));
                            }
                            assert forall|b: Self| Self::grid_before(bs, row_len as int, i_y as int, i_z as int).contains(b) implies Self::grid_before(bs, 0, i_y as int, i_z + 1).contains(b) by {
                                let (ix, iy, iz) = choose|ix: int, iy: int, iz: int| #[trigger]
                                    Self::grid_index(bs, ix, iy, iz) && b == Self::grid_cell(bs, ix, iy, iz) && (iy < i_y
                                        || (iy == i_y && (iz < i_z || (iz == i_z && ix < row_len))));
                                assert(Self::grid_index(bs, ix, iy, iz) && b == Self::grid_cell(bs, ix, iy, iz));
                            }
                        }
                    }
                    }
            }
            proof {
                assert(Self::grid_before(bs, 0, i_y as int, row_len as int) =~= Self::grid_before(bs, 0, i_y + 1, 0)) by {
                    assert forall|b: Self| Self::grid_before(bs, 0, i_y + 1, 0).contains(b) implies Self::grid_before(bs, 0, i_y as int, row_len as int).contains(b) by {
                        let (ix, iy, iz) = choose|ix: int, iy: int, iz: int| #[trigger]
                            Self::grid_index(bs, ix, iy, iz) && b == Self::grid_cell(bs, ix, iy, iz) && (iy < i_y + 1
                                || (iy == i_y + 1 && (iz < 0 || (iz == 0 && ix < 0))));
                        assert(Self::grid_index(bs, ix, iy, iz) && b == Self::grid_cell(bs, ix, iy, iz));
                    }
                    assert forall|b: Self| Self::grid_before(bs, 0, i_y as int, row_len as int).contains(b) implies Self::grid_before(bs, 0, i_y + 1, 0).contains(b) by {
                        let (ix, iy, iz) = choose|ix: int, iy: int, iz: int| #[trigger]
                            Self::grid_index(bs, ix, iy, iz) && b == Self::grid_cell(bs, ix, iy, iz) && (iy < i_y
                                || (iy == i_y && (iz < row_len || (iz == row_len && ix < 0))));
                        assert(Self::grid_index(bs, ix, iy, iz) && b == Self::grid_cell(bs, ix, iy, iz));
                    }
                }
            }
            }
        }
        proof {
            assert(Self::grid_before(bs, 0, row_len as int, 0) =~= Self::grid(bs)) by {
                assert forall|b: Self| Self::grid(bs).contains(b) implies Self::grid_before(bs, 0, row_len as int, 0).contains(b) by {
                    let (ix, iy, iz) = choose|ix: int, iy: int, iz: int| #[trigger]
                        Self::grid_index(bs, ix, iy, iz) && b == Self::grid_cell(bs, ix, iy, iz);
                    assert(Self::grid_index(bs, ix, iy, iz) && b == Self::grid_cell(bs, ix, iy, iz));
                }
                assert forall|b: Self| Self::grid_before(bs, 0, row_len as int, 0).contains(b) implies Self::grid(bs).contains(b) by {
                    let (ix, iy, iz) = choose|ix: int, iy: int, iz: int| #[trigger]
                        Self::grid_index(bs, ix, iy, iz) && b == Self::grid_cell(bs, ix, iy, iz) && (iy < row_len
                            || (iy == row_len && (iz < 0 || (iz == 0 && ix < 0))));
                    assert(Self::grid_index(bs, ix, iy, iz) && b == Self::grid_cell(bs, ix, iy, iz));
                }
            }
        }
        cuboids
    }
    /// Removes `b` from `v`, which holds no value twice; returns whether it was there.
    fn remove_box(v: &mut Vec<Self>, b: &Self) -> (r: bool)
        requires
            old(v)@.no_duplicates(),
        ensures
            r == old(v)@.contains(*b),
            final(v)@.to_set() == old(v)@.to_set().remove(*b),
            final(v)@.no_duplicates(),
    {
        let mut i: usize = 0;
        while i < v.len()
            invariant
                i <= v@.len(),
                v@ == old(v)@,
                v@.no_duplicates(),
                forall|j: int| 0 <= j < i ==> v@[j] != *b,
            decreases v@.len() - i,
        {
            if v[i] == *b {
                let ghost before = v@;
                v.remove(i);
                proof {
                    assert(before[i as int] == *b);
                    assert(v@ =~= before.remove(i as int));
                    assert(v@.to_set() =~= before.to_set().remove(*b)) by {
                        assert forall|x: Self| v@.to_set().contains(x) implies before.to_set().remove(*b).contains(x) by {
                            let j = choose|j: int| 0 <= j < v@.len() && v@[j] == x;
                            if j < i {
                                assert(before[j] == x);
                                assert(j != i);
                            } else {
                                assert(before[j + 1] == x);
                            }
                        }
                        assert forall|x: Self| before.to_set().remove(*b).contains(x) implies v@.to_set().contains(x) by {
                            let j = choose|j: int| 0 <= j < before.len() && before[j] == x;
                            if j < i {
                                assert(v@[j] == x);
                            } else {
                                assert(j != i);
                                assert(v@[j - 1] == x);
                            }
                        }
                    }
                    assert(v@.no_duplicates()) by {
                        assert forall|a: int, c: int| 0 <= a < c < v@.len() implies v@[a] != v@[c] by {
                            let a2 = if a < i { a } else { a + 1 };
                            let c2 = if c < i { c } else { c + 1 };
                            assert(v@[a] == before[a2] && v@[c] == before[c2]);
                        }
                    }
                    assert(before.contains(*b));
                }
                return true;
            }
            i = i + 1;
        }
        proof {
            assert(v@.to_set() =~= v@.to_set().remove(*b));
        }
        false
    }

    /// The bounds along which `difference` splits `self`: its minimum, the minimum and the maximum
    /// of the overlap with `other` (within `self`), and its maximum.
    pub open spec fn difference_bounds(&self, other: &Self) -> Seq<Point3<i64>> {
        let overlap = self.spec_overlap(other);
        seq![self.min, self.min.spec_sup(overlap.min), self.max.spec_inf(overlap.max), self.max]
    }

    /// Whether the overlap with `other` covers `self` entirely, bound for bound.
    pub open spec fn is_covered_by(&self, other: &Self) -> bool {
        let overlap = self.spec_overlap(other);
        &&& self.spec_intersects(other)
        &&& self.min.spec_sup(overlap.min) == self.min
        &&& self.max.spec_inf(overlap.max) == self.max
    }

    /// The cuboids that `difference` splits `self` into by `other`: `self` where they do not
    /// intersect, none where the overlap covers `self`, else the cuboids of the split but the overlap.
    pub open spec fn difference_parts(&self, other: &Self) -> Set<Self> {
        if !self.spec_intersects(other) {
            set![*self]
        } else if self.is_covered_by(other) {
            Set::empty()
        } else {
            Self::grid(self.difference_bounds(other)).remove(self.spec_overlap(other))
        }
    }

    /// Whether `difference` can split `self` by `other`: they do not intersect, or the overlap covers
    /// `self`, or the overlap is one of the cuboids of the split.
    pub open spec fn difference_defined(&self, other: &Self) -> bool {
        ||| !self.spec_intersects(other)
        ||| self.is_covered_by(other)
        ||| Self::grid(self.difference_bounds(other)).contains(self.spec_overlap(other))
    }

    /// Performs an overlap test and returns cuboids covering the area of `self` without the overlap.
    /// If the provided cuboid does not intersect with `self`, `self` itself is returned.
    /// If the overlap covers `self`, `None` is returned.
    pub fn difference(&self, other: &Self) -> (r: Option<Vec<Self>>)
        requires
            self.difference_defined(other),
        ensures
            r is None <==> self.is_covered_by(other),
            !self.spec_intersects(other) ==> (r matches Some(v) && v@ == seq![*self]),
            r matches Some(v) ==> v@.no_duplicates() && v@.to_set() == self.difference_parts(other),
    {
        let overlap = match self.overlap(other) {
            Some(overlap) => overlap,
            None => {
                let r = vec![*self];
                proof {
                    assert(r@.to_set() =~= set![*self]) by {
                        assert(r@[0] == *self);
                    }
                }
                return Some(r);
            },
        };
        // This is basically Binary-Space-Partitioning (BSP) but just for cuboids.
        // The goal here is to split the cuboid `self` based on the bounds of `overlap`,
        // and only return the cuboids that are not equal to `overlap`.
        let lower_mid = self.min.sup(&overlap.min);
        let upper_mid = self.max.inf(&overlap.max);
        if lower_mid == self.min && upper_mid == self.max {
            return None;
        }
        let bounds = vec![&self.min, &lower_mid, &upper_mid, &self.max];
        proof {
            assert(Self::bound_points(bounds@) =~= self.difference_bounds(other));
        }
        let mut cuboids = Self::subdivide(bounds);
        proof {
            assert(cuboids@.to_set().contains(overlap));
        }
        let removed = Self::remove_box(&mut cuboids, &overlap);
        proof {
            assert(removed);
        }
        Some(cuboids)
    }
    /// The cells held by any of `boxes`.
    pub open spec fn union_cells(boxes: Set<Self>) -> Set<Cell> {
        Set::new(|p: Cell| exists|b: Self| #[trigger] boxes.contains(b) && b.holds(p))
    }

    /// Whether the bounds of each axis are in order.
    pub open spec fn monotone(bs: Seq<Point3<i64>>) -> bool {
        &&& forall|i: int, j: int| 0 <= i <= j < bs.len() ==> #[trigger] bs[i].x <= #[trigger] bs[j].x
        &&& forall|i: int, j: int| 0 <= i <= j < bs.len() ==> #[trigger] bs[i].y <= #[trigger] bs[j].y
        &&& forall|i: int, j: int| 0 <= i <= j < bs.len() ==> #[trigger] bs[i].z <= #[trigger] bs[j].z
    }

    /// The index of the interval between consecutive `bounds` that holds `v`.
    pub open spec fn slot(v: int, b1: int, b2: int) -> int {
        if v < b1 {
            0
        } else if v < b2 {
            1
        } else {
            2
        }
    }

    /// A grid spanned by four ordered bounds holds exactly the cells between the outer two,
    /// each in just one of its cuboids.
    pub proof fn lemma_grid_partition(bs: Seq<Point3<i64>>)
        requires
            bs.len() == 4,
            Self::monotone(bs),
        ensures
            Self::union_cells(Self::grid(bs)) == (AxisAlignedBoundingBox { min: bs[0], max: bs[3] }).cells(),
            forall|b1: Self, b2: Self|
                #![trigger Self::grid(bs).contains(b1), Self::grid(bs).contains(b2)]
                Self::grid(bs).contains(b1) && Self::grid(bs).contains(b2) && b1 != b2 ==> b1.cells().disjoint(
                    b2.cells(),
                ),
    {
        let whole = AxisAlignedBoundingBox { min: bs[0], max: bs[3] };
        let g = Self::grid(bs);
        assert forall|p: Cell| whole.holds(p) implies #[trigger] Self::union_cells(g).contains(p) by {
            let ix = Self::slot(p.0, bs[1].x as int, bs[2].x as int);
            let iy = Self::slot(p.1, bs[1].y as int, bs[2].y as int);
            let iz = Self::slot(p.2, bs[1].z as int, bs[2].z as int);
            assert(bs[0].x <= bs[1].x && bs[1].x <= bs[2].x && bs[2].x <= bs[3].x);
            assert(bs[0].y <= bs[1].y && bs[1].y <= bs[2].y && bs[2].y <= bs[3].y);
            assert(bs[0].z <= bs[1].z && bs[1].z <= bs[2].z && bs[2].z <= bs[3].z);
            let b = Self::grid_cell(bs, ix, iy, iz);
            assert(Self::grid_index(bs, ix, iy, iz));
            assert(g.contains(b));
            assert(b.holds(p));
        }
        assert forall|p: Cell| #[trigger] Self::union_cells(g).contains(p) implies whole.holds(p) by {
            let b = choose|b: Self| #[trigger] g.contains(b) && b.holds(p);
            let (ix, iy, iz) = choose|ix: int, iy: int, iz: int| #[trigger]
                Self::grid_index(bs, ix, iy, iz) && b == Self::grid_cell(bs, ix, iy, iz);
            assert(bs[0].x <= bs[ix].x && bs[ix + 1].x <= bs[3].x);
            assert(bs[0].y <= bs[iy].y && bs[iy + 1].y <= bs[3].y);
            assert(bs[0].z <= bs[iz].z && bs[iz + 1].z <= bs[3].z);
        }
        assert(Self::union_cells(g) =~= whole.cells());
        assert forall|b1: Self, b2: Self|
            #![trigger Self::grid(bs).contains(b1), Self::grid(bs).contains(b2)]
            Self::grid(bs).contains(b1) && Self::grid(bs).contains(b2) && b1 != b2 implies b1.cells().disjoint(
                b2.cells(),
            ) by {
            let (ix1, iy1, iz1) = choose|ix: int, iy: int, iz: int| #[trigger]
                Self::grid_index(bs, ix, iy, iz) && b1 == Self::grid_cell(bs, ix, iy, iz);
            let (ix2, iy2, iz2) = choose|ix: int, iy: int, iz: int| #[trigger]
                Self::grid_index(bs, ix, iy, iz) && b2 == Self::grid_cell(bs, ix, iy, iz);
            assert forall|p: Cell| !(b1.cells().contains(p) && b2.cells().contains(p)) by {
                if b1.holds(p) && b2.holds(p) {
                    if ix1 < ix2 {
                        assert(bs[ix1 + 1].x <= bs[ix2].x);
                    } else if ix2 < ix1 {
                        assert(bs[ix2 + 1].x <= bs[ix1].x);
                    } else if iy1 < iy2 {
                        assert(bs[iy1 + 1].y <= bs[iy2].y);
                    } else if iy2 < iy1 {
                        assert(bs[iy2 + 1].y <= bs[iy1].y);
                    } else if iz1 < iz2 {
                        assert(bs[iz1 + 1].z <= bs[iz2].z);
                    } else if iz2 < iz1 {
                        assert(bs[iz2 + 1].z <= bs[iz1].z);
                    }
                }
            }
        }
    }
    /// Splitting a solid cuboid by another solid cuboid: `difference` is defined, the overlap
    /// covers `self` exactly where `other` holds all its cells, and the cuboids of the split are
    /// solid and hold, each cell in just one of them, the cells of `self` that `other` does not hold.
    #[verifier::spinoff_prover]
    pub proof fn lemma_difference_cells(&self, other: &Self)
        requires
            self.is_solid(),
            other.is_solid(),
        ensures
            self.difference_defined(other),
            self.is_covered_by(other) <==> self.cells().subset_of(other.cells()),
            Self::union_cells(self.difference_parts(other)) == self.cells().difference(other.cells()),
            forall|b: Self| #[trigger] self.difference_parts(other).contains(b) ==> b.is_solid() && b.within(self),
            forall|b1: Self, b2: Self|
                #![trigger self.difference_parts(other).contains(b1), self.difference_parts(other).contains(b2)]
                self.difference_parts(other).contains(b1) && self.difference_parts(other).contains(b2) && b1 != b2
                    ==> b1.cells().disjoint(b2.cells()),
    {
        let a = *self;
        let o = *other;
        let ov = a.spec_overlap(other);
        let parts = a.difference_parts(other);
        a.lemma_overlap_cells(other);
        // Covered exactly where `other` holds every cell of `self`.
        if a.cells().subset_of(o.cells()) {
            assert(a.cells().contains(a.min.triple()));
            assert(o.cells().contains(a.min.triple()));
            let top = (a.max.x - 1, a.max.y - 1, a.max.z - 1);
            assert(a.cells().contains(top));
            assert(o.cells().contains(top));
        }
        if a.is_covered_by(other) {
            assert(ov.cells() =~= a.cells());
        }
        if !a.spec_intersects(other) {
            assert(a.cells().intersect(o.cells()) =~= Set::<Cell>::empty());
            assert(Self::union_cells(parts) =~= a.cells().difference(o.cells())) by {
                assert forall|p: Cell| #[trigger] Self::union_cells(parts).contains(p) implies a.cells().difference(o.cells()).contains(p) by {
                    let b = choose|b: Self| #[trigger] parts.contains(b) && b.holds(p);
                    assert(b == a);
                    assert(!a.cells().intersect(o.cells()).contains(p));
                }
                assert forall|p: Cell| a.cells().difference(o.cells()).contains(p) implies #[trigger] Self::union_cells(parts).contains(p) by {
                    assert(parts.contains(a));
                }
            }
        } else if a.is_covered_by(other) {
            assert(Self::union_cells(parts) =~= a.cells().difference(o.cells()));
        } else {
            let bs = a.difference_bounds(other);
            assert(bs[1] == ov.min && bs[2] == ov.max);
            assert(Self::monotone(bs));
            Self::lemma_grid_partition(bs);
            let g = Self::grid(bs);
            assert(Self::grid_index(bs, 1, 1, 1));
            assert(Self::grid_cell(bs, 1, 1, 1) == ov);
            assert(g.contains(ov));
            assert(Self::union_cells(parts) =~= a.cells().difference(o.cells())) by {
                assert forall|p: Cell| #[trigger] Self::union_cells(parts).contains(p) implies a.cells().difference(o.cells()).contains(p) by {
                    let b = choose|b: Self| #[trigger] parts.contains(b) && b.holds(p);
                    assert(g.contains(b) && g.contains(ov) && b != ov);
                    assert(b.cells().disjoint(ov.cells()));
                    assert(b.cells().contains(p));
                    assert(Self::union_cells(g).contains(p));
                    assert((AxisAlignedBoundingBox { min: bs[0], max: bs[3] }).cells().contains(p));
                }
                assert forall|p: Cell| a.cells().difference(o.cells()).contains(p) implies #[trigger] Self::union_cells(parts).contains(p) by {
                    assert((AxisAlignedBoundingBox { min: bs[0], max: bs[3] }).cells().contains(p));
                    assert(Self::union_cells(g).contains(p));
                    let b = choose|b: Self| #[trigger] g.contains(b) && b.holds(p);
                    assert(!ov.holds(p));
                    assert(parts.contains(b));
                }
            }
            assert forall|b: Self| #[trigger] parts.contains(b) implies b.is_solid() && b.within(self) by {
                let (ix, iy, iz) = choose|ix: int, iy: int, iz: int| #[trigger]
                    Self::grid_index(bs, ix, iy, iz) && b == Self::grid_cell(bs, ix, iy, iz);
                assert(bs[ix].x <= bs[ix + 1].x && bs[0].x <= bs[ix].x && bs[ix + 1].x <= bs[3].x);
                assert(bs[iy].y <= bs[iy + 1].y && bs[0].y <= bs[iy].y && bs[iy + 1].y <= bs[3].y);
                assert(bs[iz].z <= bs[iz + 1].z && bs[0].z <= bs[iz].z && bs[iz + 1].z <= bs[3].z);
            }
        }
    }

    /// The cells of the cuboids of a set taken together are those of the cuboids of each part.
    pub proof fn lemma_union_cells_union(a: Set<Self>, b: Set<Self>)
        ensures
            Self::union_cells(a.union(b)) == Self::union_cells(a).union(Self::union_cells(b)),
    {
        assert forall|p: Cell| #[trigger] Self::union_cells(a.union(b)).contains(p) implies Self::union_cells(a).union(
            Self::union_cells(b),
        ).contains(p) by {
            let c = choose|c: Self| #[trigger] a.union(b).contains(c) && c.holds(p);
            if a.contains(c) {
                assert(Self::union_cells(a).contains(p));
            } else {
                assert(Self::union_cells(b).contains(p));
            }
        }
        assert forall|p: Cell| Self::union_cells(a).union(Self::union_cells(b)).contains(p) implies #[trigger] Self::union_cells(
            a.union(b),
        ).contains(p) by {
            if Self::union_cells(a).contains(p) {
                let c = choose|c: Self| #[trigger] a.contains(c) && c.holds(p);
                assert(a.union(b).contains(c));
            } else {
                let c = choose|c: Self| #[trigger] b.contains(c) && c.holds(p);
                assert(a.union(b).contains(c));
            }
        }
        assert(Self::union_cells(a.union(b)) =~= Self::union_cells(a).union(Self::union_cells(b)));
    }

    /// The cells of the cuboids of a sequence are those of the cuboids of its set.
    pub proof fn lemma_seq_cells(cs: Seq<Self>)
        ensures
            Self::union_cells(cs.to_set()) == Self::seq_cells(cs),
    {
        assert forall|p: Cell| #[trigger] Self::union_cells(cs.to_set()).contains(p) implies Self::seq_cells(cs).contains(p) by {
            let c = choose|c: Self| #[trigger] cs.to_set().contains(c) && c.holds(p);
            let m = choose|m: int| 0 <= m < cs.len() && cs[m] == c;
            assert(cs[m].holds(p));
        }
        assert forall|p: Cell| Self::seq_cells(cs).contains(p) implies #[trigger] Self::union_cells(cs.to_set()).contains(p) by {
            let m = choose|m: int| 0 <= m < cs.len() && #[trigger] cs[m].holds(p);
            assert(cs.to_set().contains(cs[m]));
        }
        assert(Self::union_cells(cs.to_set()) =~= Self::seq_cells(cs));
    }

    /// The cells of the first `i + 1` cuboids are those of the first `i` and those of the one at `i`.
    pub proof fn lemma_seq_cells_step(cs: Seq<Self>, i: int)
        requires
            0 <= i < cs.len(),
        ensures
            Self::seq_cells(cs.take(i + 1)) == Self::seq_cells(cs.take(i)).union(cs[i].cells()),
    {
        assert forall|p: Cell| #[trigger] Self::seq_cells(cs.take(i + 1)).contains(p) implies Self::seq_cells(cs.take(i)).union(
            cs[i].cells(),
        ).contains(p) by {
            let m = choose|m: int| 0 <= m < cs.take(i + 1).len() && #[trigger] cs.take(i + 1)[m].holds(p);
            if m < i {
                assert(cs.take(i)[m].holds(p));
            }
        }
        assert forall|p: Cell| Self::seq_cells(cs.take(i)).union(cs[i].cells()).contains(p) implies #[trigger] Self::seq_cells(
            cs.take(i + 1),
        ).contains(p) by {
            if Self::seq_cells(cs.take(i)).contains(p) {
                let m = choose|m: int| 0 <= m < cs.take(i).len() && #[trigger] cs.take(i)[m].holds(p);
                assert(cs.take(i + 1)[m].holds(p));
            } else {
                assert(cs.take(i + 1)[i].holds(p));
            }
        }
        assert(Self::seq_cells(cs.take(i + 1)) =~= Self::seq_cells(cs.take(i)).union(cs[i].cells()));
    }

    /// The points of the cuboid visited before `(x, y, z)`, going through `y`, then `z`, then `x`.
    pub open spec fn points_before(&self, x: int, y: int, z: int) -> Set<Point3<i64>> {
        Set::new(
            |q: Point3<i64>|
                self.holds(q.triple()) && (q.y < y || (q.y == y && (q.z < z || (q.z == z && q.x < x)))),
        )
    }

    /// The points of the cuboid, each once.
    #[verifier::spinoff_prover]
    pub fn points(&self) -> (r: Vec<Point3<i64>>)
        ensures
            r@.to_set() == Set::new(|q: Point3<i64>| self.holds(q.triple())),
            r@.no_duplicates(),
    {
        let mut coords: Vec<Point3<i64>> = Vec::new();
        if !(self.min.x < self.max.x && self.min.z < self.max.z) {
            proof {
                assert(coords@.to_set() =~= Set::new(|q: Point3<i64>| self.holds(q.triple())));
            }
            return coords;
        }
        let mut y = self.min.y;
        while y < self.max.y
            invariant
                self.min.x < self.max.x,
                self.min.z < self.max.z,
                self.min.y <= y <= (if self.min.y <= self.max.y { self.max.y } else { self.min.y }),
                coords@.no_duplicates(),
                coords@.to_set() == self.points_before(self.min.x as int, y as int, self.min.z as int),
            decreases self.max.y - y,
        {
            let mut z = self.min.z;
            while z < self.max.z
                invariant
                    self.min.x < self.max.x,
                    self.min.z <= z <= self.max.z,
                    self.min.y <= y < self.max.y,
                    coords@.no_duplicates(),
                    coords@.to_set() == self.points_before(self.min.x as int, y as int, z as int),
                decreases self.max.z - z,
            {
                let mut x = self.min.x;
                while x < self.max.x
                    invariant
                        self.min.x <= x <= self.max.x,
                        self.min.z <= z < self.max.z,
                        self.min.y <= y < self.max.y,
                        coords@.no_duplicates(),
                        coords@.to_set() == self.points_before(x as int, y as int, z as int),
                    decreases self.max.x - x,
                {
                    let q = Point3::new(x, y, z);
                    let ghost before = coords@;
                    proof {
                        assert(!before.to_set().contains(q));
                    }
                    coords.push(q);
                    proof {
                        before.lemma_push_to_set_commute(q);
                        assert(coords@ =~= before.push(q));
                        assert(coords@.to_set() =~= self.points_before(x + 1, y as int, z as int));
                        assert(coords@.no_duplicates()) by {
                            assert forall|a: int, b: int| 0 <= a < b < coords@.len() implies coords@[a] != coords@[b] by {
                                if b == before.len() {
                                    assert(before.to_set().contains(before[a]));
                                } else {
                                    assert(coords@[a] == before[a] && coords@[b] == before[b]);
                                }
                            }
                        }
                    }
                    x = x + 1;
                }
                proof {
                    assert(self.points_before(self.max.x as int, y as int, z as int) =~= self.points_before(self.min.x as int, y as int, z + 1));
                }
                z = z + 1;
            }
            proof {
                assert(self.points_before(self.min.x as int, y as int, self.max.z as int) =~= self.points_before(self.min.x as int, y + 1, self.min.z as int));
            }
            y = y + 1;
        }
        proof {
            assert(coords@.to_set() =~= Set::new(|q: Point3<i64>| self.holds(q.triple())));
        }
        coords
    }

    /// Taking `o` away from a shaped cuboid `c`: the split is defined, holds the cells of `c`
    /// that `o` does not hold, and gives shaped cuboids.
    pub proof fn lemma_split_shaped(c: Self, o: Self, boxes: Set<Self>)
        requires
            Self::shaped(c, boxes),
            Self::point_free(boxes, o),
        ensures
            c.difference_defined(&o),
            Self::union_cells(c.difference_parts(&o)) == c.cells().difference(o.cells()),
            forall|b: Self| #[trigger] c.difference_parts(&o).contains(b) ==> Self::shaped(b, boxes),
    {
        let parts = c.difference_parts(&o);
        if c.is_solid() {
            let s = choose|s: Self| #[trigger] boxes.contains(s) && s.is_solid() && c.within(&s);
            if o.is_solid() {
                c.lemma_difference_cells(&o);
                assert forall|b: Self| #[trigger] parts.contains(b) implies Self::shaped(b, boxes) by {
                    assert(b.within(&c));
                    assert(b.within(&s));
                }
            } else {
                assert(!s.strictly_holds(o.min));
                assert(!c.spec_intersects(&o));
                assert(o.cells() =~= Set::<Cell>::empty());
                assert(Self::union_cells(parts) =~= c.cells().difference(o.cells())) by {
                    assert forall|p: Cell| c.cells().contains(p) implies #[trigger] Self::union_cells(parts).contains(p) by {
                        assert(parts.contains(c));
                    }
                }
            }
        } else {
            assert(c.cells() =~= Set::<Cell>::empty());
            if c.spec_intersects(&o) {
                assert(c.is_covered_by(&o));
                assert(parts =~= Set::<Self>::empty());
            }
            assert(Self::union_cells(parts) =~= c.cells().difference(o.cells()));
        }
    }
}

/// A cube of chunks around a center chunk, within a radius along each axis.
#[derive(Clone, Copy, Debug, PartialEq, Eq, Structural)]
pub struct Area(Point3<i64>, u64);

impl Area {
    pub closed spec fn spec_center(&self) -> Point3<i64> {
        self.0
    }

    pub closed spec fn spec_radius(&self) -> u64 {
        self.1
    }

    /// Whether chunk `c` lies within the radius of the center along each axis.
    pub open spec fn holds(&self, c: Point3<i64>) -> bool {
        &&& -(self.spec_radius() as int) <= c.x - self.spec_center().x <= self.spec_radius()
        &&& -(self.spec_radius() as int) <= c.y - self.spec_center().y <= self.spec_radius()
        &&& -(self.spec_radius() as int) <= c.z - self.spec_center().z <= self.spec_radius()
    }

    /// Whether testing chunk `c` stays within `i64` bounds: the offset of `c` from the center
    /// fits an `i64` on each axis, and so does the absolute value of each axis that is compared
    /// with the radius, the axes being compared in order until one lies beyond the radius.
    pub open spec fn offset_fits(&self, c: Point3<i64>) -> bool {
        let r = self.spec_radius() as int;
        let dx = c.x - self.spec_center().x;
        let dy = c.y - self.spec_center().y;
        let dz = c.z - self.spec_center().z;
        &&& i64::MIN <= dx <= i64::MAX
        &&& i64::MIN <= dy <= i64::MAX
        &&& i64::MIN <= dz <= i64::MAX
        &&& dx != i64::MIN
        &&& -r <= dx <= r ==> dy != i64::MIN
        &&& -r <= dx <= r && -r <= dy <= r ==> dz != i64::MIN
    }

    /// Whether the cuboid of the area, the center plus or minus the radius on each axis, fits `i64` bounds.
    pub open spec fn cuboid_fits(&self) -> bool {
        let r = self.spec_radius() as int;
        &&& r <= i64::MAX
        &&& i64::MIN <= self.spec_center().x - r && self.spec_center().x + r <= i64::MAX
        &&& i64::MIN <= self.spec_center().y - r && self.spec_center().y + r <= i64::MAX
        &&& i64::MIN <= self.spec_center().z - r && self.spec_center().z + r <= i64::MAX
    }

    /// The cuboid from the center minus the radius (included) to the center plus the radius (excluded).
    pub open spec fn spec_cuboid(&self) -> AxisAlignedBoundingBox {
        let r = self.spec_radius() as int;
        AxisAlignedBoundingBox {
            min: Point3 {
                x: (self.spec_center().x - r) as i64,
                y: (self.spec_center().y - r) as i64,
                z: (self.spec_center().z - r) as i64,
            },
            max: Point3 {
                x: (self.spec_center().x + r) as i64,
                y: (self.spec_center().y + r) as i64,
                z: (self.spec_center().z + r) as i64,
            },
        }
    }

    pub fn new(point: Point3<i64>, radius: u64) -> (r: Self)
        ensures
            r.spec_center() == point,
            r.spec_radius() == radius,
    {
        Area(point, radius)
    }

    pub fn center(&self) -> (r: Point3<i64>)
        ensures
            r == self.spec_center(),
    {
        self.0
    }

    pub fn radius(&self) -> (r: u64)
        ensures
            r == self.spec_radius(),
    {
        self.1
    }

    /// An area is its center and its radius: two areas with the same center and radius are equal.
    pub proof fn lemma_area_eq(a: Area, b: Area)
        requires
            a.spec_center() == b.spec_center(),
            a.spec_radius() == b.spec_radius(),
        ensures
            a == b,
    {
    }

    /// The cuboid of an area whose cuboid fits `i64` bounds is a single point (radius 0) or solid.
    pub proof fn lemma_cuboid_shape(&self)
        requires
            self.cuboid_fits(),
        ensures
            self.spec_radius() == 0 ==> self.spec_cuboid().is_point(),
            self.spec_radius() > 0 ==> self.spec_cuboid().is_solid(),
    {
    }

    /// The cuboid of an area lies around the area's own center: on each axis it runs from the
    /// center minus the radius to the center plus the radius, and every chunk in it is one the
    /// area holds.
    pub proof fn lemma_cuboid_around_center(&self)
        requires
            self.cuboid_fits(),
        ensures
            self.spec_cuboid().min.x == self.spec_center().x - self.spec_radius(),
            self.spec_cuboid().min.y == self.spec_center().y - self.spec_radius(),
            self.spec_cuboid().min.z == self.spec_center().z - self.spec_radius(),
            self.spec_cuboid().max.x == self.spec_center().x + self.spec_radius(),
            self.spec_cuboid().max.y == self.spec_center().y + self.spec_radius(),
            self.spec_cuboid().max.z == self.spec_center().z + self.spec_radius(),
            forall|q: Point3<i64>| #[trigger] self.spec_cuboid().holds(q.triple()) ==> self.holds(q),
    {
    }

    /// An area holds a chunk exactly where, on each of the three axes, the chunk lies no farther
    /// from the center than the radius: one axis beyond the radius, whichever it is, puts the
    /// chunk outside the area.
    pub proof fn lemma_holds_by_axis(&self, c: Point3<i64>)
        ensures
            (c.x - self.spec_center().x > self.spec_radius() || self.spec_center().x - c.x > self.spec_radius())
                ==> !self.holds(c),
            (c.y - self.spec_center().y > self.spec_radius() || self.spec_center().y - c.y > self.spec_radius())
                ==> !self.holds(c),
            (c.z - self.spec_center().z > self.spec_radius() || self.spec_center().z - c.z > self.spec_radius())
                ==> !self.holds(c),
            (c.x - self.spec_center().x <= self.spec_radius() && self.spec_center().x - c.x <= self.spec_radius()
                && c.y - self.spec_center().y <= self.spec_radius() && self.spec_center().y - c.y <= self.spec_radius()
                && c.z - self.spec_center().z <= self.spec_radius() && self.spec_center().z - c.z <= self.spec_radius())
                ==> self.holds(c),
            self.holds(self.spec_center()),
    {
    }

    /// Whether `chunk` lies within the radius of the center along each axis.
    pub fn is_relevant(&self, chunk: &Point3<i64>) -> (r: bool)
        requires
            self.offset_fits(*chunk),
        ensures
            r == self.holds(*chunk),
    {
        let offset = Point3::new(chunk.x - self.0.x, chunk.y - self.0.y, chunk.z - self.0.z);
        distance(offset.x) <= self.1 && distance(offset.y) <= self.1 && distance(offset.z) <= self.1
    }

    /// The cuboid of the area.
    fn cuboid(&self) -> (r: AxisAlignedBoundingBox)
        requires
            self.cuboid_fits(),
        ensures
            r == self.spec_cuboid(),
    {
        let radius = self.1 as i64;
        AxisAlignedBoundingBox {
            min: Point3::new(self.0.x - radius, self.0.y - radius, self.0.z - radius),
            max: Point3::new(self.0.x + radius, self.0.y + radius, self.0.z + radius),
        }
    }
}

/// Whether testing chunk `c` against `areas`, in order until one holds it, stays within `i64`
/// bounds: each area tested fits, those after the first that holds are not tested.
pub open spec fn areas_tested_fit(areas: Seq<Area>, c: Point3<i64>) -> bool {
    forall|i: int|
        0 <= i < areas.len() && (forall|j: int| 0 <= j < i ==> !#[trigger] areas[j].holds(c)) ==> #[trigger] areas[i].offset_fits(c)
}

/// The absolute value of `v`, which is not `i64::MIN`.
fn distance(v: i64) -> (r: u64)
    requires
        v > i64::MIN,
    ensures
        r == if v < 0 { -v } else { v as int },
{
    if v < 0 {
        (0 - v) as u64
    } else {
        v as u64
    }
}

/// The relevance of chunks and of entities to a connection.
#[derive(Clone, Debug, PartialEq, Eq)]
pub struct PairedRelevance {
    pub chunk: Relevance,
    pub entity: Relevance,
}

impl Default for PairedRelevance {
    fn default() -> (r: Self)
        ensures
            r.chunk.spec_areas() == Seq::<Area>::empty(),
            r.entity.spec_areas() == Seq::<Area>::empty(),
    {
        PairedRelevance { chunk: Relevance::default(), entity: Relevance::default() }
    }
}

/// The areas of chunks that are relevant, such as those around each entity a connection owns.
#[derive(Clone, Debug, PartialEq, Eq)]
pub struct Relevance(Vec<Area>);

impl Default for Relevance {
    fn default() -> (r: Self)
        ensures
            r.spec_areas() == Seq::<Area>::empty(),
    {
        Relevance(Vec::new())
    }
}

impl Relevance {
    pub closed spec fn spec_areas(&self) -> Seq<Area> {
        self.0@
    }

    /// Whether any area holds chunk `c`.
    pub open spec fn holds(&self, c: Point3<i64>) -> bool {
        exists|i: int| 0 <= i < self.spec_areas().len() && #[trigger] self.spec_areas()[i].holds(c)
    }

    /// The cuboids of the areas.
    pub open spec fn cuboids(&self) -> Set<AxisAlignedBoundingBox> {
        Set::new(
            |b: AxisAlignedBoundingBox| exists|i: int| 0 <= i < self.spec_areas().len() && b == #[trigger] self.spec_areas()[i].spec_cuboid(),
        )
    }

    /// A relevance holds a chunk exactly where one of its areas, whichever, holds it.
    pub proof fn lemma_holds_any_area(&self, c: Point3<i64>)
        ensures
            self.holds(c) <==> exists|i: int| 0 <= i < self.spec_areas().len() && #[trigger] self.spec_areas()[i].holds(c),
            forall|i: int| 0 <= i < self.spec_areas().len() && #[trigger] self.spec_areas()[i].holds(c) ==> self.holds(c),
    {
    }

    /// The cuboids of a relevance are those of its areas, one for each area.
    pub proof fn lemma_cuboids_of_areas(&self)
        ensures
            forall|i: int| 0 <= i < self.spec_areas().len() ==> self.cuboids().contains(#[trigger] self.spec_areas()[i].spec_cuboid()),
            forall|b: AxisAlignedBoundingBox| #[trigger] self.cuboids().contains(b) ==> exists|i: int|
                0 <= i < self.spec_areas().len() && b == #[trigger] self.spec_areas()[i].spec_cuboid(),
    {
    }

    /// Whether the cuboids of all areas fit `i64` bounds.
    pub open spec fn cuboids_fit(&self) -> bool {
        forall|i: int| 0 <= i < self.spec_areas().len() ==> #[trigger] self.spec_areas()[i].cuboid_fits()
    }

    pub fn areas(&self) -> (r: &Vec<Area>)
        ensures
            r@ == self.spec_areas(),
    {
        &self.0
    }

    pub fn push(&mut self, area: Area)
        ensures
            final(self).spec_areas() == old(self).spec_areas().push(area),
    {
        self.0.push(area);
    }

    /// A relevance with the same areas.
    pub fn duplicate(&self) -> (r: Relevance)
        ensures
            r.spec_areas() == self.spec_areas(),
    {
        let mut areas: Vec<Area> = Vec::with_capacity(self.0.len());
        for i in 0..self.0.len()
            invariant
                areas@ == self.spec_areas().take(i as int),
        {
            areas.push(self.0[i]);
            proof {
                assert(areas@ =~= self.spec_areas().take(i + 1));
            }
        }
        proof {
            assert(self.spec_areas().take(self.spec_areas().len() as int) =~= self.spec_areas());
        }
        Relevance(areas)
    }

    /// Whether `other` has the same areas, in the same order.
    pub fn same_areas(&self, other: &Relevance) -> (r: bool)
        ensures
            r == (self.spec_areas() == other.spec_areas()),
    {
        if self.0.len() != other.0.len() {
            return false;
        }
        let mut i: usize = 0;
        while i < self.0.len()
            invariant
                i <= self.spec_areas().len(),
                self.spec_areas().len() == other.spec_areas().len(),
                forall|j: int| 0 <= j < i ==> self.spec_areas()[j] == other.spec_areas()[j],
            decreases self.spec_areas().len() - i,
        {
            if self.0[i] != other.0[i] {
                return false;
            }
            i = i + 1;
        }
        proof {
            assert(self.spec_areas() =~= other.spec_areas());
        }
        true
    }

    /// Whether testing chunk `c` against the areas, in order until one holds it, stays within
    /// `i64` bounds.
    pub open spec fn tested_fit(&self, c: Point3<i64>) -> bool {
        areas_tested_fit(self.spec_areas(), c)
    }

    /// Whether any area holds `chunk`.
    pub fn is_relevant(&self, chunk: &Point3<i64>) -> (r: bool)
        requires
            self.tested_fit(*chunk),
        ensures
            r == self.holds(*chunk),
    {
        let mut i: usize = 0;
        while i < self.0.len()
            invariant
                i <= self.spec_areas().len(),
                self.tested_fit(*chunk),
                forall|j: int| 0 <= j < i ==> !#[trigger] self.spec_areas()[j].holds(*chunk),
            decreases self.spec_areas().len() - i,
        {
            if self.0[i].is_relevant(chunk) {
                return true;
            }
            i = i + 1;
        }
        false
    }

    /// The cuboids of the areas, each once.
    fn as_cuboids(&self) -> (r: Vec<AxisAlignedBoundingBox>)
        requires
            self.cuboids_fit(),
        ensures
            r@.to_set() == self.cuboids(),
            r@.no_duplicates(),
    {
        let mut cuboids: Vec<AxisAlignedBoundingBox> = Vec::new();
        let mut i: usize = 0;
        while i < self.0.len()
            invariant
                i <= self.spec_areas().len(),
                self.cuboids_fit(),
                cuboids@.no_duplicates(),
                cuboids@.to_set() == Set::new(
                    |b: AxisAlignedBoundingBox| exists|j: int| 0 <= j < i && b == #[trigger] self.spec_areas()[j].spec_cuboid(),
                ),
            decreases self.spec_areas().len() - i,
        {
            let cuboid = self.0[i].cuboid();
            AxisAlignedBoundingBox::push_new(&mut cuboids, cuboid);
            proof {
                assert(cuboids@.to_set() =~= Set::new(
                    |b: AxisAlignedBoundingBox| exists|j: int| 0 <= j < i + 1 && b == #[trigger] self.spec_areas()[j].spec_cuboid(),
                )) by {
                    assert forall|b: AxisAlignedBoundingBox| (exists|j: int| 0 <= j < i + 1 && b == #[trigger] self.spec_areas()[j].spec_cuboid()) implies cuboids@.to_set().contains(b) by {
                        let j = choose|j: int| 0 <= j < i + 1 && b == #[trigger] self.spec_areas()[j].spec_cuboid();
                        if j < i {
                            assert(exists|j: int| 0 <= j < i && b == #[trigger] self.spec_areas()[j].spec_cuboid());
                        }
                    }
                }
            }
            i = i + 1;
        }
        proof {
            assert(cuboids@.to_set() =~= self.cuboids());
        }
        cuboids
    }
    /// Whether taking the cuboids of `other` away from those of `self` is safe: no cuboid of `other`
    /// that is a single point lies strictly inside a cuboid of `self`.
    pub open spec fn can_take_away(&self, other: &Relevance) -> bool {
        forall|o: AxisAlignedBoundingBox, s: AxisAlignedBoundingBox|
            #![trigger other.cuboids().contains(o), self.cuboids().contains(s)]
            other.cuboids().contains(o) && o.is_point() && self.cuboids().contains(s) ==> !s.strictly_holds(o.min)
    }

    /// Cuboids that hold exactly the chunks of the cuboids of `self` that the cuboids of `other`
    /// do not hold, each of them a single point cuboid of `self` or solid within a solid cuboid of `self`.
    #[verifier::spinoff_prover]
    pub fn difference(&self, other: &Relevance) -> (r: Vec<AxisAlignedBoundingBox>)
        requires
            self.cuboids_fit(),
            other.cuboids_fit(),
            self.can_take_away(other),
        ensures
            r@.no_duplicates(),
            AxisAlignedBoundingBox::union_cells(r@.to_set()) == AxisAlignedBoundingBox::union_cells(self.cuboids()).difference(
                AxisAlignedBoundingBox::union_cells(other.cuboids()),
            ),
            forall|m: int| 0 <= m < r@.len() ==> AxisAlignedBoundingBox::shaped(#[trigger] r@[m], self.cuboids()),
    {
        let ghost boxes = self.cuboids();
        let mut cuboids = self.as_cuboids();
        let others = other.as_cuboids();
        proof {
            assert forall|m: int| 0 <= m < cuboids@.len() implies AxisAlignedBoundingBox::shaped(#[trigger] cuboids@[m], boxes) by {
                assert(cuboids@.to_set().contains(cuboids@[m]));
                let i = choose|i: int| 0 <= i < self.spec_areas().len() && cuboids@[m] == #[trigger] self.spec_areas()[i].spec_cuboid();
                self.spec_areas()[i].lemma_cuboid_shape();
            }
            assert forall|q: int| 0 <= q < others@.len() implies AxisAlignedBoundingBox::point_free(boxes, #[trigger] others@[q]) by {
                assert(others@.to_set().contains(others@[q]));
                let i = choose|i: int| 0 <= i < other.spec_areas().len() && others@[q] == #[trigger] other.spec_areas()[i].spec_cuboid();
                other.spec_areas()[i].lemma_cuboid_shape();
            }
            AxisAlignedBoundingBox::lemma_seq_cells(cuboids@);
            assert(AxisAlignedBoundingBox::seq_cells(others@.take(0)) =~= Set::<Cell>::empty());
            assert(AxisAlignedBoundingBox::union_cells(cuboids@.to_set()) =~= AxisAlignedBoundingBox::union_cells(boxes).difference(
                AxisAlignedBoundingBox::seq_cells(others@.take(0)),
            ));
        }
        for j in 0..others.len()
            invariant
                boxes == self.cuboids(),
                others@.to_set() == other.cuboids(),
                forall|q: int| 0 <= q < others@.len() ==> AxisAlignedBoundingBox::point_free(boxes, #[trigger] others@[q]),
                cuboids@.no_duplicates(),
                forall|m: int| 0 <= m < cuboids@.len() ==> AxisAlignedBoundingBox::shaped(#[trigger] cuboids@[m], boxes),
                AxisAlignedBoundingBox::union_cells(cuboids@.to_set()) == AxisAlignedBoundingBox::union_cells(boxes).difference(
                    AxisAlignedBoundingBox::seq_cells(others@.take(j as int)),
                ),
        {
            let other_cuboid = &others[j];
            let mut resulting: Vec<AxisAlignedBoundingBox> = Vec::new();
            proof {
                assert(AxisAlignedBoundingBox::seq_cells(cuboids@.take(0)) =~= Set::<Cell>::empty());
                assert(AxisAlignedBoundingBox::union_cells(resulting@.to_set()) =~= Set::<Cell>::empty());
            }
            for i in 0..cuboids.len()
                invariant
                    boxes == self.cuboids(),
                    AxisAlignedBoundingBox::point_free(boxes, *other_cuboid),
                    forall|m: int| 0 <= m < cuboids@.len() ==> AxisAlignedBoundingBox::shaped(#[trigger] cuboids@[m], boxes),
                    resulting@.no_duplicates(),
                    forall|m: int| 0 <= m < resulting@.len() ==> AxisAlignedBoundingBox::shaped(#[trigger] resulting@[m], boxes),
                    AxisAlignedBoundingBox::union_cells(resulting@.to_set()) == AxisAlignedBoundingBox::seq_cells(
                        cuboids@.take(i as int),
                    ).difference(other_cuboid.cells()),
            {
                let cuboid = &cuboids[i];
                let ghost base = resulting@.to_set();
                proof {
                    AxisAlignedBoundingBox::lemma_split_shaped(*cuboid, *other_cuboid, boxes);
                    AxisAlignedBoundingBox::lemma_seq_cells_step(cuboids@, i as int);
                }
                let ghost parts = cuboid.difference_parts(other_cuboid);
                if let Some(not_in_other) = cuboid.difference(other_cuboid) {
                    for k in 0..not_in_other.len()
                        invariant
                            boxes == self.cuboids(),
                            not_in_other@.to_set() == parts,
                            forall|b: AxisAlignedBoundingBox| #[trigger] parts.contains(b) ==> AxisAlignedBoundingBox::shaped(b, boxes),
                            forall|m: int| 0 <= m < resulting@.len() ==> AxisAlignedBoundingBox::shaped(#[trigger] resulting@[m], boxes),
                            resulting@.no_duplicates(),
                            resulting@.to_set() == base.union(not_in_other@.take(k as int).to_set()),
                    {
                        let ghost before = resulting@;
                        AxisAlignedBoundingBox::push_new(&mut resulting, not_in_other[k]);
                        proof {
                            assert(not_in_other@.take(k + 1) =~= not_in_other@.take(k as int).push(not_in_other@[k as int]));
                            not_in_other@.take(k as int).lemma_push_to_set_commute(not_in_other@[k as int]);
                            assert(resulting@.to_set() =~= base.union(not_in_other@.take(k + 1).to_set()));
                            assert(parts.contains(not_in_other@[k as int]));
                            assert forall|m: int| 0 <= m < resulting@.len() implies AxisAlignedBoundingBox::shaped(#[trigger] resulting@[m], boxes) by {
                                assert(resulting@.to_set().contains(resulting@[m]));
                                if !before.to_set().contains(resulting@[m]) {
                                    assert(resulting@[m] == not_in_other@[k as int]);
                                } else {
                                    let w = choose|w: int| 0 <= w < before.len() && before[w] == resulting@[m];
                                    assert(AxisAlignedBoundingBox::shaped(before[w], boxes));
                                }
                            }
                        }
                    }
                    proof {
                        assert(not_in_other@.take(not_in_other@.len() as int) =~= not_in_other@);
                        AxisAlignedBoundingBox::lemma_union_cells_union(base, parts);
                    }
                } else {
                    proof {
                        assert(parts =~= Set::<AxisAlignedBoundingBox>::empty());
                        assert(base.union(parts) =~= base);
                        AxisAlignedBoundingBox::lemma_union_cells_union(base, parts);
                    }
                }
                proof {
                    assert(resulting@.to_set() == base.union(parts));
                    assert(AxisAlignedBoundingBox::union_cells(resulting@.to_set()) =~= AxisAlignedBoundingBox::seq_cells(
                        cuboids@.take(i + 1),
                    ).difference(other_cuboid.cells()));
                }
            }
            proof {
                assert(cuboids@.take(cuboids@.len() as int) =~= cuboids@);
                AxisAlignedBoundingBox::lemma_seq_cells(cuboids@);
                AxisAlignedBoundingBox::lemma_seq_cells_step(others@, j as int);
                assert(AxisAlignedBoundingBox::union_cells(resulting@.to_set()) =~= AxisAlignedBoundingBox::union_cells(boxes).difference(
                    AxisAlignedBoundingBox::seq_cells(others@.take(j + 1)),
                ));
            }
            cuboids = resulting;
        }
        proof {
            assert(others@.take(others@.len() as int) =~= others@);
            AxisAlignedBoundingBox::lemma_seq_cells(others@);
        }
        cuboids
    }
}

/// A change of what is relevant to a connection, of the world (chunks) or of entities; `C` is
/// the handle of a chunk.
pub enum Update<C> {
    Entity(Relevance),
    World(WorldUpdate<C>),
}

/// A change of the world that is relevant to a connection: the chunks now relevant, or chunks
/// to send.
pub enum WorldUpdate<C> {
    Relevance(Relevance),
    Chunks(Vec<C>),
}

} // verus!
