use vstd::prelude::*;

verus! {

/// A point, or a vector, of three coordinates.
#[derive(Clone, Copy, Debug, PartialEq, Eq, Hash, Structural)]
pub struct Point3<T> {
    pub x: T,
    pub y: T,
    pub z: T,
}

impl<T> Point3<T> {
    pub fn new(x: T, y: T, z: T) -> (r: Self)
        ensures
            r.x == x,
            r.y == y,
            r.z == z,
    {
        Point3 { x, y, z }
    }
}

impl Point3<i64> {
    /// The component-wise maximum of two points.
    pub open spec fn spec_sup(self, other: Self) -> Self {
        Point3 {
            x: if self.x >= other.x { self.x } else { other.x },
            y: if self.y >= other.y { self.y } else { other.y },
            z: if self.z >= other.z { self.z } else { other.z },
        }
    }

    /// The component-wise minimum of two points.
    pub open spec fn spec_inf(self, other: Self) -> Self {
        Point3 {
            x: if self.x <= other.x { self.x } else { other.x },
            y: if self.y <= other.y { self.y } else { other.y },
            z: if self.z <= other.z { self.z } else { other.z },
        }
    }

    pub fn sup(&self, other: &Self) -> (r: Self)
        ensures
            r == self.spec_sup(*other),
    {
        Point3 {
            x: if self.x >= other.x { self.x } else { other.x },
            y: if self.y >= other.y { self.y } else { other.y },
            z: if self.z >= other.z { self.z } else { other.z },
        }
    }

    pub fn inf(&self, other: &Self) -> (r: Self)
        ensures
            r == self.spec_inf(*other),
    {
        Point3 {
            x: if self.x <= other.x { self.x } else { other.x },
            y: if self.y <= other.y { self.y } else { other.y },
            z: if self.z <= other.z { self.z } else { other.z },
        }
    }

    /// The point as a triple of integers.
    pub open spec fn triple(self) -> (int, int, int) {
        (self.x as int, self.y as int, self.z as int)
    }
}

/// The number of blocks along each axis of a chunk.
pub const DIAMETER: usize = 16;

/// An integer type that the offset of a point within a chunk is measured in.
pub trait ChunkOffset: Copy {
    spec fn spec_value(self) -> int;

    /// The number of whole chunks in the offset, rounded down.
    fn chunk_count(self) -> (r: i64)
        ensures
            r == self.spec_value() / (DIAMETER as int),
    ;

    /// The offset within its chunk, between 0 and the chunk diameter.
    fn chunk_remainder(self) -> (r: Self)
        ensures
            r.spec_value() == self.spec_value() % (DIAMETER as int),
    ;

    /// Offsets fit an `i64`.
    proof fn lemma_offset_bounded(v: Self)
        ensures
            i64::MIN <= v.spec_value() <= i64::MAX,
    ;

    /// Whether `v` is a value of the offset type.
    spec fn fits(v: int) -> bool;

    /// The sum of two offsets, which fits the type.
    fn offset_add(self, rhs: Self) -> (r: Self)
        requires
            Self::fits(self.spec_value() + rhs.spec_value()),
        ensures
            r.spec_value() == self.spec_value() + rhs.spec_value(),
    ;

    /// The difference of two offsets, which fits the type.
    fn offset_sub(self, rhs: Self) -> (r: Self)
        requires
            Self::fits(self.spec_value() - rhs.spec_value()),
        ensures
            r.spec_value() == self.spec_value() - rhs.spec_value(),
    ;
}

impl ChunkOffset for i8 {
    open spec fn spec_value(self) -> int {
        self as int
    }

    open spec fn fits(v: int) -> bool {
        i8::MIN <= v <= i8::MAX
    }

    fn offset_add(self, rhs: Self) -> (r: Self) {
        self + rhs
    }

    fn offset_sub(self, rhs: Self) -> (r: Self) {
        self - rhs
    }

    fn chunk_count(self) -> (r: i64) {
        let q = self.checked_div_euclid(16).unwrap();
        q as i64
    }

    fn chunk_remainder(self) -> (r: Self) {
        self.checked_rem_euclid(16).unwrap()
    }

    proof fn lemma_offset_bounded(v: Self) {
    }
}

impl ChunkOffset for i16 {
    open spec fn spec_value(self) -> int {
        self as int
    }

    open spec fn fits(v: int) -> bool {
        i16::MIN <= v <= i16::MAX
    }

    fn offset_add(self, rhs: Self) -> (r: Self) {
        self + rhs
    }

    fn offset_sub(self, rhs: Self) -> (r: Self) {
        self - rhs
    }

    fn chunk_count(self) -> (r: i64) {
        let q = self.checked_div_euclid(16).unwrap();
        q as i64
    }

    fn chunk_remainder(self) -> (r: Self) {
        self.checked_rem_euclid(16).unwrap()
    }

    proof fn lemma_offset_bounded(v: Self) {
    }
}

impl ChunkOffset for i32 {
    open spec fn spec_value(self) -> int {
        self as int
    }

    open spec fn fits(v: int) -> bool {
        i32::MIN <= v <= i32::MAX
    }

    fn offset_add(self, rhs: Self) -> (r: Self) {
        self + rhs
    }

    fn offset_sub(self, rhs: Self) -> (r: Self) {
        self - rhs
    }

    fn chunk_count(self) -> (r: i64) {
        let q = self.checked_div_euclid(16).unwrap();
        q as i64
    }

    fn chunk_remainder(self) -> (r: Self) {
        self.checked_rem_euclid(16).unwrap()
    }

    proof fn lemma_offset_bounded(v: Self) {
    }
}

impl ChunkOffset for i64 {
    open spec fn spec_value(self) -> int {
        self as int
    }

    open spec fn fits(v: int) -> bool {
        i64::MIN <= v <= i64::MAX
    }

    fn offset_add(self, rhs: Self) -> (r: Self) {
        self + rhs
    }

    fn offset_sub(self, rhs: Self) -> (r: Self) {
        self - rhs
    }

    fn chunk_count(self) -> (r: i64) {
        self.checked_div_euclid(16).unwrap()
    }

    fn chunk_remainder(self) -> (r: Self) {
        self.checked_rem_euclid(16).unwrap()
    }

    proof fn lemma_offset_bounded(v: Self) {
    }
}

/// A position in the world: the coordinate of a chunk and an offset within it.
#[derive(Clone, Copy, Debug, PartialEq, Eq, Hash)]
pub struct Point<V> {
    chunk: Point3<i64>,
    offset: Point3<V>,
}

/// The position of block `offset` of chunk `chunk` along one axis.
pub open spec fn absolute(chunk: i64, offset: int) -> int {
    chunk * (DIAMETER as int) + offset
}

impl<V: ChunkOffset> Point<V> {
    pub closed spec fn spec_chunk(&self) -> Point3<i64> {
        self.chunk
    }

    pub closed spec fn spec_offset(&self) -> Point3<V> {
        self.offset
    }

    /// Whether the offset lies within its chunk on each axis.
    pub open spec fn is_aligned(&self) -> bool {
        &&& 0 <= self.spec_offset().x.spec_value() < DIAMETER
        &&& 0 <= self.spec_offset().y.spec_value() < DIAMETER
        &&& 0 <= self.spec_offset().z.spec_value() < DIAMETER
    }

    /// The position along each axis, counted in blocks from the world origin.
    pub open spec fn position(&self) -> (int, int, int) {
        Self::position_of(self.spec_chunk(), self.spec_offset())
    }

    /// The position of block `offset` of chunk `chunk` along each axis.
    pub open spec fn position_of(chunk: Point3<i64>, offset: Point3<V>) -> (int, int, int) {
        (
            absolute(chunk.x, offset.x.spec_value()),
            absolute(chunk.y, offset.y.spec_value()),
            absolute(chunk.z, offset.z.spec_value()),
        )
    }

    /// Whether moving the whole chunks of the offset into the chunk coordinate keeps it an `i64`.
    pub open spec fn can_align(chunk: Point3<i64>, offset: Point3<V>) -> bool {
        &&& i64::MIN <= chunk.x + offset.x.spec_value() / (DIAMETER as int) <= i64::MAX
        &&& i64::MIN <= chunk.y + offset.y.spec_value() / (DIAMETER as int) <= i64::MAX
        &&& i64::MIN <= chunk.z + offset.z.spec_value() / (DIAMETER as int) <= i64::MAX
    }

    /// A point made of the given chunk and offset, as they are.
    pub fn from_parts(chunk: Point3<i64>, offset: Point3<V>) -> (r: Self)
        ensures
            r.spec_chunk() == chunk,
            r.spec_offset() == offset,
    {
        Point { chunk, offset }
    }

    pub fn chunk(&self) -> (r: &Point3<i64>)
        ensures
            *r == self.spec_chunk(),
    {
        &self.chunk
    }

    pub fn offset(&self) -> (r: &Point3<V>)
        ensures
            *r == self.spec_offset(),
    {
        &self.offset
    }

    /// The point at block `offset` of chunk `chunk`, with the whole chunks of the offset moved
    /// into the chunk coordinate.
    pub fn new(chunk: Point3<i64>, offset: Point3<V>) -> (r: Self)
        requires
            Self::can_align(chunk, offset),
        ensures
            r.is_aligned(),
            r.position() == Self::position_of(chunk, offset),
    {
        let mut point = Point { chunk, offset };
        point.align();
        point
    }

    /// The point at block `offset` from the origin chunk.
    pub fn from(offset: Point3<V>) -> (r: Self)
        ensures
            r.is_aligned(),
            r.position() == Self::position_of(Point3 { x: 0i64, y: 0i64, z: 0i64 }, offset),
    {
        let mut point = Point { chunk: Point3::new(0, 0, 0), offset };
        proof {
            assert(Self::can_align(point.chunk, offset)) by {
                V::lemma_offset_bounded(offset.x);
                V::lemma_offset_bounded(offset.y);
                V::lemma_offset_bounded(offset.z);
            }
        }
        point.align();
        point
    }

    /// Moves the whole chunks of the offset into the chunk coordinate, leaving an offset within
    /// the chunk on each axis.
    pub fn align(&mut self)
        requires
            Self::can_align(old(self).spec_chunk(), old(self).spec_offset()),
        ensures
            final(self).is_aligned(),
            final(self).position() == old(self).position(),
            final(self).spec_chunk().x == old(self).spec_chunk().x + old(self).spec_offset().x.spec_value() / (DIAMETER as int),
            final(self).spec_chunk().y == old(self).spec_chunk().y + old(self).spec_offset().y.spec_value() / (DIAMETER as int),
            final(self).spec_chunk().z == old(self).spec_chunk().z + old(self).spec_offset().z.spec_value() / (DIAMETER as int),
    {
        self.chunk.x = self.chunk.x + self.offset.x.chunk_count();
        self.offset.x = self.offset.x.chunk_remainder();
        self.chunk.y = self.chunk.y + self.offset.y.chunk_count();
        self.offset.y = self.offset.y.chunk_remainder();
        self.chunk.z = self.chunk.z + self.offset.z.chunk_count();
        self.offset.z = self.offset.z.chunk_remainder();
    }
    /// Whether moving the whole chunks of offsets `offset` into chunk coordinates `chunk` keeps
    /// them `i64`s, on each axis.
    pub open spec fn realign_fits(chunk: (int, int, int), offset: (int, int, int)) -> bool {
        &&& i64::MIN <= chunk.0 + offset.0 / (DIAMETER as int) <= i64::MAX
        &&& i64::MIN <= chunk.1 + offset.1 / (DIAMETER as int) <= i64::MAX
        &&& i64::MIN <= chunk.2 + offset.2 / (DIAMETER as int) <= i64::MAX
    }

    /// The point `rhs` blocks further along each axis, realigned; each offset sum must fit the
    /// offset type.
    pub fn add_vector(&self, rhs: Point3<V>) -> (r: Self)
        requires
            V::fits(self.spec_offset().x.spec_value() + rhs.x.spec_value()),
            V::fits(self.spec_offset().y.spec_value() + rhs.y.spec_value()),
            V::fits(self.spec_offset().z.spec_value() + rhs.z.spec_value()),
            Self::realign_fits(
                self.spec_chunk().triple(),
                (
                    self.spec_offset().x.spec_value() + rhs.x.spec_value(),
                    self.spec_offset().y.spec_value() + rhs.y.spec_value(),
                    self.spec_offset().z.spec_value() + rhs.z.spec_value(),
                ),
            ),
        ensures
            r.is_aligned(),
            r.position() == (
                self.position().0 + rhs.x.spec_value(),
                self.position().1 + rhs.y.spec_value(),
                self.position().2 + rhs.z.spec_value(),
            ),
    {
        let offset = Point3::new(
            self.offset.x.offset_add(rhs.x),
            self.offset.y.offset_add(rhs.y),
            self.offset.z.offset_add(rhs.z),
        );
        let mut point = Point { chunk: self.chunk, offset };
        point.align();
        point
    }

    /// The point `rhs` blocks back along each axis, realigned; each offset difference must fit
    /// the offset type.
    pub fn sub_vector(&self, rhs: Point3<V>) -> (r: Self)
        requires
            V::fits(self.spec_offset().x.spec_value() - rhs.x.spec_value()),
            V::fits(self.spec_offset().y.spec_value() - rhs.y.spec_value()),
            V::fits(self.spec_offset().z.spec_value() - rhs.z.spec_value()),
            Self::realign_fits(
                self.spec_chunk().triple(),
                (
                    self.spec_offset().x.spec_value() - rhs.x.spec_value(),
                    self.spec_offset().y.spec_value() - rhs.y.spec_value(),
                    self.spec_offset().z.spec_value() - rhs.z.spec_value(),
                ),
            ),
        ensures
            r.is_aligned(),
            r.position() == (
                self.position().0 - rhs.x.spec_value(),
                self.position().1 - rhs.y.spec_value(),
                self.position().2 - rhs.z.spec_value(),
            ),
    {
        let offset = Point3::new(
            self.offset.x.offset_sub(rhs.x),
            self.offset.y.offset_sub(rhs.y),
            self.offset.z.offset_sub(rhs.z),
        );
        let mut point = Point { chunk: self.chunk, offset };
        point.align();
        point
    }

    /// The sum of two points, chunk by chunk and offset by offset, realigned.
    pub fn add_point(&self, rhs: &Self) -> (r: Self)
        requires
            i64::MIN <= self.spec_chunk().x + rhs.spec_chunk().x <= i64::MAX,
            i64::MIN <= self.spec_chunk().y + rhs.spec_chunk().y <= i64::MAX,
            i64::MIN <= self.spec_chunk().z + rhs.spec_chunk().z <= i64::MAX,
            V::fits(self.spec_offset().x.spec_value() + rhs.spec_offset().x.spec_value()),
            V::fits(self.spec_offset().y.spec_value() + rhs.spec_offset().y.spec_value()),
            V::fits(self.spec_offset().z.spec_value() + rhs.spec_offset().z.spec_value()),
            Self::realign_fits(
                (
                    self.spec_chunk().x + rhs.spec_chunk().x,
                    self.spec_chunk().y + rhs.spec_chunk().y,
                    self.spec_chunk().z + rhs.spec_chunk().z,
                ),
                (
                    self.spec_offset().x.spec_value() + rhs.spec_offset().x.spec_value(),
                    self.spec_offset().y.spec_value() + rhs.spec_offset().y.spec_value(),
                    self.spec_offset().z.spec_value() + rhs.spec_offset().z.spec_value(),
                ),
            ),
        ensures
            r.is_aligned(),
            r.position() == (
                self.position().0 + rhs.position().0,
                self.position().1 + rhs.position().1,
                self.position().2 + rhs.position().2,
            ),
    {
        let chunk = Point3::new(self.chunk.x + rhs.chunk.x, self.chunk.y + rhs.chunk.y, self.chunk.z + rhs.chunk.z);
        let offset = Point3::new(
            self.offset.x.offset_add(rhs.offset.x),
            self.offset.y.offset_add(rhs.offset.y),
            self.offset.z.offset_add(rhs.offset.z),
        );
        Self::new(chunk, offset)
    }

    /// The difference of two points, chunk by chunk and offset by offset, realigned.
    pub fn sub_point(&self, rhs: &Self) -> (r: Self)
        requires
            i64::MIN <= self.spec_chunk().x - rhs.spec_chunk().x <= i64::MAX,
            i64::MIN <= self.spec_chunk().y - rhs.spec_chunk().y <= i64::MAX,
            i64::MIN <= self.spec_chunk().z - rhs.spec_chunk().z <= i64::MAX,
            V::fits(self.spec_offset().x.spec_value() - rhs.spec_offset().x.spec_value()),
            V::fits(self.spec_offset().y.spec_value() - rhs.spec_offset().y.spec_value()),
            V::fits(self.spec_offset().z.spec_value() - rhs.spec_offset().z.spec_value()),
            Self::realign_fits(
                (
                    self.spec_chunk().x - rhs.spec_chunk().x,
                    self.spec_chunk().y - rhs.spec_chunk().y,
                    self.spec_chunk().z - rhs.spec_chunk().z,
                ),
                (
                    self.spec_offset().x.spec_value() - rhs.spec_offset().x.spec_value(),
                    self.spec_offset().y.spec_value() - rhs.spec_offset().y.spec_value(),
                    self.spec_offset().z.spec_value() - rhs.spec_offset().z.spec_value(),
                ),
            ),
        ensures
            r.is_aligned(),
            r.position() == (
                self.position().0 - rhs.position().0,
                self.position().1 - rhs.position().1,
                self.position().2 - rhs.position().2,
            ),
    {
        let chunk = Point3::new(self.chunk.x - rhs.chunk.x, self.chunk.y - rhs.chunk.y, self.chunk.z - rhs.chunk.z);
        let offset = Point3::new(
            self.offset.x.offset_sub(rhs.offset.x),
            self.offset.y.offset_sub(rhs.offset.y),
            self.offset.z.offset_sub(rhs.offset.z),
        );
        Self::new(chunk, offset)
    }
}

} // verus!
