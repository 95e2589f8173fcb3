use crystal_sphinx::common::world::point::{Point, Point3};

#[test]
fn new() {
    assert_eq!(
        Point::<i8>::new(Point3::new(0, 2, 1), Point3::new(5, 1, 3)),
        Point::from_parts(Point3::new(0, 2, 1), Point3::new(5, 1, 3))
    );
}

#[test]
fn point_no_change() {
    let mut point = Point::from_parts(Point3::new(0, 0, 0), Point3::new(1i8, 2i8, 3i8));
    point.align();
    assert_eq!(
        point,
        Point::from_parts(Point3::new(0, 0, 0), Point3::new(1i8, 2i8, 3i8)),
        "i8 no-change alignment"
    );
}

#[test]
fn reduce_positive() {
    let mut point = Point::from_parts(Point3::new(0, 0, 0), Point3::new(17i8, 19i8, 16i8));
    point.align();
    assert_eq!(
        point,
        Point::from_parts(Point3::new(1, 1, 1), Point3::new(1i8, 3i8, 0i8)),
        "i8 reduce positive"
    );
}

#[test]
fn reduce_negative() {
    let mut point: Point<i8> = Point::from_parts(Point3::new(0, 0, 0), Point3::new(-5, -16, -33));
    point.align();
    let expected: Point<i8> = Point::from_parts(Point3::new(-1, -1, -3), Point3::new(11, 0, 15));
    assert_eq!(point, expected);
}

#[test]
fn from_offset_and_wide_units() {
    let point = Point::<i32>::from(Point3::new(40, -1, 15));
    assert_eq!(point, Point::from_parts(Point3::new(2, -1, 0), Point3::new(8, 15, 15)));
    assert_eq!(point.chunk(), &Point3::new(2, -1, 0));
    assert_eq!(point.offset(), &Point3::new(8, 15, 15));
    let point = Point::<i64>::new(Point3::new(-3, 7, 0), Point3::new(-100, 100, 0));
    assert_eq!(point, Point::from_parts(Point3::new(-10, 13, 0), Point3::new(12, 4, 0)));
    let point = Point::<i16>::new(Point3::new(0, 0, 0), Point3::new(i16::MIN, i16::MAX, -1));
    assert_eq!(point, Point::from_parts(Point3::new(-2048, 2047, -1), Point3::new(0, 15, 15)));
}

#[test]
fn point3_sup_inf() {
    let a = Point3::new(1i64, 5, -3);
    let b = Point3::new(2i64, 4, -3);
    assert_eq!(a.sup(&b), Point3::new(2, 5, -3));
    assert_eq!(a.inf(&b), Point3::new(1, 4, -3));
}

#[test]
fn point_arithmetic_realigns() {
    let p: Point<i8> = Point::from_parts(Point3::new(1, 0, -1), Point3::new(15, 0, 3));
    assert_eq!(p.add_vector(Point3::new(2, -1, 13)), Point::from_parts(Point3::new(2, -1, 0), Point3::new(1, 15, 0)));
    assert_eq!(p.sub_vector(Point3::new(16, 1, 4)), Point::from_parts(Point3::new(0, -1, -2), Point3::new(15, 15, 15)));
    let q: Point<i8> = Point::from_parts(Point3::new(-1, 2, 0), Point3::new(3, 15, 15));
    assert_eq!(p.add_point(&q), Point::from_parts(Point3::new(1, 2, 0), Point3::new(2, 15, 2)));
    assert_eq!(p.sub_point(&q), Point::from_parts(Point3::new(2, -3, -2), Point3::new(12, 1, 4)));
}
