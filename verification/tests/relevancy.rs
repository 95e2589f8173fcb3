use crystal_sphinx::common::world::point::Point3;
use crystal_sphinx::entity::system::replicator::relevancy::{Area, AxisAlignedBoundingBox as AABB, Relevance};
use std::collections::HashSet;

fn aabb(min: (i64, i64, i64), max: (i64, i64, i64)) -> AABB {
    AABB::new(Point3::new(min.0, min.1, min.2), Point3::new(max.0, max.1, max.2))
}

fn as_set(boxes: Vec<AABB>) -> HashSet<AABB> {
    let len = boxes.len();
    let set: HashSet<AABB> = boxes.into_iter().collect();
    assert_eq!(set.len(), len, "no cuboid is given twice");
    set
}

#[test]
fn intersects_none() {
    let a = AABB { min: Point3::new(0, 0, 0), max: Point3::new(1, 1, 1) };
    let b = AABB { min: Point3::new(1, 1, 1), max: Point3::new(2, 2, 2) };
    assert_eq!(a.intersects(&b), false);
}

#[test]
fn intersects_lhs() {
    let a = AABB { min: Point3::new(0, 0, 0), max: Point3::new(2, 2, 2) };
    let b = AABB { min: Point3::new(1, 1, 1), max: Point3::new(3, 3, 3) };
    assert_eq!(a.intersects(&b), true);
}

#[test]
fn intersects_rhs() {
    let a = AABB { min: Point3::new(0, 0, 0), max: Point3::new(2, 2, 2) };
    let b = AABB { min: Point3::new(1, 1, 1), max: Point3::new(3, 3, 3) };
    assert_eq!(b.intersects(&a), true);
}

#[test]
fn intersects_equal() {
    let a = AABB { min: Point3::new(0, 0, 0), max: Point3::new(2, 2, 2) };
    assert_eq!(a.intersects(&a), true);
}

#[test]
fn overlap_none() {
    let a = AABB { min: Point3::new(0, 0, 0), max: Point3::new(1, 1, 1) };
    let b = AABB { min: Point3::new(1, 1, 1), max: Point3::new(2, 2, 2) };
    assert_eq!(a.overlap(&b), None);
}

#[test]
fn overlap_lower() {
    let a = AABB { min: Point3::new(0, 0, 0), max: Point3::new(6, 6, 6) };
    let b = AABB { min: Point3::new(4, 4, 4), max: Point3::new(7, 7, 7) };
    assert_eq!(a.overlap(&b), Some(AABB { min: Point3::new(4, 4, 4), max: Point3::new(6, 6, 6) }));
}

#[test]
fn overlap_upper() {
    let a = AABB { min: Point3::new(0, 0, 0), max: Point3::new(6, 6, 6) };
    let b = AABB { min: Point3::new(4, 4, 4), max: Point3::new(7, 7, 7) };
    assert_eq!(b.overlap(&a), Some(AABB { min: Point3::new(4, 4, 4), max: Point3::new(6, 6, 6) }));
}

#[test]
fn overlap_equal() {
    let a = AABB { min: Point3::new(0, 0, 0), max: Point3::new(2, 2, 2) };
    assert_eq!(a.overlap(&a), Some(a));
}

#[test]
fn difference_none() {
    let a = AABB { min: Point3::new(0, 0, 0), max: Point3::new(1, 1, 1) };
    let b = AABB { min: Point3::new(1, 1, 1), max: Point3::new(2, 2, 2) };
    assert_eq!(a.difference(&b).map(as_set), Some(HashSet::from([a])));
}

#[test]
fn difference_equal() {
    let a = AABB { min: Point3::new(0, 0, 0), max: Point3::new(2, 2, 2) };
    assert_eq!(a.difference(&a), None);
}

#[test]
fn difference_partial() {
    let a = AABB { min: Point3::new(0, 0, 0), max: Point3::new(6, 6, 6) };
    let b = AABB { min: Point3::new(3, 3, 3), max: Point3::new(7, 7, 7) };
    assert_eq!(
        a.difference(&b).map(as_set),
        Some(HashSet::from([
            aabb((0, 0, 0), (3, 3, 3)),
            aabb((3, 0, 0), (6, 3, 3)),
            aabb((0, 0, 3), (3, 3, 6)),
            aabb((3, 0, 3), (6, 3, 6)),
            aabb((0, 3, 0), (3, 6, 3)),
            aabb((3, 3, 0), (6, 6, 3)),
            aabb((0, 3, 3), (3, 6, 6)),
        ]))
    );
}

#[test]
fn subdivide_one() {
    assert_eq!(
        as_set(AABB::subdivide(vec![
            &Point3::new(0, 0, 0),
            &Point3::new(0, 0, 0),
            &Point3::new(6, 6, 6),
            &Point3::new(6, 6, 6),
        ])),
        HashSet::from([aabb((0, 0, 0), (6, 6, 6))])
    );
}

#[test]
fn subdivide_lower_equals_min() {
    assert_eq!(
        as_set(AABB::subdivide(vec![
            &Point3::new(0, 0, 0),
            &Point3::new(0, 0, 0),
            &Point3::new(3, 3, 3),
            &Point3::new(6, 6, 6),
        ])),
        HashSet::from([
            aabb((0, 0, 0), (3, 3, 3)),
            aabb((3, 0, 0), (6, 3, 3)),
            aabb((0, 0, 3), (3, 3, 6)),
            aabb((3, 0, 3), (6, 3, 6)),
            aabb((0, 3, 0), (3, 6, 3)),
            aabb((3, 3, 0), (6, 6, 3)),
            aabb((0, 3, 3), (3, 6, 6)),
            aabb((3, 3, 3), (6, 6, 6)),
        ])
    );
}

#[test]
fn subdivide_upper_equals_max() {
    assert_eq!(
        as_set(AABB::subdivide(vec![
            &Point3::new(0, 0, 0),
            &Point3::new(1, 1, 1),
            &Point3::new(3, 3, 3),
            &Point3::new(3, 3, 3),
        ])),
        HashSet::from([
            aabb((0, 0, 0), (1, 1, 1)),
            aabb((1, 0, 0), (3, 1, 1)),
            aabb((0, 0, 1), (1, 1, 3)),
            aabb((1, 0, 1), (3, 1, 3)),
            aabb((0, 1, 0), (1, 3, 1)),
            aabb((1, 1, 0), (3, 3, 1)),
            aabb((0, 1, 1), (1, 3, 3)),
            aabb((1, 1, 1), (3, 3, 3)),
        ])
    );
}

#[test]
fn subdivide_four() {
    assert_eq!(
        as_set(AABB::subdivide(vec![
            &Point3::new(0, 0, 0),
            &Point3::new(1, 1, 1),
            &Point3::new(3, 3, 3),
            &Point3::new(6, 6, 6),
        ])),
        HashSet::from([
            aabb((0, 0, 0), (1, 1, 1)),
            aabb((1, 0, 0), (3, 1, 1)),
            aabb((3, 0, 0), (6, 1, 1)),
            aabb((0, 0, 1), (1, 1, 3)),
            aabb((1, 0, 1), (3, 1, 3)),
            aabb((3, 0, 1), (6, 1, 3)),
            aabb((0, 0, 3), (1, 1, 6)),
            aabb((1, 0, 3), (3, 1, 6)),
            aabb((3, 0, 3), (6, 1, 6)),
            aabb((0, 1, 0), (1, 3, 1)),
            aabb((1, 1, 0), (3, 3, 1)),
            aabb((3, 1, 0), (6, 3, 1)),
            aabb((0, 1, 1), (1, 3, 3)),
            aabb((1, 1, 1), (3, 3, 3)),
            aabb((3, 1, 1), (6, 3, 3)),
            aabb((0, 1, 3), (1, 3, 6)),
            aabb((1, 1, 3), (3, 3, 6)),
            aabb((3, 1, 3), (6, 3, 6)),
            aabb((0, 3, 0), (1, 6, 1)),
            aabb((1, 3, 0), (3, 6, 1)),
            aabb((3, 3, 0), (6, 6, 1)),
            aabb((0, 3, 1), (1, 6, 3)),
            aabb((1, 3, 1), (3, 6, 3)),
            aabb((3, 3, 1), (6, 6, 3)),
            aabb((0, 3, 3), (1, 6, 6)),
            aabb((1, 3, 3), (3, 6, 6)),
            aabb((3, 3, 3), (6, 6, 6)),
        ])
    );
}

#[test]
fn subdivide_repeated_bounds_give_each_cuboid_once() {
    let boxes = AABB::subdivide(vec![&Point3::new(0, 0, 0), &Point3::new(2, 2, 2), &Point3::new(0, 0, 0), &Point3::new(2, 2, 2)]);
    assert_eq!(as_set(boxes), HashSet::from([aabb((0, 0, 0), (2, 2, 2)), aabb((2, 0, 0), (0, 2, 2)), aabb((0, 0, 2), (2, 2, 0)), aabb((2, 0, 2), (0, 2, 0)), aabb((0, 2, 0), (2, 0, 2)), aabb((2, 2, 0), (0, 0, 2)), aabb((0, 2, 2), (2, 0, 0)), aabb((2, 2, 2), (0, 0, 0))]));
}

fn cells_of(boxes: &[AABB]) -> HashSet<Point3<i64>> {
    boxes.iter().flat_map(|b| b.points()).collect()
}

#[test]
fn points_of_cuboid() {
    let b = aabb((0, 0, 0), (2, 1, 2));
    let points = b.points();
    assert_eq!(points.len(), 4);
    assert_eq!(
        points.into_iter().collect::<HashSet<_>>(),
        HashSet::from([
            Point3::new(0, 0, 0),
            Point3::new(1, 0, 0),
            Point3::new(0, 0, 1),
            Point3::new(1, 0, 1)
        ])
    );
    assert!(aabb((0, 0, 0), (0, 5, 5)).points().is_empty());
}

#[test]
fn difference_holds_cells_not_in_other() {
    let a = aabb((0, 0, 0), (6, 6, 6));
    let b = aabb((3, 3, 3), (7, 7, 7));
    let parts = a.difference(&b).unwrap();
    let expected: HashSet<Point3<i64>> =
        a.points().into_iter().filter(|p| !(p.x >= 3 && p.y >= 3 && p.z >= 3)).collect();
    assert_eq!(cells_of(&parts), expected);
    let total: usize = parts.iter().map(|p| p.points().len()).sum();
    assert_eq!(total, expected.len(), "each cell lies in just one cuboid");
}

#[test]
fn area_relevance() {
    let area = Area::new(Point3::new(0, 0, 0), 2);
    assert!(area.is_relevant(&Point3::new(2, -2, 0)));
    assert!(!area.is_relevant(&Point3::new(3, 0, 0)));
    let mut relevance = Relevance::default();
    assert!(!relevance.is_relevant(&Point3::new(0, 0, 0)));
    relevance.push(area);
    relevance.push(Area::new(Point3::new(10, 0, 0), 1));
    assert!(relevance.is_relevant(&Point3::new(11, 1, -1)));
    assert!(relevance.is_relevant(&Point3::new(-2, 0, 0)));
    assert!(!relevance.is_relevant(&Point3::new(5, 0, 0)));
}

#[test]
fn relevance_difference_cells() {
    let mut current = Relevance::default();
    current.push(Area::new(Point3::new(0, 0, 0), 2));
    let mut previous = Relevance::default();
    previous.push(Area::new(Point3::new(1, 0, 0), 2));
    let new_cuboids = current.difference(&previous);
    // The cuboid of an area runs from the center minus the radius to the center plus the radius (excluded).
    let current_cells = cells_of(&[aabb((-2, -2, -2), (2, 2, 2))]);
    let previous_cells = cells_of(&[aabb((-1, -2, -2), (3, 2, 2))]);
    let expected: HashSet<Point3<i64>> = current_cells.difference(&previous_cells).cloned().collect();
    assert_eq!(cells_of(&new_cuboids), expected);
    assert_eq!(expected.len(), 16);

    // Nothing is new where the relevance did not change.
    assert!(cells_of(&current.difference(&current)).is_empty());
    // Everything is new where there was no relevance before.
    assert_eq!(cells_of(&current.difference(&Relevance::default())), current_cells);
}

#[test]
fn area_accessors() {
    let area = Area::new(Point3::new(1, 2, 3), 4);
    assert_eq!(area.center(), Point3::new(1, 2, 3));
    assert_eq!(area.radius(), 4);
    let mut relevance = Relevance::default();
    relevance.push(area);
    assert_eq!(relevance.areas(), &vec![area]);
}
