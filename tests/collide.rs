use among_us::collide::{Circle, Geometry, GeometryError, Polygon, Projection};
use among_us::math::{isqrt, Axis, Vector2};

/// One world unit in the fixed-point positions used here.
const UNIT: i32 = 1_000_000;

fn polygon(points: &[(i32, i32)]) -> Geometry {
    let mut p = Polygon::new();
    for &(x, y) in points {
        p.push(Vector2::new(x, y));
    }
    Geometry::Polygon(p)
}

fn circle(x: i32, y: i32, r: i32) -> Geometry {
    Geometry::Circle(Circle::new(Vector2::new(x, y), r))
}

fn scenario_square() -> Geometry {
    polygon(&[
        (10 * UNIT, 12 * UNIT),
        (10 * UNIT, 8 * UNIT),
        (6 * UNIT, 8 * UNIT),
        (6 * UNIT, 12 * UNIT),
    ])
}

fn unit_square() -> Geometry {
    polygon(&[(UNIT, UNIT), (UNIT, -UNIT), (-UNIT, -UNIT), (-UNIT, UNIT)])
}

#[test]
fn polygon_circle_just_touching_collides() {
    let c = circle(15 * UNIT, 10 * UNIT, 5_000_001);
    assert_eq!(scenario_square().collide(&c), Ok(true));
    assert_eq!(c.collide(&scenario_square()), Ok(true));
}

#[test]
fn polygon_circle_just_apart_does_not_collide() {
    let c = circle(15 * UNIT, 10 * UNIT, 4_999_999);
    assert_eq!(scenario_square().collide(&c), Ok(false));
    assert_eq!(c.collide(&scenario_square()), Ok(false));
}

#[test]
fn circle_circle_apart_and_overlapping() {
    assert_eq!(circle(0, 0, UNIT).collide(&circle(3 * UNIT, 0, UNIT)), Ok(false));
    assert_eq!(circle(0, 0, 2 * UNIT).collide(&circle(3 * UNIT, 0, 2 * UNIT)), Ok(true));
}

#[test]
fn large_circle_contains_square() {
    let big = circle(0, 0, 10 * UNIT);
    assert_eq!(big.contain(&unit_square()), Ok(true));
    assert_eq!(big.collide(&unit_square()), Ok(true));
}

#[test]
fn small_circle_overlaps_square_without_containing_it() {
    for r in [UNIT, 1_200_000] {
        let c = circle(0, 0, r);
        assert_eq!(c.contain(&unit_square()), Ok(false));
        assert_eq!(c.collide(&unit_square()), Ok(true));
    }
}

#[test]
fn square_contains_tiny_circle() {
    let c = circle(0, 0, UNIT / 2);
    assert_eq!(unit_square().contain(&c), Ok(true));
    assert_eq!(c.contain(&unit_square()), Ok(false));
    assert_eq!(c.collide(&unit_square()), Ok(true));
}

#[test]
fn empty_polygon_is_invalid() {
    let empty = Geometry::Polygon(Polygon::new());
    assert!(matches!(empty.project(Axis::new(1, 0)), Err(GeometryError::InvalidGeometry)));
    assert!(matches!(empty.axis(&unit_square()), Err(GeometryError::InvalidGeometry)));
    assert_eq!(empty.collide(&circle(0, 0, UNIT)), Err(GeometryError::InvalidGeometry));
    assert_eq!(circle(0, 0, UNIT).collide(&empty), Err(GeometryError::InvalidGeometry));
    assert_eq!(empty.contain(&unit_square()), Err(GeometryError::InvalidGeometry));
}

#[test]
fn zero_length_edge_is_invalid() {
    let p = polygon(&[(0, 0), (0, 0), (UNIT, 0), (0, UNIT)]);
    assert!(matches!(p.axis(&unit_square()), Err(GeometryError::InvalidGeometry)));
    assert_eq!(p.collide(&unit_square()), Err(GeometryError::InvalidGeometry));
    let single = polygon(&[(0, 0)]);
    assert_eq!(single.collide(&unit_square()), Err(GeometryError::InvalidGeometry));
}

#[test]
fn collide_is_symmetric() {
    let shapes = [
        unit_square(),
        scenario_square(),
        circle(0, 0, UNIT),
        circle(2 * UNIT, 0, UNIT),
        circle(15 * UNIT, 10 * UNIT, 5_000_001),
        polygon(&[(0, 0), (3 * UNIT, 0), (0, 3 * UNIT)]),
    ];
    for a in shapes.iter() {
        for b in shapes.iter() {
            assert_eq!(a.collide(b), b.collide(a));
        }
    }
}

#[test]
fn shapes_collide_with_and_contain_themselves() {
    let shapes = [
        unit_square(),
        scenario_square(),
        circle(7, -3, UNIT),
        polygon(&[(0, 0), (3 * UNIT, 0), (0, 3 * UNIT)]),
    ];
    for a in shapes.iter() {
        assert_eq!(a.collide(a), Ok(true));
        assert_eq!(a.contain(a), Ok(true));
    }
}

#[test]
fn containment_implies_collision() {
    let shapes = [
        unit_square(),
        circle(0, 0, 10 * UNIT),
        circle(0, 0, UNIT / 2),
        circle(0, 0, UNIT),
        polygon(&[(0, 0), (UNIT / 2, 0), (0, UNIT / 2)]),
    ];
    for a in shapes.iter() {
        for b in shapes.iter() {
            if a.contain(b) == Ok(true) {
                assert_eq!(a.collide(b), Ok(true));
            }
        }
    }
}

#[test]
fn coincident_circles() {
    assert_eq!(circle(0, 0, UNIT).collide(&circle(0, 0, 1)), Ok(true));
    assert_eq!(circle(0, 0, UNIT).contain(&circle(0, 0, 1)), Ok(true));
    assert_eq!(circle(0, 0, 1).contain(&circle(0, 0, UNIT)), Ok(false));
}

#[test]
fn projection_orders_its_end_points() {
    let p = Projection::new(5, 2);
    assert_eq!((p.start(), p.end()), (2, 5));
    let q = Projection::new(-1, 3);
    assert_eq!((q.start(), q.end()), (-1, 3));
}

#[test]
fn projection_set_start_past_end_swaps() {
    let mut p = Projection::new(0, 10);
    p.set_start(4);
    assert_eq!((p.start(), p.end()), (4, 10));
    p.set_start(20);
    assert_eq!((p.start(), p.end()), (10, 20));
    assert!(p.start() <= p.end());
}

#[test]
fn projection_set_end_before_start_swaps() {
    let mut p = Projection::new(0, 10);
    p.set_end(7);
    assert_eq!((p.start(), p.end()), (0, 7));
    p.set_end(-5);
    assert_eq!((p.start(), p.end()), (-5, 0));
    assert!(p.start() <= p.end());
}

#[test]
fn touching_intervals_do_not_overlap() {
    let a = Projection::new(0, 1);
    let b = Projection::new(1, 2);
    assert!(!a.overlap(&b));
    assert!(!b.overlap(&a));
    let c = Projection::new(0, 3);
    assert!(a.overlap(&c) && c.overlap(&b));
}

#[test]
fn identical_intervals_contain_each_other() {
    let a = Projection::new(-4, 9);
    let b = Projection::new(9, -4);
    assert!(a.contains(&b));
    assert!(b.contains(&a));
    assert!(!Projection::new(0, 1).contains(&Projection::new(0, 2)));
}

#[test]
fn circle_projection_widens_by_radius_times_axis_length() {
    let c = Circle::new(Vector2::new(2, 1), 5);
    let p = c.project(Axis::new(3, 4));
    // centre projects to 10, axis length 5, radius 5: half extent 25
    assert_eq!((p.start(), p.end()), (-15, 35));
    let q = c.project(Axis::new(1, 1));
    // half extent floor(5 * sqrt(2)) = 7
    assert_eq!((q.start(), q.end()), (-4, 10));
}

#[test]
fn polygon_projection_spans_its_vertices() {
    let p = Polygon::from_vertices(vec![Vector2::new(1, 5), Vector2::new(-2, 0), Vector2::new(4, -1)]);
    let r = p.project(Axis::new(1, 0)).ok().unwrap();
    assert_eq!((r.start(), r.end()), (-2, 4));
    let r = p.project(Axis::new(0, 2)).ok().unwrap();
    assert_eq!((r.start(), r.end()), (-2, 10));
    let single = Polygon::from_vertices(vec![Vector2::new(3, 3)]);
    let r = single.project(Axis::new(1, 1)).ok().unwrap();
    assert_eq!((r.start(), r.end()), (6, 6));
}

#[test]
fn polygon_axes_include_the_closing_edge() {
    let tri = polygon(&[(0, 0), (2, 0), (0, 2)]);
    let axes = tri.axis(&circle(0, 0, 1)).ok().unwrap();
    assert_eq!(axes, vec![Axis::new(0, 2), Axis::new(-2, -2), Axis::new(2, 0)]);
}

#[test]
fn circle_axes_point_from_each_vertex_to_the_centre() {
    let c = circle(5, 5, 1);
    let axes = c.axis(&polygon(&[(0, 0), (5, 5), (5, 0)])).ok().unwrap();
    assert_eq!(axes, vec![Axis::new(5, 5), Axis::new(1, 0), Axis::new(0, 5)]);
    assert_eq!(c.vertices(), vec![Vector2::new(5, 5)]);
}

#[test]
fn integer_square_root() {
    assert_eq!(isqrt(0), 0);
    assert_eq!(isqrt(15), 3);
    assert_eq!(isqrt(16), 4);
    assert_eq!(isqrt(u128::MAX), u64::MAX);
}

#[test]
fn polygon_from_vertex_list() {
    let shifted: Vec<Vector2> = [(0, 2), (0, -2), (-4, -2), (-4, 2)]
        .iter()
        .map(|&(x, y)| Vector2::new((x + 10) * UNIT, (y + 10) * UNIT))
        .collect();
    let p: Polygon = shifted.into();
    assert_eq!(p.vertices().len(), 4);
    let g = Geometry::Polygon(p);
    assert_eq!(g.collide(&circle(15 * UNIT, 10 * UNIT, 5_000_001)), Ok(true));
}
