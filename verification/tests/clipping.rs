use ibuki::clipping::{
    cohen_sutherland_line_clip, compute_out_code, cyrus_beck_line_clip, edge_side, inside, intersect,
    line_passing_two_points_x, line_passing_two_points_y, sutherland_hodgman_polygon_clip,
    sutherland_hodgman_polygon_edge_clip, ClippingRectangle, BOTTOM, LEFT, RIGHT, TOP,
};
use ibuki::line::Line;
use ibuki::pixel_color::PixelColor;
use ibuki::point2d::Point2d;
use ibuki::polygon::Polygon;

fn rectangle() -> ClippingRectangle {
    ClippingRectangle::new(30, 30, 200, 200)
}

fn square() -> Vec<Point2d> {
    points(&[(30, 30), (30, 200), (200, 200), (200, 30)])
}

fn points(coords: &[(i32, i32)]) -> Vec<Point2d> {
    coords.iter().map(|&(x, y)| Point2d::new(x, y)).collect()
}

fn coords(line: Option<Line>) -> Option<(i32, i32, i32, i32)> {
    line.map(|l| (l.first.x, l.first.y, l.last.x, l.last.y))
}

fn vertices(polygon: &Option<Polygon>) -> Option<Vec<(i32, i32)>> {
    polygon.as_ref().map(|p| p.get_points().iter().map(|v| (v.x, v.y)).collect())
}

fn cs(x1: i32, y1: i32, x2: i32, y2: i32) -> Option<(i32, i32, i32, i32)> {
    coords(cohen_sutherland_line_clip(&Line::new(x1, y1, x2, y2), &rectangle()))
}

fn cb(x1: i32, y1: i32, x2: i32, y2: i32) -> Option<(i32, i32, i32, i32)> {
    coords(cyrus_beck_line_clip(&Line::new(x1, y1, x2, y2), &square()))
}

#[test]
fn out_code_has_one_bit_per_violated_edge() {
    let r = rectangle();
    assert_eq!((TOP, BOTTOM, RIGHT, LEFT), (1, 2, 4, 8));
    assert_eq!(compute_out_code(&Point2d::new(100, 100), &r), 0);
    assert_eq!(compute_out_code(&Point2d::new(30, 200), &r), 0);
    assert_eq!(compute_out_code(&Point2d::new(200, 30), &r), 0);
    assert_eq!(compute_out_code(&Point2d::new(100, 201), &r), TOP);
    assert_eq!(compute_out_code(&Point2d::new(100, 29), &r), BOTTOM);
    assert_eq!(compute_out_code(&Point2d::new(201, 100), &r), RIGHT);
    assert_eq!(compute_out_code(&Point2d::new(29, 100), &r), LEFT);
    assert_eq!(compute_out_code(&Point2d::new(500, 500), &r), TOP | RIGHT);
    assert_eq!(compute_out_code(&Point2d::new(0, 500), &r), TOP | LEFT);
    assert_eq!(compute_out_code(&Point2d::new(500, 0), &r), BOTTOM | RIGHT);
    assert_eq!(compute_out_code(&Point2d::new(0, 0), &r), BOTTOM | LEFT);
}

#[test]
fn line_equation_is_solved_to_the_nearest_integer() {
    let a = Point2d::new(0, 0);
    let b = Point2d::new(10, 4);
    assert_eq!(line_passing_two_points_x(&a, &b, 0), 0);
    assert_eq!(line_passing_two_points_x(&a, &b, 4), 10);
    assert_eq!(line_passing_two_points_x(&a, &b, 2), 5);
    assert_eq!(line_passing_two_points_x(&a, &b, 1), 3);
    assert_eq!(line_passing_two_points_x(&a, &b, 3), 8);
    assert_eq!(line_passing_two_points_y(&a, &b, 5), 2);
    assert_eq!(line_passing_two_points_y(&a, &b, 3), 1);
    assert_eq!(line_passing_two_points_y(&a, &b, 4), 2);
    assert_eq!(line_passing_two_points_y(&a, &b, 10), 4);
    assert_eq!(line_passing_two_points_y(&b, &a, 4), 2);
    let c = Point2d::new(10, -3);
    assert_eq!(line_passing_two_points_y(&a, &c, 5), -1);
    assert_eq!(line_passing_two_points_y(&a, &c, 4), -1);
    assert_eq!(line_passing_two_points_y(&a, &c, 6), -2);
    assert_eq!(line_passing_two_points_x(&c, &a, -1), 3);
}

#[test]
fn line_equation_handles_the_widest_segment() {
    let a = Point2d::new(i32::MIN, i32::MIN);
    let b = Point2d::new(i32::MAX, i32::MAX);
    assert_eq!(line_passing_two_points_x(&a, &b, 0), 0);
    assert_eq!(line_passing_two_points_y(&a, &b, 12345), 12345);
    assert_eq!(line_passing_two_points_y(&b, &a, i32::MIN), i32::MIN);
}

#[test]
fn cohen_sutherland_keeps_a_line_inside() {
    assert_eq!(cs(40, 50, 180, 190), Some((40, 50, 180, 190)));
    assert_eq!(cs(30, 30, 200, 200), Some((30, 30, 200, 200)));
    assert_eq!(cs(100, 100, 100, 100), Some((100, 100, 100, 100)));
}

#[test]
fn cohen_sutherland_rejects_a_line_beyond_one_edge() {
    assert_eq!(cs(0, 0, 29, 500), None);
    assert_eq!(cs(201, 0, 300, 500), None);
    assert_eq!(cs(0, 201, 500, 300), None);
    assert_eq!(cs(0, 0, 500, 29), None);
    assert_eq!(cs(10, 10, 10, 10), None);
}

#[test]
fn cohen_sutherland_clips_the_diagonal() {
    assert_eq!(cs(10, 10, 500, 500), Some((30, 30, 200, 200)));
    assert_eq!(cs(500, 500, 10, 10), Some((200, 200, 30, 30)));
}

#[test]
fn cohen_sutherland_clips_one_end() {
    assert_eq!(cs(100, 100, 300, 100), Some((100, 100, 200, 100)));
    assert_eq!(cs(100, 100, 100, 0), Some((100, 100, 100, 30)));
    assert_eq!(cs(0, 100, 100, 100), Some((30, 100, 100, 100)));
    assert_eq!(cs(100, 300, 100, 100), Some((100, 200, 100, 100)));
    assert_eq!(cs(100, 100, 300, 200), Some((100, 100, 200, 150)));
}

#[test]
fn cohen_sutherland_clips_both_ends() {
    assert_eq!(cs(0, 100, 300, 100), Some((30, 100, 200, 100)));
    assert_eq!(cs(100, 0, 100, 300), Some((100, 30, 100, 200)));
    assert_eq!(cs(0, 50, 250, 175), Some((30, 65, 200, 150)));
}

#[test]
fn cohen_sutherland_rejects_a_line_passing_a_corner() {
    assert_eq!(cs(0, 150, 60, 300), None);
    assert_eq!(cs(180, 0, 300, 60), None);
}

#[test]
fn cohen_sutherland_decides_on_the_exact_crossing() {
    // The line misses the rectangle by half a unit, whichever way it runs.
    let r = ClippingRectangle::new(0, 0, 10, 10);
    assert_eq!(coords(cohen_sutherland_line_clip(&Line::new(0, -50, -1, 50), &r)), None);
    assert_eq!(coords(cohen_sutherland_line_clip(&Line::new(-1, 50, 0, -50), &r)), None);
    // x >= 0 needs the second half of the segment, y >= 0 the first third.
    assert_eq!(coords(cohen_sutherland_line_clip(&Line::new(-1, 1, 1, -2), &r)), None);
    assert_eq!(coords(cohen_sutherland_line_clip(&Line::new(1, -2, -1, 1), &r)), None);
    let small = ClippingRectangle::new(0, 0, 3, 4);
    assert_eq!(coords(cohen_sutherland_line_clip(&Line::new(0, -1, -1, 9), &small)), None);
    // The visible part runs from (1.85, 0) to (0, 3.43).
    let wide = ClippingRectangle::new(0, 0, 5, 4);
    assert_eq!(coords(cohen_sutherland_line_clip(&Line::new(4, -4, -3, 9), &wide)), Some((2, 0, 0, 3)));
    assert_eq!(coords(cohen_sutherland_line_clip(&Line::new(-3, 9, 4, -4), &wide)), Some((0, 3, 2, 0)));
    // The crossing with the bottom edge lies beyond the right edge by less
    // than half a unit: the end is cut at the right edge all the same.
    let square = rectangle();
    assert_eq!(coords(cohen_sutherland_line_clip(&Line::new(223, -68, 142, 283), &square)), Some((200, 32, 161, 200)));
    let s = ClippingRectangle::new(10, 10, 100, 20);
    let m = Line::new(0, 0, 300, 100);
    assert_eq!(coords(cohen_sutherland_line_clip(&m, &s)), Some((30, 10, 60, 20)));
}

#[test]
fn cohen_sutherland_touching_a_corner_leaves_the_corner() {
    let r = ClippingRectangle::new(0, 0, 10, 10);
    assert_eq!(coords(cohen_sutherland_line_clip(&Line::new(-5, 5, 5, -5), &r)), Some((0, 0, 0, 0)));
    assert_eq!(coords(cohen_sutherland_line_clip(&Line::new(5, 15, 15, 5), &r)), Some((10, 10, 10, 10)));
    assert_eq!(coords(cohen_sutherland_line_clip(&Line::new(-5, 6, 6, -5), &r)), Some((0, 1, 1, 0)));
    assert_eq!(coords(cohen_sutherland_line_clip(&Line::new(-5, 4, 4, -5), &r)), None);
}

#[test]
fn cohen_sutherland_never_swaps_the_ends() {
    let forward = cs(0, 50, 250, 175).unwrap();
    let backward = cs(250, 175, 0, 50).unwrap();
    assert!(forward.0 < forward.2);
    assert!(backward.0 > backward.2);
}

#[test]
fn cohen_sutherland_result_is_a_fixed_point() {
    for &(x1, y1, x2, y2) in &[(10, 10, 500, 500), (0, 50, 250, 175), (100, 100, 300, 200), (33, 1, 190, 777)] {
        let r = rectangle();
        if let Some(once) = cohen_sutherland_line_clip(&Line::new(x1, y1, x2, y2), &r) {
            assert_eq!(compute_out_code(&once.first, &r), 0);
            assert_eq!(compute_out_code(&once.last, &r), 0);
            assert_eq!(coords(cohen_sutherland_line_clip(&once, &r)), coords(Some(once)));
        }
    }
}

#[test]
fn cohen_sutherland_on_a_single_point_rectangle() {
    let r = ClippingRectangle::new(5, 5, 5, 5);
    assert_eq!(coords(cohen_sutherland_line_clip(&Line::new(0, 0, 10, 10), &r)), Some((5, 5, 5, 5)));
    assert_eq!(coords(cohen_sutherland_line_clip(&Line::new(0, 5, 10, 5), &r)), Some((5, 5, 5, 5)));
    assert_eq!(coords(cohen_sutherland_line_clip(&Line::new(0, 0, 10, 0), &r)), None);
}

#[test]
fn cohen_sutherland_on_extreme_coordinates() {
    let r = ClippingRectangle::new(-10, -10, 10, 10);
    let l = Line::new(i32::MIN, i32::MIN, i32::MAX, i32::MAX);
    assert_eq!(coords(cohen_sutherland_line_clip(&l, &r)), Some((-10, -10, 10, 10)));
    let whole = ClippingRectangle::new(i32::MIN, i32::MIN, i32::MAX, i32::MAX);
    assert_eq!(coords(cohen_sutherland_line_clip(&l, &whole)), coords(Some(l)));
}

#[test]
fn edge_side_is_negative_inside_the_square() {
    let edge = Line::new(30, 30, 30, 200);
    assert_eq!(edge_side(&edge, &Point2d::new(100, 100)), -170 * 70);
    assert_eq!(edge_side(&edge, &Point2d::new(10, 10)), 170 * 20);
    assert_eq!(edge_side(&edge, &Point2d::new(30, 999)), 0);
    assert!(inside(&Point2d::new(31, 0), &edge));
    assert!(!inside(&Point2d::new(30, 0), &edge));
    assert!(!inside(&Point2d::new(29, 0), &edge));
    let sq = square();
    for i in 0..4 {
        let e = Line { first: sq[i], last: sq[(i + 1) % 4] };
        assert!(inside(&Point2d::new(100, 100), &e));
    }
}

#[test]
fn edge_side_on_extreme_coordinates() {
    let edge = Line::new(i32::MIN, i32::MIN, i32::MAX, i32::MAX);
    let d = (i32::MAX as i128) - (i32::MIN as i128);
    assert_eq!(edge_side(&edge, &Point2d::new(i32::MAX, i32::MIN)), -d * d);
    assert_eq!(edge_side(&edge, &Point2d::new(i32::MIN, i32::MAX)), d * d);
}

#[test]
fn cyrus_beck_keeps_a_line_inside() {
    assert_eq!(cb(40, 50, 180, 190), Some((40, 50, 180, 190)));
    assert_eq!(cb(30, 30, 200, 200), Some((30, 30, 200, 200)));
}

#[test]
fn cyrus_beck_passes_a_point_through() {
    assert_eq!(cb(10, 10, 10, 10), Some((10, 10, 10, 10)));
    assert_eq!(cb(100, 100, 100, 100), Some((100, 100, 100, 100)));
}

#[test]
fn cyrus_beck_passes_through_a_region_of_few_vertices() {
    let l = Line::new(10, 10, 500, 500);
    assert_eq!(coords(cyrus_beck_line_clip(&l, &points(&[]))), Some((10, 10, 500, 500)));
    assert_eq!(coords(cyrus_beck_line_clip(&l, &points(&[(0, 0), (5, 5)]))), Some((10, 10, 500, 500)));
}

#[test]
fn cyrus_beck_clips_the_diagonal() {
    assert_eq!(cb(10, 10, 500, 500), Some((30, 30, 200, 200)));
    assert_eq!(cb(500, 500, 10, 10), Some((200, 200, 30, 30)));
}

#[test]
fn cyrus_beck_rejects_a_line_passing_the_region() {
    assert_eq!(cb(0, 150, 60, 300), None);
    assert_eq!(cb(0, 0, 29, 500), None);
    assert_eq!(cb(180, 0, 300, 60), None);
}

#[test]
fn cyrus_beck_clips_against_a_triangle() {
    let triangle = points(&[(0, 0), (0, 10), (10, 0)]);
    let l = Line::new(-5, 2, 20, 2);
    assert_eq!(coords(cyrus_beck_line_clip(&l, &triangle)), Some((0, 2, 8, 2)));
    let m = Line::new(2, -4, 2, 30);
    assert_eq!(coords(cyrus_beck_line_clip(&m, &triangle)), Some((2, 0, 2, 8)));
}

#[test]
fn cyrus_beck_rounds_to_the_nearest_point() {
    let triangle = points(&[(0, 0), (0, 10), (10, 0)]);
    let l = Line::new(1, 1, 8, 7);
    assert_eq!(coords(cyrus_beck_line_clip(&l, &triangle)), Some((1, 1, 5, 5)));
}

#[test]
fn both_line_clippers_agree_on_a_battery() {
    let battery = [
        (40, 50, 180, 190),
        (100, 100, 101, 100),
        (10, 10, 500, 500),
        (100, 100, 300, 100),
        (100, 100, 100, 0),
        (0, 100, 100, 100),
        (100, 300, 100, 100),
        (100, 100, 300, 200),
        (0, 100, 300, 100),
        (100, 0, 100, 300),
        (0, 50, 250, 175),
        (250, 175, 0, 50),
        (20, 0, 210, 230),
        (0, 190, 230, 40),
        (45, 10, 180, 260),
        (0, 100, 100, 300),
        (150, 0, 300, 100),
        (0, 150, 60, 300),
        (180, 0, 300, 60),
        (0, 0, 500, 29),
        (-1000, 87, 1000, 143),
        (77, -4000, 123, 4000),
    ];
    for &(x1, y1, x2, y2) in &battery {
        let a = cs(x1, y1, x2, y2);
        let b = cb(x1, y1, x2, y2);
        assert_eq!(a.is_some(), b.is_some(), "{:?}", (x1, y1, x2, y2));
        if let (Some(a), Some(b)) = (a, b) {
            assert!((a.0 - b.0).abs() <= 1 && (a.1 - b.1).abs() <= 1, "{:?} {:?}", a, b);
            assert!((a.2 - b.2).abs() <= 1 && (a.3 - b.3).abs() <= 1, "{:?} {:?}", a, b);
        }
    }
}

#[test]
fn intersect_finds_the_crossing_on_the_segment() {
    let clip = Line::new(30, 30, 30, 200);
    let p = intersect(&Line::new(15, 150, 60, 250), &clip).unwrap();
    assert_eq!((p.x, p.y), (30, 183));
    let q = intersect(&Line::new(60, 250, 15, 150), &clip).unwrap();
    assert_eq!((q.x, q.y), (30, 183));
    let r = intersect(&Line::new(0, 0, 60, 0), &clip).unwrap();
    assert_eq!((r.x, r.y), (30, 0));
    let s = intersect(&Line::new(30, 7, 90, 7), &clip).unwrap();
    assert_eq!((s.x, s.y), (30, 7));
}

#[test]
fn intersect_finds_the_crossing_of_the_two_lines() {
    let clip = Line::new(30, 30, 30, 200);
    let p = intersect(&Line::new(40, 0, 90, 50), &clip).unwrap();
    assert_eq!((p.x, p.y), (30, -10));
    let q = intersect(&Line::new(0, 0, 20, 50), &clip).unwrap();
    assert_eq!((q.x, q.y), (30, 75));
    let r = intersect(&Line::new(0, 1, 1, 2), &Line::new(0, 0, 10, 0)).unwrap();
    assert_eq!((r.x, r.y), (-1, 0));
    let s = intersect(&Line::new(0, 0, 3, 1), &Line::new(10, 0, 10, 5)).unwrap();
    assert_eq!((s.x, s.y), (10, 3));
}

#[test]
fn intersect_is_undefined_for_parallel_lines() {
    let clip = Line::new(30, 30, 30, 200);
    assert!(intersect(&Line::new(50, 0, 50, 90), &clip).is_none());
    assert!(intersect(&Line::new(30, 0, 30, 90), &clip).is_none());
    assert!(intersect(&Line::new(7, 7, 7, 7), &clip).is_none());
    assert!(intersect(&Line::new(0, 0, 60, 0), &Line::new(5, 5, 5, 5)).is_none());
}

#[test]
fn intersect_is_undefined_outside_the_lattice() {
    let far = Line::new(i32::MAX - 1, 0, i32::MAX, 1);
    assert!(intersect(&far, &Line::new(0, 10, 5, 10)).is_none());
    let p = intersect(&far, &Line::new(0, 1, 5, 1)).unwrap();
    assert_eq!((p.x, p.y), (i32::MAX, 1));
}

#[test]
fn edge_clip_cuts_by_one_half_plane() {
    let polygon = Polygon::new(PixelColor::red(), points(&[(50, 20), (15, 150), (60, 250), (250, 140)]));
    let a = Point2d::new(30, 30);
    let b = Point2d::new(30, 200);
    let clipped = sutherland_hodgman_polygon_edge_clip(&polygon, (&a, &b));
    assert_eq!(vertices(&clipped), Some(vec![(30, 94), (30, 183), (60, 250), (250, 140), (50, 20)]));
    assert_eq!(clipped.unwrap().get_color(), PixelColor::red());
}

#[test]
fn edge_clip_of_a_polygon_beyond_the_edge_is_none() {
    let polygon = Polygon::new(PixelColor::red(), points(&[(0, 0), (10, 50), (29, 10), (30, 70)]));
    let a = Point2d::new(30, 30);
    let b = Point2d::new(30, 200);
    assert!(sutherland_hodgman_polygon_edge_clip(&polygon, (&a, &b)).is_none());
    let empty = Polygon::new(PixelColor::red(), points(&[]));
    assert!(sutherland_hodgman_polygon_edge_clip(&empty, (&a, &b)).is_none());
}

#[test]
fn sutherland_hodgman_clips_the_example_into_the_square() {
    let polygon = Polygon::new(PixelColor::red(), points(&[(50, 20), (15, 150), (60, 250), (250, 140)]));
    let clipped = sutherland_hodgman_polygon_clip(&polygon, &square());
    let v = vertices(&clipped).unwrap();
    assert!(!v.is_empty());
    for &(x, y) in &v {
        assert!(30 <= x && x <= 200 && 30 <= y && y <= 200, "{:?}", (x, y));
    }
    assert_eq!(
        v,
        vec![(146, 200), (200, 169), (200, 110), (67, 30), (47, 30), (30, 94), (30, 183), (38, 200)]
    );
    assert_eq!(clipped.unwrap().get_color(), PixelColor::red());
}

#[test]
fn sutherland_hodgman_returns_a_contained_polygon_rotated() {
    let green = PixelColor { red: 0, green: 255, blue: 0, alpha: 7 };
    let polygon = Polygon::new(green, points(&[(50, 50), (150, 60), (120, 150), (60, 120), (40, 80)]));
    let clipped = sutherland_hodgman_polygon_clip(&polygon, &square());
    assert_eq!(vertices(&clipped), Some(vec![(40, 80), (50, 50), (150, 60), (120, 150), (60, 120)]));
    assert_eq!(clipped.as_ref().unwrap().get_color(), green);
    let again = sutherland_hodgman_polygon_clip(&clipped.unwrap(), &square());
    assert_eq!(vertices(&again), Some(vec![(60, 120), (40, 80), (50, 50), (150, 60), (120, 150)]));
    assert_eq!(again.unwrap().get_color(), green);
}

#[test]
fn sutherland_hodgman_of_a_contained_square_is_identical() {
    let polygon = Polygon::new(PixelColor::red(), points(&[(50, 50), (150, 50), (150, 150), (50, 150)]));
    let once = sutherland_hodgman_polygon_clip(&polygon, &square());
    assert_eq!(vertices(&once), Some(vec![(50, 50), (150, 50), (150, 150), (50, 150)]));
    let twice = sutherland_hodgman_polygon_clip(&once.unwrap(), &square());
    assert_eq!(vertices(&twice), Some(vec![(50, 50), (150, 50), (150, 150), (50, 150)]));
}

#[test]
fn sutherland_hodgman_of_a_polygon_outside_is_none() {
    let left = Polygon::new(PixelColor::red(), points(&[(0, 0), (10, 50), (20, 10)]));
    assert!(sutherland_hodgman_polygon_clip(&left, &square()).is_none());
    let above = Polygon::new(PixelColor::red(), points(&[(50, 300), (100, 400), (150, 300)]));
    assert!(sutherland_hodgman_polygon_clip(&above, &square()).is_none());
    let corner = Polygon::new(PixelColor::red(), points(&[(150, 250), (250, 150), (250, 250)]));
    assert!(sutherland_hodgman_polygon_clip(&corner, &square()).is_none());
    let empty = Polygon::new(PixelColor::red(), points(&[]));
    assert!(sutherland_hodgman_polygon_clip(&empty, &square()).is_none());
}

#[test]
fn sutherland_hodgman_of_a_polygon_beyond_a_slanted_edge_is_none() {
    // Every vertex lies beyond the second edge of the clip triangle.
    let clip = points(&[(-3, -1), (0, 6), (-1, -2)]);
    let polygon = Polygon::new(PixelColor::red(), points(&[(5, 4), (1, 10), (0, 5)]));
    let second = Line { first: clip[1], last: clip[2] };
    for v in polygon.get_points() {
        assert!(!inside(v, &second));
    }
    assert!(sutherland_hodgman_polygon_clip(&polygon, &clip).is_none());
    // The polygon lies on or below a line that the clip triangle lies
    // strictly above.
    let above = points(&[(1, 4), (4, 3), (3, 1)]);
    let below = Polygon::new(PixelColor::red(), points(&[(6, 3), (-1, -2), (1, -1)]));
    assert!(sutherland_hodgman_polygon_clip(&below, &above).is_none());
}

#[test]
fn sutherland_hodgman_stays_within_half_a_unit_of_the_clip_region() {
    // This polygon lies outside the clip triangle altogether.
    let clip = points(&[(0, 5), (3, 2), (0, 3)]);
    let polygon = Polygon::new(PixelColor::red(), points(&[(5, -2), (4, 3), (2, 5)]));
    assert!(sutherland_hodgman_polygon_clip(&polygon, &clip).is_none());
    // This one crosses the slanted edge of the clip triangle.
    let triangle = points(&[(0, 0), (0, 10), (10, 0)]);
    let band = Polygon::new(PixelColor::red(), points(&[(-5, 2), (20, 3), (20, 5), (-5, 4)]));
    let clipped = sutherland_hodgman_polygon_clip(&band, &triangle);
    let found = vertices(&clipped).unwrap();
    assert!(found.len() >= 3);
    for v in found {
        for i in 0..3 {
            let e = Line { first: triangle[i], last: triangle[(i + 1) % 3] };
            let reach = ((e.last.x - e.first.x).abs() + (e.last.y - e.first.y).abs()) as i128;
            assert!(2 * edge_side(&e, &Point2d::new(v.0, v.1)) <= reach, "{:?}", v);
        }
    }
}

#[test]
fn sutherland_hodgman_of_a_polygon_beyond_any_one_edge_is_none() {
    // below the square: beyond its last edge only
    let below = Polygon::new(PixelColor::red(), points(&[(50, 10), (100, 20), (150, 5)]));
    assert!(sutherland_hodgman_polygon_clip(&below, &square()).is_none());
    // touching the lower edge from outside
    let touching = Polygon::new(PixelColor::red(), points(&[(50, 30), (100, 30), (75, 10)]));
    assert!(sutherland_hodgman_polygon_clip(&touching, &square()).is_none());
    // right of the square, reaching above and below it
    let right = Polygon::new(PixelColor::red(), points(&[(200, 0), (250, 400), (300, -100)]));
    assert!(sutherland_hodgman_polygon_clip(&right, &square()).is_none());
    // the same polygon one unit further left is cut to a sliver
    let cut = Polygon::new(PixelColor::red(), points(&[(199, 100), (250, 400), (300, -100)]));
    assert!(sutherland_hodgman_polygon_clip(&cut, &square()).is_some());
}

#[test]
fn cyrus_beck_twice_on_a_line_inside_changes_nothing() {
    let l = Line::new(40, 50, 180, 190);
    let once = cyrus_beck_line_clip(&l, &square()).unwrap();
    let twice = cyrus_beck_line_clip(&once, &square());
    assert_eq!(coords(twice), Some((40, 50, 180, 190)));
}

#[test]
fn cyrus_beck_ignores_edges_parallel_to_the_line() {
    // The line runs left of the square, parallel to its left edge: only the
    // top and the bottom edge cut it.
    assert_eq!(cb(10, 0, 10, 500), Some((10, 30, 10, 200)));
    assert_eq!(cs(10, 0, 10, 500), None);
}

#[test]
fn sutherland_hodgman_drops_an_edge_that_runs_along_the_boundary() {
    // The polygon touches the left edge of the square along x = 30: points
    // on the boundary count as outside, and the edge on it gives nothing.
    // The two other edges meet the boundary at their own ends.
    let polygon = Polygon::new(PixelColor::red(), points(&[(30, 50), (30, 150), (100, 100)]));
    let clipped = sutherland_hodgman_polygon_clip(&polygon, &square());
    assert_eq!(vertices(&clipped), Some(vec![(30, 150), (100, 100), (30, 50)]));
    let flat = Polygon::new(PixelColor::red(), points(&[(30, 50), (30, 150), (30, 100)]));
    assert!(sutherland_hodgman_polygon_clip(&flat, &square()).is_none());
}

#[test]
fn sutherland_hodgman_with_no_clip_edges_returns_the_polygon() {
    let polygon = Polygon::new(PixelColor::red(), points(&[(0, 0), (10, 50), (20, 10)]));
    let clipped = sutherland_hodgman_polygon_clip(&polygon, &points(&[]));
    assert_eq!(vertices(&clipped), Some(vec![(0, 0), (10, 50), (20, 10)]));
}
