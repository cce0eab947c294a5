use ibuki::clipping::{
    cohen_sutherland_line_clip, cyrus_beck_line_clip, sutherland_hodgman_polygon_clip, ClippingRectangle,
};
use ibuki::draw::Draw;
use ibuki::line::Line;
use ibuki::pixel_color::PixelColor;
use ibuki::point2d::Point2d;
use ibuki::polygon::Polygon;
use ibuki::raw_canvas::RawCanvas;

/// A small deterministic generator of pseudo-random numbers.
struct Numbers(u64);

impl Numbers {
    fn next(&mut self) -> u64 {
        self.0 = self.0.wrapping_mul(6364136223846793005).wrapping_add(1442695040888963407);
        self.0 >> 33
    }

    fn between(&mut self, low: i32, high: i32) -> i32 {
        low + (self.next() % ((high - low + 1) as u64)) as i32
    }
}

fn square() -> Vec<Point2d> {
    vec![Point2d::new(30, 30), Point2d::new(30, 200), Point2d::new(200, 200), Point2d::new(200, 30)]
}

/// The part of the line within [30, 200] x [30, 200], in exact arithmetic.
fn exact_clip(l: &Line) -> Option<(f64, f64, f64, f64)> {
    let (x1, y1) = (l.first.x as f64, l.first.y as f64);
    let (dx, dy) = (l.last.x as f64 - x1, l.last.y as f64 - y1);
    let mut t0 = 0.0f64;
    let mut t1 = 1.0f64;
    for &(p, q) in &[(-dx, x1 - 30.0), (dx, 200.0 - x1), (-dy, y1 - 30.0), (dy, 200.0 - y1)] {
        if p == 0.0 {
            if q < 0.0 {
                return None;
            }
        } else if p < 0.0 {
            t0 = t0.max(q / p);
        } else {
            t1 = t1.min(q / p);
        }
    }
    if t0 > t1 {
        None
    } else {
        Some((x1 + t0 * dx, y1 + t0 * dy, x1 + t1 * dx, y1 + t1 * dy))
    }
}

/// How far the point is from the exact line, measured along the axis on
/// which it is nearer.
fn off_line(l: &Line, p: &Point2d) -> f64 {
    let (x1, y1) = (l.first.x as f64, l.first.y as f64);
    let (dx, dy) = (l.last.x as f64 - x1, l.last.y as f64 - y1);
    let (px, py) = (p.x as f64, p.y as f64);
    let cross = (dx * (py - y1) - dy * (px - x1)).abs();
    let along_x = if dy != 0.0 { cross / dy.abs() } else { f64::INFINITY };
    let along_y = if dx != 0.0 { cross / dx.abs() } else { f64::INFINITY };
    if dx == 0.0 && dy == 0.0 {
        (px - x1).abs() + (py - y1).abs()
    } else {
        along_x.min(along_y)
    }
}

fn in_square(p: &Point2d) -> bool {
    30 <= p.x && p.x <= 200 && 30 <= p.y && p.y <= 200
}

#[test]
fn both_line_clippers_follow_the_exact_line_through_the_square() {
    let mut numbers = Numbers(7);
    let rectangle = ClippingRectangle::new(30, 30, 200, 200);
    let mut crossing_none = 0;
    let mut crossing_one = 0;
    let mut crossing_two = 0;
    for _ in 0..3000 {
        // a line through a point well inside the square
        let cx = numbers.between(60, 170);
        let cy = numbers.between(60, 170);
        let (ux, uy) = (numbers.between(-40, 40), numbers.between(-40, 40));
        let (a, b) = (numbers.between(0, 6), numbers.between(0, 6));
        let line = Line::new(cx - a * ux, cy - a * uy, cx + b * ux, cy + b * uy);
        let exact = exact_clip(&line).unwrap();
        let by_codes = cohen_sutherland_line_clip(&line, &rectangle).unwrap();
        let by_window = cyrus_beck_line_clip(&line, &square()).unwrap();
        // the window clipper rounds the exact ends of the visible part
        assert!((by_window.first.x as f64 - exact.0).abs() <= 0.5 + 1e-9, "{:?} {:?}", line, by_window);
        assert!((by_window.first.y as f64 - exact.1).abs() <= 0.5 + 1e-9, "{:?} {:?}", line, by_window);
        assert!((by_window.last.x as f64 - exact.2).abs() <= 0.5 + 1e-9, "{:?} {:?}", line, by_window);
        assert!((by_window.last.y as f64 - exact.3).abs() <= 0.5 + 1e-9, "{:?} {:?}", line, by_window);
        // both results lie in the square and within half a unit of the line
        for clipped in [by_codes, by_window] {
            for p in [clipped.first, clipped.last] {
                assert!(in_square(&p), "{:?} {:?}", line, clipped);
                assert!(off_line(&line, &p) <= 0.5 + 1e-9, "{:?} {:?}", line, clipped);
            }
        }
        // an end that was replaced lies on the boundary of the square
        for (given, got) in [(line.first, by_codes.first), (line.last, by_codes.last)] {
            if got != given {
                assert!(got.x == 30 || got.x == 200 || got.y == 30 || got.y == 200);
            }
        }
        let moved = (by_codes.first != line.first) as u32 + (by_codes.last != line.last) as u32;
        match moved {
            0 => crossing_none += 1,
            1 => crossing_one += 1,
            _ => crossing_two += 1,
        }
    }
    assert!(crossing_none > 100 && crossing_one > 100 && crossing_two > 100);
}

#[test]
fn both_line_clippers_agree_on_gentle_lines() {
    // On a diagonal line, half a unit across the line is half a unit along
    // it, so that the two results differ by at most one unit.
    let mut numbers = Numbers(19);
    let rectangle = ClippingRectangle::new(30, 30, 200, 200);
    for _ in 0..2000 {
        let cx = numbers.between(60, 170);
        let cy = numbers.between(60, 170);
        let s = if numbers.between(0, 1) == 0 { 1 } else { -1 };
        let (a, b) = (numbers.between(0, 250), numbers.between(0, 250));
        let line = Line::new(cx - a, cy - s * a, cx + b, cy + s * b);
        let by_codes = cohen_sutherland_line_clip(&line, &rectangle).unwrap();
        let by_window = cyrus_beck_line_clip(&line, &square()).unwrap();
        assert!((by_codes.first.x - by_window.first.x).abs() <= 1, "{:?}", line);
        assert!((by_codes.first.y - by_window.first.y).abs() <= 1, "{:?}", line);
        assert!((by_codes.last.x - by_window.last.x).abs() <= 1, "{:?}", line);
        assert!((by_codes.last.y - by_window.last.y).abs() <= 1, "{:?}", line);
    }
}

#[test]
fn rectangle_clipper_returns_the_exact_visible_part_rounded() {
    let mut numbers = Numbers(11);
    let rectangle = ClippingRectangle::new(30, 30, 200, 200);
    let mut some = 0;
    let mut none = 0;
    for _ in 0..20000 {
        let line = Line::new(
            numbers.between(-100, 330),
            numbers.between(-100, 330),
            numbers.between(-100, 330),
            numbers.between(-100, 330),
        );
        let clipped = cohen_sutherland_line_clip(&line, &rectangle);
        match exact_clip(&line) {
            Some(exact) => {
                let c = clipped.unwrap();
                assert!((c.first.x as f64 - exact.0).abs() <= 0.5 + 1e-9, "{:?} {:?}", line, c);
                assert!((c.first.y as f64 - exact.1).abs() <= 0.5 + 1e-9, "{:?} {:?}", line, c);
                assert!((c.last.x as f64 - exact.2).abs() <= 0.5 + 1e-9, "{:?} {:?}", line, c);
                assert!((c.last.y as f64 - exact.3).abs() <= 0.5 + 1e-9, "{:?} {:?}", line, c);
                assert!(in_square(&c.first) && in_square(&c.last));
                let (dx, dy) = (line.last.x - line.first.x, line.last.y - line.first.y);
                let (cx, cy) = (c.last.x - c.first.x, c.last.y - c.first.y);
                assert!(cx * dx.signum() >= 0 && cy * dy.signum() >= 0, "{:?} {:?}", line, c);
                assert!((dx != 0 || cx == 0) && (dy != 0 || cy == 0), "{:?} {:?}", line, c);
                let again = cohen_sutherland_line_clip(&c, &rectangle).unwrap();
                assert_eq!((again.first, again.last), (c.first, c.last));
                let back = cohen_sutherland_line_clip(&Line { first: line.last, last: line.first }, &rectangle)
                    .unwrap();
                assert_eq!((back.first, back.last), (c.last, c.first));
                some += 1;
            }
            None => {
                assert!(clipped.is_none(), "{:?} {:?}", line, clipped);
                none += 1;
            }
        }
    }
    assert!(some > 2000 && none > 2000);
}

#[test]
fn both_line_clippers_return_the_same_on_the_square() {
    let mut numbers = Numbers(23);
    let rectangle = ClippingRectangle::new(30, 30, 200, 200);
    let mut some = 0;
    let mut none = 0;
    for _ in 0..20000 {
        let line = Line::new(
            numbers.between(-60, 290),
            numbers.between(-60, 290),
            numbers.between(-60, 290),
            numbers.between(-60, 290),
        );
        if line.first.x == line.last.x || line.first.y == line.last.y {
            continue;
        }
        let by_codes = cohen_sutherland_line_clip(&line, &rectangle);
        let by_window = cyrus_beck_line_clip(&line, &square());
        assert_eq!(by_codes, by_window, "{:?}", line);
        if by_codes.is_some() {
            some += 1;
        } else {
            none += 1;
        }
    }
    assert!(some > 2000 && none > 2000);
}

#[test]
fn triangle_fill_counts_near_the_area() {
    let mut numbers = Numbers(3);
    for _ in 0..300 {
        let v: Vec<(i32, i32)> =
            (0..3).map(|_| (numbers.between(0, 60), numbers.between(0, 60))).collect();
        let doubled = ((v[1].0 - v[0].0) * (v[2].1 - v[0].1) - (v[1].1 - v[0].1) * (v[2].0 - v[0].0)).abs();
        let mut canvas = RawCanvas::new(64, 64, 16, 8, 0, 24);
        let points = v.iter().map(|&(x, y)| Point2d::new(x, y)).collect();
        Polygon::new(PixelColor::red(), points).draw(&mut canvas);
        let count = canvas.pixels().iter().filter(|&&p| p != 0).count() as i32;
        let height = v.iter().map(|p| p.1).max().unwrap() - v.iter().map(|p| p.1).min().unwrap();
        let width = v.iter().map(|p| p.0).max().unwrap() - v.iter().map(|p| p.0).min().unwrap();
        // each row is off by less than two positions; the row of the middle
        // vertex may be off by its whole width
        assert!((2 * count - doubled).abs() <= 4 * (height + 1) + 2 * width, "{:?} {} {}", v, count, doubled);
        if doubled == 0 {
            assert_eq!(count, 0, "{:?}", v);
        }
    }
}

/// The side of the line from `a` to `b` on which `p` lies: negative on the
/// inner side of a clip edge.
fn side_of(a: &Point2d, b: &Point2d, p: &Point2d) -> i64 {
    let (dx, dy) = ((b.x - a.x) as i64, (b.y - a.y) as i64);
    dx * ((p.y - a.y) as i64) - dy * ((p.x - a.x) as i64)
}

/// Whether some line along an edge of one of the two triangles has the
/// subject on one side and the clip triangle on the other; the subject may
/// touch the line.
fn kept_apart(subject: &[Point2d], clip: &[Point2d]) -> bool {
    for i in 0..3 {
        let (a, b) = (&clip[i], &clip[(i + 1) % 3]);
        if subject.iter().all(|p| side_of(a, b, p) >= 0) {
            return true;
        }
        let (a, b, c) = (&subject[i], &subject[(i + 1) % 3], &subject[(i + 2) % 3]);
        let own = side_of(a, b, c).signum();
        if clip.iter().all(|p| side_of(a, b, p).signum() * own <= 0) {
            return true;
        }
    }
    false
}

#[test]
fn triangle_clipped_by_a_triangle_is_left_exactly_where_the_two_overlap() {
    let mut numbers = Numbers(20240229);
    let mut left = 0;
    let mut gone = 0;
    for _ in 0..20000 {
        let mut draw = |n: &mut Numbers| Point2d::new(n.between(-12, 12), n.between(-12, 12));
        let subject = vec![draw(&mut numbers), draw(&mut numbers), draw(&mut numbers)];
        let mut clip = vec![draw(&mut numbers), draw(&mut numbers), draw(&mut numbers)];
        if side_of(&subject[0], &subject[1], &subject[2]) == 0 {
            continue;
        }
        let turn = side_of(&clip[0], &clip[1], &clip[2]);
        if turn == 0 {
            continue;
        }
        if turn > 0 {
            clip.swap(1, 2);
        }
        let polygon = Polygon::new(PixelColor::red(), subject.clone());
        let clipped = sutherland_hodgman_polygon_clip(&polygon, &clip);
        assert_eq!(clipped.is_some(), !kept_apart(&subject, &clip), "{:?} by {:?}", subject, clip);
        match clipped {
            Some(result) => {
                left += 1;
                for v in result.get_points() {
                    for i in 0..3 {
                        let (a, b) = (&clip[i], &clip[(i + 1) % 3]);
                        let reach = ((b.x - a.x).abs() + (b.y - a.y).abs()) as i64;
                        assert!(2 * side_of(a, b, v) <= reach, "{:?} by {:?}: {:?}", subject, clip, v);
                    }
                    assert!((-12..=12).contains(&v.x) && (-12..=12).contains(&v.y));
                }
            }
            None => gone += 1,
        }
    }
    assert!(left > 2000 && gone > 2000, "{} {}", left, gone);
}

