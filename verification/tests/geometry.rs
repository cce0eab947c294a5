use ibuki::line::Line;
use ibuki::point2d::Point2d;
use ibuki::vector2d::Vector2d;

fn ends(v: &Vector2d) -> (i32, i32, i32, i32) {
    (v.get_from().x, v.get_from().y, v.get_to().x, v.get_to().y)
}

#[test]
fn point_holds_its_coordinates() {
    let p = Point2d::new(-3, 9);
    assert_eq!((p.x, p.y), (-3, 9));
}

#[test]
fn line_keeps_the_order_of_its_ends() {
    let l = Line::new(1, 2, 3, 4);
    assert_eq!(l.first, Point2d::new(1, 2));
    assert_eq!(l.last, Point2d::new(3, 4));
}

#[test]
fn vector_runs_from_start_to_end() {
    let v = Vector2d::new(1, 2, 4, 6);
    assert_eq!(ends(&v), (1, 2, 4, 6));
    let w = Vector2d::from_2d_points(&Point2d::new(1, 2), &Point2d::new(4, 6));
    assert_eq!(ends(&w), (1, 2, 4, 6));
    assert_eq!(v, w);
    assert_ne!(v, Vector2d::new(1, 2, 4, 7));
}

#[test]
fn dot_multiplies_displacements() {
    let v = Vector2d::new(1, 2, 4, 6);
    let w = Vector2d::new(0, 0, -2, 5);
    assert_eq!(v.dot(&w), 3 * -2 + 4 * 5);
    assert_eq!(v.dot(&v), 25);
    assert_eq!(v.dot(&Vector2d::new(7, 7, 7, 7)), 0);
}

#[test]
fn dot_of_the_widest_vectors_does_not_overflow() {
    let v = Vector2d::new(i32::MIN, i32::MIN, i32::MAX, i32::MAX);
    let d = (i32::MAX as i128) - (i32::MIN as i128);
    assert_eq!(v.dot(&v), 2 * d * d);
    let w = Vector2d::new(i32::MAX, i32::MAX, i32::MIN, i32::MIN);
    assert_eq!(v.dot(&w), -2 * d * d);
}

#[test]
fn cross_is_the_dot_with_the_left_normal() {
    let v = Vector2d::new(0, 0, 3, 4);
    let w = Vector2d::new(0, 0, -2, 5);
    assert_eq!(v.cross(&w), 3 * 5 - 4 * -2);
    assert_eq!(v.normal_left().dot(&w), v.cross(&w));
    assert_eq!(w.cross(&v), -23);
    assert_eq!(v.cross(&v), 0);
}

#[test]
fn length_rounds_down() {
    assert_eq!(Vector2d::new(1, 2, 4, 6).length(), 5);
    assert_eq!(Vector2d::new(0, 0, 1, 1).length(), 1);
    assert_eq!(Vector2d::new(0, 0, 2, 2).length(), 2);
    assert_eq!(Vector2d::new(0, 0, 0, 0).length(), 0);
    assert_eq!(Vector2d::new(5, 5, 5, -4).length(), 9);
    assert_eq!(Vector2d::new(0, 0, 99, 0).length(), 99);
    assert_eq!(Vector2d::new(0, 0, 10, 10).length(), 14);
}

#[test]
fn length_of_the_widest_vector() {
    let v = Vector2d::new(i32::MIN, i32::MIN, i32::MAX, i32::MAX);
    let r = v.length() as u128;
    let d = u32::MAX as u128;
    assert!(r * r <= 2 * d * d);
    assert!((r + 1) * (r + 1) > 2 * d * d);
    assert_eq!(r, 6074000998);
}

#[test]
fn normals_are_quarter_turns() {
    let v = Vector2d::new(1, 1, 4, 5);
    assert_eq!(ends(&v.normal_left()), (0, 0, -4, 3));
    assert_eq!(ends(&v.normal_right()), (0, 0, 4, -3));
    assert_eq!(v.normal_left().dot(&v), 0);
    assert_eq!(v.normal_right().dot(&v), 0);
    assert_eq!(v.normal_left().length(), v.length());
    assert_eq!(ends(&Vector2d::new(2, 2, 2, 2).normal_left()), (0, 0, 0, 0));
}

#[test]
fn sum_adds_both_ends() {
    let v = Vector2d::new(1, 2, 4, 6);
    let w = Vector2d::new(10, 20, -30, 40);
    assert_eq!(ends(&(v + w)), (11, 22, -26, 46));
}

#[test]
fn scaling_multiplies_every_coordinate() {
    let v = Vector2d::new(1, 2, 4, 6);
    assert_eq!(ends(&(v * 3)), (3, 6, 12, 18));
    assert_eq!(ends(&(v * -1)), (-1, -2, -4, -6));
    assert_eq!(ends(&(v * 0)), (0, 0, 0, 0));
}
