use ibuki::draw::Draw;
use ibuki::line::Line;
use ibuki::pixel_color::PixelColor;
use ibuki::point2d::Point2d;
use ibuki::polygon::{
    advance, fill_run, insert_by_x, row_range, ActiveEdgeTable, EdgeTable, Fraction, LowerEndpointInc,
    Polygon, SegmentDesc,
};
use ibuki::raw_canvas::RawCanvas;

const RED: u32 = 0x00ff_0000;

fn canvas(width: u32, height: u32) -> RawCanvas {
    RawCanvas::new(width, height, 16, 8, 0, 24)
}

fn lit(canvas: &RawCanvas) -> Vec<(u32, u32)> {
    let mut found = Vec::new();
    for y in 0..canvas.height() {
        for x in 0..canvas.width() {
            if canvas.get_pixel(x, y) != Some(0) {
                found.push((x, y));
            }
        }
    }
    found
}

fn drawn(line: Line, width: u32, height: u32) -> Vec<(u32, u32)> {
    let mut c = canvas(width, height);
    line.draw(&mut c);
    lit(&c)
}

fn points(coords: &[(i32, i32)]) -> Vec<Point2d> {
    coords.iter().map(|&(x, y)| Point2d::new(x, y)).collect()
}

fn filled(coords: &[(i32, i32)], width: u32, height: u32) -> Vec<(u32, u32)> {
    let mut c = canvas(width, height);
    Polygon::new(PixelColor::red(), points(coords)).draw(&mut c);
    lit(&c)
}

fn entry(y_max: i32, x: i64, rem: i64, slope: i64, den: i64) -> SegmentDesc {
    SegmentDesc {
        y_max,
        lower_endpoint_x: LowerEndpointInc {
            increment: x,
            fraction: Fraction { nominator: rem, denominator: den },
        },
        slope_inv: Fraction { nominator: slope, denominator: den },
    }
}

#[test]
fn horizontal_line_writes_five_pixels() {
    let got = drawn(Line::new(0, 0, 4, 0), 8, 8);
    assert_eq!(got, vec![(0, 0), (1, 0), (2, 0), (3, 0), (4, 0)]);
}

#[test]
fn diagonal_line_writes_five_pixels() {
    let got = drawn(Line::new(0, 0, 4, 4), 8, 8);
    assert_eq!(got, vec![(0, 0), (1, 1), (2, 2), (3, 3), (4, 4)]);
}

#[test]
fn line_is_drawn_in_red() {
    let mut c = canvas(8, 8);
    Line::new(0, 0, 4, 0).draw(&mut c);
    assert_eq!(c.get_pixel(2, 0), Some(RED));
}

#[test]
fn horizontal_line_ignores_end_point_order() {
    assert_eq!(drawn(Line::new(4, 2, 1, 2), 8, 8), vec![(1, 2), (2, 2), (3, 2), (4, 2)]);
}

#[test]
fn vertical_line_includes_both_ends() {
    assert_eq!(drawn(Line::new(3, 5, 3, 2), 8, 8), vec![(3, 2), (3, 3), (3, 4), (3, 5)]);
    assert_eq!(drawn(Line::new(3, 2, 3, 5), 8, 8), vec![(3, 2), (3, 3), (3, 4), (3, 5)]);
}

#[test]
fn single_point_line_writes_one_pixel() {
    assert_eq!(drawn(Line::new(3, 3, 3, 3), 8, 8), vec![(3, 3)]);
}

#[test]
fn shallow_rising_line_rounds_to_nearest_row() {
    assert_eq!(drawn(Line::new(0, 0, 3, 1), 8, 8), vec![(0, 0), (1, 0), (2, 1), (3, 1)]);
}

#[test]
fn tie_goes_to_the_larger_coordinate() {
    assert_eq!(drawn(Line::new(0, 0, 2, 1), 8, 8), vec![(0, 0), (1, 1), (2, 1)]);
    assert_eq!(drawn(Line::new(0, 1, 2, 0), 8, 8), vec![(2, 0), (0, 1), (1, 1)]);
    assert_eq!(drawn(Line::new(0, 0, 1, 2), 8, 8), vec![(0, 0), (1, 1), (1, 2)]);
}

#[test]
fn steep_rising_line_walks_every_row() {
    assert_eq!(drawn(Line::new(1, 0, 3, 5), 8, 8), vec![(1, 0), (1, 1), (2, 2), (2, 3), (3, 4), (3, 5)]);
}

#[test]
fn steep_falling_line_walks_every_row() {
    assert_eq!(drawn(Line::new(1, 5, 3, 0), 8, 8), vec![(3, 0), (3, 1), (2, 2), (2, 3), (1, 4), (1, 5)]);
}

#[test]
fn shallow_falling_line_walks_every_column() {
    assert_eq!(drawn(Line::new(0, 3, 6, 1), 8, 8), vec![(5, 1), (6, 1), (2, 2), (3, 2), (4, 2), (0, 3), (1, 3)]);
}

#[test]
fn reversed_line_covers_the_same_pixels() {
    for &(x1, y1, x2, y2) in &[(0, 0, 7, 3), (1, 6, 5, 0), (2, 1, 3, 7), (6, 6, 0, 1), (0, 0, 2, 1)] {
        assert_eq!(drawn(Line::new(x1, y1, x2, y2), 8, 8), drawn(Line::new(x2, y2, x1, y1), 8, 8));
    }
}

#[test]
fn line_writes_larger_extent_plus_one_pixels() {
    for &(x1, y1, x2, y2) in &[(0, 0, 7, 3), (1, 6, 5, 0), (2, 1, 3, 7), (6, 6, 0, 1), (4, 4, 4, 4)] {
        let dx = (x2 - x1 as i32).abs() as usize;
        let dy = (y2 - y1 as i32).abs() as usize;
        assert_eq!(drawn(Line::new(x1, y1, x2, y2), 8, 8).len(), dx.max(dy) + 1);
    }
}

#[test]
fn line_leaving_the_canvas_is_cut_off() {
    assert_eq!(drawn(Line::new(-2, 1, 2, 1), 4, 4), vec![(0, 1), (1, 1), (2, 1)]);
    assert_eq!(drawn(Line::new(2, 2, 6, 6), 4, 4), vec![(2, 2), (3, 3)]);
    assert_eq!(drawn(Line::new(-5, -5, -1, -1), 4, 4), vec![]);
}

#[test]
fn fill_run_is_half_open() {
    let mut c = canvas(8, 2);
    fill_run(&mut c, 2, 5, 1, &PixelColor::red());
    assert_eq!(lit(&c), vec![(2, 1), (3, 1), (4, 1)]);
    fill_run(&mut c, 5, 5, 0, &PixelColor::red());
    fill_run(&mut c, 6, 3, 0, &PixelColor::red());
    assert_eq!(lit(&c).len(), 3);
    fill_run(&mut c, -3, 2, 0, &PixelColor::red());
    assert_eq!(lit(&c), vec![(0, 0), (1, 0), (2, 1), (3, 1), (4, 1)]);
}

#[test]
fn row_range_spans_lowest_to_highest_vertex() {
    assert_eq!(row_range(&points(&[(0, 5), (3, -2), (9, 7), (1, 0)])), (-2, 7));
    assert_eq!(row_range(&points(&[(4, 4)])), (4, 4));
}

#[test]
fn edge_table_skips_horizontal_edges() {
    let table = EdgeTable::from_points(&points(&[(0, 0), (10, 0), (0, 10)]));
    assert_eq!(table.row(0), vec![entry(10, 0, 0, 0, 10), entry(10, 10, 0, -10, 10)]);
    assert_eq!(table.row(10), vec![]);
    assert_eq!(table.row(5), vec![]);
}

#[test]
fn edge_table_keys_edges_by_their_lower_row() {
    let table = EdgeTable::from_points(&points(&[(0, 0), (10, 5), (0, 10)]));
    assert_eq!(table.row(0), vec![entry(5, 0, 0, 10, 5), entry(10, 0, 0, 0, 10)]);
    assert_eq!(table.row(5), vec![entry(10, 10, 0, -10, 5)]);
}

#[test]
fn edge_table_of_few_points() {
    assert_eq!(EdgeTable::from_points(&points(&[])).row(0), vec![]);
    assert_eq!(EdgeTable::from_points(&points(&[(1, 1)])).row(1), vec![]);
    let two = EdgeTable::from_points(&points(&[(1, 1), (3, 4)]));
    assert_eq!(two.row(1), vec![entry(4, 1, 0, 2, 3), entry(4, 1, 0, 2, 3)]);
}

#[test]
fn insert_by_x_goes_behind_equal_items() {
    let mut v = vec![entry(1, 0, 0, 0, 1), entry(2, 5, 0, 0, 1), entry(3, 9, 0, 0, 1)];
    insert_by_x(&mut v, entry(4, 5, 0, 0, 1));
    assert_eq!(v.iter().map(|e| e.y_max).collect::<Vec<_>>(), vec![1, 2, 4, 3]);
    insert_by_x(&mut v, entry(5, -1, 0, 0, 1));
    assert_eq!(v.iter().map(|e| e.y_max).collect::<Vec<_>>(), vec![5, 1, 2, 4, 3]);
    insert_by_x(&mut v, entry(6, 100, 0, 0, 1));
    assert_eq!(v.iter().map(|e| e.y_max).collect::<Vec<_>>(), vec![5, 1, 2, 4, 3, 6]);
}

#[test]
fn advance_carries_whole_units() {
    assert_eq!(advance(entry(9, 0, 0, 10, 5)), entry(9, 2, 0, 10, 5));
    assert_eq!(advance(entry(9, 0, 0, 2, 6)), entry(9, 0, 2, 2, 6));
    assert_eq!(advance(entry(9, 0, 4, 2, 6)), entry(9, 1, 0, 2, 6));
    assert_eq!(advance(entry(9, 0, 5, 2, 6)), entry(9, 1, 1, 2, 6));
    assert_eq!(advance(entry(9, 3, 0, -7, 3)), entry(9, 1, -1, -7, 3));
    assert_eq!(advance(entry(9, 1, -1, -7, 3)), entry(9, -1, -2, -7, 3));
    assert_eq!(advance(entry(9, 4, 0, 0, 3)), entry(9, 4, 0, 0, 3));
    assert_eq!(advance(entry(9, 4, 1, 5, 0)), entry(9, 4, 1, 5, 0));
}

#[test]
fn active_table_starts_empty() {
    assert!(ActiveEdgeTable::new().get_edges().is_empty());
}

#[test]
fn active_table_follows_the_sweep() {
    let table = EdgeTable::from_points(&points(&[(0, 0), (10, 5), (0, 10)]));
    let mut active = ActiveEdgeTable::new();
    active.remove_lover_edges(0);
    active.insert_row(0, &table);
    assert_eq!(active.get_edges(), &vec![entry(5, 0, 0, 10, 5), entry(10, 0, 0, 0, 10)]);
    active.increment_row();
    assert_eq!(active.get_edges(), &vec![entry(5, 2, 0, 10, 5), entry(10, 0, 0, 0, 10)]);
    active.remove_lover_edges(1);
    active.insert_row(1, &table);
    assert_eq!(active.get_edges(), &vec![entry(10, 0, 0, 0, 10), entry(5, 2, 0, 10, 5)]);
    for row in 2..=5 {
        active.increment_row();
        active.remove_lover_edges(row);
        active.insert_row(row, &table);
    }
    assert_eq!(
        active.get_edges(),
        &vec![entry(10, 0, 0, 0, 10), entry(5, 10, 0, 10, 5), entry(10, 10, 0, -10, 5)]
    );
    active.increment_row();
    active.remove_lover_edges(6);
    assert_eq!(active.get_edges(), &vec![entry(10, 0, 0, 0, 10), entry(10, 8, 0, -10, 5)]);
}

#[test]
fn remove_keeps_edges_ending_on_the_row() {
    let table = EdgeTable::from_points(&points(&[(0, 0), (4, 2), (0, 4)]));
    let mut active = ActiveEdgeTable::new();
    active.insert_row(0, &table);
    active.remove_lover_edges(2);
    assert_eq!(active.get_edges().len(), 2);
    active.remove_lover_edges(3);
    assert_eq!(active.get_edges(), &vec![entry(4, 0, 0, 0, 4)]);
    active.remove_lover_edges(5);
    assert!(active.get_edges().is_empty());
}

#[test]
fn right_triangle_fill_counts_near_its_area() {
    let got = filled(&[(0, 0), (10, 0), (0, 10)], 16, 16);
    assert_eq!(got.len(), 55);
    for &(x, y) in &got {
        assert!(x + y < 10);
    }
    assert!(got.contains(&(0, 0)));
    assert!(got.contains(&(9, 0)));
    assert!(got.contains(&(0, 9)));
    assert!(!got.contains(&(10, 0)));
    assert!(!got.contains(&(0, 10)));
}

#[test]
fn pointed_triangle_fill_rows() {
    let got = filled(&[(0, 0), (10, 5), (0, 10)], 16, 16);
    let mut per_row = vec![0usize; 11];
    for &(_, y) in &got {
        per_row[y as usize] += 1;
    }
    assert_eq!(per_row, vec![0, 2, 4, 6, 8, 10, 8, 6, 4, 2, 0]);
    assert_eq!(got.len(), 50);
}

#[test]
fn a_vertex_passed_on_the_left_leaves_its_row_empty() {
    // On row 5 the two slanted edges both cross at x = 0: an even number of
    // edges lies left of every position of that row.
    let got = filled(&[(10, 0), (0, 5), (10, 10)], 16, 16);
    let mut per_row = vec![0usize; 11];
    for &(_, y) in &got {
        per_row[y as usize] += 1;
    }
    assert_eq!(per_row, vec![0, 2, 4, 6, 8, 0, 8, 6, 4, 2, 0]);
}

#[test]
fn degenerate_triangles_fill_nothing() {
    assert_eq!(filled(&[(0, 0), (5, 5), (10, 10)], 16, 16), vec![]);
    assert_eq!(filled(&[(0, 3), (5, 3), (10, 3)], 16, 16), vec![]);
    assert_eq!(filled(&[(3, 0), (3, 5), (3, 10)], 16, 16), vec![]);
    assert_eq!(filled(&[(4, 4), (4, 4), (4, 4)], 16, 16), vec![]);
    assert_eq!(filled(&[(0, 0), (2, 6), (1, 3)], 16, 16), vec![]);
    assert_eq!(filled(&[(9, 0), (0, 3), (3, 2)], 16, 16), vec![]);
}

#[test]
fn polygons_of_few_points_fill_nothing() {
    assert_eq!(filled(&[], 8, 8), vec![]);
    assert_eq!(filled(&[(2, 2)], 8, 8), vec![]);
    assert_eq!(filled(&[(1, 1), (5, 6)], 8, 8), vec![]);
}

#[test]
fn rectangle_fill_is_half_open_in_x() {
    let got = filled(&[(1, 1), (5, 1), (5, 3), (1, 3)], 8, 8);
    let mut expected = Vec::new();
    for y in 1..=3 {
        for x in 1..5 {
            expected.push((x, y));
        }
    }
    assert_eq!(got, expected);
}

#[test]
fn polygon_is_filled_in_its_colour() {
    let mut c = canvas(8, 8);
    let blue = PixelColor { red: 0, green: 0, blue: 255, alpha: 0 };
    Polygon::new(blue, points(&[(1, 1), (5, 1), (5, 3), (1, 3)])).draw(&mut c);
    assert_eq!(c.get_pixel(2, 2), Some(0x0000_00ff));
    assert_eq!(c.get_pixel(6, 2), Some(0));
}

#[test]
fn polygon_partly_off_canvas_is_cut_off() {
    let got = filled(&[(-2, -2), (2, -2), (2, 2), (-2, 2)], 4, 4);
    let mut expected = Vec::new();
    for y in 0..=2 {
        for x in 0..2 {
            expected.push((x, y));
        }
    }
    assert_eq!(got, expected);
}

#[test]
fn polygon_accessors_return_what_was_given() {
    let p = Polygon::new(PixelColor::red(), points(&[(1, 2), (3, 4)]));
    assert_eq!(p.get_points(), &points(&[(1, 2), (3, 4)]));
    assert_eq!(p.get_color(), PixelColor::red());
    let q = p.clone();
    assert_eq!(q.get_points(), p.get_points());
    assert_eq!(q.get_color(), p.get_color());
}
