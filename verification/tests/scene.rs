use ibuki::draw::Draw;
use ibuki::line::Line;
use ibuki::pixel_color::PixelColor;
use ibuki::point2d::Point2d;
use ibuki::polygon::Polygon;
use ibuki::raw_canvas::RawCanvas;
use ibuki::scene::{draw_all, render_frame, Shape};

fn square(color: PixelColor) -> Polygon {
    Polygon::new(
        color,
        vec![Point2d::new(1, 1), Point2d::new(5, 1), Point2d::new(5, 4), Point2d::new(1, 4)],
    )
}

#[test]
fn each_shape_draws_as_its_own_kind() {
    let blue = PixelColor { red: 0, green: 0, blue: 255, alpha: 0 };
    let mut direct = RawCanvas::new(8, 8, 16, 8, 0, 24);
    Point2d::new(7, 7).draw(&mut direct);
    Line::new(0, 6, 6, 6).draw(&mut direct);
    square(blue).draw(&mut direct);
    let mut through = RawCanvas::new(8, 8, 16, 8, 0, 24);
    Shape::Point(Point2d::new(7, 7)).draw(&mut through);
    Shape::Line(Line::new(0, 6, 6, 6)).draw(&mut through);
    Shape::Polygon(square(blue)).draw(&mut through);
    assert_eq!(direct.pixels(), through.pixels());
    assert_eq!(through.get_pixel(7, 7), Some(0x00ff_0000));
    assert_eq!(through.get_pixel(3, 6), Some(0x00ff_0000));
    assert_eq!(through.get_pixel(2, 2), Some(0x0000_00ff));
}

#[test]
fn later_shapes_cover_earlier_ones() {
    let blue = PixelColor { red: 0, green: 0, blue: 255, alpha: 0 };
    let shapes = vec![Shape::Polygon(square(blue)), Shape::Line(Line::new(0, 2, 7, 2))];
    let mut canvas = RawCanvas::new(8, 8, 16, 8, 0, 24);
    draw_all(&shapes, &mut canvas);
    assert_eq!(canvas.get_pixel(3, 2), Some(0x00ff_0000));
    assert_eq!(canvas.get_pixel(3, 3), Some(0x0000_00ff));
    let reversed = vec![Shape::Line(Line::new(0, 2, 7, 2)), Shape::Polygon(square(blue))];
    let mut other = RawCanvas::new(8, 8, 16, 8, 0, 24);
    draw_all(&reversed, &mut other);
    assert_eq!(other.get_pixel(3, 2), Some(0x0000_00ff));
    assert_eq!(other.get_pixel(6, 2), Some(0x00ff_0000));
}

#[test]
fn a_frame_starts_from_the_background() {
    let grey = PixelColor { red: 9, green: 9, blue: 9, alpha: 0 };
    let mut canvas = RawCanvas::new(4, 4, 16, 8, 0, 24);
    canvas.put_pixel(3, 3, &PixelColor::red());
    render_frame(&vec![Shape::Point(Point2d::new(0, 0))], &mut canvas, &grey);
    assert_eq!(canvas.get_pixel(0, 0), Some(0x00ff_0000));
    assert_eq!(canvas.get_pixel(3, 3), Some(0x0009_0909));
    assert_eq!(canvas.pixels().iter().filter(|&&v| v == 0x0009_0909).count(), 15);
    render_frame(&Vec::new(), &mut canvas, &PixelColor::black());
    assert!(canvas.pixels().iter().all(|&v| v == 0));
}
