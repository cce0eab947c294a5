use ibuki::draw::Draw;
use ibuki::pixel_color::PixelColor;
use ibuki::point2d::Point2d;
use ibuki::raw_canvas::RawCanvas;

fn argb_canvas(width: u32, height: u32) -> RawCanvas {
    RawCanvas::new(width, height, 16, 8, 0, 24)
}

#[test]
fn red_is_full_red_only() {
    let c = PixelColor::red();
    assert_eq!((c.red, c.green, c.blue, c.alpha), (255, 0, 0, 0));
}

#[test]
fn black_is_all_zero() {
    let c = PixelColor::black();
    assert_eq!((c.red, c.green, c.blue, c.alpha), (0, 0, 0, 0));
}

#[test]
fn new_canvas_is_zeroed_and_sized() {
    let canvas = argb_canvas(4, 3);
    assert_eq!(canvas.width(), 4);
    assert_eq!(canvas.height(), 3);
    assert_eq!(canvas.pixels().len(), 12);
    assert!(canvas.pixels().iter().all(|&v| v == 0));
}

#[test]
fn color_value_places_each_channel_by_its_shift() {
    let canvas = argb_canvas(1, 1);
    let color = PixelColor { red: 0x12, green: 0x34, blue: 0x56, alpha: 0x78 };
    assert_eq!(canvas.calculate_color_value(&color), 0x7812_3456);
    assert_eq!(canvas.calculate_color_value(&PixelColor::red()), 0x00ff_0000);
    assert_eq!(canvas.calculate_color_value(&PixelColor::black()), 0);
}

#[test]
fn color_value_follows_another_layout() {
    let canvas = RawCanvas::new(1, 1, 0, 8, 16, 24);
    let color = PixelColor { red: 0x12, green: 0x34, blue: 0x56, alpha: 0x78 };
    assert_eq!(canvas.calculate_color_value(&color), 0x7856_3412);
}

#[test]
fn put_pixel_stores_bottom_row_last() {
    let mut canvas = argb_canvas(4, 3);
    canvas.put_pixel(1, 0, &PixelColor::red());
    assert_eq!(canvas.pixels()[9], 0x00ff_0000);
    assert_eq!(canvas.get_pixel(1, 0), Some(0x00ff_0000));
    canvas.put_pixel(3, 2, &PixelColor::red());
    assert_eq!(canvas.pixels()[3], 0x00ff_0000);
    let written = canvas.pixels().iter().filter(|&&v| v != 0).count();
    assert_eq!(written, 2);
}

#[test]
fn put_pixel_outside_is_ignored() {
    let mut canvas = argb_canvas(4, 3);
    canvas.put_pixel(4, 0, &PixelColor::red());
    canvas.put_pixel(0, 3, &PixelColor::red());
    canvas.put_pixel(u32::MAX, u32::MAX, &PixelColor::red());
    canvas.put_lattice_pixel(-1, 0, &PixelColor::red());
    canvas.put_lattice_pixel(0, -1, &PixelColor::red());
    canvas.put_lattice_pixel(1 << 40, 0, &PixelColor::red());
    assert!(canvas.pixels().iter().all(|&v| v == 0));
    assert_eq!(canvas.get_pixel(4, 0), None);
    assert_eq!(canvas.get_pixel(0, 3), None);
}

#[test]
fn put_lattice_pixel_writes_inside() {
    let mut canvas = argb_canvas(4, 3);
    canvas.put_lattice_pixel(2, 1, &PixelColor::red());
    assert_eq!(canvas.get_pixel(2, 1), Some(0x00ff_0000));
}

#[test]
fn clean_color_fills_every_cell() {
    let mut canvas = argb_canvas(5, 2);
    canvas.put_pixel(1, 1, &PixelColor::red());
    let grey = PixelColor { red: 1, green: 2, blue: 3, alpha: 4 };
    canvas.clean_color(&grey);
    assert!(canvas.pixels().iter().all(|&v| v == 0x0401_0203));
    canvas.clean_color(&PixelColor::black());
    assert!(canvas.pixels().iter().all(|&v| v == 0));
}

#[test]
fn empty_canvas_accepts_writes() {
    let mut canvas = argb_canvas(0, 0);
    canvas.put_pixel(0, 0, &PixelColor::red());
    canvas.clean_color(&PixelColor::red());
    assert_eq!(canvas.pixels().len(), 0);
}

#[test]
fn point_draws_one_red_pixel() {
    let mut canvas = argb_canvas(4, 4);
    Point2d::new(2, 3).draw(&mut canvas);
    assert_eq!(canvas.get_pixel(2, 3), Some(0x00ff_0000));
    assert_eq!(canvas.pixels().iter().filter(|&&v| v != 0).count(), 1);
    Point2d::new(-2, 3).draw(&mut canvas);
    assert_eq!(canvas.pixels().iter().filter(|&&v| v != 0).count(), 1);
}

#[test]
fn zero_is_the_origin() {
    let p = Point2d::zero();
    assert_eq!((p.x, p.y), (0, 0));
    assert_eq!(p, Point2d::new(0, 0));
}
