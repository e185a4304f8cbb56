use tracer::canvas::canvas;
use tracer::canvas::canvas_of;
use tracer::canvas::Rgb;

#[test]
fn creating_a_canvas() {
    let black = Rgb { red: 0, green: 0, blue: 0 };
    let c = canvas(10, 20);
    assert_eq!(c.width, 10);
    assert_eq!(c.height, 20);
    assert!(c.pixels.iter().all(|pixel| *pixel == black));
}

#[test]
fn writing_pixels_to_a_canvas() {
    let mut c = canvas(10, 20);
    let red = Rgb { red: 255, green: 0, blue: 0 };
    assert_eq!(c.pixel_at(2, 3), Rgb { red: 0, green: 0, blue: 0 });
    c.write_pixel(2, 3, red);
    assert_eq!(c.pixel_at(2, 3), red);
}

#[test]
fn a_canvas_may_hold_any_pixel_type() {
    let mut c = canvas_of(4, 4, (0.0f64, 0.0f64, 0.0f64));
    c.write_pixel(1, 2, (0.25, 0.5, 0.75));
    assert_eq!(c.pixel_at(1, 2), (0.25, 0.5, 0.75));
    assert_eq!(c.pixel_at(0, 0), (0.0, 0.0, 0.0));
}

#[test]
fn pixels_are_stored_row_major() {
    let mut c = canvas_of(3, 2, 0u32);
    c.write_pixel(2, 0, 7);
    c.write_pixel(0, 1, 9);
    assert_eq!(c.pixels[2], 7);
    assert_eq!(c.pixels[3], 9);
}
