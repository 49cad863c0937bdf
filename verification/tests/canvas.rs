use raytracer::canvas::Canvas;
use raytracer::colors::Color;

fn color(red: f64, green: f64, blue: f64) -> Color {
    Color { red: red.to_bits(), green: green.to_bits(), blue: blue.to_bits() }
}

#[test]
fn creating_canvas() {
    let canvas = Canvas::new(10 as usize, 20 as usize);
    assert_eq!(10 as usize, canvas.width);
    assert_eq!(20 as usize, canvas.height);
    assert_eq!(canvas.pixels.len(), canvas.width * canvas.height);
}

#[test]
fn writing_pixel() {
    let mut canvas = Canvas::new(10, 20);
    let red = color(1.0, 0.0, 0.0);
    canvas.write_pixel(2, 3, red);
    assert_eq!(Some(color(1.0, 0.0, 0.0)), canvas.pixel_at(2, 3));
}

#[test]
fn new_canvas_is_all_black() {
    let canvas = Canvas::new(10, 20);
    for y in 0..20 {
        for x in 0..10 {
            assert_eq!(Some(color(0.0, 0.0, 0.0)), canvas.pixel_at(x, y));
        }
    }
}

#[test]
fn writes_at_the_edge_are_dropped() {
    let mut canvas = Canvas::new(10, 20);
    let red = color(1.0, 0.0, 0.0);
    canvas.write_pixel(10, 0, red);
    canvas.write_pixel(0, 20, red);
    canvas.write_pixel(10, 20, red);
    canvas.write_pixel(usize::MAX, usize::MAX, red);
    for y in 0..20 {
        for x in 0..10 {
            assert_eq!(Some(color(0.0, 0.0, 0.0)), canvas.pixel_at(x, y));
        }
    }
    assert_eq!(None, canvas.pixel_at(10, 0));
    assert_eq!(None, canvas.pixel_at(0, 20));
}

#[test]
fn written_pixel_leaves_neighbors_alone() {
    let mut canvas = Canvas::new(3, 3);
    let teal = color(0.0, 0.5, 0.5);
    canvas.write_pixel(1, 1, teal);
    for y in 0..3 {
        for x in 0..3 {
            let expected = if x == 1 && y == 1 { teal } else { color(0.0, 0.0, 0.0) };
            assert_eq!(Some(expected), canvas.pixel_at(x, y));
        }
    }
}
