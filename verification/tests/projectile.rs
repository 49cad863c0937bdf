use raytracer::canvas::{canvas_to_ppm, Canvas};
use raytracer::projectile::{ch2, TRACK_HEIGHT, TRACK_WIDTH};

#[test]
fn ch2_renders_a_900_by_550_canvas() {
    let ppm = ch2(&vec![]);
    let lines: Vec<&str> = ppm.lines().collect();
    assert_eq!(lines[0], "P3");
    assert_eq!(lines[1], "900 550");
    assert_eq!(lines[2], "255");
}

#[test]
fn ch2_with_no_samples_leaves_the_canvas_black() {
    let blank = canvas_to_ppm(&Canvas::new(TRACK_WIDTH, TRACK_HEIGHT));
    assert_eq!(ch2(&vec![]), blank);
}

#[test]
fn ch2_paints_a_sample_at_the_flipped_row() {
    // Simulation y counts up from the ground, so y == 550 lands on row 0.
    let ppm = ch2(&vec![(0, 550)]);
    let lines: Vec<&str> = ppm.lines().collect();
    assert!(lines[3].starts_with("255 0 0 0 0 0"));
}

#[test]
fn ch2_drops_samples_off_the_canvas() {
    // y == 0 has already landed; y > 550 and x >= 900 fall outside.
    let blank = ch2(&vec![]);
    assert_eq!(ch2(&vec![(5, 0), (5, 551), (900, 5), (usize::MAX, usize::MAX)]), blank);
}

#[test]
fn ch2_simulates_a_full_flight() {
    // The physics lives with the caller: fire the demo projectile (start at
    // y = 1, velocity normalize(1, 1.8, 0) * 11.25, gravity -0.1, wind 0.01)
    // and feed the rounded track in.
    let mut px: f64 = 0.0;
    let mut py: f64 = 1.0;
    let mag = (1.0f64 * 1.0 + 1.8 * 1.8).sqrt();
    let mut vx: f64 = 1.0 / mag * 11.25;
    let mut vy: f64 = 1.8 / mag * 11.25;
    let mut track: Vec<(usize, usize)> = Vec::new();
    while py > 0.0 {
        track.push((px.round() as usize, py.round() as usize));
        px += vx;
        py += vy;
        vx += 0.01;
        vy += -0.1;
    }
    let ppm = ch2(&track);
    let lines: Vec<&str> = ppm.lines().collect();
    assert_eq!(lines[1], "900 550");
    // The trajectory was painted: red shows up somewhere in the pixel data.
    assert!(track.len() > 10);
    assert!(ppm.contains("255 0 0"));
    // Plotting the same track by hand, row-flipped, gives the same image.
    let red = raytracer::colors::Color { red: (1.0f64).to_bits(), green: 0, blue: 0 };
    let mut c = Canvas::new(TRACK_WIDTH, TRACK_HEIGHT);
    for &(x, y) in &track {
        if y >= 1 && y <= TRACK_HEIGHT {
            c.write_pixel(x, TRACK_HEIGHT - y, red);
        }
    }
    assert_eq!(ppm, canvas_to_ppm(&c));
}
