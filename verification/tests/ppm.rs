use raytracer::canvas::{canvas_to_ppm, split_long_lines, Canvas};
use raytracer::colors::{quantize, Color};

fn color(red: f64, green: f64, blue: f64) -> Color {
    Color { red: red.to_bits(), green: green.to_bits(), blue: blue.to_bits() }
}

#[test]
fn constructing_ppm_header() {
    let c = Canvas::new(5, 3);
    let ppm = canvas_to_ppm(&c);
    let lines: Vec<&str> = ppm.lines().collect();
    assert_eq!(lines[0], "P3");
    assert_eq!(lines[1], "5 3");
    assert_eq!(lines[2], "255");
}

#[test]
fn constructing_ppm_pixel_data() {
    let mut c = Canvas::new(5, 3);
    let c1 = color(1.5, 0.0, 0.0);
    let c2 = color(0.0, 0.5, 0.0);
    let c3 = color(-0.5, 0.0, 1.0);
    c.write_pixel(0, 0, c1);
    c.write_pixel(2, 1, c2);
    c.write_pixel(4, 2, c3);
    let ppm = canvas_to_ppm(&c);
    let ppm_lines: Vec<&str> = ppm.lines().collect();
    assert_eq!(
        ppm_lines[3..],
        [
            "255 0 0 0 0 0 0 0 0 0 0 0 0 0 0",
            "0 0 0 0 0 0 0 128 0 0 0 0 0 0 0",
            "0 0 0 0 0 0 0 0 0 0 0 0 0 0 255"
        ]
    )
}

#[test]
fn splitting_long_lines() {
    let mut c = Canvas::new(10, 2);
    for y in 0..c.height {
        for x in 0..c.width {
            let pixel = color(1.0, 0.8, 0.6);
            c.write_pixel(x, y, pixel)
        }
    }
    let ppm = canvas_to_ppm(&c);
    let ppm_lines: Vec<&str> = ppm.lines().collect();
    assert_eq!(
        ppm_lines[3..],
        [
            "255 204 153 255 204 153 255 204 153 255 204 153 255 204 153 255 204",
            "153 255 204 153 255 204 153 255 204 153 255 204 153",
            "255 204 153 255 204 153 255 204 153 255 204 153 255 204 153 255 204",
            "153 255 204 153 255 204 153 255 204 153 255 204 153",
        ]
    )
}

#[test]
fn ppm_ends_with_newline() {
    let c = Canvas::new(5, 3);
    let ppm = canvas_to_ppm(&c);
    assert!(ppm.ends_with('\n'));
}

#[test]
fn ppm_of_empty_canvas_is_header_only() {
    let c = Canvas::new(0, 0);
    assert_eq!(canvas_to_ppm(&c), "P3\n0 0\n255\n\n");
}

#[test]
fn header_prints_multi_digit_dimensions() {
    let c = Canvas::new(123, 7);
    let ppm = canvas_to_ppm(&c);
    let lines: Vec<&str> = ppm.lines().collect();
    assert_eq!(lines[1], "123 7");
}

#[test]
fn channels_clamp_before_scaling() {
    let mut c = Canvas::new(1, 1);
    c.write_pixel(0, 0, color(1.5, -0.25, 0.5));
    let ppm = canvas_to_ppm(&c);
    let lines: Vec<&str> = ppm.lines().collect();
    assert_eq!(lines[3], "255 0 128");
}

#[test]
fn quantize_rounds_half_away_from_zero() {
    assert_eq!(quantize((0.5f64).to_bits()), 128);
    assert_eq!(quantize((0.0f64).to_bits()), 0);
    assert_eq!(quantize((1.0f64).to_bits()), 255);
    assert_eq!(quantize((0.8f64).to_bits()), 204);
    assert_eq!(quantize((0.6f64).to_bits()), 153);
    assert_eq!(quantize((0.002f64).to_bits()), 1);
    assert_eq!(quantize((0.999f64).to_bits()), 255);
}

#[test]
fn quantize_clamps_out_of_range_values() {
    assert_eq!(quantize((1.5f64).to_bits()), 255);
    assert_eq!(quantize((-0.5f64).to_bits()), 0);
    assert_eq!(quantize((255.0f64).to_bits()), 255);
    assert_eq!(quantize((-0.0f64).to_bits()), 0);
}

#[test]
fn quantize_handles_special_values() {
    assert_eq!(quantize(f64::NAN.to_bits()), 0);
    assert_eq!(quantize(f64::INFINITY.to_bits()), 255);
    assert_eq!(quantize(f64::NEG_INFINITY.to_bits()), 0);
    assert_eq!(quantize(f64::MIN_POSITIVE.to_bits()), 0);
    assert_eq!(quantize((5e-324f64).to_bits()), 0);
}

#[test]
fn split_leaves_short_lines_alone() {
    let s = String::from("1 2 3");
    assert_eq!(split_long_lines(s), "1 2 3");
}

#[test]
fn split_breaks_before_seventy_one_characters() {
    // 24 three-character words: 17 fit in 67 characters, and the 18th,
    // with its separating space, would end at column 71.
    let word = "abc";
    let s = vec![word; 24].join(" ");
    let wrapped = split_long_lines(s);
    let lines: Vec<&str> = wrapped.lines().collect();
    assert_eq!(lines.len(), 2);
    assert_eq!(lines[0].len(), 67);
    assert!(lines.iter().all(|l| l.len() <= 70));
    assert_eq!(wrapped.replace('\n', " "), vec![word; 24].join(" "));
}

#[test]
fn split_never_breaks_inside_a_word() {
    let long_word = "x".repeat(80);
    let s = format!("{} {}", long_word, long_word);
    let wrapped = split_long_lines(s);
    let lines: Vec<&str> = wrapped.lines().collect();
    assert_eq!(lines.len(), 2);
    assert_eq!(lines[0], long_word);
    assert_eq!(lines[1], long_word);
}
