use raytracer::colors::Color;

fn color(red: f64, green: f64, blue: f64) -> Color {
    Color { red: red.to_bits(), green: green.to_bits(), blue: blue.to_bits() }
}

#[test]
fn clamped_restricts_channels_to_displayable_range() {
    let c = color(1.5, -0.5, 0.7).clamped();
    assert_eq!(c, color(1.0, 0.0, 0.7));
}

#[test]
fn clamped_leaves_in_range_channels_alone() {
    let c = color(0.0, 1.0, 0.123456789).clamped();
    assert_eq!(c, color(0.0, 1.0, 0.123456789));
}

#[test]
fn clamped_follows_ieee_comparisons() {
    // A NaN fails both clamp comparisons and passes through; negative zero is
    // not below zero and stays itself; infinity is above one.
    let c = color(f64::NAN, -0.0, f64::INFINITY).clamped();
    assert_eq!(c.red, f64::NAN.to_bits());
    assert_eq!(c.green, (-0.0f64).to_bits());
    assert_eq!(c.blue, (1.0f64).to_bits());
    let d = color(f64::NEG_INFINITY, 2e300, -1e-300).clamped();
    assert_eq!(d.red, 0);
    assert_eq!(d.green, (1.0f64).to_bits());
    assert_eq!(d.blue, 0);
}
